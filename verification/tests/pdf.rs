use audify::pdf::{clean_pdf_text, is_page_number, is_reference_header, PdfExtractor};
use audify::error::Error;

#[test]
fn drops_page_numbers_and_references() {
    let raw = "Introduction text here.\n\n12\n\nMore body text.\n\nReferences\n\n[1] Foo et al.";
    let doc = clean_pdf_text(raw, Some("paper".into()));
    let joined = doc.sections[0].paragraphs.join(" ");
    assert!(joined.contains("Introduction text here."));
    assert!(joined.contains("More body text."));
    assert!(!joined.contains("12"));
    assert!(!joined.contains("Foo et al"));
}

#[test]
fn repairs_hyphenation_across_lines() {
    let raw = "this is an exam-\nple of wrapping";
    let doc = clean_pdf_text(raw, None);
    assert_eq!(doc.sections[0].paragraphs[0], "this is an example of wrapping");
}

#[test]
fn detects_page_number_lines() {
    assert!(is_page_number("12"));
    assert!(is_page_number("Page 3"));
    assert!(!is_page_number("2024 was a good year"));
}

#[test]
fn page_number_forms() {
    assert!(is_page_number("  7  "));
    assert!(is_page_number("1234"));
    assert!(!is_page_number("12345"));
    assert!(is_page_number("Seite 4"));
    assert!(is_page_number("pág 9"));
    assert!(is_page_number("Pagina 10"));
    assert!(is_page_number("p. 2"));
    assert!(!is_page_number("Page"));
    assert!(!is_page_number("Page x"));
    assert!(!is_page_number(""));
    assert!(!is_page_number("Page 1234567890"));
}

#[test]
fn reference_headers() {
    assert!(is_reference_header("References"));
    assert!(is_reference_header("  BIBLIOGRAPHY "));
    assert!(is_reference_header("Works Cited"));
    assert!(!is_reference_header("References and more"));
    assert!(!is_reference_header("Notes"));
}

#[test]
fn repeated_short_lines_are_dropped() {
    let raw = "Running head\nFirst body line.\n\nRunning head\nSecond body line.\n\nRunning head\nThird.";
    let doc = clean_pdf_text(raw, None);
    assert_eq!(
        doc.sections[0].paragraphs,
        vec!["First body line.", "Second body line.", "Third."]
    );
}

#[test]
fn lines_join_with_spaces_and_whitespace_collapses() {
    let raw = "one   two\nthree\r\n\n four ";
    let doc = clean_pdf_text(raw, Some("t".to_string()));
    assert_eq!(doc.title.as_deref(), Some("t"));
    assert!(doc.sections[0].heading.is_none());
    assert_eq!(doc.sections[0].paragraphs, vec!["one two three", "four"]);
}

#[test]
fn title_from_file_stem() {
    assert_eq!(
        PdfExtractor::title_from_stem(Some("my_paper-v2")).as_deref(),
        Some("my paper v2")
    );
    assert_eq!(PdfExtractor::title_from_stem(Some("_-_")), None);
    assert_eq!(PdfExtractor::title_from_stem(None), None);
}

#[test]
fn empty_pdf_text_is_an_extraction_error() {
    let ex = PdfExtractor::new();
    match ex.document_from_text("  \n12\n", None) {
        Err(Error::Extraction(m)) => {
            assert_eq!(m, "no usable text extracted from PDF (scanned or image-only?)")
        }
        other => panic!("unexpected {other:?}"),
    }
    assert!(ex.document_from_text("Some words.", None).is_ok());
}

#[test]
fn pdf_extractor_only_handles_files() {
    let ex = PdfExtractor::new();
    match ex.file_path(&audify::types::Source::Text("x".into())) {
        Err(Error::InvalidSource(m)) => assert_eq!(m, "PdfExtractor only handles files"),
        other => panic!("unexpected {other:?}"),
    }
    let p = std::path::PathBuf::from("/tmp/a.pdf");
    assert_eq!(ex.file_path(&audify::types::Source::File(p.clone())).unwrap(), p);
}

#[test]
fn recovered_paragraphs_are_single_spaced() {
    let raw = "  a\t b  \n c   d\n\n\n e \u{a0}f \n\nReferences\nignored";
    let doc = clean_pdf_text(raw, None);
    for p in &doc.sections[0].paragraphs {
        assert!(!p.is_empty());
        assert_eq!(p.split_whitespace().collect::<Vec<_>>().join(" "), *p);
    }
    assert_eq!(doc.sections[0].paragraphs, vec!["a b c d", "e f"]);
}

#[test]
fn inserted_page_number_lines_change_nothing() {
    let a = "Body text of the paper\ncontinues on this line.\n";
    let b = "Second paragraph follows\n\nand a third.";
    let plain = clean_pdf_text(&format!("{a}{b}"), None);
    for x in ["12", "  Page 4 ", "p. 7", "Seite 9"] {
        let with = clean_pdf_text(&format!("{a}{x}\n{b}"), None);
        assert_eq!(with.sections[0].paragraphs, plain.sections[0].paragraphs);
    }
    let at_start = clean_pdf_text(&format!("3\n{a}{b}"), None);
    assert_eq!(at_start.sections[0].paragraphs, plain.sections[0].paragraphs);
}

#[test]
fn raw_text_after_references_is_ignored() {
    let a = "Main body of the paper.\nIt ends here.";
    let b = "[1] Foo et al. Some work.\n[2] Bar. Another.";
    let before = clean_pdf_text(a, Some("t".into()));
    for h in ["References", "  BIBLIOGRAPHY ", "Works Cited"] {
        let with = clean_pdf_text(&format!("{a}\n{h}\n{b}"), Some("t".into()));
        assert_eq!(with.sections[0].paragraphs, before.sections[0].paragraphs);
        assert_eq!(with.title, before.title);
    }
}
