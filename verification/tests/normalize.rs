use audify::normalize::{Normalizer, RuleNormalizer};
use audify::types::{Document, Section};

fn norm() -> RuleNormalizer {
    RuleNormalizer::new().expect("regexes compile")
}

fn doc(sections: Vec<Section>) -> Document {
    Document {
        title: None,
        sections,
    }
}

#[test]
fn strips_citation_markers() {
    let out = norm()
        .normalize(&doc(vec![Section {
            heading: None,
            paragraphs: vec!["As shown earlier [12], this holds [3-5].".into()],
        }]))
        .unwrap();
    assert_eq!(out, "As shown earlier , this holds .");
}

#[test]
fn drops_figure_captions() {
    let out = norm()
        .normalize(&doc(vec![Section {
            heading: None,
            paragraphs: vec![
                "Figure 2: the architecture overview.".into(),
                "Real body text.".into(),
            ],
        }]))
        .unwrap();
    assert_eq!(out, "Real body text.");
}

#[test]
fn drops_reference_sections() {
    let out = norm()
        .normalize(&doc(vec![
            Section {
                heading: Some("Introduction".into()),
                paragraphs: vec!["Hello.".into()],
            },
            Section {
                heading: Some("References".into()),
                paragraphs: vec!["[1] Some Author, 2020.".into()],
            },
        ]))
        .unwrap();
    assert_eq!(out, "Introduction.\n\nHello.");
}

#[test]
fn repairs_hyphenation() {
    let out = norm()
        .normalize(&doc(vec![Section {
            heading: None,
            paragraphs: vec!["This is one exam-\nple of wrapping.".into()],
        }]))
        .unwrap();
    assert_eq!(out, "This is one example of wrapping.");
}

#[test]
fn empty_document_errors() {
    let err = norm().normalize(&doc(vec![Section {
        heading: None,
        paragraphs: vec!["   ".into()],
    }]));
    assert!(err.is_err());
}

#[test]
fn title_is_read_first_as_a_sentence() {
    let d = Document {
        title: Some("  My   Title ".into()),
        sections: vec![Section {
            heading: Some("Part [2]".into()),
            paragraphs: vec!["Body [1, 2] text.".into(), "Table 3 shows x.".into()],
        }],
    };
    assert_eq!(norm().normalize(&d).unwrap(), "My Title.\n\nPart.\n\nBody text.");
}

#[test]
fn dropped_heading_names() {
    for h in ["References", " bibliography", "WORKS CITED", "Citations", "notes", "Footnotes "] {
        assert!(RuleNormalizer::is_dropped_heading(h), "{h}");
    }
    assert!(!RuleNormalizer::is_dropped_heading("Reference"));
}

#[test]
fn dropping_a_reference_section_changes_nothing_else() {
    let body = Section {
        heading: Some("Intro".into()),
        paragraphs: vec!["Text here.".into()],
    };
    let refs = Section {
        heading: Some("Notes".into()),
        paragraphs: vec!["Anything at all.".into()],
    };
    let with = norm().normalize(&doc(vec![refs.clone(), body.clone(), refs])).unwrap();
    let without = norm().normalize(&doc(vec![body])).unwrap();
    assert_eq!(with, without);
}

#[test]
fn nothing_speakable_is_an_extraction_error() {
    match norm().normalize(&doc(vec![])) {
        Err(audify::error::Error::Extraction(m)) => {
            assert_eq!(m, "no speakable text remained after normalization")
        }
        other => panic!("unexpected {other:?}"),
    }
}
