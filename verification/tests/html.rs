use audify::error::Error;
use audify::html::{
    article_without_fetch, extract_text, extract_title, parse_html, route, sections_from,
    text_document, Route,
};
use audify::types::Source;

#[test]
fn article_container_is_preferred() {
    let body = "<html><head><title>Page</title></head><body><p>nav</p>\
        <article><h1>Head</h1><p>One   two</p><p> </p><h2>Sub</h2><p>Three</p></article>\
        <p>outside</p></body></html>";
    let doc = parse_html(body).unwrap();
    assert_eq!(doc.title.as_deref(), Some("Head"));
    assert_eq!(doc.sections.len(), 2);
    assert_eq!(doc.sections[0].heading.as_deref(), Some("Head"));
    assert_eq!(doc.sections[0].paragraphs, vec!["One two"]);
    assert_eq!(doc.sections[1].heading.as_deref(), Some("Sub"));
    assert_eq!(doc.sections[1].paragraphs, vec!["Three"]);
}

#[test]
fn main_container_then_whole_page() {
    let with_main = "<html><body><p>a</p><main><p>b <b>bold</b></p></main></body></html>";
    let doc = parse_html(with_main).unwrap();
    assert_eq!(doc.sections.len(), 1);
    assert_eq!(doc.sections[0].heading, None);
    assert_eq!(doc.sections[0].paragraphs, vec!["b bold"]);

    let plain = "<html><head><title> The  Title </title></head><body><p>a</p><h3>h</h3><p>b</p></body></html>";
    let doc = parse_html(plain).unwrap();
    assert_eq!(doc.title.as_deref(), Some("The Title"));
    assert_eq!(doc.sections.len(), 2);
    assert_eq!(doc.sections[0].paragraphs, vec!["a"]);
    assert_eq!(doc.sections[1].heading.as_deref(), Some("h"));
}

#[test]
fn titles() {
    assert_eq!(extract_title("<h1>  </h1><title>T</title>").as_deref(), Some("T"));
    assert_eq!(extract_title("<p>none</p>"), None);
}

#[test]
fn sections_from_blocks() {
    let blocks = vec![
        ("p".to_string(), "intro".to_string()),
        ("h2".to_string(), "  ".to_string()),
        ("h2".to_string(), "A".to_string()),
        ("h3".to_string(), "B".to_string()),
        ("p".to_string(), " x\n y ".to_string()),
    ];
    let s = sections_from(&blocks);
    assert_eq!(s.len(), 3);
    assert_eq!(s[0].heading, None);
    assert_eq!(s[0].paragraphs, vec!["intro"]);
    assert_eq!(s[1].heading.as_deref(), Some("A"));
    assert!(s[1].paragraphs.is_empty());
    assert_eq!(s[2].heading.as_deref(), Some("B"));
    assert_eq!(s[2].paragraphs, vec!["x y"]);
    assert!(sections_from(&vec![]).is_empty());
}

#[test]
fn raw_text_documents() {
    let d = text_document("a  b\n\n\n\n c \n\n");
    assert_eq!(d.title, None);
    assert_eq!(d.sections.len(), 1);
    assert_eq!(d.sections[0].paragraphs, vec!["a b", "c"]);
    let words: Vec<&str> = d.sections[0].paragraphs.iter().flat_map(|p| p.split_whitespace()).collect();
    assert_eq!(words, vec!["a", "b", "c"]);
}

#[test]
fn blank_text_is_an_invalid_source() {
    match extract_text(" \n ") {
        Err(Error::InvalidSource(m)) => assert_eq!(m, "empty text"),
        other => panic!("unexpected {other:?}"),
    }
    assert_eq!(extract_text("hi").unwrap().sections[0].paragraphs, vec!["hi"]);
}

#[test]
fn routing_and_local_extraction() {
    assert_eq!(route(&Source::Url("u".into())), Route::Article);
    assert_eq!(route(&Source::Text("t".into())), Route::Article);
    assert_eq!(route(&Source::File("f.pdf".into())), Route::Pdf);
    assert!(article_without_fetch(&Source::Url("http://x".into())).is_none());
    match article_without_fetch(&Source::File("f.pdf".into())) {
        Some(Err(Error::InvalidSource(m))) => assert_eq!(m, "ArticleExtractor does not handle files"),
        other => panic!("unexpected {other:?}"),
    }
    assert!(matches!(article_without_fetch(&Source::Text("x".into())), Some(Ok(_))));
}
