use audify::feed::{
    build_rss, credentials_match, default_limit, episode_stream_url, page_bounds, requires_auth,
    stream_url, trim_trailing_slashes, xml_escape, FeedItem,
};

#[test]
fn pagination() {
    assert_eq!(default_limit(), 50);
    assert_eq!(page_bounds(0, -5), (1, 0));
    assert_eq!(page_bounds(500, 3), (200, 3));
    assert_eq!(page_bounds(20, 0), (20, 0));
}

#[test]
fn escaping() {
    assert_eq!(xml_escape("a&b<c>\"d'e"), "a&amp;b&lt;c&gt;&quot;d&apos;e");
    assert_eq!(xml_escape("&amp;"), "&amp;amp;");
    assert_eq!(xml_escape(""), "");
}

#[test]
fn links() {
    assert_eq!(trim_trailing_slashes("http://h///"), "http://h");
    assert_eq!(stream_url("http://h", "7"), "http://h/api/episodes/7/stream");
    assert_eq!(
        episode_stream_url("http://h", "7", true).as_deref(),
        Some("http://h/api/episodes/7/stream")
    );
    assert_eq!(episode_stream_url("http://h", "7", false), None);
}

#[test]
fn basic_auth() {
    assert!(!requires_auth("/health"));
    assert!(requires_auth("/feed.xml"));
    assert!(requires_auth("/"));
    // "user:pass" in Base64.
    assert!(credentials_match(Some("Basic dXNlcjpwYXNz"), "user", "pass"));
    assert!(!credentials_match(Some("Basic dXNlcjpwYXNz"), "user", "other"));
    assert!(!credentials_match(Some("Bearer dXNlcjpwYXNz"), "user", "pass"));
    assert!(!credentials_match(Some("Basic !!!"), "user", "pass"));
    assert!(!credentials_match(None, "user", "pass"));
}

#[test]
fn rss_feed() {
    let items = vec![
        FeedItem {
            id: "e1".into(),
            title: Some("A & B".into()),
            length: 1234,
            pub_date: "Mon, 1 Jan 2024 00:00:00 +0000".into(),
            duration_sec: Some(61),
        },
        FeedItem {
            id: "e2".into(),
            title: None,
            length: 0,
            pub_date: "d".into(),
            duration_sec: None,
        },
    ];
    let xml = build_rss(&items, "http://h");
    let expected = "<?xml version=\"1.0\" encoding=\"UTF-8\"?>\n\
<rss version=\"2.0\" xmlns:itunes=\"http://www.itunes.com/dtds/podcast-1.0.dtd\">\n\
<channel>\n  <title>Audify</title>\n  <link>http://h</link>\n  \
<description>Your articles, read aloud.</description>\n  <language>en</language>\n  \
<item>\n    <title>A &amp; B</title>\n    <guid isPermaLink=\"false\">e1</guid>\n    \
<pubDate>Mon, 1 Jan 2024 00:00:00 +0000</pubDate>\n    \
<enclosure url=\"http://h/api/episodes/e1/stream\" length=\"1234\" type=\"audio/mpeg\"/>\n    \
<itunes:duration>61</itunes:duration>\n  </item>\n  \
<item>\n    <title>Untitled</title>\n    <guid isPermaLink=\"false\">e2</guid>\n    \
<pubDate>d</pubDate>\n    \
<enclosure url=\"http://h/api/episodes/e2/stream\" length=\"0\" type=\"audio/mpeg\"/>\n    \
<itunes:duration>0</itunes:duration>\n  </item>\n</channel>\n</rss>\n";
    assert_eq!(xml, expected);
}

#[test]
fn escaped_text_has_no_raw_markup() {
    let e = xml_escape("<a href=\"x\">it's & done</a>");
    assert!(!e.contains('<') && !e.contains('>') && !e.contains('"') && !e.contains('\''));
    assert_eq!(e, "&lt;a href=&quot;x&quot;&gt;it&apos;s &amp; done&lt;/a&gt;");
}
