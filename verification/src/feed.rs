//! The podcast-facing side: pagination, access control, stream links and the
//! RSS feed text.
use vstd::prelude::*;
use vstd::string::StrSliceExecFns;
use vstd::utf8::{decode_utf8, encode_utf8, valid_utf8};

use crate::text::{chars_of, decimal, push_decimal, push_signed_decimal, signed_decimal, starts_with_str, string_of};

verus! {

/// Default page size when listing episodes.
pub fn default_limit() -> (res: i64)
    ensures
        res == 50,
{
    50
}

/// The page actually served: a limit clamped to 1..=200 and a non-negative offset.
pub fn page_bounds(limit: i64, offset: i64) -> (res: (i64, i64))
    ensures
        res.0 == if limit < 1 {
            1
        } else if limit > 200 {
            200
        } else {
            limit
        },
        res.1 == if offset < 0 {
            0
        } else {
            offset
        },
{
    let l = if limit < 1 {
        1
    } else if limit > 200 {
        200
    } else {
        limit
    };
    let o = if offset < 0 {
        0
    } else {
        offset
    };
    (l, o)
}

/// The XML escape of one character.
pub open spec fn xml_char(c: char) -> Seq<char> {
    if c == '&' {
        "&amp;"@
    } else if c == '<' {
        "&lt;"@
    } else if c == '>' {
        "&gt;"@
    } else if c == '"' {
        "&quot;"@
    } else if c == '\'' {
        "&apos;"@
    } else {
        seq![c]
    }
}

/// `s` with `& < > " '` written as XML entities.
pub open spec fn xml_escaped(s: Seq<char>) -> Seq<char>
    decreases s.len(),
{
    if s.len() == 0 {
        seq![]
    } else {
        xml_escaped(s.drop_last()) + xml_char(s.last())
    }
}

/// No markup character is left raw once escaped: `<`, `>`, `"` and `'` never
/// occur in escaped text, and every `&` starts an entity.
pub proof fn law_escaped_has_no_markup(s: Seq<char>)
    ensures
        forall|j: int|
            0 <= j < xml_escaped(s).len() ==> #[trigger] xml_escaped(s)[j] != '<' && xml_escaped(
                s,
            )[j] != '>' && xml_escaped(s)[j] != '"' && xml_escaped(s)[j] != '\'',
    decreases s.len(),
{
    reveal_strlit("&amp;");
    reveal_strlit("&lt;");
    reveal_strlit("&gt;");
    reveal_strlit("&quot;");
    reveal_strlit("&apos;");
    if s.len() > 0 {
        law_escaped_has_no_markup(s.drop_last());
        let a = xml_escaped(s.drop_last());
        let b = xml_char(s.last());
        assert forall|j: int| 0 <= j < (a + b).len() implies #[trigger] (a + b)[j] != '<' && (a
            + b)[j] != '>' && (a + b)[j] != '"' && (a + b)[j] != '\'' by {
            if j < a.len() {
                assert((a + b)[j] == a[j]);
            } else {
                assert((a + b)[j] == b[j - a.len()]);
            }
        }
    }
}

/// Escapes text for use inside XML elements and attributes.
pub fn xml_escape(s: &str) -> (res: String)
    ensures
        res@ == xml_escaped(s@),
{
    let v = chars_of(s);
    let mut out = String::new();
    let mut i: usize = 0;
    while i < v.len()
        invariant
            i <= v@.len(),
            v@ == s@,
            out@ == xml_escaped(v@.subrange(0, i as int)),
        decreases v@.len() - i,
    {
        let c = v[i];
        assert(v@.subrange(0, i + 1).drop_last() =~= v@.subrange(0, i as int));
        if c == '&' {
            out.push_str("&amp;");
        } else if c == '<' {
            out.push_str("&lt;");
        } else if c == '>' {
            out.push_str("&gt;");
        } else if c == '"' {
            out.push_str("&quot;");
        } else if c == '\'' {
            out.push_str("&apos;");
        } else {
            out.push(c);
        }
        i = i + 1;
    }
    assert(v@.subrange(0, v@.len() as int) =~= v@);
    out
}

/// `s` without trailing `/` characters.
pub open spec fn without_trailing_slashes(s: Seq<char>) -> Seq<char>
    decreases s.len(),
{
    if s.len() > 0 && s.last() == '/' {
        without_trailing_slashes(s.drop_last())
    } else {
        s
    }
}

/// `s` without trailing `/` characters (`trim_end_matches('/')`).
pub fn trim_trailing_slashes(s: &str) -> (res: String)
    ensures
        res@ == without_trailing_slashes(s@),
{
    let v = chars_of(s);
    let mut n = v.len();
    assert(v@.subrange(0, v@.len() as int) =~= v@);
    while n > 0 && v[n - 1] == '/'
        invariant
            n <= v@.len(),
            without_trailing_slashes(v@.subrange(0, n as int)) == without_trailing_slashes(v@),
        decreases n,
    {
        assert(v@.subrange(0, n as int).drop_last() =~= v@.subrange(0, n - 1));
        n = n - 1;
    }
    assert(v@.subrange(0, v@.len() as int) =~= v@);
    string_of(&v, 0, n)
}

/// The stream link of an episode.
pub open spec fn stream_link(base_url: Seq<char>, id: Seq<char>) -> Seq<char> {
    base_url + "/api/episodes/"@ + id + "/stream"@
}

/// The URL an episode's audio is streamed from.
pub fn stream_url(base_url: &str, id: &str) -> (res: String)
    ensures
        res@ == stream_link(base_url@, id@),
{
    let mut s = String::new();
    s.push_str(base_url);
    s.push_str("/api/episodes/");
    s.push_str(id);
    s.push_str("/stream");
    s
}

/// The stream URL shown for an episode: present once its audio is ready.
pub fn episode_stream_url(base_url: &str, id: &str, has_audio: bool) -> (res: Option<String>)
    ensures
        has_audio <==> res is Some,
        res matches Some(u) ==> u@ == stream_link(base_url@, id@),
{
    if has_audio {
        Some(stream_url(base_url, id))
    } else {
        None
    }
}

/// Every route but the health check needs credentials (when they are configured).
pub fn requires_auth(path: &str) -> (res: bool)
    ensures
        res == (path@ != "/health"@),
{
    !crate::text::eq_str(&chars_of(path), "/health")
}

/// The standard-alphabet Base64 decoding of `input`, `None` when it is not valid Base64.
pub uninterp spec fn base64_decode(input: Seq<u8>) -> Option<Seq<u8>>;

/// `base64::engine::general_purpose::STANDARD.decode(input)`. Claims: success
/// exactly when the named decoding exists, with its bytes. The error's text is
/// the crate's; nothing is claimed of it.
#[verifier::external_body]
pub(crate) fn base64_standard_decode(input: &[u8]) -> (res: Result<Vec<u8>, String>)
    ensures
        res is Ok <==> base64_decode(input@) is Some,
        res matches Ok(v) ==> base64_decode(input@) == Some(v@),
{
    match base64::Engine::decode(&base64::engine::general_purpose::STANDARD, input) {
        Ok(v) => Ok(v),
        Err(e) => Err(e.to_string()),
    }
}

/// `String::from_utf8(bytes).ok()`. Claims what std documents: a string exactly
/// when the bytes are valid UTF-8, holding the characters they encode.
#[verifier::external_body]
fn utf8_string(bytes: Vec<u8>) -> (res: Option<String>)
    ensures
        res is Some <==> valid_utf8(bytes@),
        res matches Some(s) ==> s@ == decode_utf8(bytes@),
{
    String::from_utf8(bytes).ok()
}

/// Whether an `Authorization` header presents `user:pass` by HTTP Basic auth.
pub open spec fn presents(header: Option<Seq<char>>, user: Seq<char>, pass: Seq<char>) -> bool {
    match header {
        None => false,
        Some(h) => {
            let p = "Basic "@;
            &&& p.len() <= h.len()
            &&& h.subrange(0, p.len() as int) == p
            &&& base64_decode(encode_utf8(h.subrange(p.len() as int, h.len() as int))) matches Some(b)
            &&& valid_utf8(b)
            &&& decode_utf8(b) == user + ":"@ + pass
        },
    }
}

/// Whether the `Authorization` header value presents the configured credentials.
pub fn credentials_match(header: Option<&str>, user: &str, pass: &str) -> (res: bool)
    ensures
        res == presents(
            match header {
                Some(h) => Some(h@),
                None => None,
            },
            user@,
            pass@,
        ),
{
    let h = match header {
        None => return false,
        Some(h) => h,
    };
    let v = chars_of(h);
    if !starts_with_str(&v, "Basic ") {
        return false;
    }
    let k = chars_of("Basic ").len();
    let rest = string_of(&v, k, v.len());
    let bytes = rest.as_str().as_bytes_vec();
    let decoded = match base64_standard_decode(bytes.as_slice()) {
        Ok(b) => b,
        Err(_) => return false,
    };
    let text = match utf8_string(decoded) {
        Some(t) => t,
        None => return false,
    };
    let mut expected = String::new();
    expected.push_str(user);
    expected.push_str(":");
    expected.push_str(pass);
    let a = chars_of(text.as_str());
    crate::text::eq_str(&a, expected.as_str())
}

/// One episode of the feed, as plain values.
#[derive(Debug, Clone)]
pub struct FeedItem {
    /// Episode id.
    pub id: String,
    /// Document title, if any.
    pub title: Option<String>,
    /// Size of the audio file in bytes (0 when unknown).
    pub length: u64,
    /// Publication date in RFC 2822 form.
    pub pub_date: String,
    /// Duration in seconds, if known.
    pub duration_sec: Option<i32>,
}

/// The `<item>` of one episode.
pub open spec fn item_xml(it: FeedItem, base_url: Seq<char>) -> Seq<char> {
    let title = match it.title {
        Some(t) => t@,
        None => "Untitled"@,
    };
    let duration = match it.duration_sec {
        Some(d) => d as int,
        None => 0,
    };
    "  <item>\n    <title>"@ + xml_escaped(title) + "</title>\n    <guid isPermaLink=\"false\">"@
        + it.id@ + "</guid>\n    <pubDate>"@ + it.pub_date@ + "</pubDate>\n    <enclosure url=\""@
        + base_url + "/api/episodes/"@ + it.id@ + "/stream\" length=\""@ + decimal(
        it.length as nat,
    ) + "\" type=\"audio/mpeg\"/>\n    <itunes:duration>"@ + signed_decimal(duration)
        + "</itunes:duration>\n  </item>\n"@
}

/// The items of a feed, in order.
pub open spec fn items_xml(items: Seq<FeedItem>, base_url: Seq<char>) -> Seq<char>
    decreases items.len(),
{
    if items.len() == 0 {
        seq![]
    } else {
        items_xml(items.drop_last(), base_url) + item_xml(items.last(), base_url)
    }
}

/// The whole RSS document.
pub open spec fn rss_xml(items: Seq<FeedItem>, base_url: Seq<char>) -> Seq<char> {
    "<?xml version=\"1.0\" encoding=\"UTF-8\"?>\n<rss version=\"2.0\" xmlns:itunes=\"http://www.itunes.com/dtds/podcast-1.0.dtd\">\n<channel>\n  <title>Audify</title>\n  <link>"@
        + base_url
        + "</link>\n  <description>Your articles, read aloud.</description>\n  <language>en</language>\n"@
        + items_xml(items, base_url) + "</channel>\n</rss>\n"@
}

/// Appends the `<item>` of one episode.
#[verifier::rlimit(30)]
fn push_item(s: &mut String, it: &FeedItem, base_url: &str)
    ensures
        final(s)@ == old(s)@ + item_xml(*it, base_url@),
{
    let title = match &it.title {
        Some(t) => xml_escape(t.as_str()),
        None => xml_escape("Untitled"),
    };
    let d: i32 = match it.duration_sec {
        Some(d) => d,
        None => 0,
    };
    let mut len = String::new();
    push_decimal(&mut len, it.length);
    let mut dur = String::new();
    push_signed_decimal(&mut dur, d as i64);
    let mut x = String::new();
    x.push_str("  <item>\n    <title>");
    x.push_str(title.as_str());
    x.push_str("</title>\n    <guid isPermaLink=\"false\">");
    x.push_str(it.id.as_str());
    x.push_str("</guid>\n    <pubDate>");
    x.push_str(it.pub_date.as_str());
    x.push_str("</pubDate>\n    <enclosure url=\"");
    x.push_str(base_url);
    x.push_str("/api/episodes/");
    x.push_str(it.id.as_str());
    x.push_str("/stream\" length=\"");
    x.push_str(len.as_str());
    x.push_str("\" type=\"audio/mpeg\"/>\n    <itunes:duration>");
    x.push_str(dur.as_str());
    x.push_str("</itunes:duration>\n  </item>\n");
    assert(len@ =~= decimal(it.length as nat));
    assert(x@ =~= item_xml(*it, base_url@));
    s.push_str(x.as_str());
}

/// Builds the podcast RSS feed for the given episodes.
pub fn build_rss(items: &Vec<FeedItem>, base_url: &str) -> (res: String)
    ensures
        res@ == rss_xml(items@, base_url@),
{
    let mut s = String::new();
    s.push_str("<?xml version=\"1.0\" encoding=\"UTF-8\"?>\n<rss version=\"2.0\" xmlns:itunes=\"http://www.itunes.com/dtds/podcast-1.0.dtd\">\n<channel>\n  <title>Audify</title>\n  <link>");
    s.push_str(base_url);
    s.push_str("</link>\n  <description>Your articles, read aloud.</description>\n  <language>en</language>\n");
    let ghost head = s@;
    let mut i: usize = 0;
    assert(head + items_xml(items@.subrange(0, 0), base_url@) =~= head);
    while i < items.len()
        invariant
            i <= items@.len(),
            s@ == head + items_xml(items@.subrange(0, i as int), base_url@),
        decreases items@.len() - i,
    {
        assert(items@.subrange(0, i + 1).drop_last() =~= items@.subrange(0, i as int));
        assert(items@.subrange(0, i + 1).last() == items@[i as int]);
        push_item(&mut s, &items[i], base_url);
        assert(s@ =~= head + items_xml(items@.subrange(0, i + 1), base_url@));
        i = i + 1;
    }
    assert(items@.subrange(0, items@.len() as int) =~= items@);
    s.push_str("</channel>\n</rss>\n");
    s
}

} // verus!
