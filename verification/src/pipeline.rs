//! The decisions of the pipeline around its I/O: what a run reports, how
//! stored objects are named, how sources are described and keyed, and what the
//! background worker does next.
use vstd::prelude::*;
use vstd::string::StrSliceExecFns;
use vstd::utf8::encode_utf8;

use crate::error::Error;
use crate::text::{push_signed_decimal, signed_decimal};
use crate::types::{doc_chars, doc_is_empty, format_name, AudioFormat, Document, Source};

verus! {

/// Result of a full pipeline run.
#[derive(Debug, Clone)]
pub struct ProcessOutput {
    /// Locator (path or URI) of the stored audio.
    pub path: String,
    /// Title detected during extraction, if any.
    pub title: Option<String>,
    /// Characters of speakable text sent to the synthesizer.
    pub char_count: usize,
    /// Size of the rendered audio in bytes.
    pub audio_bytes: usize,
}

/// The message when extraction found nothing.
pub open spec fn no_content_message() -> Seq<char> {
    "no content extracted from source"@
}

/// Accepts an extracted document for synthesis: an empty one is an extraction
/// error; otherwise its character count, for cost estimation.
pub fn check_extracted(document: &Document) -> (res: Result<usize, Error>)
    requires
        doc_is_empty(document@) || doc_chars(document@) <= usize::MAX,
    ensures
        doc_is_empty(document@) <==> res is Err,
        res matches Ok(n) ==> n == doc_chars(document@),
        res matches Err(e) ==> (e matches Error::Extraction(m) && m@ == no_content_message()),
{
    if document.is_empty() {
        let mut m = String::new();
        m.push_str("no content extracted from source");
        Err(Error::Extraction(m))
    } else {
        Ok(document.char_count())
    }
}

/// The storage key for rendered audio: `key` with the format's extension appended.
pub fn object_key(key: &str, format: AudioFormat) -> (res: String)
    ensures
        res@ == key@ + "."@ + format_name(format),
{
    let mut s = String::new();
    s.push_str(key);
    s.push_str(".");
    s.push_str(format.extension());
    s
}

impl ProcessOutput {
    /// The report of a run: where the audio went, the title, and the sizes.
    pub fn new(path: String, title: Option<String>, char_count: usize, audio_bytes: usize) -> (res:
        Self)
        ensures
            res.path == path,
            res.title == title,
            res.char_count == char_count,
            res.audio_bytes == audio_bytes,
    {
        ProcessOutput { path, title, char_count, audio_bytes }
    }
}

/// Seconds of speech estimated for `c` characters at 12.5 characters a second,
/// rounded to the nearest second, halves away from zero.
pub open spec fn duration_estimate(c: int) -> int {
    if c >= 0 {
        (4 * c + 25) / 50
    } else {
        -((4 * (-c) + 25) / 50)
    }
}

/// Seconds of speech estimated for `char_count` characters (12.5 characters a second).
pub fn estimate_duration_secs(char_count: i32) -> (res: i32)
    ensures
        res == duration_estimate(char_count as int),
{
    let c = char_count as i64;
    if c >= 0 {
        ((4 * c + 25) / 50) as i32
    } else {
        (-((4 * (-c) + 25) / 50)) as i32
    }
}

/// On a retry, stored chunk rows are reused when there are some and there are
/// as many as the text now has chunks; otherwise they are made again.
pub fn reuse_chunk_rows(existing: usize, needed: usize) -> (res: bool)
    ensures
        res == (existing != 0 && existing == needed),
{
    existing != 0 && existing == needed
}

/// The file name of a chunk's cached audio: its index and `.wav`.
pub fn chunk_audio_name(idx: i32) -> (res: String)
    ensures
        res@ == signed_decimal(idx as int) + ".wav"@,
{
    let mut s = String::new();
    push_signed_decimal(&mut s, idx as i64);
    s.push_str(".wav");
    s
}

/// The storage key of an episode's final audio.
pub fn episode_audio_key(episode_id: &str) -> (res: String)
    ensures
        res@ == episode_id@ + ".mp3"@,
{
    let mut s = String::new();
    s.push_str(episode_id);
    s.push_str(".mp3");
    s
}

/// What a claim on the job queue gave.
#[derive(Debug, Clone, Copy, PartialEq, Eq, Structural)]
pub enum ClaimOutcome {
    /// A job was claimed.
    Claimed,
    /// Nothing was runnable.
    Empty,
    /// The claim itself failed.
    Failed,
}

/// What the worker does next.
#[derive(Debug, Clone, Copy, PartialEq, Eq, Structural)]
pub enum WorkerStep {
    /// Process the claimed job.
    Process,
    /// Wait the poll interval, then claim again.
    Sleep,
    /// Leave the loop.
    Stop,
}

/// The worker's next step after a claim: a claimed job is processed; with
/// nothing to do, a single pass stops and a long-running worker waits.
pub fn after_claim(outcome: ClaimOutcome, once: bool) -> (res: WorkerStep)
    ensures
        outcome == ClaimOutcome::Claimed ==> res == WorkerStep::Process,
        outcome != ClaimOutcome::Claimed ==> res == (if once {
            WorkerStep::Stop
        } else {
            WorkerStep::Sleep
        }),
{
    match outcome {
        ClaimOutcome::Claimed => WorkerStep::Process,
        _ => if once {
            WorkerStep::Stop
        } else {
            WorkerStep::Sleep
        },
    }
}

/// Whether the worker claims again after processing a job.
pub fn continue_after_job(once: bool) -> (res: bool)
    ensures
        res == !once,
{
    !once
}

/// A count stored as `i32`, saturating at `i32::MAX`.
pub fn count_as_i32(n: usize) -> (res: i32)
    ensures
        res == if n <= i32::MAX {
            n as i32
        } else {
            i32::MAX
        },
{
    if n <= 2147483647usize {
        n as i32
    } else {
        2147483647i32
    }
}

/// The hex digit for a nibble.
pub open spec fn hex_digit(d: nat) -> char {
    if d < 10 {
        ((d + 48) as u8) as char
    } else {
        ((d + 87) as u8) as char
    }
}

/// Lowercase hex of each byte, two digits each.
pub open spec fn hex_lower(b: Seq<u8>) -> Seq<char>
    decreases b.len(),
{
    if b.len() == 0 {
        seq![]
    } else {
        hex_lower(b.drop_last()) + seq![
            hex_digit((b.last() / 16) as nat),
            hex_digit((b.last() % 16) as nat),
        ]
    }
}

fn hex_char(d: u8) -> (res: char)
    requires
        d < 16,
    ensures
        res == hex_digit(d as nat),
{
    if d < 10 {
        (48u8 + d) as char
    } else {
        (87u8 + d) as char
    }
}

/// Lowercase hex of `b[..n]`.
pub fn hex_prefix(b: &Vec<u8>, n: usize) -> (res: String)
    requires
        n <= b@.len(),
    ensures
        res@ == hex_lower(b@.subrange(0, n as int)),
{
    let mut s = String::new();
    let mut i: usize = 0;
    while i < n
        invariant
            i <= n <= b@.len(),
            s@ == hex_lower(b@.subrange(0, i as int)),
        decreases n - i,
    {
        let x = b[i];
        assert(b@.subrange(0, i + 1).drop_last() =~= b@.subrange(0, i as int));
        s.push(hex_char(x / 16));
        s.push(hex_char(x % 16));
        assert(s@ =~= hex_lower(b@.subrange(0, i + 1)));
        i = i + 1;
    }
    s
}

/// The SHA-256 digest of `data`.
pub uninterp spec fn sha256(data: Seq<u8>) -> Seq<u8>;

/// `sha2::Sha256::digest(data)` as a vector. Claims: the named digest, which
/// is 32 bytes long.
#[verifier::external_body]
fn sha256_digest(data: &[u8]) -> (res: Vec<u8>)
    ensures
        res@ == sha256(data@),
        res@.len() == 32,
{
    <sha2::Sha256 as sha2::Digest>::digest(data).to_vec()
}

/// Full lowercase hex SHA-256 of the UTF-8 bytes of `s`.
pub fn sha256_hex(s: &str) -> (res: String)
    ensures
        res@ == hex_lower(sha256(encode_utf8(s@))),
{
    let bytes = s.as_bytes_vec();
    let d = sha256_digest(bytes.as_slice());
    let h = hex_prefix(&d, d.len());
    assert(d@.subrange(0, d@.len() as int) =~= d@);
    h
}

/// The text `Path::to_string_lossy` gives for a path (invalid sequences
/// replaced by U+FFFD); it depends on the path alone.
pub uninterp spec fn path_lossy_text(p: std::path::PathBuf) -> Seq<char>;

/// `Path::to_string_lossy` of a path, owned. Claims: the named text of the path.
#[verifier::external_body]
fn path_text(p: &std::path::PathBuf) -> (res: String)
    ensures
        res@ == path_lossy_text(*p),
{
    p.to_string_lossy().into_owned()
}

/// At most the first `n` characters of `s`.
pub open spec fn first_chars(s: Seq<char>, n: int) -> Seq<char> {
    if s.len() <= n {
        s
    } else {
        s.subrange(0, n)
    }
}

/// The stored source-type tag and a human-readable reference: the URL, the
/// first 120 characters of raw text, or the file's path.
pub fn source_descriptor(source: &Source) -> (res: (String, String))
    ensures
        match source {
            Source::Url(u) => res.0@ == "url"@ && res.1@ == u@,
            Source::Text(t) => res.0@ == "text"@ && res.1@ == first_chars(t@, 120),
            Source::File(p) => res.0@ == "file"@ && res.1@ == path_lossy_text(*p),
        },
{
    let mut tag = String::new();
    match source {
        Source::Url(u) => {
            tag.push_str("url");
            (tag, u.clone())
        },
        Source::Text(t) => {
            tag.push_str("text");
            let v = crate::text::chars_of(t.as_str());
            let n = if v.len() <= 120 {
                v.len()
            } else {
                120
            };
            let r = crate::text::string_of(&v, 0, n);
            assert(v@.subrange(0, v@.len() as int) =~= v@);
            (tag, r)
        },
        Source::File(p) => {
            tag.push_str("file");
            (tag, path_text(p))
        },
    }
}

/// A stable key for a source: the first 16 hex digits of the SHA-256 of its
/// URL or text (of its path's text for a file).
pub fn source_key(source: &Source) -> (res: String)
    ensures
        source matches Source::File(p) ==> res@ == hex_lower(
            sha256(encode_utf8(path_lossy_text(*p))).subrange(0, 8),
        ),
        source matches Source::Url(u) ==> res@ == hex_lower(sha256(encode_utf8(u@)).subrange(0, 8)),
        source matches Source::Text(t) ==> res@ == hex_lower(sha256(encode_utf8(t@)).subrange(0, 8)),
{
    let material = match source {
        Source::Url(u) => u.as_str().as_bytes_vec(),
        Source::Text(t) => t.as_str().as_bytes_vec(),
        Source::File(p) => path_text(p).as_str().as_bytes_vec(),
    };
    let d = sha256_digest(material.as_slice());
    hex_prefix(&d, 8)
}


/// The source a request or command line names: the URL when one is given,
/// else the text, else none.
pub fn source_from_args(url: Option<String>, text: Option<String>) -> (res: Option<Source>)
    ensures
        url matches Some(u) ==> res == Some(Source::Url(u)),
        url is None ==> (text matches Some(t) ==> res == Some(Source::Text(t))),
        url is None && text is None ==> res is None,
{
    match (url, text) {
        (Some(u), _) => Some(Source::Url(u)),
        (None, Some(t)) => Some(Source::Text(t)),
        (None, None) => None,
    }
}


/// Characters of speakable text: the length of `text` in characters.
pub fn speakable_chars(text: &str) -> (res: usize)
    ensures
        res == text@.len(),
{
    text.unicode_len()
}

/// Whether a chunk's audio is taken from the cache: only when its row records
/// an audio path and the file is still on disk; otherwise it is synthesized.
pub fn use_cached_chunk(has_audio_path: bool, file_exists: bool) -> (res: bool)
    ensures
        res == (has_audio_path && file_exists),
{
    has_audio_path && file_exists
}

} // verus!
