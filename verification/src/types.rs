//! Domain types shared across the pipeline.
use vstd::prelude::*;
use vstd::string::StrSliceExecFns;

use crate::error::Error;
use crate::text::{ascii_lower, chars_of, eq_str, lemma_trim_noop, lower_vec, trim_ws, views};

verus! {

#[verifier::external_type_specification]
#[verifier::external_body]
pub struct ExPathBuf(std::path::PathBuf);

/// `PathBuf::clone`: the copy is the same path (its inner `OsString` is
/// cloned), as vstd states of `String::clone`.
pub assume_specification[ <std::path::PathBuf as Clone>::clone ](p: &std::path::PathBuf) -> (res:
    std::path::PathBuf)
    ensures
        res == *p,
;

/// What the user asked us to turn into audio.
#[derive(Debug, Clone, PartialEq, Eq)]
pub enum Source {
    /// A web page to fetch and extract.
    Url(String),
    /// Raw text supplied directly (already an "article").
    Text(String),
    /// A local file (currently PDF).
    File(std::path::PathBuf),
}

/// One section of a document: an optional heading and its paragraphs.
#[derive(Debug, Clone, Default)]
pub struct Section {
    /// Heading text, if this block had one.
    pub heading: Option<String>,
    /// Paragraphs of body text, already trimmed.
    pub paragraphs: Vec<String>,
}

/// A document extracted into clean structure, before normalization.
#[derive(Debug, Clone, Default)]
pub struct Document {
    /// Title, if one could be identified.
    pub title: Option<String>,
    /// Ordered sections in reading order.
    pub sections: Vec<Section>,
}

/// The text of an optional string.
pub open spec fn opt_view(o: Option<String>) -> Option<Seq<char>> {
    match o {
        Some(s) => Some(s@),
        None => None,
    }
}

/// A section as text: its heading and its paragraphs.
#[verifier::ext_equal]
pub ghost struct SectionView {
    pub heading: Option<Seq<char>>,
    pub paragraphs: Seq<Seq<char>>,
}

/// A document as text: its title and its sections.
#[verifier::ext_equal]
pub ghost struct DocumentView {
    pub title: Option<Seq<char>>,
    pub sections: Seq<SectionView>,
}

impl View for Section {
    type V = SectionView;

    open spec fn view(&self) -> SectionView {
        SectionView { heading: opt_view(self.heading), paragraphs: views(self.paragraphs@) }
    }
}

impl View for Document {
    type V = DocumentView;

    open spec fn view(&self) -> DocumentView {
        DocumentView {
            title: opt_view(self.title),
            sections: self.sections@.map_values(|s: Section| s@),
        }
    }
}

/// Total length of a list of strings.
pub open spec fn total_len(ps: Seq<Seq<char>>) -> nat
    decreases ps.len(),
{
    if ps.len() == 0 {
        0
    } else {
        total_len(ps.drop_last()) + ps.last().len()
    }
}

/// Total characters of body text over a list of sections.
pub open spec fn sections_chars(ss: Seq<SectionView>) -> nat
    decreases ss.len(),
{
    if ss.len() == 0 {
        0
    } else {
        sections_chars(ss.drop_last()) + total_len(ss.last().paragraphs)
    }
}

/// Total characters of body text in a document.
pub open spec fn doc_chars(d: DocumentView) -> nat {
    sections_chars(d.sections)
}

/// Whether a document has no body text at all.
pub open spec fn doc_is_empty(d: DocumentView) -> bool {
    forall|i: int| 0 <= i < d.sections.len() ==> (#[trigger] d.sections[i]).paragraphs.len() == 0
}

proof fn lemma_total_len_prefix(ps: Seq<Seq<char>>, i: int)
    requires
        0 <= i <= ps.len(),
    ensures
        total_len(ps.subrange(0, i)) <= total_len(ps),
    decreases ps.len(),
{
    if i < ps.len() {
        assert(ps.drop_last().subrange(0, i) =~= ps.subrange(0, i));
        lemma_total_len_prefix(ps.drop_last(), i);
    } else {
        assert(ps.subrange(0, i) =~= ps);
    }
}

proof fn lemma_sections_chars_prefix(ss: Seq<SectionView>, i: int)
    requires
        0 <= i <= ss.len(),
    ensures
        sections_chars(ss.subrange(0, i)) <= sections_chars(ss),
    decreases ss.len(),
{
    if i < ss.len() {
        assert(ss.drop_last().subrange(0, i) =~= ss.subrange(0, i));
        lemma_sections_chars_prefix(ss.drop_last(), i);
    } else {
        assert(ss.subrange(0, i) =~= ss);
    }
}

impl Document {
    /// Total character count of all body text, used for cost estimation.
    pub fn char_count(&self) -> (res: usize)
        requires
            doc_chars(self@) <= usize::MAX,
        ensures
            res == doc_chars(self@),
    {
        let ghost ss = self@.sections;
        let mut total: usize = 0;
        let mut i: usize = 0;
        while i < self.sections.len()
            invariant
                ss == self@.sections,
                ss.len() == self.sections@.len(),
                i <= ss.len(),
                total == sections_chars(ss.subrange(0, i as int)),
                sections_chars(ss) <= usize::MAX,
            decreases ss.len() - i,
        {
            let sec = &self.sections[i];
            let ghost ps = sec@.paragraphs;
            proof {
                assert(ss[i as int] == sec@);
                assert(ss.subrange(0, i + 1).drop_last() =~= ss.subrange(0, i as int));
                lemma_sections_chars_prefix(ss, i + 1);
            }
            let mut j: usize = 0;
            while j < sec.paragraphs.len()
                invariant
                    ps == sec@.paragraphs,
                    ps.len() == sec.paragraphs@.len(),
                    j <= ps.len(),
                    total == sections_chars(ss.subrange(0, i as int)) + total_len(
                        ps.subrange(0, j as int),
                    ),
                    sections_chars(ss.subrange(0, i as int)) + total_len(ps) <= usize::MAX,
                decreases ps.len() - j,
            {
                let n = sec.paragraphs[j].as_str().unicode_len();
                proof {
                    assert(ps[j as int] == sec.paragraphs@[j as int]@);
                    assert(ps.subrange(0, j + 1).drop_last() =~= ps.subrange(0, j as int));
                    lemma_total_len_prefix(ps, j + 1);
                }
                total = total + n;
                j = j + 1;
            }
            assert(ps.subrange(0, ps.len() as int) =~= ps);
            i = i + 1;
        }
        assert(ss.subrange(0, ss.len() as int) =~= ss);
        total
    }

    /// True when there is no usable body text.
    pub fn is_empty(&self) -> (res: bool)
        ensures
            res == doc_is_empty(self@),
    {
        let mut i: usize = 0;
        while i < self.sections.len()
            invariant
                i <= self.sections@.len(),
                forall|k: int| 0 <= k < i ==> (#[trigger] self@.sections[k]).paragraphs.len() == 0,
            decreases self.sections@.len() - i,
        {
            if self.sections[i].paragraphs.len() > 0 {
                assert(self@.sections[i as int].paragraphs.len() > 0);
                return false;
            }
            i = i + 1;
        }
        true
    }
}

/// Audio output formats the synthesizer can be asked to produce.
#[derive(Debug, Clone, Copy, PartialEq, Eq, Structural)]
pub enum AudioFormat {
    Mp3,
    Wav,
    Pcm,
    Flac,
    Opus,
}

/// The file extension of a format, which is also its wire name.
pub open spec fn format_name(f: AudioFormat) -> Seq<char> {
    match f {
        AudioFormat::Mp3 => "mp3"@,
        AudioFormat::Wav => "wav"@,
        AudioFormat::Pcm => "pcm"@,
        AudioFormat::Flac => "flac"@,
        AudioFormat::Opus => "opus"@,
    }
}

/// The format a (trimmed, ASCII-lowercased) name denotes, if any.
pub open spec fn format_named(name: Seq<char>) -> Option<AudioFormat> {
    if name == "mp3"@ {
        Some(AudioFormat::Mp3)
    } else if name == "wav"@ {
        Some(AudioFormat::Wav)
    } else if name == "pcm"@ {
        Some(AudioFormat::Pcm)
    } else if name == "flac"@ {
        Some(AudioFormat::Flac)
    } else if name == "opus"@ {
        Some(AudioFormat::Opus)
    } else {
        None
    }
}

impl AudioFormat {
    /// The file extension for this format.
    pub fn extension(&self) -> (res: &'static str)
        ensures
            res@ == format_name(*self),
    {
        match self {
            AudioFormat::Mp3 => "mp3",
            AudioFormat::Wav => "wav",
            AudioFormat::Pcm => "pcm",
            AudioFormat::Flac => "flac",
            AudioFormat::Opus => "opus",
        }
    }

    /// The wire value the TTS API expects in `response_format`.
    pub fn as_api_str(&self) -> (res: &'static str)
        ensures
            res@ == format_name(*self),
    {
        self.extension()
    }

    /// Parses a format name, ignoring surrounding whitespace and ASCII case.
    pub fn parse(s: &str) -> (res: Result<AudioFormat, Error>)
        ensures
            match format_named(ascii_lower(trim_ws(s@))) {
                Some(f) => res == Ok::<AudioFormat, Error>(f),
                None => res matches Err(Error::Config(m)) && m@ == "unsupported audio format: "@
                    + ascii_lower(trim_ws(s@)),
            },
    {
        let t = s.trim();
        let lower = lower_vec(&chars_of(t));
        if eq_str(&lower, "mp3") {
            Ok(AudioFormat::Mp3)
        } else if eq_str(&lower, "wav") {
            Ok(AudioFormat::Wav)
        } else if eq_str(&lower, "pcm") {
            Ok(AudioFormat::Pcm)
        } else if eq_str(&lower, "flac") {
            Ok(AudioFormat::Flac)
        } else if eq_str(&lower, "opus") {
            Ok(AudioFormat::Opus)
        } else {
            let mut m = String::new();
            m.push_str("unsupported audio format: ");
            let mut i: usize = 0;
            while i < lower.len()
                invariant
                    i <= lower@.len(),
                    m@ == "unsupported audio format: "@ + lower@.subrange(0, i as int),
                decreases lower@.len() - i,
            {
                m.push(lower[i]);
                assert(lower@.subrange(0, i + 1) =~= lower@.subrange(0, i as int).push(
                    lower@[i as int],
                ));
                i = i + 1;
            }
            assert(lower@.subrange(0, lower@.len() as int) =~= lower@);
            Err(Error::Config(m))
        }
    }
}

impl std::str::FromStr for AudioFormat {
    type Err = Error;

    fn from_str(s: &str) -> (res: Result<AudioFormat, Error>)
        ensures
            match format_named(ascii_lower(trim_ws(s@))) {
                Some(f) => res == Ok::<AudioFormat, Error>(f),
                None => res matches Err(Error::Config(m)) && m@ == "unsupported audio format: "@
                    + ascii_lower(trim_ws(s@)),
            },
    {
        AudioFormat::parse(s)
    }
}

/// Rendered audio: raw bytes plus the format they are encoded in.
#[derive(Debug, Clone)]
pub struct Audio {
    pub bytes: Vec<u8>,
    pub format: AudioFormat,
}


/// A string without ASCII capitals is its own lowercase.
pub proof fn lemma_lower_noop(s: Seq<char>)
    requires
        forall|i: int| 0 <= i < s.len() ==> !('A' <= #[trigger] s[i] <= 'Z'),
    ensures
        ascii_lower(s) == s,
{
    assert(ascii_lower(s) =~= s);
}

/// Reading back a format's name gives the same format.
pub proof fn law_format_name_roundtrip(f: AudioFormat)
    ensures
        format_named(ascii_lower(trim_ws(format_name(f)))) == Some(f),
{
    reveal_strlit("mp3");
    reveal_strlit("wav");
    reveal_strlit("pcm");
    reveal_strlit("flac");
    reveal_strlit("opus");
    let n = format_name(f);
    lemma_trim_noop(n);
    lemma_lower_noop(n);
}

/// High-level lifecycle of an episode, as shown to clients.
#[derive(Debug, Clone, Copy, PartialEq, Eq, Structural)]
pub enum EpisodeStatus {
    Pending,
    Processing,
    Ready,
    Failed,
}

/// Fine-grained state of a processing job, persisted and logged at each step.
#[derive(Debug, Clone, Copy, PartialEq, Eq, Structural)]
pub enum JobState {
    Pending,
    Extracting,
    Normalizing,
    Segmenting,
    Synthesizing,
    Assembling,
    Ready,
    Failed,
}

/// The stable string stored for an episode status.
pub open spec fn status_name(s: EpisodeStatus) -> Seq<char> {
    match s {
        EpisodeStatus::Pending => "pending"@,
        EpisodeStatus::Processing => "processing"@,
        EpisodeStatus::Ready => "ready"@,
        EpisodeStatus::Failed => "failed"@,
    }
}

/// The stable string stored for a job state.
pub open spec fn job_state_name(s: JobState) -> Seq<char> {
    match s {
        JobState::Pending => "pending"@,
        JobState::Extracting => "extracting"@,
        JobState::Normalizing => "normalizing"@,
        JobState::Segmenting => "segmenting"@,
        JobState::Synthesizing => "synthesizing"@,
        JobState::Assembling => "assembling"@,
        JobState::Ready => "ready"@,
        JobState::Failed => "failed"@,
    }
}

/// The message for a stored string naming no value of a type.
pub open spec fn invalid_text(kind: Seq<char>, s: Seq<char>) -> Seq<char> {
    "invalid "@ + kind + ": "@ + s
}

/// `"invalid <kind>: <s>"`.
fn invalid_message(kind: &str, s: &str) -> (res: String)
    ensures
        res@ == invalid_text(kind@, s@),
{
    let mut m = String::new();
    m.push_str("invalid ");
    m.push_str(kind);
    m.push_str(": ");
    m.push_str(s);
    m
}

impl EpisodeStatus {
    /// The stable string stored in the database.
    pub fn as_str(&self) -> (res: &'static str)
        ensures
            res@ == status_name(*self),
    {
        match self {
            EpisodeStatus::Pending => "pending",
            EpisodeStatus::Processing => "processing",
            EpisodeStatus::Ready => "ready",
            EpisodeStatus::Failed => "failed",
        }
    }

    /// Reads back a stored status string (exact match).
    pub fn parse(s: &str) -> (res: Result<EpisodeStatus, Error>)
        ensures
            match res {
                Ok(v) => status_name(v) == s@,
                Err(e) => {
                    &&& forall|v: EpisodeStatus| status_name(v) != s@
                    &&& e matches Error::Database(m) && m@ == invalid_text("EpisodeStatus"@, s@)
                },
            },
    {
        let v = chars_of(s);
        if eq_str(&v, "pending") {
            Ok(EpisodeStatus::Pending)
        } else if eq_str(&v, "processing") {
            Ok(EpisodeStatus::Processing)
        } else if eq_str(&v, "ready") {
            Ok(EpisodeStatus::Ready)
        } else if eq_str(&v, "failed") {
            Ok(EpisodeStatus::Failed)
        } else {
            Err(Error::Database(invalid_message("EpisodeStatus", s)))
        }
    }
}

impl JobState {
    /// The stable string stored in the database.
    pub fn as_str(&self) -> (res: &'static str)
        ensures
            res@ == job_state_name(*self),
    {
        match self {
            JobState::Pending => "pending",
            JobState::Extracting => "extracting",
            JobState::Normalizing => "normalizing",
            JobState::Segmenting => "segmenting",
            JobState::Synthesizing => "synthesizing",
            JobState::Assembling => "assembling",
            JobState::Ready => "ready",
            JobState::Failed => "failed",
        }
    }

    /// Reads back a stored job state string (exact match).
    pub fn parse(s: &str) -> (res: Result<JobState, Error>)
        ensures
            match res {
                Ok(v) => job_state_name(v) == s@,
                Err(e) => {
                    &&& forall|v: JobState| job_state_name(v) != s@
                    &&& e matches Error::Database(m) && m@ == invalid_text("JobState"@, s@)
                },
            },
    {
        let v = chars_of(s);
        if eq_str(&v, "pending") {
            Ok(JobState::Pending)
        } else if eq_str(&v, "extracting") {
            Ok(JobState::Extracting)
        } else if eq_str(&v, "normalizing") {
            Ok(JobState::Normalizing)
        } else if eq_str(&v, "segmenting") {
            Ok(JobState::Segmenting)
        } else if eq_str(&v, "synthesizing") {
            Ok(JobState::Synthesizing)
        } else if eq_str(&v, "assembling") {
            Ok(JobState::Assembling)
        } else if eq_str(&v, "ready") {
            Ok(JobState::Ready)
        } else if eq_str(&v, "failed") {
            Ok(JobState::Failed)
        } else {
            Err(Error::Database(invalid_message("JobState", s)))
        }
    }
}

/// Distinct statuses have distinct stored names, so reading a stored name back
/// gives the status that was stored.
pub proof fn law_status_names_distinct(a: EpisodeStatus, b: EpisodeStatus)
    ensures
        status_name(a) == status_name(b) ==> a == b,
{
    reveal_strlit("pending");
    reveal_strlit("processing");
    reveal_strlit("ready");
    reveal_strlit("failed");
    if status_name(a) == status_name(b) && a != b {
        assert(status_name(a).len() != status_name(b).len() || status_name(a)[0] != status_name(
            b,
        )[0]);
    }
}

/// Distinct job states have distinct stored names.
pub proof fn law_job_state_names_distinct(a: JobState, b: JobState)
    ensures
        job_state_name(a) == job_state_name(b) ==> a == b,
{
    reveal_strlit("pending");
    reveal_strlit("extracting");
    reveal_strlit("normalizing");
    reveal_strlit("segmenting");
    reveal_strlit("synthesizing");
    reveal_strlit("assembling");
    reveal_strlit("ready");
    reveal_strlit("failed");
    if job_state_name(a) == job_state_name(b) && a != b {
        assert(job_state_name(a).len() != job_state_name(b).len() || job_state_name(a)[0]
            != job_state_name(b)[0] || job_state_name(a)[1] != job_state_name(b)[1]);
    }
}


proof fn lemma_sections_chars_empty(ss: Seq<SectionView>)
    requires
        forall|i: int| 0 <= i < ss.len() ==> (#[trigger] ss[i]).paragraphs.len() == 0,
    ensures
        sections_chars(ss) == 0,
    decreases ss.len(),
{
    if ss.len() > 0 {
        assert(ss[ss.len() - 1].paragraphs.len() == 0);
        assert forall|i: int| 0 <= i < ss.drop_last().len() implies (
        #[trigger] ss.drop_last()[i]).paragraphs.len() == 0 by {
            assert(ss.drop_last()[i] == ss[i]);
        }
        lemma_sections_chars_empty(ss.drop_last());
    }
}

/// A document with no body text has a character count of zero.
pub proof fn law_empty_document_has_no_chars(d: DocumentView)
    requires
        doc_is_empty(d),
    ensures
        doc_chars(d) == 0,
{
    lemma_sections_chars_empty(d.sections);
}

} // verus!
