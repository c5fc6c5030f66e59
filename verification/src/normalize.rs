//! Rule-based normalizer: turns a structured document into speakable text.
//!
//! It strips references/bibliography sections, figure and table captions and
//! inline citation markers, repairs hyphenation across line breaks, and
//! collapses whitespace.
use vstd::prelude::*;

use crate::error::Error;
use crate::text::{ascii_lower, chars_of, collapse, collapse_ws, eq_str, lower_vec, trim_ws};
use crate::types::{Document, DocumentView, SectionView};

verus! {

#[verifier::external_type_specification]
#[verifier::external_body]
pub struct ExRegex(regex::Regex);

/// Whether `pattern` is accepted by `regex::Regex::new` (with its default limits).
pub uninterp spec fn regex_compiles(pattern: Seq<char>) -> bool;

/// What `Regex::replace_all` returns for the regex compiled from `pattern`.
pub uninterp spec fn regex_replace_all(pattern: Seq<char>, text: Seq<char>, rep: Seq<char>) -> Seq<
    char,
>;

/// What `Regex::is_match` returns for the regex compiled from `pattern`.
pub uninterp spec fn regex_is_match(pattern: Seq<char>, text: Seq<char>) -> bool;

/// A compiled regular expression together with the pattern it was compiled from.
pub struct Pattern {
    regex: regex::Regex,
    source: String,
}

impl Pattern {
    /// The pattern this regex was compiled from.
    pub closed spec fn source(&self) -> Seq<char> {
        self.source@
    }

    /// Compiles `p` with `regex::Regex::new`. Claims: success exactly when the
    /// pattern compiles, and the result remembers `p` as its source. The error's
    /// text is whatever the regex crate reports; nothing is claimed of it.
    #[verifier::external_body]
    fn compile(p: &str) -> (res: Result<Pattern, String>)
        ensures
            res is Ok <==> regex_compiles(p@),
            res matches Ok(r) ==> r.source() == p@,
    {
        match regex::Regex::new(p) {
            Ok(regex) => Ok(Pattern { regex, source: p.to_string() }),
            Err(e) => Err(e.to_string()),
        }
    }

    /// `Regex::replace_all(text, rep)`, owned. Claims: the result is the named
    /// replacement for this pattern, text and replacement.
    #[verifier::external_body]
    fn replace_all(&self, text: &str, rep: &str) -> (res: String)
        ensures
            res@ == regex_replace_all(self.source(), text@, rep@),
    {
        self.regex.replace_all(text, rep).into_owned()
    }

    /// `Regex::is_match(text)`. Claims: the result is the named match test for
    /// this pattern and text.
    #[verifier::external_body]
    fn is_match(&self, text: &str) -> (res: bool)
        ensures
            res == regex_is_match(self.source(), text@),
    {
        self.regex.is_match(text)
    }
}

/// `[12]`, `[3-5]`, `[2, 7]` style inline citation markers.
pub open spec fn citation_pattern() -> Seq<char> {
    "\\[\\s*\\d+(?:\\s*[-–,]\\s*\\d+)*\\s*\\]"@
}

/// Text that begins a figure or table caption.
pub open spec fn caption_pattern() -> Seq<char> {
    "(?i)^\\s*(figure|fig\\.?|table)\\s+\\d+"@
}

/// A word hyphenated across a line break: "exam-\nple".
pub open spec fn hyphenation_pattern() -> Seq<char> {
    "(\\w)-\\s*\\n\\s*(\\w)"@
}

/// Deterministic, rule-based text normalizer.
pub struct RuleNormalizer {
    citation: Pattern,
    caption: Pattern,
    hyphenation: Pattern,
}

/// A string literal in Rust debug form: quoted, with `\` and `"` escaped.
pub open spec fn debug_quoted(p: Seq<char>) -> Seq<char> {
    seq!['"'] + escaped(p) + seq!['"']
}

pub open spec fn escaped(p: Seq<char>) -> Seq<char>
    decreases p.len(),
{
    if p.len() == 0 {
        seq![]
    } else {
        escaped(p.drop_last()) + if p.last() == '\\' || p.last() == '"' {
            seq!['\\', p.last()]
        } else {
            seq![p.last()]
        }
    }
}

/// The message for a pattern the regex crate rejected.
pub open spec fn bad_regex_text(p: Seq<char>, detail: Seq<char>) -> Seq<char> {
    "bad regex "@ + debug_quoted(p) + ": "@ + detail
}

/// `"bad regex <p:?>: <detail>"`.
fn bad_regex_message(p: &str, detail: &str) -> (res: String)
    ensures
        res@ == bad_regex_text(p@, detail@),
{
    let v = chars_of(p);
    let mut m = String::new();
    m.push_str("bad regex ");
    m.push('"');
    let mut i: usize = 0;
    while i < v.len()
        invariant
            i <= v@.len(),
            v@ == p@,
            m@ == "bad regex "@ + seq!['"'] + escaped(v@.subrange(0, i as int)),
        decreases v@.len() - i,
    {
        let c = v[i];
        assert(v@.subrange(0, i + 1).drop_last() =~= v@.subrange(0, i as int));
        if c == '\\' || c == '"' {
            m.push('\\');
        }
        m.push(c);
        i = i + 1;
    }
    assert(v@.subrange(0, v@.len() as int) =~= v@);
    m.push('"');
    m.push_str(": ");
    m.push_str(detail);
    m
}

/// Compiles `p`, mapping a rejection to a configuration error.
fn compile_rule(p: &str) -> (res: Result<Pattern, Error>)
    ensures
        res is Ok <==> regex_compiles(p@),
        res matches Ok(r) ==> r.source() == p@,
        res matches Err(e) ==> bad_regex_error(e, p@),
{
    match Pattern::compile(p) {
        Ok(r) => Ok(r),
        Err(detail) => {
            let m = bad_regex_message(p, detail.as_str());
            assert(m@ == bad_regex_text(p@, detail@));
            Err(Error::Config(m))
        },
    }
}

/// The configuration error for a rejected pattern `p`, whatever the regex crate's detail.
pub open spec fn bad_regex_error(e: Error, p: Seq<char>) -> bool {
    e matches Error::Config(m) && exists|detail: Seq<char>| m@ == bad_regex_text(p, detail)
}

/// Headings that mark a section dropped entirely.
pub open spec fn dropped_heading(h: Seq<char>) -> bool {
    let t = ascii_lower(trim_ws(h));
    ||| t == "references"@
    ||| t == "bibliography"@
    ||| t == "works cited"@
    ||| t == "citations"@
    ||| t == "notes"@
    ||| t == "footnotes"@
}

/// `text` with words hyphenated across a line break joined. The pattern
/// needs a line feed to match, so text without one is left as it is.
pub open spec fn dehyphenated(text: Seq<char>) -> Seq<char> {
    if text.contains('\n') {
        regex_replace_all(hyphenation_pattern(), text, "$1$2"@)
    } else {
        text
    }
}

/// `text` with citation markers removed. The pattern needs a `[` to match,
/// so text without one is left as it is.
pub open spec fn decited(text: Seq<char>) -> Seq<char> {
    if text.contains('[') {
        regex_replace_all(citation_pattern(), text, ""@)
    } else {
        text
    }
}

/// A text fragment cleaned: hyphenation repaired, citation markers removed,
/// whitespace collapsed.
pub open spec fn clean_text(text: Seq<char>) -> Seq<char> {
    collapse(decited(dehyphenated(text)))
}

/// Whether `text` holds the character `c`.
fn holds_char(text: &str, c: char) -> (res: bool)
    ensures
        res == text@.contains(c),
{
    let v = chars_of(text);
    let mut i: usize = 0;
    while i < v.len()
        invariant
            i <= v@.len(),
            v@ == text@,
            forall|j: int| 0 <= j < i ==> v@[j] != c,
        decreases v@.len() - i,
    {
        if v[i] == c {
            assert(text@[i as int] == c);
            return true;
        }
        i = i + 1;
    }
    false
}

/// Cleaning text with no line feed and no `[` only collapses its whitespace:
/// every hyphen and every other character stays, since hyphenation is
/// repaired only across a line break and citation markers are bracketed.
pub proof fn law_plain_fragment_is_only_collapsed(text: Seq<char>)
    requires
        !text.contains('\n'),
        !text.contains('['),
    ensures
        clean_text(text) == collapse(text),
{
}

/// The cleaning rules: a citation marker is a bracketed number list, a
/// caption starts with "figure", "fig" or "table" and a number, and a
/// hyphenation to repair is a hyphen, then a line feed, between word characters.
pub proof fn law_cleaning_patterns()
    ensures
        citation_pattern() == "\\[\\s*\\d+(?:\\s*[-–,]\\s*\\d+)*\\s*\\]"@,
        caption_pattern() == "(?i)^\\s*(figure|fig\\.?|table)\\s+\\d+"@,
        hyphenation_pattern() == "(\\w)-\\s*\\n\\s*(\\w)"@,
{
}

/// `c` followed by `end`, or nothing when `c` is empty.
pub open spec fn line_or_nothing(c: Seq<char>, end: Seq<char>) -> Seq<char> {
    if c.len() > 0 {
        c + end
    } else {
        seq![]
    }
}

/// The speakable text of a list of paragraphs: captions dropped, each cleaned
/// one ending in a blank line.
pub open spec fn paragraphs_text(ps: Seq<Seq<char>>) -> Seq<char>
    decreases ps.len(),
{
    if ps.len() == 0 {
        seq![]
    } else {
        paragraphs_text(ps.drop_last()) + if regex_is_match(caption_pattern(), ps.last()) {
            seq![]
        } else {
            line_or_nothing(clean_text(ps.last()), "\n\n"@)
        }
    }
}

/// What one paragraph adds to the speakable text, given whether it is a
/// caption and its cleaned text: nothing for a caption or an empty cleaned
/// text, else the cleaned text and a blank line.
pub fn paragraph_piece(is_caption: bool, cleaned: &str) -> (res: String)
    ensures
        res@ == if is_caption {
            Seq::<char>::empty()
        } else {
            line_or_nothing(cleaned@, "\n\n"@)
        },
{
    let mut s = String::new();
    if !is_caption && !cleaned.is_empty() {
        s.push_str(cleaned);
        s.push_str("\n\n");
    }
    s
}

/// The speakable text of one section: nothing under a dropped heading, else the
/// cleaned heading as a sentence, then its paragraphs.
pub open spec fn section_text(s: SectionView) -> Seq<char> {
    match s.heading {
        Some(h) => if dropped_heading(h) {
            seq![]
        } else {
            line_or_nothing(clean_text(h), ".\n\n"@) + paragraphs_text(s.paragraphs)
        },
        None => paragraphs_text(s.paragraphs),
    }
}

pub open spec fn sections_text(ss: Seq<SectionView>) -> Seq<char>
    decreases ss.len(),
{
    if ss.len() == 0 {
        seq![]
    } else {
        sections_text(ss.drop_last()) + section_text(ss.last())
    }
}

/// The speakable text of a document before the final trim.
pub open spec fn document_text(d: DocumentView) -> Seq<char> {
    (match d.title {
        Some(t) => line_or_nothing(clean_text(t), ".\n\n"@),
        None => seq![],
    }) + sections_text(d.sections)
}

/// The message when nothing speakable is left.
pub open spec fn nothing_left_message() -> Seq<char> {
    "no speakable text remained after normalization"@
}

/// Turns a document into a single speakable plain-text string.
pub trait Normalizer {
    fn normalize(&self, document: &Document) -> Result<String, Error>;
}

impl RuleNormalizer {
    /// The patterns are the citation, caption and hyphenation rules.
    #[verifier::type_invariant]
    spec fn patterns_in_place(self) -> bool {
        &&& self.citation.source() == citation_pattern()
        &&& self.caption.source() == caption_pattern()
        &&& self.hyphenation.source() == hyphenation_pattern()
    }

    /// Compiles the cleaning patterns.
    pub fn new() -> (res: Result<Self, Error>)
        ensures
            res is Ok <==> (regex_compiles(citation_pattern()) && regex_compiles(caption_pattern())
                && regex_compiles(hyphenation_pattern())),
            res matches Err(e) ==> if !regex_compiles(citation_pattern()) {
                bad_regex_error(e, citation_pattern())
            } else if !regex_compiles(caption_pattern()) {
                bad_regex_error(e, caption_pattern())
            } else {
                bad_regex_error(e, hyphenation_pattern())
            },
    {
        let citation = match compile_rule("\\[\\s*\\d+(?:\\s*[-–,]\\s*\\d+)*\\s*\\]") {
            Ok(r) => r,
            Err(e) => return Err(e),
        };
        let caption = match compile_rule("(?i)^\\s*(figure|fig\\.?|table)\\s+\\d+") {
            Ok(r) => r,
            Err(e) => return Err(e),
        };
        let hyphenation = match compile_rule("(\\w)-\\s*\\n\\s*(\\w)") {
            Ok(r) => r,
            Err(e) => return Err(e),
        };
        Ok(RuleNormalizer { citation, caption, hyphenation })
    }

    /// Headings that mark a section dropped entirely.
    pub fn is_dropped_heading(heading: &str) -> (res: bool)
        ensures
            res == dropped_heading(heading@),
    {
        let t = lower_vec(&chars_of(heading.trim()));
        eq_str(&t, "references") || eq_str(&t, "bibliography") || eq_str(&t, "works cited")
            || eq_str(&t, "citations") || eq_str(&t, "notes") || eq_str(&t, "footnotes")
    }

    /// Cleans a single text fragment.
    pub fn clean(&self, text: &str) -> (res: String)
        ensures
            res@ == clean_text(text@),
    {
        proof {
            use_type_invariant(self);
        }
        let joined = if holds_char(text, '\n') {
            self.hyphenation.replace_all(text, "$1$2")
        } else {
            text.to_owned()
        };
        let unmarked = if holds_char(joined.as_str(), '[') {
            self.citation.replace_all(joined.as_str(), "")
        } else {
            joined
        };
        collapse_ws(unmarked.as_str())
    }
}


impl Normalizer for RuleNormalizer {
    fn normalize(&self, document: &Document) -> (res: Result<String, Error>)
        ensures
            trim_ws(document_text(document@)).len() > 0 <==> res is Ok,
            res matches Ok(s) ==> s@ == trim_ws(document_text(document@)),
            res matches Err(e) ==> (e matches Error::Extraction(m) && m@ == nothing_left_message()),
    {
        proof {
            use_type_invariant(self);
        }
        let mut out = String::new();
        let ghost title_part = match document@.title {
            Some(t) => line_or_nothing(clean_text(t), ".\n\n"@),
            None => seq![],
        };
        match &document.title {
            Some(title) => {
                let t = self.clean(title.as_str());
                if !t.as_str().is_empty() {
                    out.push_str(t.as_str());
                    out.push_str(".\n\n");
                }
            },
            None => {},
        }
        assert(out@ =~= title_part);
        let ghost ss = document@.sections;
        let mut i: usize = 0;
        while i < document.sections.len()
            invariant
                ss == document@.sections,
                ss.len() == document.sections@.len(),
                i <= ss.len(),
                out@ == title_part + sections_text(ss.subrange(0, i as int)),
                self.caption.source() == caption_pattern(),
                self.citation.source() == citation_pattern(),
                self.hyphenation.source() == hyphenation_pattern(),
            decreases ss.len() - i,
        {
            let section = &document.sections[i];
            let ghost sv = section@;
            proof {
                assert(ss[i as int] == sv);
                assert(ss.subrange(0, i + 1).drop_last() =~= ss.subrange(0, i as int));
            }
            let ghost before = out@;
            let mut skip = false;
            match &section.heading {
                Some(h) => {
                    if RuleNormalizer::is_dropped_heading(h.as_str()) {
                        skip = true;
                    } else {
                        let hc = self.clean(h.as_str());
                        if !hc.as_str().is_empty() {
                            out.push_str(hc.as_str());
                            out.push_str(".\n\n");
                        }
                    }
                },
                None => {},
            }
            if !skip {
                let ghost head_part = out@;
                let ghost ps = sv.paragraphs;
                proof {
                    assert(head_part =~= before + match sv.heading {
                        Some(h) => line_or_nothing(clean_text(h), ".\n\n"@),
                        None => seq![],
                    });
                }
                let mut j: usize = 0;
                assert(ps.subrange(0, 0) =~= Seq::<Seq<char>>::empty());
                assert(head_part + paragraphs_text(ps.subrange(0, 0)) =~= head_part);
                while j < section.paragraphs.len()
                    invariant
                        ps == sv.paragraphs,
                        sv == section@,
                        ps.len() == section.paragraphs@.len(),
                        j <= ps.len(),
                        out@ == head_part + paragraphs_text(ps.subrange(0, j as int)),
                        self.caption.source() == caption_pattern(),
                        self.citation.source() == citation_pattern(),
                        self.hyphenation.source() == hyphenation_pattern(),
                    decreases ps.len() - j,
                {
                    let para = &section.paragraphs[j];
                    proof {
                        assert(ps[j as int] == para@);
                        assert(ps.subrange(0, j + 1).drop_last() =~= ps.subrange(0, j as int));
                    }
                    let ghost prev = out@;
                    let is_caption = self.caption.is_match(para.as_str());
                    let cleaned = if is_caption {
                        String::new()
                    } else {
                        self.clean(para.as_str())
                    };
                    let piece = paragraph_piece(is_caption, cleaned.as_str());
                    out.push_str(piece.as_str());
                    assert(out@ =~= prev + if regex_is_match(caption_pattern(), para@) {
                        seq![]
                    } else {
                        line_or_nothing(clean_text(para@), "\n\n"@)
                    });
                    j = j + 1;
                }
                assert(ps.subrange(0, ps.len() as int) =~= ps);
            }
            assert(out@ =~= title_part + sections_text(ss.subrange(0, i + 1)));
            i = i + 1;
        }
        assert(ss.subrange(0, ss.len() as int) =~= ss);
        let trimmed = out.as_str().trim();
        if trimmed.is_empty() {
            let mut m = String::new();
            m.push_str("no speakable text remained after normalization");
            Err(Error::Extraction(m))
        } else {
            Ok(trimmed.to_owned())
        }
    }
}


proof fn lemma_sections_text_append(a: Seq<SectionView>, b: Seq<SectionView>)
    ensures
        sections_text(a + b) == sections_text(a) + sections_text(b),
    decreases b.len(),
{
    if b.len() == 0 {
        assert(a + b =~= a);
        assert(sections_text(a) + sections_text(b) =~= sections_text(a));
    } else {
        lemma_sections_text_append(a, b.drop_last());
        assert((a + b).drop_last() =~= a + b.drop_last());
        assert((a + b).last() == b.last());
        assert(sections_text(a) + sections_text(b.drop_last()) + section_text(b.last())
            =~= sections_text(a) + (sections_text(b.drop_last()) + section_text(b.last())));
    }
}

/// A section under a references-style heading adds nothing: the document
/// reads the same with that section removed.
pub proof fn law_dropped_section_silent(d: DocumentView, k: int)
    requires
        0 <= k < d.sections.len(),
        d.sections[k].heading matches Some(h) && dropped_heading(h),
    ensures
        document_text(d) == document_text(
            DocumentView { title: d.title, sections: d.sections.remove(k) },
        ),
{
    let ss = d.sections;
    let a = ss.subrange(0, k);
    let b = ss.subrange(k + 1, ss.len() as int);
    assert(ss =~= a + seq![ss[k]] + b);
    assert(ss.remove(k) =~= a + b);
    lemma_sections_text_append(a + seq![ss[k]], b);
    lemma_sections_text_append(a, seq![ss[k]]);
    lemma_sections_text_append(a, b);
    assert(seq![ss[k]].drop_last() =~= Seq::<SectionView>::empty());
    assert(section_text(ss[k]) =~= Seq::<char>::empty());
    assert(seq![ss[k]].last() == ss[k]);
    assert(sections_text(Seq::<SectionView>::empty()) =~= Seq::<char>::empty());
    assert(sections_text(seq![ss[k]]) == sections_text(seq![ss[k]].drop_last()) + section_text(
        seq![ss[k]].last(),
    ));
    assert(sections_text(seq![ss[k]]) =~= Seq::<char>::empty());
    assert(sections_text(a) + sections_text(seq![ss[k]]) =~= sections_text(a));
}


proof fn lemma_paragraphs_text_append(a: Seq<Seq<char>>, b: Seq<Seq<char>>)
    ensures
        paragraphs_text(a + b) == paragraphs_text(a) + paragraphs_text(b),
    decreases b.len(),
{
    if b.len() == 0 {
        assert(a + b =~= a);
        assert(paragraphs_text(a) + paragraphs_text(b) =~= paragraphs_text(a));
    } else {
        lemma_paragraphs_text_append(a, b.drop_last());
        assert((a + b).drop_last() =~= a + b.drop_last());
        assert((a + b).last() == b.last());
        let tail = if regex_is_match(caption_pattern(), b.last()) {
            Seq::<char>::empty()
        } else {
            line_or_nothing(clean_text(b.last()), "\n\n"@)
        };
        assert(paragraphs_text(a) + paragraphs_text(b.drop_last()) + tail =~= paragraphs_text(a)
            + (paragraphs_text(b.drop_last()) + tail));
    }
}

/// A figure or table caption adds nothing: the paragraphs read the same with
/// the caption removed.
pub proof fn law_caption_silent(ps: Seq<Seq<char>>, k: int)
    requires
        0 <= k < ps.len(),
        regex_is_match(caption_pattern(), ps[k]),
    ensures
        paragraphs_text(ps) == paragraphs_text(ps.remove(k)),
{
    let a = ps.subrange(0, k);
    let b = ps.subrange(k + 1, ps.len() as int);
    assert(ps =~= a + seq![ps[k]] + b);
    assert(ps.remove(k) =~= a + b);
    lemma_paragraphs_text_append(a + seq![ps[k]], b);
    lemma_paragraphs_text_append(a, seq![ps[k]]);
    lemma_paragraphs_text_append(a, b);
    assert(seq![ps[k]].drop_last() =~= Seq::<Seq<char>>::empty());
    assert(seq![ps[k]].last() == ps[k]);
    assert(paragraphs_text(Seq::<Seq<char>>::empty()) =~= Seq::<char>::empty());
    assert(paragraphs_text(seq![ps[k]]) =~= Seq::<char>::empty());
    assert(paragraphs_text(a) + paragraphs_text(seq![ps[k]]) =~= paragraphs_text(a));
}

} // verus!
