//! Cleaning of text pulled out of a PDF.
//!
//! PDFs store positioned glyphs, not structure, so this is heuristic: it drops
//! page numbers, repeated headers/footers and everything from a "References"
//! line onward, repairs hyphenation, and rebuilds paragraphs.
use vstd::prelude::*;

use crate::chunk::finish;
use crate::error::Error;
use crate::text::{
    all_digits, ascii_lower, chars_of, collapse, collapse_range, digits_only, eq_str, lower_vec,
    starts_with_str, sub_vec, trim_bounds, trim_ws, utf8_len, utf8_len_at_most,
};
use crate::types::{opt_view, Document, DocumentView, Section, SectionView, Source};

verus! {

/// Extracts text from local PDF files.
#[derive(Default)]
pub struct PdfExtractor;

impl PdfExtractor {
    pub fn new() -> (res: Self) {
        PdfExtractor
    }
}

/// `lower` starts with `label` and what follows, trimmed, is a non-empty run of digits.
pub open spec fn labelled_number(lower: Seq<char>, label: Seq<char>) -> bool {
    &&& label.len() <= lower.len()
    &&& lower.subrange(0, label.len() as int) == label
    &&& trim_ws(lower.subrange(label.len() as int, lower.len() as int)).len() > 0
    &&& all_digits(trim_ws(lower.subrange(label.len() as int, lower.len() as int)))
}

/// A line that is just a page number, e.g. "12" or "Page 3".
pub open spec fn page_number_line(s: Seq<char>) -> bool {
    let t = trim_ws(s);
    if t.len() == 0 || utf8_len(t) > 12 {
        false
    } else {
        let lower = ascii_lower(t);
        ||| all_digits(t) && utf8_len(t) <= 4
        ||| labelled_number(lower, "page "@)
        ||| labelled_number(lower, "seite "@)
        ||| labelled_number(lower, "pág "@)
        ||| labelled_number(lower, "pagina "@)
        ||| labelled_number(lower, "p. "@)
    }
}

/// A line marking the start of the references section.
pub open spec fn reference_header_line(s: Seq<char>) -> bool {
    let t = ascii_lower(trim_ws(s));
    utf8_len(t) < 24 && (t == "references"@ || t == "bibliography"@ || t == "works cited"@)
}

/// Whether `lower` is a page label `label` followed by a number.
fn has_label(lower: &Vec<char>, label: &str) -> (res: bool)
    ensures
        res == labelled_number(lower@, label@),
{
    if !starts_with_str(lower, label) {
        return false;
    }
    let k = chars_of(label).len();
    let (a, b) = trim_bounds(lower, k, lower.len());
    a < b && digits_only(lower, a, b)
}

/// A line that is just a page number, e.g. "12" or "Page 3".
pub fn is_page_number(line: &str) -> (res: bool)
    ensures
        res == page_number_line(line@),
{
    let v = chars_of(line);
    is_page_number_vec(&v)
}

/// Whether the line `line` is just a page number.
fn is_page_number_vec(line: &Vec<char>) -> (res: bool)
    ensures
        res == page_number_line(line@),
{
    let (x, y) = trim_bounds(line, 0, line.len());
    assert(line@.subrange(0, line@.len() as int) =~= line@);
    let t = sub_vec(line, x, y);
    if t.len() == 0 || !utf8_len_at_most(&t, 0, t.len(), 12) {
        assert(t@.subrange(0, t@.len() as int) =~= t@);
        return false;
    }
    assert(t@.subrange(0, t@.len() as int) =~= t@);
    let lower = lower_vec(&t);
    let short = utf8_len_at_most(&t, 0, t.len(), 4);
    (digits_only(&t, 0, t.len()) && short) || has_label(&lower, "page ") || has_label(
        &lower,
        "seite ",
    ) || has_label(&lower, "pág ") || has_label(&lower, "pagina ") || has_label(&lower, "p. ")
}

/// Whether the trimmed, lowercased line `t` is a references heading.
fn is_reference_header_lower(t: &Vec<char>) -> (res: bool)
    ensures
        res == (utf8_len(t@) < 24 && (t@ == "references"@ || t@ == "bibliography"@ || t@
            == "works cited"@)),
{
    let short = utf8_len_at_most(t, 0, t.len(), 23);
    assert(t@.subrange(0, t@.len() as int) =~= t@);
    short && (eq_str(t, "references") || eq_str(t, "bibliography") || eq_str(t, "works cited"))
}

/// A line marking the start of the references section (dropped onward).
pub fn is_reference_header(line: &str) -> (res: bool)
    ensures
        res == reference_header_line(line@),
{
    let t = lower_vec(&chars_of(line.trim()));
    is_reference_header_lower(&t)
}


/// The lines of `s[start..]`, scanning from `i`: cut at each `'\n'`, which is
/// dropped, with no empty line after a final `'\n'` (as `str::lines`; a `'\r'`
/// before the `'\n'` stays and is removed by the trimming every line gets).
pub open spec fn line_rest(s: Seq<char>, start: int, i: int) -> Seq<Seq<char>>
    decreases s.len() - i,
{
    if i >= s.len() {
        if start < s.len() {
            seq![s.subrange(start, s.len() as int)]
        } else {
            seq![]
        }
    } else if s[i] == '\n' {
        seq![s.subrange(start, i)] + line_rest(s, i + 1, i + 1)
    } else {
        line_rest(s, start, i + 1)
    }
}

/// The lines of `s`, each trimmed.
pub open spec fn trimmed_lines(s: Seq<char>) -> Seq<Seq<char>> {
    line_rest(s, 0, 0).map_values(|l: Seq<char>| trim_ws(l))
}

/// How many of `ts` equal `t`.
pub open spec fn count_in(ts: Seq<Seq<char>>, t: Seq<char>) -> nat
    decreases ts.len(),
{
    if ts.len() == 0 {
        0
    } else {
        count_in(ts.drop_last(), t) + if ts.last() == t {
            1nat
        } else {
            0nat
        }
    }
}

/// A short line that occurs three or more times is taken for a running header or footer.
pub open spec fn repeated_line(ts: Seq<Seq<char>>, t: Seq<char>) -> bool {
    utf8_len(t) <= 60 && count_in(ts, t) >= 3
}

/// Builds paragraphs from the trimmed lines `ts[i..]` onto `(paras, cur)`:
/// a blank line closes the paragraph; a references heading ends the text;
/// page numbers and lines repeated in `all` are skipped; a line continues the
/// paragraph, joined by a space, or directly where the paragraph ends in a
/// hyphen, which is dropped.
pub open spec fn pdf_from(
    ts: Seq<Seq<char>>,
    all: Seq<Seq<char>>,
    i: int,
    paras: Seq<Seq<char>>,
    cur: Seq<char>,
) -> Seq<Seq<char>>
    decreases ts.len() - i,
{
    if i >= ts.len() {
        finish(paras, cur)
    } else {
        let t = ts[i];
        if t.len() == 0 {
            pdf_from(
                ts,
                all,
                i + 1,
                if trim_ws(cur).len() > 0 {
                    paras.push(cur)
                } else {
                    paras
                },
                seq![],
            )
        } else if reference_header_line(t) {
            finish(paras, cur)
        } else if page_number_line(t) || repeated_line(all, t) {
            pdf_from(ts, all, i + 1, paras, cur)
        } else if cur.len() > 0 && cur.last() == '-' {
            pdf_from(ts, all, i + 1, paras, cur.drop_last() + t)
        } else if cur.len() > 0 {
            pdf_from(ts, all, i + 1, paras, cur + seq![' '] + t)
        } else {
            pdf_from(ts, all, i + 1, paras, t)
        }
    }
}

/// Each piece with whitespace collapsed, empty ones dropped.
pub open spec fn collapsed_kept(ps: Seq<Seq<char>>) -> Seq<Seq<char>>
    decreases ps.len(),
{
    if ps.len() == 0 {
        seq![]
    } else {
        let c = collapse(ps.last());
        let r = collapsed_kept(ps.drop_last());
        if c.len() > 0 {
            r.push(c)
        } else {
            r
        }
    }
}

/// The paragraphs recovered from raw PDF text.
pub open spec fn pdf_paragraphs(raw: Seq<char>) -> Seq<Seq<char>> {
    collapsed_kept(pdf_from(trimmed_lines(raw), trimmed_lines(raw), 0, seq![], seq![]))
}

/// The single-section document built from raw PDF text.
pub open spec fn pdf_document(raw: Seq<char>, title: Option<Seq<char>>) -> DocumentView {
    DocumentView {
        title: title,
        sections: seq![SectionView { heading: None, paragraphs: pdf_paragraphs(raw) }],
    }
}

/// The character views of a list of character vectors.
pub open spec fn vviews(v: Seq<Vec<char>>) -> Seq<Seq<char>> {
    v.map_values(|x: Vec<char>| x@)
}

/// Bounds of the lines of `v`.
fn line_bounds(v: &Vec<char>) -> (res: Vec<(usize, usize)>)
    ensures
        res@.map_values(|r: (usize, usize)| v@.subrange(r.0 as int, r.1 as int)) == line_rest(
            v@,
            0,
            0,
        ),
        forall|k: int| 0 <= k < res@.len() ==> (#[trigger] res@[k]).0 <= res@[k].1 <= v@.len(),
{
    let n = v.len();
    let mut res: Vec<(usize, usize)> = Vec::new();
    let mut start: usize = 0;
    let mut i: usize = 0;
    while i < n
        invariant
            n == v@.len(),
            start <= i <= n,
            res@.map_values(|r: (usize, usize)| v@.subrange(r.0 as int, r.1 as int)) + line_rest(
                v@,
                start as int,
                i as int,
            ) == line_rest(v@, 0, 0),
            forall|k: int| 0 <= k < res@.len() ==> (#[trigger] res@[k]).0 <= res@[k].1 <= v@.len(),
        decreases n - i,
    {
        if v[i] == '\n' {
            let ghost old_res = res@;
            res.push((start, i));
            assert(res@.map_values(|r: (usize, usize)| v@.subrange(r.0 as int, r.1 as int))
                =~= old_res.map_values(|r: (usize, usize)| v@.subrange(r.0 as int, r.1 as int))
                + seq![v@.subrange(start as int, i as int)]);
            start = i + 1;
        }
        i = i + 1;
    }
    let ghost old_res = res@;
    if start < n {
        res.push((start, n));
    }
    assert(res@.map_values(|r: (usize, usize)| v@.subrange(r.0 as int, r.1 as int)) =~= old_res.map_values(
        |r: (usize, usize)| v@.subrange(r.0 as int, r.1 as int),
    ) + line_rest(v@, start as int, n as int));
    res
}

/// Whether two character vectors are equal.
fn vec_eq(a: &Vec<char>, b: &Vec<char>) -> (res: bool)
    ensures
        res == (a@ == b@),
{
    if a.len() != b.len() {
        return false;
    }
    let mut i: usize = 0;
    while i < a.len()
        invariant
            a@.len() == b@.len(),
            i <= a@.len(),
            forall|j: int| 0 <= j < i ==> a@[j] == b@[j],
        decreases a@.len() - i,
    {
        if a[i] != b[i] {
            return false;
        }
        i = i + 1;
    }
    assert(a@ =~= b@);
    true
}

/// How many of `ts` equal `t`.
fn count_eq(ts: &Vec<Vec<char>>, t: &Vec<char>) -> (res: usize)
    ensures
        res == count_in(vviews(ts@), t@),
{
    let mut res: usize = 0;
    let mut k: usize = 0;
    while k < ts.len()
        invariant
            k <= ts@.len(),
            res <= k,
            res == count_in(vviews(ts@).subrange(0, k as int), t@),
        decreases ts@.len() - k,
    {
        assert(vviews(ts@).subrange(0, k + 1).drop_last() =~= vviews(ts@).subrange(0, k as int));
        if vec_eq(&ts[k], t) {
            res = res + 1;
        }
        k = k + 1;
    }
    assert(vviews(ts@).subrange(0, ts@.len() as int) =~= vviews(ts@));
    res
}

/// Appends the characters of `src` to `dst`.
fn append_chars(dst: &mut Vec<char>, src: &Vec<char>)
    ensures
        final(dst)@ == old(dst)@ + src@,
{
    let mut i: usize = 0;
    while i < src.len()
        invariant
            i <= src@.len(),
            dst@ == old(dst)@ + src@.subrange(0, i as int),
        decreases src@.len() - i,
    {
        dst.push(src[i]);
        assert(src@.subrange(0, i + 1) =~= src@.subrange(0, i as int).push(src@[i as int]));
        i = i + 1;
    }
    assert(src@.subrange(0, src@.len() as int) =~= src@);
}

/// Turns raw PDF text into a cleaned single-section document.
pub fn clean_pdf_text(raw: &str, title: Option<String>) -> (res: Document)
    ensures
        res@ == pdf_document(raw@, opt_view(title)),
{
    let v = chars_of(raw);
    let lb = line_bounds(&v);
    let mut ts: Vec<Vec<char>> = Vec::new();
    let mut k: usize = 0;
    while k < lb.len()
        invariant
            k <= lb@.len(),
            forall|j: int| 0 <= j < lb@.len() ==> (#[trigger] lb@[j]).0 <= lb@[j].1 <= v@.len(),
            vviews(ts@) == lb@.subrange(0, k as int).map_values(
                |r: (usize, usize)| trim_ws(v@.subrange(r.0 as int, r.1 as int)),
            ),
        decreases lb@.len() - k,
    {
        let (a, b) = lb[k];
        let (x, y) = trim_bounds(&v, a, b);
        let ghost old_ts = vviews(ts@);
        ts.push(sub_vec(&v, x, y));
        assert(vviews(ts@) =~= old_ts.push(trim_ws(v@.subrange(a as int, b as int))));
        assert(lb@.subrange(0, k + 1) =~= lb@.subrange(0, k as int).push(lb@[k as int]));
        assert(vviews(ts@) =~= lb@.subrange(0, k + 1).map_values(
            |r: (usize, usize)| trim_ws(v@.subrange(r.0 as int, r.1 as int)),
        ));
        k = k + 1;
    }
    let ghost tsv = vviews(ts@);
    proof {
        assert(lb@.subrange(0, lb@.len() as int) =~= lb@);
        assert(tsv =~= trimmed_lines(v@));
    }
    let ghost target = pdf_from(tsv, tsv, 0, seq![], seq![]);
    assert forall|j: int| 0 <= j < tsv.len() implies trim_ws(#[trigger] tsv[j]) == tsv[j] by {
        crate::text::lemma_trim_idem(line_rest(v@, 0, 0)[j]);
    }
    let mut paras: Vec<Vec<char>> = Vec::new();
    let mut cur: Vec<char> = Vec::new();
    let mut stop = false;
    let mut i: usize = 0;
    assert(vviews(paras@) =~= seq![]);
    while i < ts.len() && !stop
        invariant
            tsv == vviews(ts@),
            forall|j: int| 0 <= j < tsv.len() ==> trim_ws(#[trigger] tsv[j]) == tsv[j],
            i <= ts@.len(),
            (if stop {
                finish(vviews(paras@), cur@)
            } else {
                pdf_from(tsv, tsv, i as int, vviews(paras@), cur@)
            }) == target,
        decreases ts@.len() - i,
    {
        let t = &ts[i];
        assert(tsv[i as int] == t@);
        let ghost p0 = vviews(paras@);
        let ghost c0 = cur@;
        if t.len() == 0 {
            let (a, b) = trim_bounds(&cur, 0, cur.len());
            assert(cur@.subrange(0, cur@.len() as int) =~= cur@);
            if a < b {
                let ghost old_p = vviews(paras@);
                paras.push(cur);
                assert(vviews(paras@) =~= old_p.push(cur@));
            }
            cur = Vec::new();
            assert(cur@ =~= seq![]);
            assert(pdf_from(tsv, tsv, i as int, p0, c0) == pdf_from(tsv, tsv, i + 1, vviews(paras@), cur@));
        } else {
            let lower = lower_vec(t);
            assert(trim_ws(t@) == t@);
            if is_reference_header_lower(&lower) {
                stop = true;
            } else {
                let skip = if is_page_number_vec(t) {
                    true
                } else if utf8_len_at_most(t, 0, t.len(), 60) {
                    count_eq(&ts, t) >= 3
                } else {
                    false
                };
                assert(t@.subrange(0, t@.len() as int) =~= t@);
                assert(skip == (page_number_line(t@) || repeated_line(tsv, t@)));
                if !skip {
                    if cur.len() > 0 && cur[cur.len() - 1] == '-' {
                        cur.pop();
                        append_chars(&mut cur, t);
                        assert(cur@ =~= c0.drop_last() + t@);
                    } else {
                        if cur.len() > 0 {
                            cur.push(' ');
                            append_chars(&mut cur, t);
                            assert(cur@ =~= c0 + seq![' '] + t@);
                        } else {
                            append_chars(&mut cur, t);
                            assert(cur@ =~= t@);
                        }
                    }
                }
                assert(pdf_from(tsv, tsv, i as int, p0, c0) == pdf_from(tsv, tsv, i + 1, vviews(paras@), cur@));
            }
        }
        i = i + 1;
    }
    let mut out: Vec<String> = Vec::new();
    let (a, b) = trim_bounds(&cur, 0, cur.len());
    assert(cur@.subrange(0, cur@.len() as int) =~= cur@);
    if a < b {
        paras.push(cur);
    }
    let ghost ps = vviews(paras@);
    assert(ps == target);
    let mut j: usize = 0;
    while j < paras.len()
        invariant
            ps == vviews(paras@),
            j <= paras@.len(),
            crate::text::views(out@) == collapsed_kept(ps.subrange(0, j as int)),
        decreases paras@.len() - j,
    {
        let p = &paras[j];
        let c = collapse_range(p, 0, p.len());
        assert(p@.subrange(0, p@.len() as int) =~= p@);
        assert(ps.subrange(0, j + 1).drop_last() =~= ps.subrange(0, j as int));
        assert(ps[j as int] == p@);
        if !c.as_str().is_empty() {
            let ghost old_o = crate::text::views(out@);
            out.push(c);
            assert(crate::text::views(out@) =~= old_o.push(c@));
        }
        j = j + 1;
    }
    assert(ps.subrange(0, ps.len() as int) =~= ps);
    let doc = Document { title: title, sections: vec![Section { heading: None, paragraphs: out }] };
    assert(doc@.sections =~= pdf_document(raw@, opt_view(title)).sections);
    doc
}


/// Every piece is non-empty with its whitespace already collapsed.
pub open spec fn all_clean(ps: Seq<Seq<char>>) -> bool {
    forall|k: int| 0 <= k < ps.len() ==> (#[trigger] ps[k]).len() > 0 && collapse(ps[k]) == ps[k]
}

proof fn lemma_collapsed_kept_clean(ps: Seq<Seq<char>>)
    ensures
        all_clean(collapsed_kept(ps)),
    decreases ps.len(),
{
    if ps.len() > 0 {
        lemma_collapsed_kept_clean(ps.drop_last());
        crate::text::lemma_collapse_idem(ps.last());
        let r = collapsed_kept(ps.drop_last());
        let c = collapse(ps.last());
        if c.len() > 0 {
            assert forall|k: int| 0 <= k < r.push(c).len() implies (#[trigger] r.push(c)[k]).len()
                > 0 && collapse(r.push(c)[k]) == r.push(c)[k] by {
                if k < r.len() {
                    assert(r.push(c)[k] == r[k]);
                }
            }
        }
    }
}

/// Every paragraph recovered from a PDF is non-empty and single-spaced, with
/// no leading or trailing whitespace.
pub proof fn law_pdf_paragraphs_clean(raw: Seq<char>)
    ensures
        all_clean(pdf_paragraphs(raw)),
{
    lemma_collapsed_kept_clean(pdf_from(trimmed_lines(raw), trimmed_lines(raw), 0, seq![], seq![]));
}

/// A file stem with `_` and `-` read as spaces.
pub open spec fn stem_title(stem: Seq<char>) -> Seq<char> {
    stem.map_values(|c: char| if c == '_' || c == '-' { ' ' } else { c })
}

/// The title taken from a file stem, if the stem has any non-whitespace text.
pub open spec fn title_from_stem(stem: Option<Seq<char>>) -> Option<Seq<char>> {
    match stem {
        Some(s) => if trim_ws(stem_title(s)).len() > 0 {
            Some(stem_title(s))
        } else {
            None
        },
        None => None,
    }
}

/// The message for a PDF that yielded no body text.
pub open spec fn no_text_message() -> Seq<char> {
    "no usable text extracted from PDF (scanned or image-only?)"@
}

impl PdfExtractor {
    /// The document title derived from the file's stem (`_` and `-` read as spaces).
    pub fn title_from_stem(stem: Option<&str>) -> (res: Option<String>)
        ensures
            opt_view(res) == title_from_stem(
                match stem {
                    Some(s) => Some(s@),
                    None => None,
                },
            ),
    {
        match stem {
            None => None,
            Some(s) => {
                let v = chars_of(s);
                let mut out = String::new();
                let mut w: Vec<char> = Vec::new();
                let mut i: usize = 0;
                while i < v.len()
                    invariant
                        i <= v@.len(),
                        v@ == s@,
                        out@ == stem_title(v@.subrange(0, i as int)),
                        w@ == out@,
                    decreases v@.len() - i,
                {
                    let c = v[i];
                    let d = if c == '_' || c == '-' {
                        ' '
                    } else {
                        c
                    };
                    out.push(d);
                    w.push(d);
                    assert(stem_title(v@.subrange(0, i + 1)) =~= stem_title(
                        v@.subrange(0, i as int),
                    ).push(d));
                    i = i + 1;
                }
                assert(v@.subrange(0, v@.len() as int) =~= v@);
                let (a, b) = trim_bounds(&w, 0, w.len());
                assert(w@.subrange(0, w@.len() as int) =~= w@);
                if a < b {
                    Some(out)
                } else {
                    None
                }
            },
        }
    }

    /// The path of a file source; any other source is not for this extractor.
    pub fn file_path(&self, source: &Source) -> (res: Result<std::path::PathBuf, Error>)
        ensures
            source is File <==> res is Ok,
            source matches Source::File(p) ==> res == Ok::<std::path::PathBuf, Error>(*p),
            !(source is File) ==> (res matches Err(Error::InvalidSource(m)) && m@
                == "PdfExtractor only handles files"@),
    {
        match source {
            Source::File(p) => Ok(p.clone()),
            _ => {
                let mut m = String::new();
                m.push_str("PdfExtractor only handles files");
                Err(Error::InvalidSource(m))
            },
        }
    }

    /// The document for the text extracted from a PDF, or an error when it
    /// holds no usable body text (a scanned or image-only file).
    pub fn document_from_text(&self, raw: &str, title: Option<String>) -> (res: Result<
        Document,
        Error,
    >)
        ensures
            pdf_paragraphs(raw@).len() > 0 <==> res is Ok,
            res matches Ok(d) ==> d@ == pdf_document(raw@, opt_view(title)),
            res matches Err(e) ==> e matches Error::Extraction(m) && m@ == no_text_message(),
    {
        let doc = clean_pdf_text(raw, title);
        if doc.is_empty() {
            assert(doc@.sections[0].paragraphs.len() == 0);
            let mut m = String::new();
            m.push_str("no usable text extracted from PDF (scanned or image-only?)");
            Err(Error::Extraction(m))
        } else {
            Ok(doc)
        }
    }
}


proof fn lemma_pdf_stops_at_header(
    ts: Seq<Seq<char>>,
    all: Seq<Seq<char>>,
    h: int,
    i: int,
    paras: Seq<Seq<char>>,
    cur: Seq<char>,
)
    requires
        0 <= i <= h < ts.len(),
        ts[h].len() > 0,
        reference_header_line(ts[h]),
    ensures
        pdf_from(ts, all, i, paras, cur) == pdf_from(ts.subrange(0, h), all, i, paras, cur),
    decreases h - i,
{
    let tk = ts.subrange(0, h);
    if i < h {
        assert(tk[i] == ts[i]);
        let t = ts[i];
        let np = if trim_ws(cur).len() > 0 {
            paras.push(cur)
        } else {
            paras
        };
        lemma_pdf_stops_at_header(ts, all, h, i + 1, np, seq![]);
        lemma_pdf_stops_at_header(ts, all, h, i + 1, paras, cur);
        if cur.len() > 0 {
            lemma_pdf_stops_at_header(ts, all, h, i + 1, paras, cur.drop_last() + t);
            lemma_pdf_stops_at_header(ts, all, h, i + 1, paras, cur + seq![' '] + t);
        }
        lemma_pdf_stops_at_header(ts, all, h, i + 1, paras, t);
    }
}

/// Nothing from a references heading onward is read: the text recovered from
/// the lines equals that recovered from the lines before any such heading
/// (running headers are still recognised by counting over all the lines).
pub proof fn law_pdf_ignores_text_after_references(ts: Seq<Seq<char>>, h: int)
    requires
        0 <= h < ts.len(),
        ts[h].len() > 0,
        reference_header_line(ts[h]),
    ensures
        pdf_from(ts, ts, 0, seq![], seq![]) == pdf_from(ts.subrange(0, h), ts, 0, seq![], seq![]),
{
    lemma_pdf_stops_at_header(ts, ts, h, 0, seq![], seq![]);
}


/// A line that is dropped on its own: a page number or a running header, not blank
/// and not a references heading.
pub open spec fn skipped_line(t: Seq<char>, all: Seq<Seq<char>>) -> bool {
    t.len() > 0 && !reference_header_line(t) && (page_number_line(t) || repeated_line(all, t))
}

proof fn lemma_pdf_shift(
    ts: Seq<Seq<char>>,
    all: Seq<Seq<char>>,
    k: int,
    j: int,
    paras: Seq<Seq<char>>,
    cur: Seq<char>,
)
    requires
        0 <= k <= j,
        k < ts.len(),
    ensures
        pdf_from(ts, all, j + 1, paras, cur) == pdf_from(ts.remove(k), all, j, paras, cur),
    decreases ts.len() - j,
{
    let r = ts.remove(k);
    if j + 1 < ts.len() {
        assert(r[j] == ts[j + 1]);
        let t = ts[j + 1];
        let np = if trim_ws(cur).len() > 0 {
            paras.push(cur)
        } else {
            paras
        };
        lemma_pdf_shift(ts, all, k, j + 1, np, seq![]);
        lemma_pdf_shift(ts, all, k, j + 1, paras, cur);
        if cur.len() > 0 {
            lemma_pdf_shift(ts, all, k, j + 1, paras, cur.drop_last() + t);
            lemma_pdf_shift(ts, all, k, j + 1, paras, cur + seq![' '] + t);
        }
        lemma_pdf_shift(ts, all, k, j + 1, paras, t);
    }
}

proof fn lemma_pdf_skip_prefix(
    ts: Seq<Seq<char>>,
    all: Seq<Seq<char>>,
    k: int,
    i: int,
    paras: Seq<Seq<char>>,
    cur: Seq<char>,
)
    requires
        0 <= i <= k < ts.len(),
        skipped_line(ts[k], all),
    ensures
        pdf_from(ts, all, i, paras, cur) == pdf_from(ts.remove(k), all, i, paras, cur),
    decreases k - i,
{
    let r = ts.remove(k);
    if i == k {
        lemma_pdf_shift(ts, all, k, k, paras, cur);
    } else {
        assert(r[i] == ts[i]);
        let t = ts[i];
        let np = if trim_ws(cur).len() > 0 {
            paras.push(cur)
        } else {
            paras
        };
        lemma_pdf_skip_prefix(ts, all, k, i + 1, np, seq![]);
        lemma_pdf_skip_prefix(ts, all, k, i + 1, paras, cur);
        if cur.len() > 0 {
            lemma_pdf_skip_prefix(ts, all, k, i + 1, paras, cur.drop_last() + t);
            lemma_pdf_skip_prefix(ts, all, k, i + 1, paras, cur + seq![' '] + t);
        }
        lemma_pdf_skip_prefix(ts, all, k, i + 1, paras, t);
    }
}

/// Page numbers and running headers vanish without a trace: the text recovered
/// is the same with such a line removed (repeats still counted over all lines).
pub proof fn law_pdf_skipped_lines_vanish(ts: Seq<Seq<char>>, all: Seq<Seq<char>>, k: int)
    requires
        0 <= k < ts.len(),
        skipped_line(ts[k], all),
    ensures
        pdf_from(ts, all, 0, seq![], seq![]) == pdf_from(ts.remove(k), all, 0, seq![], seq![]),
{
    lemma_pdf_skip_prefix(ts, all, k, 0, seq![], seq![]);
}


proof fn lemma_line_rest_shift(a: Seq<char>, b: Seq<char>, start: int, i: int)
    requires
        0 <= start <= i <= b.len(),
    ensures
        line_rest(a + b, a.len() + start, a.len() + i) == line_rest(b, start, i),
    decreases b.len() - i,
{
    let s = a + b;
    let n = a.len() as int;
    if i < b.len() {
        assert(s[n + i] == b[i]);
        if b[i] == '\n' {
            assert(s.subrange(n + start, n + i) =~= b.subrange(start, i));
            lemma_line_rest_shift(a, b, i + 1, i + 1);
        } else {
            lemma_line_rest_shift(a, b, start, i + 1);
        }
    } else if start < b.len() {
        assert(s.subrange(n + start, s.len() as int) =~= b.subrange(start, b.len() as int));
    }
}

proof fn lemma_line_rest_concat(a: Seq<char>, b: Seq<char>, start: int, i: int)
    requires
        a.len() > 0,
        a.last() == '\n',
        0 <= start <= i <= a.len(),
        i == a.len() ==> start == i,
    ensures
        line_rest(a + b, start, i) == line_rest(a, start, i) + line_rest(b, 0, 0),
    decreases a.len() - i,
{
    let s = a + b;
    if i == a.len() {
        lemma_line_rest_shift(a, b, 0, 0);
        assert(line_rest(a, start, i) =~= Seq::<Seq<char>>::empty());
        assert(line_rest(a, start, i) + line_rest(b, 0, 0) =~= line_rest(b, 0, 0));
    } else {
        assert(s[i] == a[i]);
        if a[i] == '\n' {
            lemma_line_rest_concat(a, b, i + 1, i + 1);
            assert(s.subrange(start, i) =~= a.subrange(start, i));
            assert(seq![a.subrange(start, i)] + (line_rest(a, i + 1, i + 1) + line_rest(b, 0, 0))
                =~= seq![a.subrange(start, i)] + line_rest(a, i + 1, i + 1) + line_rest(b, 0, 0));
        } else {
            lemma_line_rest_concat(a, b, start, i + 1);
        }
    }
}

/// The lines of `a + b` are those of `a` then those of `b` when `a` is empty
/// or ends a line.
proof fn lemma_lines_concat(a: Seq<char>, b: Seq<char>)
    requires
        a.len() == 0 || a.last() == '\n',
    ensures
        line_rest(a + b, 0, 0) == line_rest(a, 0, 0) + line_rest(b, 0, 0),
{
    if a.len() == 0 {
        assert(a + b =~= b);
        assert(line_rest(a, 0, 0) =~= Seq::<Seq<char>>::empty());
        assert(line_rest(a, 0, 0) + line_rest(b, 0, 0) =~= line_rest(b, 0, 0));
    } else {
        lemma_line_rest_concat(a, b, 0, 0);
    }
}

proof fn lemma_line_rest_single(x: Seq<char>, i: int)
    requires
        0 <= i <= x.len(),
        !x.contains('\n'),
    ensures
        line_rest(x + seq!['\n'], 0, i) == seq![x],
    decreases x.len() - i,
{
    let s = x + seq!['\n'];
    if i < x.len() {
        assert(s[i] == x[i]);
        assert(x[i] != '\n');
        lemma_line_rest_single(x, i + 1);
    } else {
        assert(s[i] == '\n');
        assert(s.subrange(0, i) =~= x);
        assert(line_rest(s, i + 1, i + 1) =~= Seq::<Seq<char>>::empty());
    }
}

proof fn lemma_count_concat(p: Seq<Seq<char>>, q: Seq<Seq<char>>, t: Seq<char>)
    ensures
        count_in(p + q, t) == count_in(p, t) + count_in(q, t),
    decreases q.len(),
{
    if q.len() == 0 {
        assert(p + q =~= p);
    } else {
        assert((p + q).drop_last() =~= p + q.drop_last());
        lemma_count_concat(p, q.drop_last(), t);
    }
}

proof fn lemma_pdf_same_drops(
    ts: Seq<Seq<char>>,
    all1: Seq<Seq<char>>,
    all2: Seq<Seq<char>>,
    i: int,
    paras: Seq<Seq<char>>,
    cur: Seq<char>,
)
    requires
        0 <= i <= ts.len(),
        forall|j: int|
            0 <= j < ts.len() && (#[trigger] ts[j]).len() > 0 && !reference_header_line(ts[j])
                ==> (page_number_line(ts[j]) || repeated_line(all1, ts[j])) == (page_number_line(
                ts[j],
            ) || repeated_line(all2, ts[j])),
    ensures
        pdf_from(ts, all1, i, paras, cur) == pdf_from(ts, all2, i, paras, cur),
    decreases ts.len() - i,
{
    if i < ts.len() {
        let t = ts[i];
        let np = if trim_ws(cur).len() > 0 {
            paras.push(cur)
        } else {
            paras
        };
        lemma_pdf_same_drops(ts, all1, all2, i + 1, np, seq![]);
        lemma_pdf_same_drops(ts, all1, all2, i + 1, paras, cur);
        if cur.len() > 0 {
            lemma_pdf_same_drops(ts, all1, all2, i + 1, paras, cur.drop_last() + t);
            lemma_pdf_same_drops(ts, all1, all2, i + 1, paras, cur + seq![' '] + t);
        }
        lemma_pdf_same_drops(ts, all1, all2, i + 1, paras, t);
    }
}

proof fn lemma_page_number_not_heading(s: Seq<char>)
    requires
        page_number_line(s),
    ensures
        !reference_header_line(s),
{
    let t = trim_ws(s);
    let lower = ascii_lower(t);
    reveal_strlit("references");
    reveal_strlit("bibliography");
    reveal_strlit("works cited");
    reveal_strlit("page ");
    reveal_strlit("seite ");
    reveal_strlit("pág ");
    reveal_strlit("pagina ");
    reveal_strlit("p. ");
    assert(lower[0] == crate::text::lower_char(t[0]));
    if all_digits(t) && utf8_len(t) <= 4 {
        assert(crate::text::is_digit(t[0]));
    } else if labelled_number(lower, "page "@) {
        assert(lower[0] == lower.subrange(0, 5)[0]);
    } else if labelled_number(lower, "seite "@) {
        assert(lower[0] == lower.subrange(0, 6)[0]);
    } else if labelled_number(lower, "pág "@) {
        assert(lower[0] == lower.subrange(0, 4)[0]);
    } else if labelled_number(lower, "pagina "@) {
        assert(lower[0] == lower.subrange(0, 7)[0]);
    } else {
        assert(lower[0] == lower.subrange(0, 3)[0]);
    }
    assert(lower[0] == 'p' || lower[0] == 's' || crate::text::is_digit(lower[0]));
    crate::text::lemma_trim_idem(s);
}

/// Page-number lines vanish from raw PDF text without a trace: inserting a
/// line that is just a page number at the start of any line changes nothing
/// that is recovered.
pub proof fn law_pdf_page_number_lines_vanish(a: Seq<char>, x: Seq<char>, b: Seq<char>)
    requires
        a.len() == 0 || a.last() == '\n',
        !x.contains('\n'),
        page_number_line(x),
    ensures
        pdf_paragraphs(a + x + seq!['\n'] + b) == pdf_paragraphs(a + b),
{
    let raw = a + b;
    let raw2 = a + x + seq!['\n'] + b;
    let xl = x + seq!['\n'];
    assert(raw2 =~= a + (xl + b));
    lemma_lines_concat(a, xl + b);
    lemma_lines_concat(xl, b);
    lemma_line_rest_single(x, 0);
    lemma_lines_concat(a, b);
    let la = line_rest(a, 0, 0);
    let lb = line_rest(b, 0, 0);
    assert(line_rest(raw2, 0, 0) =~= la + seq![x] + lb);
    let f = |l: Seq<char>| trim_ws(l);
    let ta = la.map_values(f);
    let tb = lb.map_values(f);
    let y = trim_ws(x);
    let ts = trimmed_lines(raw);
    let ts2 = trimmed_lines(raw2);
    assert(ts =~= ta + tb);
    assert(ts2 =~= ta + seq![y] + tb);
    let k = ta.len() as int;
    assert(ts2.remove(k) =~= ts);
    crate::text::lemma_trim_idem(x);
    assert(page_number_line(y));
    lemma_page_number_not_heading(y);
    assert(skipped_line(ts2[k], ts2));
    law_pdf_skipped_lines_vanish(ts2, ts2, k);
    assert forall|j: int| 0 <= j < ts.len() implies (page_number_line(#[trigger] ts[j])
        || repeated_line(ts2, ts[j])) == (page_number_line(ts[j]) || repeated_line(ts, ts[j])) by {
        let t = ts[j];
        lemma_count_concat(ta + seq![y], tb, t);
        lemma_count_concat(ta, seq![y], t);
        lemma_count_concat(ta, tb, t);
        assert(seq![y].drop_last() =~= Seq::<Seq<char>>::empty());
        assert(count_in(Seq::<Seq<char>>::empty(), t) == 0);
        assert(count_in(seq![y], t) == if y == t {
            1nat
        } else {
            0nat
        });
        assert(ts2 == ta + seq![y] + tb);
        if t != y {
            assert(count_in(ts2, t) == count_in(ts, t));
        }
    }
    lemma_pdf_same_drops(ts, ts2, ts, 0, seq![], seq![]);
}

proof fn lemma_line_rest_newline_end(a: Seq<char>, start: int, i: int)
    requires
        0 <= start <= i <= a.len(),
        i == a.len() && start < i ==> a.last() != '\n',
    ensures
        line_rest(a + seq!['\n'], start, i) == line_rest(a, start, i) + (if (i < a.len()
            && a.last() == '\n') || (i == a.len() && start == i) {
            seq![Seq::<char>::empty()]
        } else {
            Seq::<Seq<char>>::empty()
        }),
    decreases a.len() - i,
{
    let s = a + seq!['\n'];
    if i < a.len() {
        assert(s[i] == a[i]);
        if a[i] == '\n' {
            assert(s.subrange(start, i) =~= a.subrange(start, i));
            lemma_line_rest_newline_end(a, i + 1, i + 1);
            if i + 1 == a.len() {
                assert(a.last() == '\n');
            }
            let e = if (i + 1 < a.len() && a.last() == '\n') || (i + 1 == a.len()) {
                seq![Seq::<char>::empty()]
            } else {
                Seq::<Seq<char>>::empty()
            };
            assert(seq![a.subrange(start, i)] + (line_rest(a, i + 1, i + 1) + e) =~= seq![
                a.subrange(start, i),
            ] + line_rest(a, i + 1, i + 1) + e);
        } else {
            if i + 1 == a.len() {
                assert(a.last() == a[i]);
            }
            lemma_line_rest_newline_end(a, start, i + 1);
        }
    } else {
        assert(s[i] == '\n');
        assert(s.subrange(start, i) =~= a.subrange(start, a.len() as int));
        assert(line_rest(s, i + 1, i + 1) =~= Seq::<Seq<char>>::empty());
        if start == i {
            assert(line_rest(a, start, i) =~= Seq::<Seq<char>>::empty());
            assert(a.subrange(start, a.len() as int) =~= Seq::<char>::empty());
            assert(line_rest(a, start, i) + seq![Seq::<char>::empty()] =~= seq![
                Seq::<char>::empty(),
            ]);
        } else {
            assert(line_rest(a, start, i) + Seq::<Seq<char>>::empty() =~= line_rest(a, start, i));
        }
    }
}

proof fn lemma_pdf_blank_tail(
    ts: Seq<Seq<char>>,
    all: Seq<Seq<char>>,
    i: int,
    paras: Seq<Seq<char>>,
    cur: Seq<char>,
)
    requires
        0 <= i <= ts.len(),
    ensures
        pdf_from(ts.push(Seq::<char>::empty()), all, i, paras, cur) == pdf_from(ts, all, i, paras, cur),
    decreases ts.len() - i,
{
    let t2 = ts.push(Seq::<char>::empty());
    if i == ts.len() {
        let np = if trim_ws(cur).len() > 0 {
            paras.push(cur)
        } else {
            paras
        };
        assert(t2[i].len() == 0);
        assert(trim_ws(Seq::<char>::empty()).len() == 0);
        assert(pdf_from(t2, all, i + 1, np, seq![]) == finish(np, seq![]));
    } else {
        assert(t2[i] == ts[i]);
        let t = ts[i];
        let np = if trim_ws(cur).len() > 0 {
            paras.push(cur)
        } else {
            paras
        };
        lemma_pdf_blank_tail(ts, all, i + 1, np, seq![]);
        lemma_pdf_blank_tail(ts, all, i + 1, paras, cur);
        if cur.len() > 0 {
            lemma_pdf_blank_tail(ts, all, i + 1, paras, cur.drop_last() + t);
            lemma_pdf_blank_tail(ts, all, i + 1, paras, cur + seq![' '] + t);
        }
        lemma_pdf_blank_tail(ts, all, i + 1, paras, t);
    }
}

proof fn lemma_count_absent(q: Seq<Seq<char>>, t: Seq<char>)
    requires
        forall|l: int| 0 <= l < q.len() ==> #[trigger] q[l] != t,
    ensures
        count_in(q, t) == 0,
    decreases q.len(),
{
    if q.len() > 0 {
        assert(q.last() == q[q.len() - 1]);
        lemma_count_absent(q.drop_last(), t);
    }
}

/// Nothing from a references heading onward reaches the recovered text: a
/// heading line set on its own line after `a` cuts off all that follows it,
/// provided no later line repeats a line of `a` (repeats are counted over the
/// whole text when running headers are recognised).
pub proof fn law_pdf_raw_text_after_references_ignored(a: Seq<char>, h: Seq<char>, b: Seq<char>)
    requires
        !h.contains('\n'),
        reference_header_line(h),
        forall|j: int, l: int|
            0 <= j < trimmed_lines(a).len() && 0 <= l < trimmed_lines(b).len() ==> #[trigger] trimmed_lines(
                b,
            )[l] != #[trigger] trimmed_lines(a)[j],
    ensures
        pdf_paragraphs(a + seq!['\n'] + h + seq!['\n'] + b) == pdf_paragraphs(a),
{
    let nl = seq!['\n'];
    let raw = a + nl + h + nl + b;
    let an = a + nl;
    let hn = h + nl;
    assert(raw =~= an + (hn + b));
    lemma_lines_concat(an, hn + b);
    lemma_lines_concat(hn, b);
    lemma_line_rest_single(h, 0);
    lemma_line_rest_newline_end(a, 0, 0);
    let la = line_rest(a, 0, 0);
    let lb = line_rest(b, 0, 0);
    let e = if (0 < a.len() && a.last() == '\n') || (0 == a.len()) {
        seq![Seq::<char>::empty()]
    } else {
        Seq::<Seq<char>>::empty()
    };
    assert(line_rest(raw, 0, 0) =~= la + e + seq![h] + lb);
    let f = |l: Seq<char>| trim_ws(l);
    let ta = la.map_values(f);
    let tb = lb.map_values(f);
    let te = e.map_values(f);
    let y = trim_ws(h);
    let ts = trimmed_lines(raw);
    assert(ts =~= ta + te + seq![y] + tb);
    assert(ta == trimmed_lines(a));
    assert(tb == trimmed_lines(b));
    reveal_strlit("references");
    reveal_strlit("bibliography");
    reveal_strlit("works cited");
    crate::text::lemma_trim_idem(h);
    assert(reference_header_line(y));
    assert(ascii_lower(y).len() == y.len());
    let hh = (ta.len() + te.len()) as int;
    assert(ts[hh] == y);
    law_pdf_ignores_text_after_references(ts, hh);
    let pre = ts.subrange(0, hh);
    assert(pre =~= ta + te);
    if e.len() > 0 {
        assert(te =~= seq![trim_ws(Seq::<char>::empty())]);
        assert(trim_ws(Seq::<char>::empty()) =~= Seq::<char>::empty());
        assert(pre =~= ta.push(Seq::<char>::empty()));
        lemma_pdf_blank_tail(ta, ts, 0, seq![], seq![]);
    } else {
        assert(pre =~= ta);
    }
    assert forall|j: int|
        0 <= j < ta.len() && (#[trigger] ta[j]).len() > 0 && !reference_header_line(ta[j]) implies (
        page_number_line(ta[j]) || repeated_line(ts, ta[j])) == (page_number_line(ta[j])
            || repeated_line(ta, ta[j])) by {
        let t = ta[j];
        assert forall|l: int| 0 <= l < tb.len() implies #[trigger] tb[l] != t by {
            assert(trimmed_lines(b)[l] != trimmed_lines(a)[j]);
        }
        lemma_count_absent(tb, t);
        assert forall|l: int| 0 <= l < te.len() implies #[trigger] te[l] != t by {
            assert(te[l] =~= Seq::<char>::empty());
        }
        lemma_count_absent(te, t);
        assert forall|l: int| 0 <= l < seq![y].len() implies #[trigger] seq![y][l] != t by {
            assert(seq![y][l] == y);
        }
        lemma_count_absent(seq![y], t);
        lemma_count_concat(ta + te + seq![y], tb, t);
        lemma_count_concat(ta + te, seq![y], t);
        lemma_count_concat(ta, te, t);
    }
    lemma_pdf_same_drops(ta, ts, ta, 0, seq![], seq![]);
}

proof fn lemma_line_rest_words(s: Seq<char>, start: int, i: int)
    requires
        0 <= start <= i <= s.len(),
    ensures
        crate::text::all_words(line_rest(s, start, i)) == crate::text::words(
            s.subrange(start, s.len() as int),
        ),
    decreases s.len() - i,
{
    let r = line_rest(s, start, i);
    if i >= s.len() {
        if start < s.len() {
            let x = s.subrange(start, s.len() as int);
            assert(r == seq![x]);
            crate::text::lemma_all_words_push(Seq::<Seq<char>>::empty(), x);
            assert(Seq::<Seq<char>>::empty().push(x) =~= seq![x]);
        } else {
            assert(s.subrange(start, s.len() as int) =~= Seq::<char>::empty());
        }
    } else if s[i] == '\n' {
        lemma_line_rest_words(s, i + 1, i + 1);
        let x = s.subrange(start, i);
        let rest = line_rest(s, i + 1, i + 1);
        assert((seq![x] + rest).drop_first() =~= rest);
        assert(crate::text::is_ws('\n'));
        crate::text::lemma_words_sep(x, seq!['\n'], s.subrange(i + 1, s.len() as int));
        assert(s.subrange(start, s.len() as int) =~= x + seq!['\n'] + s.subrange(
            i + 1,
            s.len() as int,
        ));
    } else {
        lemma_line_rest_words(s, start, i + 1);
    }
}

proof fn lemma_trimmed_words(ls: Seq<Seq<char>>)
    ensures
        crate::text::all_words(ls.map_values(|l: Seq<char>| trim_ws(l))) == crate::text::all_words(
            ls,
        ),
    decreases ls.len(),
{
    if ls.len() > 0 {
        let t = ls.map_values(|l: Seq<char>| trim_ws(l));
        assert(t.drop_first() =~= ls.drop_first().map_values(|l: Seq<char>| trim_ws(l)));
        lemma_trimmed_words(ls.drop_first());
        crate::text::lemma_words_trim(ls[0]);
    }
}

/// The lines of raw text hold exactly its words.
proof fn lemma_trimmed_lines_words(raw: Seq<char>)
    ensures
        crate::text::all_words(trimmed_lines(raw)) == crate::text::words(raw),
{
    lemma_line_rest_words(raw, 0, 0);
    assert(raw.subrange(0, raw.len() as int) =~= raw);
    lemma_trimmed_words(line_rest(raw, 0, 0));
}

/// A line read as body text: not blank-or-skipped in any way, and not
/// ending in a hyphen.
pub open spec fn body_line(t: Seq<char>, all: Seq<Seq<char>>) -> bool {
    t.len() == 0 || (!reference_header_line(t) && !page_number_line(t) && !repeated_line(all, t)
        && t.last() != '-')
}

proof fn lemma_pdf_from_words(
    ts: Seq<Seq<char>>,
    all: Seq<Seq<char>>,
    i: int,
    paras: Seq<Seq<char>>,
    cur: Seq<char>,
)
    requires
        0 <= i <= ts.len(),
        forall|j: int| 0 <= j < ts.len() ==> body_line(#[trigger] ts[j], all),
        cur.len() == 0 || cur.last() != '-',
    ensures
        crate::text::all_words(pdf_from(ts, all, i, paras, cur)) == crate::text::all_words(paras)
            + crate::text::words(cur) + crate::text::all_words(ts.subrange(i, ts.len() as int)),
    decreases ts.len() - i,
{
    let n = ts.len() as int;
    let sp = seq![' '];
    assert(crate::text::is_ws(' '));
    crate::text::lemma_words_trim(cur);
    if trim_ws(cur).len() == 0 {
        assert(trim_ws(cur) =~= Seq::<char>::empty());
    }
    crate::text::lemma_all_words_push(paras, cur);
    if i >= n {
        assert(ts.subrange(i, n) =~= Seq::<Seq<char>>::empty());
        assert(crate::text::all_words(paras) + crate::text::words(cur) + Seq::<Seq<char>>::empty()
            =~= crate::text::all_words(paras) + crate::text::words(cur));
    } else {
        let t = ts[i];
        assert(body_line(t, all));
        crate::text::lemma_all_words_tail(ts, i);
        let rest = crate::text::all_words(ts.subrange(i + 1, n));
        let wp = crate::text::all_words(paras);
        let wc = crate::text::words(cur);
        let wt = crate::text::words(t);
        if t.len() == 0 {
            let np = if trim_ws(cur).len() > 0 {
                paras.push(cur)
            } else {
                paras
            };
            lemma_pdf_from_words(ts, all, i + 1, np, seq![]);
            assert(t =~= Seq::<char>::empty());
            assert(crate::text::words(Seq::<char>::empty()) =~= Seq::<Seq<char>>::empty());
            assert(crate::text::all_words(np) =~= wp + wc);
            assert(wp + wc + Seq::<Seq<char>>::empty() + rest =~= wp + wc + (wt + rest));
        } else if cur.len() > 0 {
            let c2 = cur + sp + t;
            crate::text::lemma_words_sep(cur, sp, t);
            assert(c2.last() == t.last());
            lemma_pdf_from_words(ts, all, i + 1, paras, c2);
            assert(wp + (wc + wt) + rest =~= wp + wc + (wt + rest));
        } else {
            lemma_pdf_from_words(ts, all, i + 1, paras, t);
            assert(cur =~= Seq::<char>::empty());
            assert(crate::text::words(Seq::<char>::empty()) =~= Seq::<Seq<char>>::empty());
            assert(wp + wt + rest =~= wp + wc + (wt + rest));
        }
    }
}

proof fn lemma_count_once(ts: Seq<Seq<char>>, j: int)
    requires
        0 <= j < ts.len(),
        forall|k: int| 0 <= k < ts.len() && k != j ==> #[trigger] ts[k] != ts[j],
    ensures
        count_in(ts, ts[j]) == 1,
{
    let t = ts[j];
    let a = ts.subrange(0, j);
    let b = ts.subrange(j + 1, ts.len() as int);
    assert(ts =~= a + seq![t] + b);
    assert forall|l: int| 0 <= l < a.len() implies #[trigger] a[l] != t by {
        assert(a[l] == ts[l]);
    }
    assert forall|l: int| 0 <= l < b.len() implies #[trigger] b[l] != t by {
        assert(b[l] == ts[j + 1 + l]);
    }
    lemma_count_absent(a, t);
    lemma_count_absent(b, t);
    lemma_count_concat(a + seq![t], b, t);
    lemma_count_concat(a, seq![t], t);
    assert(seq![t].drop_last() =~= Seq::<Seq<char>>::empty());
    assert(count_in(Seq::<Seq<char>>::empty(), t) == 0);
    assert(count_in(seq![t], t) == 1);
}

proof fn lemma_not_page_number(t: Seq<char>)
    requires
        t.len() > 0,
        trim_ws(t) == t,
        !crate::text::is_digit(t.last()),
    ensures
        !page_number_line(t),
{
    let lower = ascii_lower(t);
    crate::text::lemma_trim_ends(t);
    assert(lower.last() == crate::text::lower_char(t.last()));
    let c = t.last();
    if 'A' <= c <= 'Z' {
        assert((c as u32) + 32 >= 97);
        assert(!crate::text::is_digit(lower.last()));
    } else {
        assert(lower.last() == c);
    }
    assert(!crate::text::is_ws(lower.last()));
    if page_number_line(t) {
        if all_digits(t) && utf8_len(t) <= 4 {
            assert(crate::text::is_digit(t[t.len() - 1]));
        } else {
            let label = if labelled_number(lower, "page "@) {
                "page "@
            } else if labelled_number(lower, "seite "@) {
                "seite "@
            } else if labelled_number(lower, "pág "@) {
                "pág "@
            } else if labelled_number(lower, "pagina "@) {
                "pagina "@
            } else {
                "p. "@
            };
            assert(labelled_number(lower, label));
            let rest = lower.subrange(label.len() as int, lower.len() as int);
            let r = trim_ws(rest);
            assert(r.len() > 0);
            if rest.len() == 0 {
                assert(trim_ws(rest) =~= rest);
            }
            assert(rest.last() == lower.last());
            crate::text::lemma_trim_start_keeps_last(rest);
            assert(r.last() == lower.last());
            assert(crate::text::is_digit(r[r.len() - 1]));
        }
    }
}

/// Only a line reading references, bibliography or works cited ends the
/// text: raw PDF text whose lines, trimmed, include none of these (in any
/// ASCII case), no page number, no repeated line and no line ending in a
/// hyphen keeps all its words, in order, in the recovered paragraphs.
pub proof fn law_pdf_plain_text_keeps_words(raw: Seq<char>)
    requires
        forall|j: int|
            0 <= j < trimmed_lines(raw).len() && (#[trigger] trimmed_lines(raw)[j]).len() > 0 ==> {
                let t = trimmed_lines(raw)[j];
                &&& ascii_lower(t) != "references"@
                &&& ascii_lower(t) != "bibliography"@
                &&& ascii_lower(t) != "works cited"@
                &&& !crate::text::is_digit(t.last())
                &&& t.last() != '-'
            },
        forall|j: int, k: int|
            0 <= j < k < trimmed_lines(raw).len() && trimmed_lines(raw)[j].len() > 0 ==> #[trigger] trimmed_lines(
                raw,
            )[j] != #[trigger] trimmed_lines(raw)[k],
    ensures
        crate::text::all_words(pdf_paragraphs(raw)) == crate::text::words(raw),
{
    let ts = trimmed_lines(raw);
    assert forall|j: int| 0 <= j < ts.len() implies body_line(#[trigger] ts[j], ts) by {
        let t = ts[j];
        if t.len() > 0 {
            let l = line_rest(raw, 0, 0)[j];
            assert(t == trim_ws(l));
            crate::text::lemma_trim_idem(l);
            assert(!reference_header_line(t));
            lemma_not_page_number(t);
            assert forall|k: int| 0 <= k < ts.len() && k != j implies #[trigger] ts[k] != ts[j] by {
                if k < j {
                    if ts[k].len() > 0 {
                        assert(ts[k] != ts[j]);
                    } else {
                        assert(ts[k].len() != ts[j].len());
                    }
                } else {
                    assert(ts[j] != ts[k]);
                }
            }
            lemma_count_once(ts, j);
        }
    }
    lemma_pdf_from_words(ts, ts, 0, seq![], seq![]);
    assert(ts.subrange(0, ts.len() as int) =~= ts);
    assert(crate::text::words(Seq::<char>::empty()) =~= Seq::<Seq<char>>::empty());
    assert(crate::text::all_words(Seq::<Seq<char>>::empty()) =~= Seq::<Seq<char>>::empty());
    crate::html::lemma_collapsed_kept_words(pdf_from(ts, ts, 0, seq![], seq![]));
    lemma_trimmed_lines_words(raw);
}
} // verus!
