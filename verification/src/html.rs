//! HTML and raw-text extraction into a structured document.
//!
//! An `<article>` or `<main>` container is preferred; headings and paragraphs
//! are walked in document order, a new section starting at each heading.
use vstd::prelude::*;

use crate::chunk::{blank_piece_bounds, blank_pieces};
use crate::error::Error;
use crate::pdf::collapsed_kept;
use crate::text::{
    all_words, collapse, collapse_range, collapse_ws, chars_of, eq_str, lemma_all_words_push,
    lemma_collapse_idem, lemma_words_all_ws, trim_ws, views, words,
};
use crate::types::{opt_view, Document, DocumentView, Section, SectionView, Source};

verus! {

/// Whether `scraper::Selector::parse` accepts the CSS selector `css`.
pub uninterp spec fn css_valid(css: Seq<char>) -> bool;

/// The elements of the document `body` matching `css`, in the order in which
/// `Html::select` yields them, each as its tag name and the concatenation of
/// its descendant text nodes.
pub uninterp spec fn html_select(body: Seq<char>, css: Seq<char>) -> Seq<(Seq<char>, Seq<char>)>;

/// The elements matching `css` below the first element matching `container`
/// (as `html_select` gives them), or `None` when `container` does not parse or
/// no element matches it.
pub uninterp spec fn html_select_within(body: Seq<char>, container: Seq<char>, css: Seq<char>) -> Option<
    Seq<(Seq<char>, Seq<char>)>,
>;

/// The text of a list of (tag, text) pairs.
pub open spec fn pair_views(v: Seq<(String, String)>) -> Seq<(Seq<char>, Seq<char>)> {
    v.map_values(|p: (String, String)| (p.0@, p.1@))
}

/// `Html::parse_document(body)` then `select(css)`, each element mapped to its
/// tag name and collected text. Claims: `None` exactly when `css` does not parse,
/// and otherwise the named selection.
#[verifier::external_body]
fn select_blocks(body: &str, css: &str) -> (res: Option<Vec<(String, String)>>)
    ensures
        res is Some <==> css_valid(css@),
        res matches Some(v) ==> pair_views(v@) == html_select(body@, css@),
{
    let sel = match scraper::Selector::parse(css) {
        Ok(s) => s,
        Err(_) => return None,
    };
    let doc = scraper::Html::parse_document(body);
    Some(doc.select(&sel).map(|el| (el.value().name().to_string(), el.text().collect())).collect())
}

/// `Html::parse_document(body)`, the first element matching `container`, then
/// `ElementRef::select(css)` below it, mapped as in `select_blocks`. Claims: the
/// named selection.
#[verifier::external_body]
fn select_blocks_within(body: &str, container: &str, css: &str) -> (res: Option<
    Vec<(String, String)>,
>)
    requires
        css_valid(css@),
    ensures
        match res {
            Some(v) => html_select_within(body@, container@, css@) == Some(pair_views(v@)),
            None => html_select_within(body@, container@, css@) is None,
        },
{
    let outer = scraper::Selector::parse(container).ok()?;
    let sel = scraper::Selector::parse(css).ok()?;
    let doc = scraper::Html::parse_document(body);
    let root = doc.select(&outer).next()?;
    Some(root.select(&sel).map(|el| (el.value().name().to_string(), el.text().collect())).collect())
}

/// Whether a tag starts a new section.
pub open spec fn is_heading_tag(tag: Seq<char>) -> bool {
    tag == "h1"@ || tag == "h2"@ || tag == "h3"@
}

/// A section with a heading or at least one paragraph.
pub open spec fn has_content(s: SectionView) -> bool {
    s.heading is Some || s.paragraphs.len() > 0
}

/// The sections built from blocks `bs[i..]` onto `(secs, cur)`: blocks with no
/// text are skipped; a heading closes the current section (when it has content)
/// and opens a new one; other blocks are paragraphs of the current section.
pub open spec fn sections_rest(
    bs: Seq<(Seq<char>, Seq<char>)>,
    i: int,
    secs: Seq<SectionView>,
    cur: SectionView,
) -> Seq<SectionView>
    decreases bs.len() - i,
{
    if i >= bs.len() {
        if has_content(cur) {
            secs.push(cur)
        } else {
            secs
        }
    } else {
        let t = collapse(bs[i].1);
        if t.len() == 0 {
            sections_rest(bs, i + 1, secs, cur)
        } else if is_heading_tag(bs[i].0) {
            sections_rest(
                bs,
                i + 1,
                if has_content(cur) {
                    secs.push(cur)
                } else {
                    secs
                },
                SectionView { heading: Some(t), paragraphs: seq![] },
            )
        } else {
            sections_rest(
                bs,
                i + 1,
                secs,
                SectionView { heading: cur.heading, paragraphs: cur.paragraphs.push(t) },
            )
        }
    }
}

/// The sections of a list of (tag, text) blocks.
pub open spec fn sections_of(bs: Seq<(Seq<char>, Seq<char>)>) -> Seq<SectionView> {
    sections_rest(bs, 0, seq![], SectionView { heading: None, paragraphs: seq![] })
}

/// The view of a section under construction.
spec fn section_view(heading: Option<String>, paragraphs: Seq<String>) -> SectionView {
    SectionView { heading: opt_view(heading), paragraphs: views(paragraphs) }
}

/// Walks heading/paragraph blocks in document order, starting a new section at
/// each heading and accumulating paragraphs in between.
pub fn sections_from(blocks: &Vec<(String, String)>) -> (res: Vec<Section>)
    ensures
        res@.map_values(|s: Section| s@) == sections_of(pair_views(blocks@)),
{
    let ghost bs = pair_views(blocks@);
    let mut secs: Vec<Section> = Vec::new();
    let mut heading: Option<String> = None;
    let mut paras: Vec<String> = Vec::new();
    let mut i: usize = 0;
    assert(secs@.map_values(|s: Section| s@) =~= Seq::<SectionView>::empty());
    assert(section_view(heading, paras@) =~= SectionView { heading: None, paragraphs: seq![] });
    while i < blocks.len()
        invariant
            bs == pair_views(blocks@),
            i <= blocks@.len(),
            sections_rest(bs, i as int, secs@.map_values(|s: Section| s@), section_view(heading, paras@))
                == sections_of(bs),
        decreases blocks@.len() - i,
    {
        let (tag, raw) = (&blocks[i].0, &blocks[i].1);
        assert(bs[i as int] == (tag@, raw@));
        let text = collapse_ws(raw.as_str());
        let ghost old_secs = secs@.map_values(|s: Section| s@);
        let ghost old_cur = section_view(heading, paras@);
        if text.as_str().is_empty() {
        } else {
            let tv = chars_of(tag.as_str());
            if eq_str(&tv, "h1") || eq_str(&tv, "h2") || eq_str(&tv, "h3") {
                if heading.is_some() || paras.len() > 0 {
                    let done = Section { heading: heading, paragraphs: paras };
                    assert(done@ == old_cur);
                    secs.push(done);
                    assert(secs@.map_values(|s: Section| s@) =~= old_secs.push(old_cur));
                }
                heading = Some(text);
                paras = Vec::new();
                assert(section_view(heading, paras@) =~= SectionView {
                    heading: Some(collapse(raw@)),
                    paragraphs: seq![],
                });
            } else {
                paras.push(text);
                assert(section_view(heading, paras@) =~= SectionView {
                    heading: old_cur.heading,
                    paragraphs: old_cur.paragraphs.push(collapse(raw@)),
                });
            }
        }
        i = i + 1;
    }
    if heading.is_some() || paras.len() > 0 {
        let ghost old_secs = secs@.map_values(|s: Section| s@);
        let done = Section { heading: heading, paragraphs: paras };
        secs.push(done);
        assert(secs@.map_values(|s: Section| s@) =~= old_secs.push(done@));
    }
    secs
}


/// A raw-text document: one section whose paragraphs are the blank-line-separated
/// blocks of `text`, whitespace collapsed, empty ones dropped.
pub open spec fn text_document_view(text: Seq<char>) -> DocumentView {
    DocumentView {
        title: None,
        sections: seq![SectionView { heading: None, paragraphs: collapsed_kept(blank_pieces(text, 0, 0)) }],
    }
}

/// Wraps raw text as a single-section document, splitting on blank lines.
pub fn text_document(text: &str) -> (res: Document)
    ensures
        res@ == text_document_view(text@),
{
    let v = chars_of(text);
    let bounds = blank_piece_bounds(&v);
    let ghost ps = crate::text::pieces(v@, bounds@);
    let mut out: Vec<String> = Vec::new();
    let mut k: usize = 0;
    assert(views(out@) =~= collapsed_kept(ps.subrange(0, 0)));
    while k < bounds.len()
        invariant
            ps == crate::text::pieces(v@, bounds@),
            forall|j: int| 0 <= j < bounds@.len() ==> (#[trigger] bounds@[j]).0 <= bounds@[j].1 <= v@.len(),
            k <= bounds@.len(),
            views(out@) == collapsed_kept(ps.subrange(0, k as int)),
        decreases bounds@.len() - k,
    {
        let (a, b) = bounds[k];
        let c = collapse_range(&v, a, b);
        assert(ps[k as int] == v@.subrange(a as int, b as int));
        assert(ps.subrange(0, k + 1).drop_last() =~= ps.subrange(0, k as int));
        if !c.as_str().is_empty() {
            let ghost old_o = views(out@);
            out.push(c);
            assert(views(out@) =~= old_o.push(c@));
        }
        k = k + 1;
    }
    assert(ps.subrange(0, ps.len() as int) =~= ps);
    let doc = Document { title: None, sections: vec![Section { heading: None, paragraphs: out }] };
    assert(doc@ =~= text_document_view(text@));
    doc
}

/// The document for raw text, which must hold some non-whitespace text.
pub fn extract_text(text: &str) -> (res: Result<Document, Error>)
    ensures
        trim_ws(text@).len() > 0 <==> res is Ok,
        res matches Ok(d) ==> d@ == text_document_view(text@),
        res matches Err(e) ==> (e matches Error::InvalidSource(m) && m@ == "empty text"@),
{
    if text.trim().is_empty() {
        let mut m = String::new();
        m.push_str("empty text");
        Err(Error::InvalidSource(m))
    } else {
        Ok(text_document(text))
    }
}

/// The collapsed text of the first selected element, when there is one and it is not blank.
pub open spec fn first_text(sel: Seq<(Seq<char>, Seq<char>)>) -> Option<Seq<char>> {
    if sel.len() > 0 && collapse(sel[0].1).len() > 0 {
        Some(collapse(sel[0].1))
    } else {
        None
    }
}

/// The text of the first element matching `css`, if the selector parses.
pub open spec fn first_match_text(body: Seq<char>, css: Seq<char>) -> Option<Seq<char>> {
    if css_valid(css) {
        first_text(html_select(body, css))
    } else {
        None
    }
}

/// The title of a page: its first `<h1>`, else its `<title>`.
pub open spec fn page_title(body: Seq<char>) -> Option<Seq<char>> {
    match first_match_text(body, "h1"@) {
        Some(t) => Some(t),
        None => first_match_text(body, "title"@),
    }
}

/// The collapsed text of the first element matching `css`, when not blank.
fn first_element_text(body: &str, css: &str) -> (res: Option<String>)
    ensures
        opt_view(res) == first_match_text(body@, css@),
{
    match select_blocks(body, css) {
        None => None,
        Some(v) => {
            if v.len() == 0 {
                None
            } else {
                assert(pair_views(v@)[0] == (v@[0].0@, v@[0].1@));
                let t = collapse_ws(v[0].1.as_str());
                if t.as_str().is_empty() {
                    None
                } else {
                    Some(t)
                }
            }
        },
    }
}

/// First `<h1>`, else the `<title>` tag.
pub fn extract_title(body: &str) -> (res: Option<String>)
    ensures
        opt_view(res) == page_title(body@),
{
    match first_element_text(body, "h1") {
        Some(t) => Some(t),
        None => first_element_text(body, "title"),
    }
}

/// The heading and paragraph blocks that form a page's sections.
pub open spec fn block_selector() -> Seq<char> {
    "h1, h2, h3, p"@
}

/// The blocks a page's sections are read from: those inside its first
/// `<article>`, else inside its first `<main>`, else the whole page's.
pub open spec fn page_blocks(body: Seq<char>) -> Seq<(Seq<char>, Seq<char>)> {
    match html_select_within(body, "article"@, block_selector()) {
        Some(b) => b,
        None => match html_select_within(body, "main"@, block_selector()) {
            Some(b) => b,
            None => html_select(body, block_selector()),
        },
    }
}

/// The document of an HTML page.
pub open spec fn page_document(body: Seq<char>) -> DocumentView {
    DocumentView { title: page_title(body), sections: sections_of(page_blocks(body)) }
}

/// Parses an HTML page into a structured document.
pub fn parse_html(body: &str) -> (res: Result<Document, Error>)
    ensures
        css_valid(block_selector()) <==> res is Ok,
        res matches Ok(d) ==> d@ == page_document(body@),
        res matches Err(e) ==> (e matches Error::Extraction(m) && m@ == "invalid block selector"@),
{
    let title = extract_title(body);
    let blocks = match select_blocks(body, "h1, h2, h3, p") {
        None => {
            let mut m = String::new();
            m.push_str("invalid block selector");
            return Err(Error::Extraction(m));
        },
        Some(all) => match select_blocks_within(body, "article", "h1, h2, h3, p") {
            Some(b) => b,
            None => match select_blocks_within(body, "main", "h1, h2, h3, p") {
                Some(b) => b,
                None => all,
            },
        },
    };
    let sections = sections_from(&blocks);
    let doc = Document { title, sections };
    assert(doc@ =~= page_document(body@));
    Ok(doc)
}


pub proof fn lemma_collapsed_kept_words(ps: Seq<Seq<char>>)
    ensures
        all_words(collapsed_kept(ps)) == all_words(ps),
    decreases ps.len(),
{
    if ps.len() > 0 {
        let init = ps.drop_last();
        lemma_collapsed_kept_words(init);
        lemma_all_words_push(init, ps.last());
        assert(init.push(ps.last()) =~= ps);
        lemma_collapse_idem(ps.last());
        let c = collapse(ps.last());
        if c.len() > 0 {
            lemma_all_words_push(collapsed_kept(init), c);
        } else {
            lemma_words_all_ws(c);
            assert(all_words(init) + words(ps.last()) =~= all_words(init));
        }
    }
}

/// A raw-text document holds exactly the words of the text, in order.
pub proof fn law_text_document_keeps_words(text: Seq<char>)
    ensures
        all_words(text_document_view(text).sections[0].paragraphs) == words(text),
{
    lemma_collapsed_kept_words(blank_pieces(text, 0, 0));
    crate::chunk::lemma_blank_pieces_words(text, 0, 0);
    assert(text.subrange(0, text.len() as int) =~= text);
}

/// The heading (if any) and then the paragraphs of a section.
pub open spec fn section_items(s: SectionView) -> Seq<Seq<char>> {
    (match s.heading {
        Some(h) => seq![h],
        None => seq![],
    }) + s.paragraphs
}

/// The items of a list of sections, in order.
pub open spec fn items_of(secs: Seq<SectionView>) -> Seq<Seq<char>>
    decreases secs.len(),
{
    if secs.len() == 0 {
        seq![]
    } else {
        items_of(secs.drop_last()) + section_items(secs.last())
    }
}

/// The non-blank block texts of `bs[i..]`, whitespace collapsed, in order.
pub open spec fn texts_from(bs: Seq<(Seq<char>, Seq<char>)>, i: int) -> Seq<Seq<char>>
    decreases bs.len() - i,
{
    if i >= bs.len() {
        seq![]
    } else {
        let t = collapse(bs[i].1);
        (if t.len() > 0 {
            seq![t]
        } else {
            seq![]
        }) + texts_from(bs, i + 1)
    }
}

/// Every section has content.
pub open spec fn all_have_content(secs: Seq<SectionView>) -> bool {
    forall|k: int| 0 <= k < secs.len() ==> has_content(#[trigger] secs[k])
}

proof fn lemma_sections_rest(
    bs: Seq<(Seq<char>, Seq<char>)>,
    i: int,
    secs: Seq<SectionView>,
    cur: SectionView,
)
    requires
        0 <= i <= bs.len(),
        all_have_content(secs),
    ensures
        all_have_content(sections_rest(bs, i, secs, cur)),
        items_of(sections_rest(bs, i, secs, cur)) == items_of(secs) + section_items(cur)
            + texts_from(bs, i),
    decreases bs.len() - i,
{
    let pushed = if has_content(cur) {
        secs.push(cur)
    } else {
        secs
    };
    assert(all_have_content(pushed)) by {
        assert forall|k: int| 0 <= k < pushed.len() implies has_content(#[trigger] pushed[k]) by {
            if k < secs.len() {
                assert(pushed[k] == secs[k]);
            }
        }
    }
    assert(items_of(pushed) == items_of(secs) + section_items(cur)) by {
        if has_content(cur) {
            assert(secs.push(cur).drop_last() =~= secs);
        } else {
            assert(section_items(cur) =~= Seq::<Seq<char>>::empty());
            assert(items_of(secs) + section_items(cur) =~= items_of(secs));
        }
    }
    if i >= bs.len() {
        assert(items_of(pushed) + texts_from(bs, i) =~= items_of(pushed));
    } else {
        let t = collapse(bs[i].1);
        if t.len() == 0 {
            lemma_sections_rest(bs, i + 1, secs, cur);
            assert(texts_from(bs, i) =~= texts_from(bs, i + 1));
        } else if is_heading_tag(bs[i].0) {
            let nc = SectionView { heading: Some(t), paragraphs: seq![] };
            lemma_sections_rest(bs, i + 1, pushed, nc);
            assert(section_items(nc) =~= seq![t]);
            assert(items_of(pushed) + section_items(nc) + texts_from(bs, i + 1) =~= items_of(secs)
                + section_items(cur) + texts_from(bs, i));
        } else {
            let nc = SectionView { heading: cur.heading, paragraphs: cur.paragraphs.push(t) };
            lemma_sections_rest(bs, i + 1, secs, nc);
            assert(section_items(nc) =~= section_items(cur).push(t));
            assert(items_of(secs) + section_items(nc) + texts_from(bs, i + 1) =~= items_of(secs)
                + section_items(cur) + texts_from(bs, i));
        }
    }
}

/// Sections built from blocks are never empty, and reading their headings and
/// paragraphs in order gives back exactly the non-blank block texts, in order.
pub proof fn law_sections_keep_blocks(bs: Seq<(Seq<char>, Seq<char>)>)
    ensures
        all_have_content(sections_of(bs)),
        items_of(sections_of(bs)) == texts_from(bs, 0),
{
    let cur = SectionView { heading: None, paragraphs: seq![] };
    lemma_sections_rest(bs, 0, seq![], cur);
    assert(items_of(Seq::<SectionView>::empty()) + section_items(cur) + texts_from(bs, 0)
        =~= texts_from(bs, 0));
}


/// Which extractor a source goes to.
#[derive(Debug, Clone, Copy, PartialEq, Eq, Structural)]
pub enum Route {
    /// URLs and raw text go to the article extractor.
    Article,
    /// Files go to the PDF extractor.
    Pdf,
}

/// Dispatches by source kind: URLs and text to the article extractor, files to the PDF extractor.
pub fn route(source: &Source) -> (res: Route)
    ensures
        source is File <==> res == Route::Pdf,
{
    match source {
        Source::File(_) => Route::Pdf,
        _ => Route::Article,
    }
}

/// What the article extractor does with a source without fetching: raw text
/// becomes its document (an error when blank), a file is refused, and a URL
/// (`None`) must be fetched and its body given to `parse_html`.
pub fn article_without_fetch(source: &Source) -> (res: Option<Result<Document, Error>>)
    ensures
        source is Url <==> res is None,
        source matches Source::Text(t) ==> (res matches Some(r) && (trim_ws(t@).len() > 0 <==> r is Ok)
            && (r matches Ok(d) ==> d@ == text_document_view(t@)) && (r matches Err(e) ==> e is InvalidSource)),
        source is File ==> (res matches Some(Err(Error::InvalidSource(m))) && m@ == "ArticleExtractor does not handle files"@),
{
    match source {
        Source::Url(_) => None,
        Source::Text(t) => Some(extract_text(t.as_str())),
        Source::File(_) => {
            let mut m = String::new();
            m.push_str("ArticleExtractor does not handle files");
            Some(Err(Error::InvalidSource(m)))
        },
    }
}


/// A page's sections come from its first `<article>` whenever it has one,
/// whatever its `<main>` holds; from its first `<main>` only when it has no
/// `<article>`; and from the whole page's heading and paragraph blocks when it
/// has neither.
pub proof fn law_article_read_before_main(body: Seq<char>)
    ensures
        html_select_within(body, "article"@, "h1, h2, h3, p"@) matches Some(b) ==> page_document(
            body,
        ).sections == sections_of(b),
        html_select_within(body, "article"@, "h1, h2, h3, p"@) is None ==> (html_select_within(
            body,
            "main"@,
            "h1, h2, h3, p"@,
        ) matches Some(b) ==> page_document(body).sections == sections_of(b)),
        html_select_within(body, "article"@, "h1, h2, h3, p"@) is None && html_select_within(
            body,
            "main"@,
            "h1, h2, h3, p"@,
        ) is None ==> page_document(body).sections == sections_of(
            html_select(body, "h1, h2, h3, p"@),
        ),
        page_document(body).title == page_title(body),
{
}
} // verus!
