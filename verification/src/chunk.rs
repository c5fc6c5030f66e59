//! Splits speakable text into chunks for parallel synthesis.
//!
//! Whole paragraphs are packed up to a character budget; a paragraph longer
//! than the budget is split on sentence boundaries. Nothing is split mid-word.
use vstd::prelude::*;

use crate::text::{
    bounds_ok, bounds_trimmed, is_whitespace, is_ws, lemma_trim_start_keeps_last, pieces, push_range, sub_vec, trim_ws,
    trim_bounds, views, chars_of, words, all_words, all_ws, lemma_words_sep, lemma_words_trim,
    lemma_words_append, lemma_all_words_append, lemma_all_words_push, lemma_all_words_tail,
    lemma_words_all_ws, lemma_trim_ends, lemma_words_facts,
};

verus! {

/// Default target chunk size in characters.
pub const DEFAULT_TARGET_CHARS: usize = 2500;

/// The one-element list `[t]` when `t` is non-empty, else the empty list.
pub open spec fn keep(t: Seq<char>) -> Seq<Seq<char>> {
    if t.len() > 0 {
        seq![t]
    } else {
        seq![]
    }
}

/// `s[start..]` cut at every non-overlapping `"\n\n"` found scanning from `i`
/// (what `str::split("\n\n")` yields from there).
pub open spec fn blank_pieces(s: Seq<char>, start: int, i: int) -> Seq<Seq<char>>
    decreases s.len() - i,
{
    if i >= s.len() {
        seq![s.subrange(start, s.len() as int)]
    } else if i + 1 < s.len() && s[i] == '\n' && s[i + 1] == '\n' {
        seq![s.subrange(start, i)] + blank_pieces(s, i + 2, i + 2)
    } else {
        blank_pieces(s, start, i + 1)
    }
}

/// The trimmed, non-empty pieces of a list, in order.
pub open spec fn keep_trimmed(ps: Seq<Seq<char>>) -> Seq<Seq<char>>
    decreases ps.len(),
{
    if ps.len() == 0 {
        seq![]
    } else {
        keep(trim_ws(ps[0])) + keep_trimmed(ps.drop_first())
    }
}

/// The paragraphs of `s`: its blank-line-separated blocks, trimmed, empty ones dropped.
pub open spec fn paragraphs(s: Seq<char>) -> Seq<Seq<char>> {
    keep_trimmed(blank_pieces(s, 0, 0))
}

pub open spec fn is_terminator(c: char) -> bool {
    c == '.' || c == '!' || c == '?'
}

/// A terminator at `i` ends a sentence when whitespace or the end of text follows it.
pub open spec fn ends_sentence(s: Seq<char>, i: int) -> bool {
    is_terminator(s[i]) && (i + 1 == s.len() || is_ws(s[i + 1]))
}

/// The sentences of `s[start..]`, scanning from `i`: each cut just after a
/// sentence-ending terminator, trimmed, empty ones dropped.
pub open spec fn sentence_rest(s: Seq<char>, start: int, i: int) -> Seq<Seq<char>>
    decreases s.len() - i,
{
    if i >= s.len() {
        if start < s.len() {
            keep(trim_ws(s.subrange(start, s.len() as int)))
        } else {
            seq![]
        }
    } else if ends_sentence(s, i) {
        keep(trim_ws(s.subrange(start, i + 1))) + sentence_rest(s, i + 1, i + 1)
    } else {
        sentence_rest(s, start, i + 1)
    }
}

/// The sentences of `s`, terminal punctuation kept.
pub open spec fn sentences(s: Seq<char>) -> Seq<Seq<char>> {
    sentence_rest(s, 0, 0)
}

/// The chunks so far with the pending chunk appended when it has non-whitespace text.
pub open spec fn finish(chunks: Seq<Seq<char>>, cur: Seq<char>) -> Seq<Seq<char>> {
    if trim_ws(cur).len() > 0 {
        chunks.push(cur)
    } else {
        chunks
    }
}

/// Adds `item` to the pending chunk `cur`, joined by `sep`; when that would
/// pass `target`, `cur` is closed first and `item` starts a new chunk.
pub open spec fn pack_step(
    chunks: Seq<Seq<char>>,
    cur: Seq<char>,
    item: Seq<char>,
    target: int,
    sep: Seq<char>,
) -> (Seq<Seq<char>>, Seq<char>) {
    let joined = cur.len() + item.len() + if cur.len() == 0 {
        0
    } else {
        sep.len()
    };
    if joined > target && cur.len() > 0 {
        (chunks.push(cur), item)
    } else if cur.len() > 0 {
        (chunks, cur + sep + item)
    } else {
        (chunks, item)
    }
}

/// Packs `items[i..]` greedily onto `(chunks, cur)`.
pub open spec fn pack_from(
    items: Seq<Seq<char>>,
    i: int,
    chunks: Seq<Seq<char>>,
    cur: Seq<char>,
    target: int,
    sep: Seq<char>,
) -> Seq<Seq<char>>
    decreases items.len() - i,
{
    if i >= items.len() {
        finish(chunks, cur)
    } else {
        let (c2, k2) = pack_step(chunks, cur, items[i], target, sep);
        pack_from(items, i + 1, c2, k2, target, sep)
    }
}

/// The sentences of an over-long paragraph packed, space-joined, into pieces near `target`.
pub open spec fn oversized_pieces(p: Seq<char>, target: int) -> Seq<Seq<char>> {
    pack_from(sentences(p), 0, seq![], seq![], target, seq![' '])
}

/// The pending chunk closed when non-empty.
pub open spec fn flush(chunks: Seq<Seq<char>>, cur: Seq<char>) -> Seq<Seq<char>> {
    if cur.len() > 0 {
        chunks.push(cur)
    } else {
        chunks
    }
}

/// Chunks `paras[i..]` onto `(chunks, cur)`: paragraphs up to `target` are packed,
/// blank-line-joined; a longer one closes the pending chunk and is split on sentences.
pub open spec fn chunk_from(
    paras: Seq<Seq<char>>,
    i: int,
    chunks: Seq<Seq<char>>,
    cur: Seq<char>,
    target: int,
) -> Seq<Seq<char>>
    decreases paras.len() - i,
{
    if i >= paras.len() {
        finish(chunks, cur)
    } else if paras[i].len() > target {
        chunk_from(
            paras,
            i + 1,
            flush(chunks, cur) + oversized_pieces(paras[i], target),
            seq![],
            target,
        )
    } else {
        let (c2, k2) = pack_step(chunks, cur, paras[i], target, seq!['\n', '\n']);
        chunk_from(paras, i + 1, c2, k2, target)
    }
}

/// The budget actually used: at least one character.
pub open spec fn budget(target: int) -> int {
    if target < 1 {
        1
    } else {
        target
    }
}

/// The chunks of `text` for a target of `target` characters.
pub open spec fn chunks_of(text: Seq<char>, target: int) -> Seq<Seq<char>> {
    chunk_from(paragraphs(text), 0, seq![], seq![], budget(target))
}

proof fn lemma_keep_trimmed_cons(x: Seq<char>, rest: Seq<Seq<char>>)
    ensures
        keep_trimmed(seq![x] + rest) == keep(trim_ws(x)) + keep_trimmed(rest),
{
    assert((seq![x] + rest).drop_first() =~= rest);
    assert((seq![x] + rest)[0] == x);
}

/// Bounds of the paragraphs of `v`.
fn paragraph_bounds(v: &Vec<char>) -> (res: Vec<(usize, usize)>)
    ensures
        pieces(v@, res@) == paragraphs(v@),
        bounds_ok(v@, res@),
        bounds_trimmed(v@, res@),
{
    let n = v.len();
    let mut res: Vec<(usize, usize)> = Vec::new();
    let mut start: usize = 0;
    let mut i: usize = 0;
    while i < n
        invariant
            n == v@.len(),
            start <= i <= n,
            pieces(v@, res@) + keep_trimmed(blank_pieces(v@, start as int, i as int))
                == paragraphs(v@),
            bounds_ok(v@, res@),
            bounds_trimmed(v@, res@),
        decreases n - i,
    {
        if i + 1 < n && v[i] == '\n' && v[i + 1] == '\n' {
            let (a, b) = trim_bounds(v, start, i);
        proof {
            lemma_trim_ends(v@.subrange(start as int, (i) as int));
        }
            proof {
                lemma_keep_trimmed_cons(
                    v@.subrange(start as int, i as int),
                    blank_pieces(v@, i + 2, i + 2),
                );
            }
            let ghost old_res = res@;
            if a < b {
                res.push((a, b));
                assert(pieces(v@, res@) =~= pieces(v@, old_res) + keep(
                    trim_ws(v@.subrange(start as int, i as int)),
                ));
            } else {
                assert(keep(trim_ws(v@.subrange(start as int, i as int))) =~= seq![]);
            }
            start = i + 2;
            i = i + 2;
        } else {
            i = i + 1;
        }
    }
    let (a, b) = trim_bounds(v, start, n);
        proof {
            lemma_trim_ends(v@.subrange(start as int, (n) as int));
        }
    proof {
        assert(keep_trimmed(seq![v@.subrange(start as int, n as int)]) == keep(
            trim_ws(v@.subrange(start as int, n as int)),
        ) + keep_trimmed(seq![])) by {
            lemma_keep_trimmed_cons(v@.subrange(start as int, n as int), seq![]);
            assert(seq![v@.subrange(start as int, n as int)] + Seq::<Seq<char>>::empty()
                =~= seq![v@.subrange(start as int, n as int)]);
        }
    }
    let ghost old_res = res@;
    if a < b {
        res.push((a, b));
        assert(pieces(v@, res@) =~= pieces(v@, old_res) + keep(
            trim_ws(v@.subrange(start as int, n as int)),
        ));
    } else {
        assert(pieces(v@, res@) =~= pieces(v@, old_res) + keep(
            trim_ws(v@.subrange(start as int, n as int)),
        ));
    }
    res
}

/// Bounds of the blank-line-separated pieces of `v`.
pub fn blank_piece_bounds(v: &Vec<char>) -> (res: Vec<(usize, usize)>)
    ensures
        pieces(v@, res@) == blank_pieces(v@, 0, 0),
        forall|k: int| 0 <= k < res@.len() ==> (#[trigger] res@[k]).0 <= res@[k].1 <= v@.len(),
{
    let n = v.len();
    let mut res: Vec<(usize, usize)> = Vec::new();
    let mut start: usize = 0;
    let mut i: usize = 0;
    while i < n
        invariant
            n == v@.len(),
            start <= i <= n,
            pieces(v@, res@) + blank_pieces(v@, start as int, i as int) == blank_pieces(v@, 0, 0),
            forall|k: int| 0 <= k < res@.len() ==> (#[trigger] res@[k]).0 <= res@[k].1 <= v@.len(),
        decreases n - i,
    {
        if i + 1 < n && v[i] == '\n' && v[i + 1] == '\n' {
            let ghost old_res = res@;
            res.push((start, i));
            assert(pieces(v@, res@) =~= pieces(v@, old_res) + seq![v@.subrange(start as int, i as int)]);
            start = i + 2;
            i = i + 2;
        } else {
            i = i + 1;
        }
    }
    let ghost old_res = res@;
    res.push((start, n));
    assert(pieces(v@, res@) =~= pieces(v@, old_res) + seq![v@.subrange(start as int, n as int)]);
    res
}

/// Bounds of the sentences of `p`.
fn sentence_bounds(p: &Vec<char>) -> (res: Vec<(usize, usize)>)
    ensures
        pieces(p@, res@) == sentences(p@),
        bounds_ok(p@, res@),
        bounds_trimmed(p@, res@),
{
    let n = p.len();
    let mut res: Vec<(usize, usize)> = Vec::new();
    let mut start: usize = 0;
    let mut i: usize = 0;
    while i < n
        invariant
            n == p@.len(),
            start <= i <= n,
            pieces(p@, res@) + sentence_rest(p@, start as int, i as int) == sentences(p@),
            bounds_ok(p@, res@),
            bounds_trimmed(p@, res@),
        decreases n - i,
    {
        let c = p[i];
        if (c == '.' || c == '!' || c == '?') && (i + 1 == n || is_whitespace(p[i + 1])) {
            let (a, b) = trim_bounds(p, start, i + 1);
        proof {
            lemma_trim_ends(p@.subrange(start as int, (i + 1) as int));
        }
            let ghost old_res = res@;
            if a < b {
                res.push((a, b));
            }
            assert(pieces(p@, res@) =~= pieces(p@, old_res) + keep(
                trim_ws(p@.subrange(start as int, i + 1)),
            ));
            start = i + 1;
        }
        i = i + 1;
    }
    if start < n {
        let (a, b) = trim_bounds(p, start, n);
        proof {
            lemma_trim_ends(p@.subrange(start as int, (n) as int));
        }
        let ghost old_res = res@;
        if a < b {
            res.push((a, b));
        }
        assert(pieces(p@, res@) =~= pieces(p@, old_res) + keep(
            trim_ws(p@.subrange(start as int, n as int)),
        ));
    } else {
        assert(pieces(p@, res@) =~= pieces(p@, res@) + Seq::<Seq<char>>::empty());
    }
    res
}

/// Packs the sentences of an over-long paragraph into pieces near `target`.
fn split_oversized(p: &Vec<char>, target: usize) -> (res: Vec<String>)
    ensures
        views(res@) == oversized_pieces(p@, target as int),
{
    let bounds = sentence_bounds(p);
    let ghost items = sentences(p@);
    let mut out: Vec<String> = Vec::new();
    let mut cur = String::new();
    let mut cur_len: usize = 0;
    let mut k: usize = 0;
    assert(views(out@) =~= seq![]);
    while k < bounds.len()
        invariant
            pieces(p@, bounds@) == items,
            bounds_ok(p@, bounds@),
            bounds_trimmed(p@, bounds@),
            k <= bounds@.len(),
            cur_len == cur@.len(),
            pack_from(items, k as int, views(out@), cur@, target as int, seq![' '])
                == oversized_pieces(p@, target as int),
            cur@.len() == 0 || !is_ws(cur@.last()),
        decreases bounds@.len() - k,
    {
        let (a, b) = bounds[k];
        let ghost item = p@.subrange(a as int, b as int);
        proof {
            assert(items[k as int] == item);
            assert(bounds@[k as int].0 < bounds@[k as int].1 <= p@.len());
        }
        let len = b - a;
        let ghost st = pack_step(views(out@), cur@, item, target as int, seq![' ']);
        let sep: u128 = if cur_len == 0 { 0 } else { 1 };
        let joined: u128 = cur_len as u128 + len as u128 + sep;
        if joined > target as u128 && cur_len > 0 {
            let ghost old_out = views(out@);
            out.push(cur);
            assert(views(out@) =~= old_out.push(cur@));
            cur = String::new();
            cur_len = 0;
            push_range(&mut cur, p, a, b);
            cur_len = len;
        } else {
            if cur_len > 0 {
                cur.push(' ');
                cur_len = cur_len + 1;
            }
            push_range(&mut cur, p, a, b);
            cur_len = cur_len + len;
        }
        proof {
            assert(cur@.last() == p@[b - 1]);
            assert(views(out@) == st.0);
            assert(cur@ =~= st.1);
        }
        k = k + 1;
    }
    if cur_len > 0 {
        proof {
            lemma_trim_start_keeps_last(cur@);
        }
        out.push(cur);
    } else {
        assert(trim_ws(cur@) =~= cur@);
    }
    out
}


/// Splits `text` (paragraphs separated by blank lines) into chunks near
/// `target` characters each.
pub fn chunk_text(text: &str, target: usize) -> (res: Vec<String>)
    ensures
        views(res@) == chunks_of(text@, target as int),
{
    let target = if target < 1 {
        1
    } else {
        target
    };
    let v = chars_of(text);
    let bounds = paragraph_bounds(&v);
    let ghost paras = paragraphs(v@);
    let mut out: Vec<String> = Vec::new();
    let mut cur = String::new();
    let mut cur_len: usize = 0;
    let mut k: usize = 0;
    assert(views(out@) =~= seq![]);
    while k < bounds.len()
        invariant
            pieces(v@, bounds@) == paras,
            bounds_ok(v@, bounds@),
            bounds_trimmed(v@, bounds@),
            k <= bounds@.len(),
            cur_len == cur@.len(),
            chunk_from(paras, k as int, views(out@), cur@, target as int) == chunks_of(
                text@,
                target as int,
            ),
            cur@.len() == 0 || !is_ws(cur@.last()),
        decreases bounds@.len() - k,
    {
        let (a, b) = bounds[k];
        let ghost item = v@.subrange(a as int, b as int);
        proof {
            assert(paras[k as int] == item);
            assert(bounds@[k as int].0 < bounds@[k as int].1 <= v@.len());
        }
        let len = b - a;
        if len > target {
            let ghost old_out = views(out@);
            let ghost old_cur = cur@;
            if cur_len > 0 {
                out.push(cur);
                cur = String::new();
                cur_len = 0;
            }
            assert(views(out@) =~= flush(old_out, old_cur));
            let p = sub_vec(&v, a, b);
            let mut split = split_oversized(&p, target);
            let ghost mid = views(out@);
            let ghost sv = views(split@);
            out.append(&mut split);
            assert(views(out@) =~= mid + sv);
            assert(cur@ =~= seq![]);
            assert(item.len() > target);
        } else {
            let ghost st = pack_step(views(out@), cur@, item, target as int, seq!['\n', '\n']);
            let sep: u128 = if cur_len == 0 {
                0
            } else {
                2
            };
            let joined: u128 = cur_len as u128 + len as u128 + sep;
            if joined > target as u128 && cur_len > 0 {
                let ghost old_out = views(out@);
                out.push(cur);
                assert(views(out@) =~= old_out.push(cur@));
                cur = String::new();
                cur_len = 0;
                push_range(&mut cur, &v, a, b);
                assert(cur@ =~= item);
                cur_len = len;
            } else {
                if cur_len > 0 {
                    proof {
                        reveal_strlit("\n\n");
                    }
                    cur.push_str("\n\n");
                    cur_len = cur_len + 2;
                }
                push_range(&mut cur, &v, a, b);
                cur_len = cur_len + len;
            }
            proof {
                assert(cur@.last() == v@[b - 1]);
                assert(views(out@) == st.0);
                assert(cur@ =~= st.1);
            }
        }
        k = k + 1;
    }
    if cur_len > 0 {
        proof {
            lemma_trim_start_keeps_last(cur@);
        }
        out.push(cur);
    } else {
        assert(trim_ws(cur@) =~= cur@);
    }
    out
}


proof fn lemma_keep_trim_words(x: Seq<char>)
    ensures
        all_words(keep(trim_ws(x))) == words(x),
{
    lemma_words_trim(x);
    if trim_ws(x).len() > 0 {
        lemma_all_words_push(Seq::<Seq<char>>::empty(), trim_ws(x));
        assert(Seq::<Seq<char>>::empty().push(trim_ws(x)) =~= seq![trim_ws(x)]);
        assert(all_words(Seq::<Seq<char>>::empty()) + words(trim_ws(x)) =~= words(trim_ws(x)));
    } else {
        lemma_words_all_ws(trim_ws(x));
    }
}

proof fn lemma_keep_trimmed_words(ps: Seq<Seq<char>>)
    ensures
        all_words(keep_trimmed(ps)) == all_words(ps),
    decreases ps.len(),
{
    if ps.len() > 0 {
        lemma_keep_trimmed_words(ps.drop_first());
        lemma_all_words_append(keep(trim_ws(ps[0])), keep_trimmed(ps.drop_first()));
        lemma_keep_trim_words(ps[0]);
    }
}

pub proof fn lemma_blank_pieces_words(s: Seq<char>, start: int, i: int)
    requires
        0 <= start <= i <= s.len(),
    ensures
        all_words(blank_pieces(s, start, i)) == words(s.subrange(start, s.len() as int)),
    decreases s.len() - i,
{
    if i >= s.len() {
        lemma_all_words_push(Seq::<Seq<char>>::empty(), s.subrange(start, s.len() as int));
        assert(Seq::<Seq<char>>::empty().push(s.subrange(start, s.len() as int)) =~= seq![
            s.subrange(start, s.len() as int),
        ]);
        assert(all_words(Seq::<Seq<char>>::empty()) + words(s.subrange(start, s.len() as int))
            =~= words(s.subrange(start, s.len() as int)));
    } else if i + 1 < s.len() && s[i] == '\n' && s[i + 1] == '\n' {
        lemma_blank_pieces_words(s, i + 2, i + 2);
        let x = s.subrange(start, i);
        let sep = s.subrange(i, i + 2);
        let y = s.subrange(i + 2, s.len() as int);
        assert(s.subrange(start, s.len() as int) =~= x + sep + y);
        assert(all_ws(sep)) by {
            assert forall|j: int| 0 <= j < sep.len() implies crate::text::is_ws(#[trigger] sep[j]) by {
                assert(sep[j] == s[i + j]);
            }
        }
        lemma_words_sep(x, sep, y);
        lemma_all_words_append(seq![x], blank_pieces(s, i + 2, i + 2));
        lemma_all_words_push(Seq::<Seq<char>>::empty(), x);
        assert(Seq::<Seq<char>>::empty().push(x) =~= seq![x]);
        assert(all_words(Seq::<Seq<char>>::empty()) + words(x) =~= words(x));
    } else {
        lemma_blank_pieces_words(s, start, i + 1);
    }
}

/// The paragraphs of `s` hold exactly its words.
pub proof fn lemma_paragraphs_words(s: Seq<char>)
    ensures
        all_words(paragraphs(s)) == words(s),
{
    lemma_blank_pieces_words(s, 0, 0);
    lemma_keep_trimmed_words(blank_pieces(s, 0, 0));
    assert(s.subrange(0, s.len() as int) =~= s);
}

proof fn lemma_sentence_rest_words(s: Seq<char>, start: int, i: int)
    requires
        0 <= start <= i <= s.len(),
    ensures
        all_words(sentence_rest(s, start, i)) == words(s.subrange(start, s.len() as int)),
    decreases s.len() - i,
{
    if i >= s.len() {
        if start < s.len() {
            lemma_keep_trim_words(s.subrange(start, s.len() as int));
        } else {
            assert(s.subrange(start, s.len() as int) =~= Seq::<char>::empty());
            lemma_words_all_ws(Seq::<char>::empty());
        }
    } else if ends_sentence(s, i) {
        lemma_sentence_rest_words(s, i + 1, i + 1);
        let x = s.subrange(start, i + 1);
        let y = s.subrange(i + 1, s.len() as int);
        assert(s.subrange(start, s.len() as int) =~= x + y);
        if y.len() > 0 {
            assert(y[0] == s[i + 1]);
        }
        lemma_words_append(x, y);
        lemma_keep_trim_words(x);
        lemma_all_words_append(keep(trim_ws(x)), sentence_rest(s, i + 1, i + 1));
    } else {
        lemma_sentence_rest_words(s, start, i + 1);
    }
}

/// The sentences of `s` hold exactly its words.
pub proof fn lemma_sentences_words(s: Seq<char>)
    ensures
        all_words(sentences(s)) == words(s),
{
    lemma_sentence_rest_words(s, 0, 0);
    assert(s.subrange(0, s.len() as int) =~= s);
}

proof fn lemma_finish_words(chunks: Seq<Seq<char>>, cur: Seq<char>)
    ensures
        all_words(finish(chunks, cur)) == all_words(chunks) + words(cur),
{
    if trim_ws(cur).len() > 0 {
        lemma_all_words_push(chunks, cur);
    } else {
        lemma_words_trim(cur);
        lemma_words_all_ws(trim_ws(cur));
        assert(all_words(chunks) + words(cur) =~= all_words(chunks));
    }
}

proof fn lemma_pack_step_words(
    chunks: Seq<Seq<char>>,
    cur: Seq<char>,
    item: Seq<char>,
    target: int,
    sep: Seq<char>,
)
    requires
        sep.len() > 0,
        all_ws(sep),
    ensures
        ({
            let (c2, k2) = pack_step(chunks, cur, item, target, sep);
            all_words(c2) + words(k2) == all_words(chunks) + words(cur) + words(item)
        }),
{
    let joined = cur.len() + item.len() + if cur.len() == 0 {
        0
    } else {
        sep.len()
    };
    if joined > target && cur.len() > 0 {
        lemma_all_words_push(chunks, cur);
    } else if cur.len() > 0 {
        lemma_words_sep(cur, sep, item);
        assert(all_words(chunks) + (words(cur) + words(item)) =~= all_words(chunks) + words(cur)
            + words(item));
    } else {
        assert(cur =~= Seq::<char>::empty());
        lemma_words_all_ws(cur);
        assert(all_words(chunks) + words(cur) + words(item) =~= all_words(chunks) + words(item));
    }
}

proof fn lemma_pack_from_words(
    items: Seq<Seq<char>>,
    i: int,
    chunks: Seq<Seq<char>>,
    cur: Seq<char>,
    target: int,
    sep: Seq<char>,
)
    requires
        0 <= i <= items.len(),
        sep.len() > 0,
        all_ws(sep),
    ensures
        all_words(pack_from(items, i, chunks, cur, target, sep)) == all_words(chunks) + words(cur)
            + all_words(items.subrange(i, items.len() as int)),
    decreases items.len() - i,
{
    if i >= items.len() {
        lemma_finish_words(chunks, cur);
        assert(items.subrange(i, items.len() as int) =~= Seq::<Seq<char>>::empty());
        assert(all_words(chunks) + words(cur) + all_words(Seq::<Seq<char>>::empty()) =~= all_words(
            chunks,
        ) + words(cur));
    } else {
        let (c2, k2) = pack_step(chunks, cur, items[i], target, sep);
        lemma_pack_from_words(items, i + 1, c2, k2, target, sep);
        lemma_pack_step_words(chunks, cur, items[i], target, sep);
        lemma_all_words_tail(items, i);
        assert(all_words(chunks) + words(cur) + words(items[i]) + all_words(
            items.subrange(i + 1, items.len() as int),
        ) =~= all_words(chunks) + words(cur) + (words(items[i]) + all_words(
            items.subrange(i + 1, items.len() as int),
        )));
    }
}

proof fn lemma_space_ws()
    ensures
        all_ws(seq![' ']),
        all_ws(seq!['\n', '\n']),
{
    assert(crate::text::is_ws(seq![' '][0]));
    assert(crate::text::is_ws(seq!['\n', '\n'][0]));
    assert(crate::text::is_ws(seq!['\n', '\n'][1]));
}

proof fn lemma_oversized_words(p: Seq<char>, target: int)
    ensures
        all_words(oversized_pieces(p, target)) == words(p),
{
    lemma_space_ws();
    lemma_pack_from_words(sentences(p), 0, seq![], seq![], target, seq![' ']);
    lemma_sentences_words(p);
    lemma_words_all_ws(Seq::<char>::empty());
    assert(sentences(p).subrange(0, sentences(p).len() as int) =~= sentences(p));
    assert(all_words(Seq::<Seq<char>>::empty()) + words(Seq::<char>::empty()) + words(p)
        =~= words(p));
}

proof fn lemma_chunk_from_words(
    paras: Seq<Seq<char>>,
    i: int,
    chunks: Seq<Seq<char>>,
    cur: Seq<char>,
    target: int,
)
    requires
        0 <= i <= paras.len(),
    ensures
        all_words(chunk_from(paras, i, chunks, cur, target)) == all_words(chunks) + words(cur)
            + all_words(paras.subrange(i, paras.len() as int)),
    decreases paras.len() - i,
{
    lemma_space_ws();
    if i >= paras.len() {
        lemma_finish_words(chunks, cur);
        assert(paras.subrange(i, paras.len() as int) =~= Seq::<Seq<char>>::empty());
        assert(all_words(chunks) + words(cur) + all_words(Seq::<Seq<char>>::empty()) =~= all_words(
            chunks,
        ) + words(cur));
    } else if paras[i].len() > target {
        let c2 = flush(chunks, cur) + oversized_pieces(paras[i], target);
        lemma_chunk_from_words(paras, i + 1, c2, seq![], target);
        lemma_all_words_tail(paras, i);
        lemma_all_words_append(flush(chunks, cur), oversized_pieces(paras[i], target));
        lemma_oversized_words(paras[i], target);
        lemma_words_all_ws(Seq::<char>::empty());
        if cur.len() > 0 {
            lemma_all_words_push(chunks, cur);
        } else {
            assert(cur =~= Seq::<char>::empty());
        }
        assert(all_words(flush(chunks, cur)) == all_words(chunks) + words(cur));
        assert(all_words(c2) + words(Seq::<char>::empty()) + all_words(
            paras.subrange(i + 1, paras.len() as int),
        ) =~= all_words(chunks) + words(cur) + (words(paras[i]) + all_words(
            paras.subrange(i + 1, paras.len() as int),
        )));
    } else {
        let (c2, k2) = pack_step(chunks, cur, paras[i], target, seq!['\n', '\n']);
        lemma_chunk_from_words(paras, i + 1, c2, k2, target);
        lemma_pack_step_words(chunks, cur, paras[i], target, seq!['\n', '\n']);
        lemma_all_words_tail(paras, i);
        assert(all_words(chunks) + words(cur) + words(paras[i]) + all_words(
            paras.subrange(i + 1, paras.len() as int),
        ) =~= all_words(chunks) + words(cur) + (words(paras[i]) + all_words(
            paras.subrange(i + 1, paras.len() as int),
        )));
    }
}

/// Chunking neither loses, reorders, adds nor splits any word: the words of
/// the chunks, in order, are exactly the words of the text.
pub proof fn law_chunks_keep_words(text: Seq<char>, target: int)
    ensures
        all_words(chunks_of(text, target)) == words(text),
{
    let paras = paragraphs(text);
    lemma_chunk_from_words(paras, 0, seq![], seq![], budget(target));
    lemma_paragraphs_words(text);
    lemma_words_all_ws(Seq::<char>::empty());
    assert(paras.subrange(0, paras.len() as int) =~= paras);
    assert(all_words(Seq::<Seq<char>>::empty()) + words(Seq::<char>::empty()) + all_words(paras)
        =~= all_words(paras));
}


/// A chunk is tidy when it is non-empty and starts and ends with non-whitespace.
pub open spec fn tidy(c: Seq<char>) -> bool {
    c.len() > 0 && !is_ws(c[0]) && !is_ws(c.last())
}

pub open spec fn all_tidy(cs: Seq<Seq<char>>) -> bool {
    forall|k: int| 0 <= k < cs.len() ==> tidy(#[trigger] cs[k])
}

proof fn lemma_keep_tidy(x: Seq<char>)
    ensures
        all_tidy(keep(trim_ws(x))),
{
    lemma_trim_ends(x);
}

proof fn lemma_concat_tidy(a: Seq<Seq<char>>, b: Seq<Seq<char>>)
    requires
        all_tidy(a),
        all_tidy(b),
    ensures
        all_tidy(a + b),
{
    assert forall|k: int| 0 <= k < (a + b).len() implies tidy(#[trigger] (a + b)[k]) by {
        if k < a.len() {
            assert((a + b)[k] == a[k]);
        } else {
            assert((a + b)[k] == b[k - a.len()]);
        }
    }
}

proof fn lemma_keep_trimmed_tidy(ps: Seq<Seq<char>>)
    ensures
        all_tidy(keep_trimmed(ps)),
    decreases ps.len(),
{
    if ps.len() > 0 {
        lemma_keep_trimmed_tidy(ps.drop_first());
        lemma_keep_tidy(ps[0]);
        lemma_concat_tidy(keep(trim_ws(ps[0])), keep_trimmed(ps.drop_first()));
    }
}

proof fn lemma_sentence_rest_tidy(s: Seq<char>, start: int, i: int)
    ensures
        all_tidy(sentence_rest(s, start, i)),
    decreases s.len() - i,
{
    if i >= s.len() {
        if start < s.len() {
            lemma_keep_tidy(s.subrange(start, s.len() as int));
        }
    } else if ends_sentence(s, i) {
        lemma_sentence_rest_tidy(s, i + 1, i + 1);
        lemma_keep_tidy(s.subrange(start, i + 1));
        lemma_concat_tidy(keep(trim_ws(s.subrange(start, i + 1))), sentence_rest(s, i + 1, i + 1));
    } else {
        lemma_sentence_rest_tidy(s, start, i + 1);
    }
}

proof fn lemma_pack_from_tidy(
    items: Seq<Seq<char>>,
    i: int,
    chunks: Seq<Seq<char>>,
    cur: Seq<char>,
    target: int,
    sep: Seq<char>,
)
    requires
        0 <= i <= items.len(),
        all_tidy(items),
        all_tidy(chunks),
        cur.len() == 0 || tidy(cur),
    ensures
        all_tidy(pack_from(items, i, chunks, cur, target, sep)),
    decreases items.len() - i,
{
    if i >= items.len() {
        if trim_ws(cur).len() > 0 {
            assert(all_tidy(chunks.push(cur))) by {
                assert forall|k: int| 0 <= k < chunks.push(cur).len() implies tidy(
                    #[trigger] chunks.push(cur)[k],
                ) by {
                    if k < chunks.len() {
                        assert(chunks.push(cur)[k] == chunks[k]);
                    }
                }
            }
        }
    } else {
        let item = items[i];
        assert(tidy(item));
        let (c2, k2) = pack_step(chunks, cur, item, target, sep);
        assert(all_tidy(c2)) by {
            assert forall|k: int| 0 <= k < c2.len() implies tidy(#[trigger] c2[k]) by {
                if k < chunks.len() {
                    assert(c2[k] == chunks[k]);
                }
            }
        }
        if cur.len() > 0 && k2 != item {
            assert(k2 == cur + sep + item);
            assert(k2[0] == cur[0]);
            assert(k2.last() == item.last());
        }
        lemma_pack_from_tidy(items, i + 1, c2, k2, target, sep);
    }
}

proof fn lemma_chunk_from_tidy(
    paras: Seq<Seq<char>>,
    i: int,
    chunks: Seq<Seq<char>>,
    cur: Seq<char>,
    target: int,
)
    requires
        0 <= i <= paras.len(),
        all_tidy(paras),
        all_tidy(chunks),
        cur.len() == 0 || tidy(cur),
    ensures
        all_tidy(chunk_from(paras, i, chunks, cur, target)),
    decreases paras.len() - i,
{
    if i >= paras.len() {
        lemma_pack_from_tidy(paras, paras.len() as int, chunks, cur, target, seq![]);
    } else if paras[i].len() > target {
        let f = flush(chunks, cur);
        assert(all_tidy(f)) by {
            assert forall|k: int| 0 <= k < f.len() implies tidy(#[trigger] f[k]) by {
                if k < chunks.len() {
                    assert(f[k] == chunks[k]);
                }
            }
        }
        lemma_sentence_rest_tidy(paras[i], 0, 0);
        lemma_pack_from_tidy(sentences(paras[i]), 0, seq![], seq![], target, seq![' ']);
        lemma_concat_tidy(f, oversized_pieces(paras[i], target));
        lemma_chunk_from_tidy(paras, i + 1, f + oversized_pieces(paras[i], target), seq![], target);
    } else {
        let item = paras[i];
        assert(tidy(item));
        let sep = seq!['\n', '\n'];
        let (c2, k2) = pack_step(chunks, cur, item, target, sep);
        assert(all_tidy(c2)) by {
            assert forall|k: int| 0 <= k < c2.len() implies tidy(#[trigger] c2[k]) by {
                if k < chunks.len() {
                    assert(c2[k] == chunks[k]);
                }
            }
        }
        if cur.len() > 0 && k2 != item {
            assert(k2 == cur + sep + item);
            assert(k2[0] == cur[0]);
            assert(k2.last() == item.last());
        }
        lemma_chunk_from_tidy(paras, i + 1, c2, k2, target);
    }
}

/// Every chunk is non-empty and starts and ends with a non-whitespace character.
pub proof fn law_chunks_tidy(text: Seq<char>, target: int)
    ensures
        all_tidy(chunks_of(text, target)),
{
    lemma_keep_trimmed_tidy(blank_pieces(text, 0, 0));
    lemma_chunk_from_tidy(paragraphs(text), 0, seq![], seq![], budget(target));
}


/// A chunk stays within the budget, or else it is a single sentence of a
/// paragraph that was itself over the budget.
pub open spec fn fits(c: Seq<char>, paras: Seq<Seq<char>>, t: int) -> bool {
    c.len() <= t || exists|j: int|
        0 <= j < paras.len() && paras[j].len() > t && #[trigger] sentences(paras[j]).contains(c)
}

/// Every piece is within `t` characters or is one of `items`.
pub open spec fn short_or_among(r: Seq<Seq<char>>, items: Seq<Seq<char>>, t: int) -> bool {
    forall|k: int| 0 <= k < r.len() ==> (#[trigger] r[k]).len() <= t || items.contains(r[k])
}

/// Every chunk fits (see `fits`).
pub open spec fn all_fit(r: Seq<Seq<char>>, paras: Seq<Seq<char>>, t: int) -> bool {
    forall|k: int| 0 <= k < r.len() ==> fits(#[trigger] r[k], paras, t)
}

proof fn lemma_pack_from_bound(
    items: Seq<Seq<char>>,
    i: int,
    chunks: Seq<Seq<char>>,
    cur: Seq<char>,
    target: int,
    sep: Seq<char>,
)
    requires
        0 <= i <= items.len(),
        short_or_among(chunks, items, target),
        cur.len() <= target || items.contains(cur),
    ensures
        short_or_among(pack_from(items, i, chunks, cur, target, sep), items, target),
    decreases items.len() - i,
{
    if i >= items.len() {
        let r = finish(chunks, cur);
        assert forall|k: int| 0 <= k < r.len() implies (#[trigger] r[k]).len() <= target
            || items.contains(r[k]) by {
            if k < chunks.len() {
                assert(r[k] == chunks[k]);
            }
        }
    } else {
        let item = items[i];
        assert(items.contains(item));
        let (c2, k2) = pack_step(chunks, cur, item, target, sep);
        assert forall|k: int| 0 <= k < c2.len() implies (#[trigger] c2[k]).len() <= target
            || items.contains(c2[k]) by {
            if k < chunks.len() {
                assert(c2[k] == chunks[k]);
            }
        }
        lemma_pack_from_bound(items, i + 1, c2, k2, target, sep);
    }
}

proof fn lemma_chunk_from_bound(
    paras: Seq<Seq<char>>,
    i: int,
    chunks: Seq<Seq<char>>,
    cur: Seq<char>,
    target: int,
)
    requires
        0 <= i <= paras.len(),
        all_fit(chunks, paras, target),
        cur.len() <= target,
    ensures
        all_fit(chunk_from(paras, i, chunks, cur, target), paras, target),
    decreases paras.len() - i,
{
    if i >= paras.len() {
        let r = finish(chunks, cur);
        assert forall|k: int| 0 <= k < r.len() implies fits(#[trigger] r[k], paras, target) by {
            if k < chunks.len() {
                assert(r[k] == chunks[k]);
            }
        }
    } else if paras[i].len() > target {
        let p = paras[i];
        let f = flush(chunks, cur);
        let o = oversized_pieces(p, target);
        lemma_pack_from_bound(sentences(p), 0, seq![], seq![], target, seq![' ']);
        let c2 = f + o;
        assert forall|k: int| 0 <= k < c2.len() implies fits(#[trigger] c2[k], paras, target) by {
            if k < f.len() {
                assert(c2[k] == f[k]);
                if k < chunks.len() {
                    assert(f[k] == chunks[k]);
                }
            } else {
                assert(c2[k] == o[k - f.len()]);
                let x = o[k - f.len()];
                if x.len() > target {
                    assert(sentences(paras[i]).contains(x));
                }
            }
        }
        lemma_chunk_from_bound(paras, i + 1, c2, seq![], target);
    } else {
        let item = paras[i];
        let (c2, k2) = pack_step(chunks, cur, item, target, seq!['\n', '\n']);
        assert forall|k: int| 0 <= k < c2.len() implies fits(#[trigger] c2[k], paras, target) by {
            if k < chunks.len() {
                assert(c2[k] == chunks[k]);
            }
        }
        lemma_chunk_from_bound(paras, i + 1, c2, k2, target);
    }
}

/// No chunk is longer than the budget unless it is one sentence of an
/// over-budget paragraph: paragraphs are packed up to the budget, and a
/// paragraph is split on sentences only when it alone exceeds the budget.
pub proof fn law_chunks_fit_budget(text: Seq<char>, target: int)
    ensures
        all_fit(chunks_of(text, target), paragraphs(text), budget(target)),
{
    lemma_chunk_from_bound(paragraphs(text), 0, seq![], seq![], budget(target));
}

/// Text with no non-whitespace character yields no chunks.
pub proof fn law_blank_text_no_chunks(text: Seq<char>, target: int)
    requires
        all_ws(text),
    ensures
        chunks_of(text, target) == Seq::<Seq<char>>::empty(),
{
    let r = chunks_of(text, target);
    law_chunks_keep_words(text, target);
    law_chunks_tidy(text, target);
    lemma_words_all_ws(text);
    if r.len() > 0 {
        assert(tidy(r[0]));
        lemma_words_facts(r[0]);
        assert(all_words(r) == words(r[0]) + all_words(r.drop_first()));
        assert(all_words(r).len() > 0);
    }
}


/// All but the last of a list end with sentence punctuation.
pub open spec fn ends_terminated(ss: Seq<Seq<char>>) -> bool {
    forall|k: int| 0 <= k < ss.len() - 1 ==> #[trigger] ss[k].len() > 0 && is_terminator(ss[k].last())
}

proof fn lemma_sentence_rest_terminated(s: Seq<char>, start: int, i: int)
    requires
        0 <= start <= i <= s.len(),
    ensures
        ends_terminated(sentence_rest(s, start, i)),
    decreases s.len() - i,
{
    if i >= s.len() {
    } else if ends_sentence(s, i) {
        lemma_sentence_rest_terminated(s, i + 1, i + 1);
        let x = s.subrange(start, i + 1);
        let k = keep(trim_ws(x));
        let rest = sentence_rest(s, i + 1, i + 1);
        if trim_ws(x).len() > 0 {
            assert(x.last() == s[i]);
            assert(!is_ws(x.last()));
            lemma_trim_start_keeps_last(x);
        }
        assert forall|j: int| 0 <= j < (k + rest).len() - 1 implies #[trigger] (k + rest)[j].len() > 0
            && is_terminator((k + rest)[j].last()) by {
            if j < k.len() {
                assert((k + rest)[j] == trim_ws(x));
            } else {
                assert((k + rest)[j] == rest[j - k.len()]);
            }
        }
    } else {
        lemma_sentence_rest_terminated(s, start, i + 1);
    }
}

/// Sentences keep their terminal punctuation: every sentence but the last
/// ends with `.`, `!` or `?`.
pub proof fn law_sentences_keep_punctuation(s: Seq<char>)
    ensures
        ends_terminated(sentences(s)),
{
    lemma_sentence_rest_terminated(s, 0, 0);
}


/// A sentence break at `j`: a terminator followed by whitespace.
pub open spec fn break_at(c: Seq<char>, j: int) -> bool {
    is_terminator(c[j]) && is_ws(c[j + 1])
}

/// No terminator inside `c` is followed by whitespace.
pub open spec fn no_inner_break(c: Seq<char>) -> bool {
    forall|j: int| 0 <= j && j + 1 < c.len() ==> !#[trigger] break_at(c, j)
}

proof fn lemma_no_break_subrange(x: Seq<char>, a: int, b: int)
    requires
        0 <= a <= b <= x.len(),
        no_inner_break(x),
    ensures
        no_inner_break(x.subrange(a, b)),
{
    let y = x.subrange(a, b);
    assert forall|j: int| 0 <= j && j + 1 < y.len() implies !#[trigger] break_at(y, j) by {
        assert(y[j] == x[a + j] && y[j + 1] == x[a + j + 1]);
        assert(!break_at(x, a + j));
    }
}

proof fn lemma_no_break_trim(x: Seq<char>)
    requires
        no_inner_break(x),
    ensures
        no_inner_break(trim_ws(x)),
{
    let a = crate::text::trim_start(x);
    crate::text::lemma_trim_parts(x);
    crate::text::lemma_trim_parts(a);
    lemma_no_break_subrange(x, x.len() - a.len(), x.len() as int);
    lemma_no_break_subrange(a, 0, trim_ws(x).len() as int);
}

proof fn lemma_sentence_rest_no_break(s: Seq<char>, start: int, i: int)
    requires
        0 <= start <= i <= s.len(),
        forall|j: int| start <= j < i ==> !#[trigger] ends_sentence(s, j),
    ensures
        forall|k: int| 0 <= k < sentence_rest(s, start, i).len() ==> no_inner_break(
            #[trigger] sentence_rest(s, start, i)[k],
        ),
    decreases s.len() - i,
{
    let r = sentence_rest(s, start, i);
    if i >= s.len() {
        if start < s.len() {
            let x = s.subrange(start, s.len() as int);
            assert forall|j: int| 0 <= j && j + 1 < x.len() implies !#[trigger] break_at(x, j) by {
                assert(!ends_sentence(s, start + j));
                assert(x[j] == s[start + j] && x[j + 1] == s[start + j + 1]);
            }
            lemma_no_break_trim(x);
            assert(r == keep(trim_ws(x)));
            if r.len() > 0 {
                assert(r[0] == trim_ws(x));
            }
        } else {
            assert(r.len() == 0);
        }
    } else if ends_sentence(s, i) {
        lemma_sentence_rest_no_break(s, i + 1, i + 1);
        let x = s.subrange(start, i + 1);
        assert forall|j: int| 0 <= j && j + 1 < x.len() implies !#[trigger] break_at(x, j) by {
            assert(!ends_sentence(s, start + j));
            assert(x[j] == s[start + j] && x[j + 1] == s[start + j + 1]);
        }
        lemma_no_break_trim(x);
        let kx = keep(trim_ws(x));
        let rest = sentence_rest(s, i + 1, i + 1);
        assert forall|k: int| 0 <= k < (kx + rest).len() implies no_inner_break(
            #[trigger] (kx + rest)[k],
        ) by {
            if k < kx.len() {
                assert((kx + rest)[k] == trim_ws(x));
            } else {
                assert((kx + rest)[k] == rest[k - kx.len()]);
            }
        }
        assert(r == kx + rest);
    } else {
        lemma_sentence_rest_no_break(s, start, i + 1);
        assert(r == sentence_rest(s, start, i + 1));
    }
}

/// Every sentence is non-empty, its own trim, and holds no sentence break
/// inside: a terminator in it is followed by another non-whitespace character
/// or ends it.
pub proof fn law_sentences_are_single(s: Seq<char>)
    ensures
        forall|k: int| 0 <= k < sentences(s).len() ==> {
            let c = #[trigger] sentences(s)[k];
            &&& c.len() > 0
            &&& trim_ws(c) == c
            &&& no_inner_break(c)
        },
{
    lemma_sentence_rest_tidy(s, 0, 0);
    lemma_sentence_rest_no_break(s, 0, 0);
    assert forall|k: int| 0 <= k < sentences(s).len() implies trim_ws(#[trigger] sentences(s)[k])
        == sentences(s)[k] by {
        assert(tidy(sentences(s)[k]));
        crate::text::lemma_trim_noop(sentences(s)[k]);
    }
}

/// A chunk over the budget holds no sentence break inside: only a single
/// over-long sentence may exceed the budget.
pub proof fn law_long_chunks_are_one_sentence(text: Seq<char>, target: int)
    ensures
        forall|k: int| 0 <= k < chunks_of(text, target).len() ==> (#[trigger] chunks_of(
            text,
            target,
        )[k]).len() <= budget(target) || no_inner_break(chunks_of(text, target)[k]),
{
    let r = chunks_of(text, target);
    let paras = paragraphs(text);
    let t = budget(target);
    law_chunks_fit_budget(text, target);
    assert forall|k: int| 0 <= k < r.len() implies (#[trigger] r[k]).len() <= t || no_inner_break(
        r[k],
    ) by {
        assert(fits(r[k], paras, t));
        if r[k].len() > t {
            let j = choose|j: int|
                0 <= j < paras.len() && paras[j].len() > t && #[trigger] sentences(
                    paras[j],
                ).contains(r[k]);
            law_sentences_are_single(paras[j]);
            let m = choose|m: int| 0 <= m < sentences(paras[j]).len() && sentences(paras[j])[m]
                == r[k];
            assert(no_inner_break(sentences(paras[j])[m]));
        }
    }
}

/// A target of zero chunks as a target of one: the budget is at least one character.
pub proof fn law_zero_target_as_one(text: Seq<char>)
    ensures
        chunks_of(text, 0) == chunks_of(text, 1),
{
}

/// The pieces of `ps` joined by `sep`.
pub open spec fn join(ps: Seq<Seq<char>>, sep: Seq<char>) -> Seq<char>
    decreases ps.len(),
{
    if ps.len() == 0 {
        seq![]
    } else if ps.len() == 1 {
        ps[0]
    } else {
        join(ps.drop_last(), sep) + sep + ps.last()
    }
}

/// `r[k]` is the `sep`-join of the run `items[b[k]..b[k + 1]]`, the runs
/// consecutive, non-empty and starting at the first item, and each joined run
/// within `t` characters.
pub open spec fn packed_runs(
    r: Seq<Seq<char>>,
    items: Seq<Seq<char>>,
    t: int,
    sep: Seq<char>,
    b: Seq<int>,
) -> bool {
    &&& b.len() == r.len() + 1
    &&& b[0] == 0
    &&& b.last() <= items.len()
    &&& forall|k: int, l: int| 0 <= k < l < b.len() ==> b[k] < b[l]
    &&& forall|k: int|
        0 <= k < r.len() ==> #[trigger] r[k] == join(
            items.subrange(b[k], b[k + 1]),
            sep,
        ) && r[k].len() <= t
}

/// Each of the first `n` runs was closed only because the next item would
/// not have fit: the run, a separator and that item exceed `t`.
pub open spec fn greedy_cuts(
    r: Seq<Seq<char>>,
    items: Seq<Seq<char>>,
    t: int,
    sep: Seq<char>,
    b: Seq<int>,
    n: int,
) -> bool {
    forall|k: int| 0 <= k < n ==> (#[trigger] r[k]).len() + sep.len() + items[b[k + 1]].len() > t
}

proof fn lemma_join_push(ps: Seq<Seq<char>>, x: Seq<char>, sep: Seq<char>)
    ensures
        join(ps.push(x), sep) == (if ps.len() == 0 {
            x
        } else {
            join(ps, sep) + sep + x
        }),
{
    assert(ps.push(x).drop_last() =~= ps);
}

proof fn lemma_join_run_push(items: Seq<Seq<char>>, a: int, i: int, sep: Seq<char>)
    requires
        0 <= a <= i < items.len(),
    ensures
        join(items.subrange(a, i + 1), sep) == (if a == i {
            items[i]
        } else {
            join(items.subrange(a, i), sep) + sep + items[i]
        }),
{
    assert(items.subrange(a, i + 1) =~= items.subrange(a, i).push(items[i]));
    lemma_join_push(items.subrange(a, i), items[i], sep);
}

proof fn lemma_chunk_from_packs(
    paras: Seq<Seq<char>>,
    i: int,
    chunks: Seq<Seq<char>>,
    cur: Seq<char>,
    t: int,
)
    requires
        forall|j: int| i <= j < paras.len() ==> (#[trigger] paras[j]).len() <= t,
    ensures
        chunk_from(paras, i, chunks, cur, t) == pack_from(paras, i, chunks, cur, t, seq!['\n', '\n']),
    decreases paras.len() - i,
{
    if i < paras.len() {
        assert(paras[i].len() <= t);
        let (c2, k2) = pack_step(chunks, cur, paras[i], t, seq!['\n', '\n']);
        lemma_chunk_from_packs(paras, i + 1, c2, k2, t);
    }
}

proof fn lemma_pack_from_greedy(
    items: Seq<Seq<char>>,
    i: int,
    chunks: Seq<Seq<char>>,
    cur: Seq<char>,
    t: int,
    sep: Seq<char>,
    b: Seq<int>,
) -> (bb: Seq<int>)
    requires
        0 <= i <= items.len(),
        all_tidy(items),
        forall|j: int| 0 <= j < items.len() ==> (#[trigger] items[j]).len() <= t,
        packed_runs(chunks, items, t, sep, b),
        greedy_cuts(chunks, items, t, sep, b, chunks.len() as int),
        b.last() <= i,
        cur == join(items.subrange(b.last(), i), sep),
        cur.len() <= t,
        cur.len() == 0 || tidy(cur),
        cur.len() == 0 <==> b.last() == i,
        i == 0 ==> chunks.len() == 0,
        i > 0 ==> cur.len() > 0 && join(chunks.push(cur), sep) == join(items.subrange(0, i), sep),
    ensures
        packed_runs(pack_from(items, i, chunks, cur, t, sep), items, t, sep, bb),
        bb.last() == items.len(),
        greedy_cuts(
            pack_from(items, i, chunks, cur, t, sep),
            items,
            t,
            sep,
            bb,
            pack_from(items, i, chunks, cur, t, sep).len() - 1,
        ),
        join(pack_from(items, i, chunks, cur, t, sep), sep) == join(items, sep),
    decreases items.len() - i,
{
    let n = items.len() as int;
    if i >= n {
        let r = finish(chunks, cur);
        assert(items.subrange(0, n) =~= items);
        if cur.len() > 0 {
            crate::text::lemma_trim_noop(cur);
            let bb = b.push(n);
            assert forall|k: int, l: int| 0 <= k < l < bb.len() implies bb[k] < bb[l] by {
                assert(bb[k] == b[k]);
                if l < b.len() {
                    assert(bb[l] == b[l]);
                } else if k < b.len() - 1 {
                    assert(b[k] < b[b.len() - 1]);
                }
            }
            assert forall|k: int| 0 <= k < r.len() implies (#[trigger] r[k]
                == join(items.subrange(bb[k], bb[k + 1]), sep) && r[k].len() <= t) by {
                if k < chunks.len() {
                    assert(r[k] == chunks[k]);
                    assert(bb[k] == b[k] && bb[k + 1] == b[k + 1]);
                } else {
                    assert(r[k] == cur);
                    assert(bb[k] == b.last() && bb[k + 1] == n);
                }
            }
            assert forall|k: int| 0 <= k < r.len() - 1 implies (#[trigger] r[k]).len() + sep.len()
                + items[bb[k + 1]].len() > t by {
                assert(r[k] == chunks[k]);
            }
            bb
        } else {
            assert(trim_ws(cur).len() == 0);
            assert(r == chunks);
            assert(chunks.len() == 0);
            b
        }
    } else {
        let item = items[i];
        assert(tidy(item));
        assert(item.len() <= t);
        let (c2, k2) = pack_step(chunks, cur, item, t, sep);
        let joined = cur.len() + item.len() + if cur.len() == 0 {
            0
        } else {
            sep.len()
        };
        lemma_join_run_push(items, b.last(), i, sep);
        lemma_join_run_push(items, 0, i, sep);
        if cur.len() == 0 {
            assert(i == 0);
            assert(k2 == item);
            lemma_join_push(chunks, item, sep);
            lemma_pack_from_greedy(items, i + 1, c2, k2, t, sep, b)
        } else if joined > t {
            let b2 = b.push(i);
            assert(c2 == chunks.push(cur));
            assert forall|k: int, l: int| 0 <= k < l < b2.len() implies b2[k] < b2[l] by {
                assert(b2[k] == b[k]);
                if l < b.len() {
                    assert(b2[l] == b[l]);
                } else if k < b.len() - 1 {
                    assert(b[k] < b[b.len() - 1]);
                }
            }
            assert(items.subrange(i, i + 1) =~= seq![item]);
            assert forall|k: int| 0 <= k < c2.len() implies (#[trigger] c2[k]
                == join(items.subrange(b2[k], b2[k + 1]), sep) && c2[k].len() <= t) by {
                if k < chunks.len() {
                    assert(c2[k] == chunks[k]);
                    assert(b2[k] == b[k] && b2[k + 1] == b[k + 1]);
                } else {
                    assert(c2[k] == cur);
                    assert(b2[k] == b.last() && b2[k + 1] == i);
                }
            }
            assert forall|k: int| 0 <= k < c2.len() implies (#[trigger] c2[k]).len() + sep.len()
                + items[b2[k + 1]].len() > t by {
                if k < chunks.len() {
                    assert(c2[k] == chunks[k]);
                }
            }
            lemma_join_push(c2, item, sep);
            lemma_pack_from_greedy(items, i + 1, c2, k2, t, sep, b2)
        } else {
            assert(c2 == chunks);
            assert(k2 == cur + sep + item);
            assert(k2[0] == cur[0]);
            assert(k2.last() == item.last());
            lemma_join_push(chunks, k2, sep);
            lemma_join_push(chunks, cur, sep);
            assert(join(chunks.push(k2), sep) =~= join(chunks.push(cur), sep) + sep + item);
            lemma_pack_from_greedy(items, i + 1, c2, k2, t, sep, b)
        }
    }
}

/// When every paragraph fits the budget, chunking packs whole paragraphs
/// greedily: joined by blank lines the chunks give back the paragraphs joined
/// by blank lines; each chunk is a run of consecutive paragraphs within the
/// budget; and a chunk was closed only because the next paragraph would not
/// have fit, so no two neighbouring chunks could be merged.
pub proof fn law_fitting_paragraphs_pack_greedily(text: Seq<char>, target: int)
    requires
        forall|j: int|
            0 <= j < paragraphs(text).len() ==> (#[trigger] paragraphs(text)[j]).len() <= budget(
                target,
            ),
    ensures
        join(chunks_of(text, target), seq!['\n', '\n']) == join(paragraphs(text), seq!['\n', '\n']),
        exists|b: Seq<int>|
            {
                &&& packed_runs(
                    chunks_of(text, target),
                    paragraphs(text),
                    budget(target),
                    seq!['\n', '\n'],
                    b,
                )
                &&& b.last() == paragraphs(text).len()
                &&& greedy_cuts(
                    chunks_of(text, target),
                    paragraphs(text),
                    budget(target),
                    seq!['\n', '\n'],
                    b,
                    chunks_of(text, target).len() - 1,
                )
            },
{
    let p = paragraphs(text);
    let t = budget(target);
    let sep = seq!['\n', '\n'];
    lemma_keep_trimmed_tidy(blank_pieces(text, 0, 0));
    lemma_chunk_from_packs(p, 0, seq![], seq![], t);
    let b0 = seq![0int];
    assert(p.subrange(0, 0) =~= Seq::<Seq<char>>::empty());
    let bb = lemma_pack_from_greedy(p, 0, seq![], seq![], t, sep, b0);
    assert(packed_runs(chunks_of(text, target), p, t, sep, bb));
}

/// Two line feeds in a row at `j`: a blank line.
pub open spec fn blank_at(c: Seq<char>, j: int) -> bool {
    c[j] == '\n' && c[j + 1] == '\n'
}

/// `c` holds no blank line.
pub open spec fn no_blank_line(c: Seq<char>) -> bool {
    forall|j: int| 0 <= j && j + 1 < c.len() ==> !#[trigger] blank_at(c, j)
}

/// A tidy piece of text without a blank line: a paragraph, or sentences of one.
pub open spec fn clean_piece(c: Seq<char>) -> bool {
    tidy(c) && no_blank_line(c)
}

/// The pieces joined by blank lines.
pub open spec fn blank_join(ps: Seq<Seq<char>>) -> Seq<char> {
    join(ps, seq!['\n', '\n'])
}

/// `c` is one or more clean pieces joined by blank lines, within `t`
/// characters unless it is a single piece without a sentence break inside.
pub open spec fn regroups(c: Seq<char>, t: int) -> bool {
    exists|ps: Seq<Seq<char>>|
        #[trigger] blank_join(ps) == c && ps.len() > 0 && (forall|m: int|
            0 <= m < ps.len() ==> clean_piece(#[trigger] ps[m])) && (c.len() <= t || (ps.len() == 1
            && no_inner_break(c)))
}

proof fn lemma_no_blank_subrange(x: Seq<char>, a: int, b: int)
    requires
        0 <= a <= b <= x.len(),
        no_blank_line(x),
    ensures
        no_blank_line(x.subrange(a, b)),
{
    let y = x.subrange(a, b);
    assert forall|j: int| 0 <= j && j + 1 < y.len() implies !#[trigger] blank_at(y, j) by {
        assert(y[j] == x[a + j] && y[j + 1] == x[a + j + 1]);
        assert(!blank_at(x, a + j));
    }
}

proof fn lemma_no_blank_trim(x: Seq<char>)
    requires
        no_blank_line(x),
    ensures
        no_blank_line(trim_ws(x)),
{
    let a = crate::text::trim_start(x);
    crate::text::lemma_trim_parts(x);
    crate::text::lemma_trim_parts(a);
    lemma_no_blank_subrange(x, x.len() - a.len(), x.len() as int);
    lemma_no_blank_subrange(a, 0, trim_ws(x).len() as int);
}

proof fn lemma_blank_pieces_no_blank(s: Seq<char>, start: int, i: int)
    requires
        0 <= start <= i <= s.len(),
        forall|j: int| start <= j < i && j + 1 < s.len() ==> !#[trigger] blank_at(s, j),
    ensures
        forall|k: int| 0 <= k < blank_pieces(s, start, i).len() ==> no_blank_line(
            #[trigger] blank_pieces(s, start, i)[k],
        ),
    decreases s.len() - i,
{
    let r = blank_pieces(s, start, i);
    if i >= s.len() {
        let x = s.subrange(start, s.len() as int);
        assert forall|j: int| 0 <= j && j + 1 < x.len() implies !#[trigger] blank_at(x, j) by {
            assert(x[j] == s[start + j] && x[j + 1] == s[start + j + 1]);
            assert(!blank_at(s, start + j));
        }
        assert(r == seq![x]);
        assert forall|k: int| 0 <= k < r.len() implies no_blank_line(#[trigger] r[k]) by {
            assert(r[k] == x);
        }
    } else if i + 1 < s.len() && s[i] == '\n' && s[i + 1] == '\n' {
        let x = s.subrange(start, i);
        assert forall|j: int| 0 <= j && j + 1 < x.len() implies !#[trigger] blank_at(x, j) by {
            assert(x[j] == s[start + j] && x[j + 1] == s[start + j + 1]);
            assert(!blank_at(s, start + j));
        }
        lemma_blank_pieces_no_blank(s, i + 2, i + 2);
        let rest = blank_pieces(s, i + 2, i + 2);
        assert(r == seq![x] + rest);
        assert forall|k: int| 0 <= k < r.len() implies no_blank_line(#[trigger] r[k]) by {
            if k == 0 {
                assert(r[k] == x);
            } else {
                assert(r[k] == rest[k - 1]);
            }
        }
    } else {
        assert(!blank_at(s, i) || i + 1 >= s.len());
        lemma_blank_pieces_no_blank(s, start, i + 1);
        assert(r == blank_pieces(s, start, i + 1));
    }
}

proof fn lemma_keep_trimmed_clean(ps: Seq<Seq<char>>)
    requires
        forall|k: int| 0 <= k < ps.len() ==> no_blank_line(#[trigger] ps[k]),
    ensures
        forall|k: int| 0 <= k < keep_trimmed(ps).len() ==> clean_piece(#[trigger] keep_trimmed(ps)[k]),
    decreases ps.len(),
{
    if ps.len() > 0 {
        let x = ps[0];
        let rest = ps.drop_first();
        assert forall|k: int| 0 <= k < rest.len() implies no_blank_line(#[trigger] rest[k]) by {
            assert(rest[k] == ps[k + 1]);
        }
        lemma_keep_trimmed_clean(rest);
        lemma_no_blank_trim(x);
        lemma_keep_tidy(x);
        let kx = keep(trim_ws(x));
        let r = keep_trimmed(ps);
        assert(r == kx + keep_trimmed(rest));
        assert forall|k: int| 0 <= k < r.len() implies clean_piece(#[trigger] r[k]) by {
            if k < kx.len() {
                assert(r[k] == trim_ws(x));
                assert(tidy(kx[0]));
            } else {
                assert(r[k] == keep_trimmed(rest)[k - kx.len()]);
            }
        }
    }
}

/// Paragraphs are clean pieces.
proof fn lemma_paragraphs_clean(s: Seq<char>)
    ensures
        forall|k: int| 0 <= k < paragraphs(s).len() ==> clean_piece(#[trigger] paragraphs(s)[k]),
{
    lemma_blank_pieces_no_blank(s, 0, 0);
    lemma_keep_trimmed_clean(blank_pieces(s, 0, 0));
}

proof fn lemma_sentence_rest_clean(s: Seq<char>, start: int, i: int)
    requires
        0 <= start <= i <= s.len(),
        no_blank_line(s),
    ensures
        forall|k: int| 0 <= k < sentence_rest(s, start, i).len() ==> clean_piece(
            #[trigger] sentence_rest(s, start, i)[k],
        ),
    decreases s.len() - i,
{
    let r = sentence_rest(s, start, i);
    lemma_sentence_rest_tidy(s, start, i);
    if i >= s.len() {
        if start < s.len() {
            let x = s.subrange(start, s.len() as int);
            lemma_no_blank_subrange(s, start, s.len() as int);
            lemma_no_blank_trim(x);
            assert(r == keep(trim_ws(x)));
            assert forall|k: int| 0 <= k < r.len() implies clean_piece(#[trigger] r[k]) by {
                assert(r[k] == trim_ws(x));
                assert(tidy(r[k]));
            }
        }
    } else if ends_sentence(s, i) {
        let x = s.subrange(start, i + 1);
        lemma_no_blank_subrange(s, start, i + 1);
        lemma_no_blank_trim(x);
        lemma_sentence_rest_clean(s, i + 1, i + 1);
        let kx = keep(trim_ws(x));
        let rest = sentence_rest(s, i + 1, i + 1);
        assert(r == kx + rest);
        assert forall|k: int| 0 <= k < r.len() implies clean_piece(#[trigger] r[k]) by {
            assert(tidy(r[k]));
            if k < kx.len() {
                assert(r[k] == trim_ws(x));
            } else {
                assert(r[k] == rest[k - kx.len()]);
            }
        }
    } else {
        lemma_sentence_rest_clean(s, start, i + 1);
        assert(r == sentence_rest(s, start, i + 1));
    }
}

proof fn lemma_space_join_clean(a: Seq<char>, b: Seq<char>)
    requires
        clean_piece(a),
        clean_piece(b),
    ensures
        clean_piece(a + seq![' '] + b),
{
    let c = a + seq![' '] + b;
    let n = a.len() as int;
    assert(c[0] == a[0]);
    assert(c.last() == b.last());
    assert(c[n] == ' ');
    assert forall|j: int| 0 <= j && j + 1 < c.len() implies !#[trigger] blank_at(c, j) by {
        if j + 1 < n {
            assert(c[j] == a[j] && c[j + 1] == a[j + 1]);
            assert(!blank_at(a, j));
        } else if j + 1 == n || j == n {
        } else {
            assert(c[j] == b[j - n - 1] && c[j + 1] == b[j - n]);
            assert(!blank_at(b, j - n - 1));
        }
    }
}

proof fn lemma_pack_from_clean(
    items: Seq<Seq<char>>,
    i: int,
    chunks: Seq<Seq<char>>,
    cur: Seq<char>,
    target: int,
)
    requires
        0 <= i <= items.len(),
        forall|k: int| 0 <= k < items.len() ==> clean_piece(#[trigger] items[k]),
        forall|k: int| 0 <= k < chunks.len() ==> clean_piece(#[trigger] chunks[k]),
        cur.len() == 0 || clean_piece(cur),
    ensures
        forall|k: int|
            0 <= k < pack_from(items, i, chunks, cur, target, seq![' ']).len() ==> clean_piece(
                #[trigger] pack_from(items, i, chunks, cur, target, seq![' '])[k],
            ),
    decreases items.len() - i,
{
    let sep = seq![' '];
    if i >= items.len() {
        let r = finish(chunks, cur);
        assert forall|k: int| 0 <= k < r.len() implies clean_piece(#[trigger] r[k]) by {
            if k < chunks.len() {
                assert(r[k] == chunks[k]);
            }
        }
    } else {
        let item = items[i];
        assert(clean_piece(item));
        let (c2, k2) = pack_step(chunks, cur, item, target, sep);
        assert forall|k: int| 0 <= k < c2.len() implies clean_piece(#[trigger] c2[k]) by {
            if k < chunks.len() {
                assert(c2[k] == chunks[k]);
            }
        }
        if cur.len() > 0 && k2 != item {
            assert(k2 == cur + sep + item);
            lemma_space_join_clean(cur, item);
        }
        lemma_pack_from_clean(items, i + 1, c2, k2, target);
        assert(pack_from(items, i, chunks, cur, target, sep) == pack_from(items, i + 1, c2, k2, target, sep));
    }
}

proof fn lemma_join_single(x: Seq<char>, sep: Seq<char>)
    ensures
        join(seq![x], sep) == x,
{
}

proof fn lemma_chunk_from_regroups(
    paras: Seq<Seq<char>>,
    i: int,
    chunks: Seq<Seq<char>>,
    cur: Seq<char>,
    t: int,
    cps: Seq<Seq<char>>,
)
    requires
        0 <= t,
        0 <= i <= paras.len(),
        forall|k: int| 0 <= k < paras.len() ==> clean_piece(#[trigger] paras[k]),
        forall|k: int| 0 <= k < chunks.len() ==> regroups(#[trigger] chunks[k], t),
        (cur.len() == 0 && cps.len() == 0) || (cps.len() > 0 && (forall|m: int|
            0 <= m < cps.len() ==> clean_piece(#[trigger] cps[m])) && cur == join(
            cps,
            seq!['\n', '\n'],
        ) && cur.len() <= t),
    ensures
        forall|k: int| 0 <= k < chunk_from(paras, i, chunks, cur, t).len() ==> regroups(
            #[trigger] chunk_from(paras, i, chunks, cur, t)[k],
            t,
        ),
    decreases paras.len() - i,
{
    let sep = seq!['\n', '\n'];
    if cur.len() > 0 {
        assert(regroups(cur, t)) by {
            assert(blank_join(cps) == cur);
        }
    }
    if i >= paras.len() {
        let r = finish(chunks, cur);
        assert forall|k: int| 0 <= k < r.len() implies regroups(#[trigger] r[k], t) by {
            if k < chunks.len() {
                assert(r[k] == chunks[k]);
            } else {
                assert(r[k] == cur);
            }
        }
    } else if paras[i].len() > t {
        let p = paras[i];
        let f = flush(chunks, cur);
        let o = oversized_pieces(p, t);
        lemma_sentence_rest_clean(p, 0, 0);
        lemma_pack_from_clean(sentences(p), 0, seq![], seq![], t);
        lemma_pack_from_bound(sentences(p), 0, seq![], seq![], t, seq![' ']);
        law_sentences_are_single(p);
        let c2 = f + o;
        assert forall|k: int| 0 <= k < c2.len() implies regroups(#[trigger] c2[k], t) by {
            if k < f.len() {
                assert(c2[k] == f[k]);
                if k < chunks.len() {
                    assert(f[k] == chunks[k]);
                } else {
                    assert(f[k] == cur);
                }
            } else {
                let x = o[k - f.len()];
                assert(c2[k] == x);
                assert(clean_piece(x));
                if x.len() > t {
                    assert(sentences(p).contains(x));
                    let m = choose|m: int| 0 <= m < sentences(p).len() && sentences(p)[m] == x;
                    assert(no_inner_break(sentences(p)[m]));
                }
                lemma_join_single(x, sep);
                assert(blank_join(seq![x]) == x);
                assert forall|m: int| 0 <= m < seq![x].len() implies clean_piece(
                    #[trigger] seq![x][m],
                ) by {
                    assert(seq![x][m] == x);
                }
            }
        }
        lemma_chunk_from_regroups(paras, i + 1, c2, seq![], t, seq![]);
        assert(chunk_from(paras, i, chunks, cur, t) == chunk_from(paras, i + 1, c2, seq![], t));
    } else {
        let p = paras[i];
        assert(clean_piece(p));
        let (c2, k2) = pack_step(chunks, cur, p, t, sep);
        assert forall|k: int| 0 <= k < c2.len() implies regroups(#[trigger] c2[k], t) by {
            if k < chunks.len() {
                assert(c2[k] == chunks[k]);
            } else {
                assert(c2[k] == cur);
            }
        }
        let joined = cur.len() + p.len() + if cur.len() == 0 {
            0
        } else {
            sep.len()
        };
        if cur.len() > 0 && joined <= t {
            lemma_join_push(cps, p, sep);
            let cps2 = cps.push(p);
            assert forall|m: int| 0 <= m < cps2.len() implies clean_piece(#[trigger] cps2[m]) by {
                if m < cps.len() {
                    assert(cps2[m] == cps[m]);
                }
            }
            lemma_chunk_from_regroups(paras, i + 1, c2, k2, t, cps2);
            assert(chunk_from(paras, i, chunks, cur, t) == chunk_from(paras, i + 1, c2, k2, t));
        } else {
            assert(k2 == p);
            lemma_join_single(p, sep);
            assert forall|m: int| 0 <= m < seq![p].len() implies clean_piece(#[trigger] seq![p][m]) by {
                assert(seq![p][m] == p);
            }
            lemma_chunk_from_regroups(paras, i + 1, c2, k2, t, seq![p]);
            assert(chunk_from(paras, i, chunks, cur, t) == chunk_from(paras, i + 1, c2, k2, t));
        }
    }
}

proof fn lemma_join_ends(ps: Seq<Seq<char>>, sep: Seq<char>)
    requires
        ps.len() > 0,
        forall|m: int| 0 <= m < ps.len() ==> tidy(#[trigger] ps[m]),
    ensures
        join(ps, sep).len() > 0,
        join(ps, sep)[0] == ps[0][0],
        join(ps, sep).last() == ps.last().last(),
    decreases ps.len(),
{
    assert(tidy(ps[0]) && tidy(ps[ps.len() - 1]));
    if ps.len() > 1 {
        let d = ps.drop_last();
        assert forall|m: int| 0 <= m < d.len() implies tidy(#[trigger] d[m]) by {
            assert(d[m] == ps[m]);
        }
        lemma_join_ends(d, sep);
        assert(d[0] == ps[0]);
        let j = join(d, sep) + sep + ps.last();
        assert(j[0] == join(d, sep)[0]);
    }
}

proof fn lemma_join_len(ps: Seq<Seq<char>>, sep: Seq<char>, i: int)
    requires
        0 < i <= ps.len(),
    ensures
        join(ps.subrange(0, i), sep).len() <= join(ps, sep).len(),
        forall|m: int| 0 <= m < ps.len() ==> (#[trigger] ps[m]).len() <= join(ps, sep).len(),
    decreases ps.len(),
{
    if ps.len() > 1 {
        let d = ps.drop_last();
        if i < ps.len() {
            assert(ps.subrange(0, i) =~= d.subrange(0, i));
            lemma_join_len(d, sep, i);
        } else {
            assert(ps.subrange(0, i) =~= ps);
            lemma_join_len(d, sep, 1);
        }
        assert forall|m: int| 0 <= m < ps.len() implies (#[trigger] ps[m]).len() <= join(ps, sep).len() by {
            if m < d.len() {
                assert(d[m] == ps[m]);
            }
        }
    } else {
        assert(ps.subrange(0, i) =~= ps);
    }
}

proof fn lemma_blank_shift(w: Seq<char>, x: Seq<char>, st: int, i: int)
    requires
        0 <= st <= i <= x.len(),
    ensures
        blank_pieces(w + x, w.len() + st, w.len() + i) == blank_pieces(x, st, i),
    decreases x.len() - i,
{
    let s = w + x;
    let n = w.len() as int;
    if i < x.len() {
        assert(s[n + i] == x[i]);
        if i + 1 < x.len() {
            assert(s[n + i + 1] == x[i + 1]);
        }
        if i + 1 < x.len() && x[i] == '\n' && x[i + 1] == '\n' {
            assert(s.subrange(n + st, n + i) =~= x.subrange(st, i));
            lemma_blank_shift(w, x, i + 2, i + 2);
        } else {
            lemma_blank_shift(w, x, st, i + 1);
        }
    } else {
        assert(s.subrange(n + st, s.len() as int) =~= x.subrange(st, x.len() as int));
    }
}

proof fn lemma_blank_single(x: Seq<char>, start: int, i: int)
    requires
        no_blank_line(x),
        0 <= start <= i <= x.len(),
    ensures
        blank_pieces(x, start, i) == seq![x.subrange(start, x.len() as int)],
    decreases x.len() - i,
{
    if i < x.len() {
        if i + 1 < x.len() {
            assert(!blank_at(x, i));
        }
        lemma_blank_single(x, start, i + 1);
    }
}

proof fn lemma_blank_concat(y: Seq<char>, x: Seq<char>, start: int, i: int)
    requires
        y.len() > 0,
        y.last() != '\n',
        0 <= start <= i <= y.len(),
    ensures
        blank_pieces(y + seq!['\n', '\n'] + x, start, i) == blank_pieces(y, start, i) + blank_pieces(
            x,
            0,
            0,
        ),
    decreases y.len() - i,
{
    let sep = seq!['\n', '\n'];
    let s = y + sep + x;
    let n = y.len() as int;
    if i == n {
        assert(s[n] == '\n' && s[n + 1] == '\n');
        assert(s.subrange(start, n) =~= y.subrange(start, n));
        lemma_blank_shift(y + sep, x, 0, 0);
        assert((y + sep).len() == n + 2);
        assert(s =~= (y + sep) + x);
        assert(seq![y.subrange(start, n)] + blank_pieces(x, 0, 0) =~= blank_pieces(y, start, i)
            + blank_pieces(x, 0, 0));
    } else {
        assert(s[i] == y[i]);
        if i + 1 < n {
            assert(s[i + 1] == y[i + 1]);
        }
        if i + 1 == n {
            assert(y[i] == y.last());
        }
        if i + 1 < n && y[i] == '\n' && y[i + 1] == '\n' {
            assert(s.subrange(start, i) =~= y.subrange(start, i));
            lemma_blank_concat(y, x, i + 2, i + 2);
            assert(seq![y.subrange(start, i)] + (blank_pieces(y, i + 2, i + 2) + blank_pieces(x, 0, 0))
                =~= seq![y.subrange(start, i)] + blank_pieces(y, i + 2, i + 2) + blank_pieces(x, 0, 0));
        } else {
            lemma_blank_concat(y, x, start, i + 1);
        }
    }
}

proof fn lemma_blank_join(ps: Seq<Seq<char>>)
    requires
        ps.len() > 0,
        forall|m: int| 0 <= m < ps.len() ==> clean_piece(#[trigger] ps[m]),
    ensures
        blank_pieces(join(ps, seq!['\n', '\n']), 0, 0) == ps,
    decreases ps.len(),
{
    let sep = seq!['\n', '\n'];
    let x = ps.last();
    assert(clean_piece(ps[ps.len() - 1]));
    if ps.len() == 1 {
        lemma_blank_single(x, 0, 0);
        assert(x.subrange(0, x.len() as int) =~= x);
        assert(ps =~= seq![x]);
    } else {
        let d = ps.drop_last();
        assert forall|m: int| 0 <= m < d.len() implies clean_piece(#[trigger] d[m]) by {
            assert(d[m] == ps[m]);
        }
        lemma_blank_join(d);
        lemma_join_ends(d, sep);
        assert(tidy(d.last()));
        lemma_blank_concat(join(d, sep), x, 0, 0);
        lemma_blank_single(x, 0, 0);
        assert(x.subrange(0, x.len() as int) =~= x);
        assert(ps =~= d + seq![x]);
    }
}

proof fn lemma_keep_trimmed_same(ps: Seq<Seq<char>>)
    requires
        forall|m: int| 0 <= m < ps.len() ==> tidy(#[trigger] ps[m]),
    ensures
        keep_trimmed(ps) == ps,
    decreases ps.len(),
{
    if ps.len() > 0 {
        let rest = ps.drop_first();
        assert forall|m: int| 0 <= m < rest.len() implies tidy(#[trigger] rest[m]) by {
            assert(rest[m] == ps[m + 1]);
        }
        lemma_keep_trimmed_same(rest);
        assert(tidy(ps[0]));
        crate::text::lemma_trim_noop(ps[0]);
        assert(ps =~= seq![ps[0]] + rest);
    }
}

proof fn lemma_pack_all(ps: Seq<Seq<char>>, i: int, cur: Seq<char>, t: int)
    requires
        0 < i <= ps.len(),
        forall|m: int| 0 <= m < ps.len() ==> tidy(#[trigger] ps[m]),
        cur == join(ps.subrange(0, i), seq!['\n', '\n']),
        join(ps, seq!['\n', '\n']).len() <= t,
    ensures
        pack_from(ps, i, seq![], cur, t, seq!['\n', '\n']) == seq![join(ps, seq!['\n', '\n'])],
    decreases ps.len() - i,
{
    let sep = seq!['\n', '\n'];
    let pre = ps.subrange(0, i);
    assert forall|m: int| 0 <= m < pre.len() implies tidy(#[trigger] pre[m]) by {
        assert(pre[m] == ps[m]);
    }
    lemma_join_ends(pre, sep);
    assert(pre[0] == ps[0]);
    assert(pre.last() == ps[i - 1]);
    crate::text::lemma_trim_noop(cur);
    if i == ps.len() {
        assert(pre =~= ps);
    } else {
        lemma_join_run_push(ps, 0, i, sep);
        lemma_join_len(ps, sep, i + 1);
        lemma_pack_all(ps, i + 1, cur + sep + ps[i], t);
    }
}

proof fn lemma_sentence_rest_one(c: Seq<char>, i: int)
    requires
        tidy(c),
        no_inner_break(c),
        0 <= i <= c.len(),
    ensures
        sentence_rest(c, 0, i) == seq![c],
    decreases c.len() - i,
{
    crate::text::lemma_trim_noop(c);
    assert(c.subrange(0, c.len() as int) =~= c);
    if i < c.len() {
        if ends_sentence(c, i) {
            if i + 1 < c.len() {
                assert(break_at(c, i));
            }
            assert(sentence_rest(c, c.len() as int, c.len() as int) =~= Seq::<Seq<char>>::empty());
            assert(seq![c] + Seq::<Seq<char>>::empty() =~= seq![c]);
        } else {
            lemma_sentence_rest_one(c, i + 1);
        }
    }
}

/// Chunking a chunk again gives back that chunk alone: the packing and the
/// sentence splitting come to rest after one pass.
pub proof fn law_rechunking_a_chunk_gives_it_back(text: Seq<char>, target: int, k: int)
    requires
        0 <= k < chunks_of(text, target).len(),
    ensures
        chunks_of(chunks_of(text, target)[k], target) == seq![chunks_of(text, target)[k]],
{
    let sep = seq!['\n', '\n'];
    let t = budget(target);
    let r = chunks_of(text, target);
    let c = r[k];
    lemma_paragraphs_clean(text);
    lemma_chunk_from_regroups(paragraphs(text), 0, seq![], seq![], t, seq![]);
    assert(regroups(c, t));
    let ps = choose|ps: Seq<Seq<char>>|
        #[trigger] blank_join(ps) == c && ps.len() > 0 && (forall|m: int|
            0 <= m < ps.len() ==> clean_piece(#[trigger] ps[m])) && (c.len() <= t || (ps.len() == 1
            && no_inner_break(c)));
    lemma_blank_join(ps);
    lemma_keep_trimmed_same(ps);
    assert(paragraphs(c) == ps);
    if c.len() <= t {
        lemma_join_len(ps, sep, 1);
        lemma_chunk_from_packs(ps, 0, seq![], seq![], t);
        assert(ps.subrange(0, 1) =~= seq![ps[0]]);
        lemma_join_single(ps[0], sep);
        lemma_pack_all(ps, 1, ps[0], t);
    } else {
        lemma_join_single(ps[0], sep);
        assert(ps[0] == c);
        assert(ps =~= seq![c]);
        assert(tidy(c));
        lemma_sentence_rest_one(c, 0);
        crate::text::lemma_trim_noop(c);
        let o = oversized_pieces(c, t);
        assert(pack_from(seq![c], 1, seq![], c, t, seq![' ']) == seq![c]);
        assert(o == seq![c]);
        assert(flush(Seq::<Seq<char>>::empty(), Seq::<char>::empty()) + o =~= seq![c]);
        assert(trim_ws(Seq::<char>::empty()).len() == 0);
        assert(chunk_from(ps, 1, seq![c], seq![], t) == seq![c]);
    }
}

/// Splits `text` into sentences, each cut just after a `.`, `!` or `?` that
/// ends the text or is followed by whitespace, and trimmed; terminal
/// punctuation is kept and empty pieces are dropped.
pub fn split_sentences(text: &str) -> (res: Vec<String>)
    ensures
        views(res@) == sentences(text@),
        forall|k: int| 0 <= k < res@.len() ==> {
            let c = #[trigger] res@[k]@;
            &&& c.len() > 0
            &&& trim_ws(c) == c
            &&& no_inner_break(c)
        },
        ends_terminated(views(res@)),
        all_words(views(res@)) == words(text@),
{
    let v = chars_of(text);
    let bounds = sentence_bounds(&v);
    let mut out: Vec<String> = Vec::new();
    let mut k: usize = 0;
    while k < bounds.len()
        invariant
            bounds_ok(v@, bounds@),
            k <= bounds@.len(),
            views(out@) == pieces(v@, bounds@).subrange(0, k as int),
        decreases bounds@.len() - k,
    {
        let (a, b) = bounds[k];
        proof {
            assert(bounds@[k as int].0 < bounds@[k as int].1 <= v@.len());
        }
        let ghost old_out = views(out@);
        out.push(crate::text::string_of(&v, a, b));
        assert(views(out@) =~= old_out.push(v@.subrange(a as int, b as int)));
        assert(pieces(v@, bounds@).subrange(0, k + 1) =~= pieces(v@, bounds@).subrange(0, k as int).push(
            v@.subrange(a as int, b as int),
        ));
        k = k + 1;
    }
    proof {
        assert(pieces(v@, bounds@).subrange(0, bounds@.len() as int) =~= pieces(v@, bounds@));
        law_sentences_are_single(text@);
        law_sentences_keep_punctuation(text@);
        lemma_sentences_words(text@);
        assert forall|k: int| 0 <= k < out@.len() implies {
            let c = #[trigger] out@[k]@;
            &&& c.len() > 0
            &&& trim_ws(c) == c
            &&& no_inner_break(c)
        } by {
            assert(out@[k]@ == views(out@)[k]);
            assert(views(out@)[k] == sentences(text@)[k]);
        }
    }
    out
}

/// At `j` stands a `.`, `!` or `?` that ends the text or is followed by
/// whitespace: the only place a sentence may end.
pub open spec fn sentence_end_at(p: Seq<char>, j: int) -> bool {
    (p[j] == '.' || p[j] == '!' || p[j] == '?') && (j + 1 == p.len() || is_ws(p[j + 1]))
}

proof fn lemma_sentence_rest_uncut(p: Seq<char>, i: int)
    requires
        0 <= i <= p.len(),
        forall|j: int| 0 <= j < p.len() - 1 ==> !#[trigger] sentence_end_at(p, j),
    ensures
        sentence_rest(p, 0, i) == keep(trim_ws(p)),
    decreases p.len() - i,
{
    assert(p.subrange(0, p.len() as int) =~= p);
    if i < p.len() - 1 {
        assert(!sentence_end_at(p, i));
        lemma_sentence_rest_uncut(p, i + 1);
    } else if i == p.len() - 1 {
        if ends_sentence(p, i) {
            assert(sentence_rest(p, p.len() as int, p.len() as int) =~= Seq::<Seq<char>>::empty());
            assert(keep(trim_ws(p)) + Seq::<Seq<char>>::empty() =~= keep(trim_ws(p)));
        } else {
            lemma_sentence_rest_uncut(p, i + 1);
        }
    } else {
        assert(p.subrange(0, p.len() as int) =~= p);
        if p.len() == 0 {
            assert(trim_ws(p).len() == 0);
        }
    }
}

/// A text is cut into sentences only after a `.`, `!` or `?` followed by
/// whitespace or the end: text with no such mark before its last character is
/// a single sentence, its trimmed self (none when that is empty), whatever
/// else it holds.
pub proof fn law_sentences_cut_only_at_terminators(p: Seq<char>)
    requires
        forall|j: int| 0 <= j < p.len() - 1 ==> !#[trigger] sentence_end_at(p, j),
    ensures
        trim_ws(p).len() > 0 ==> sentences(p) == seq![trim_ws(p)],
        trim_ws(p).len() == 0 ==> sentences(p).len() == 0,
{
    lemma_sentence_rest_uncut(p, 0);
}

/// Every sentence but the last ends with `.`, `!` or `?`.
pub proof fn law_sentences_end_with_terminators(p: Seq<char>)
    ensures
        forall|k: int|
            0 <= k < sentences(p).len() - 1 ==> (#[trigger] sentences(p)[k]).len() > 0 && (
            sentences(p)[k].last() == '.' || sentences(p)[k].last() == '!' || sentences(p)[k].last()
                == '?'),
{
    law_sentences_keep_punctuation(p);
    assert forall|k: int| 0 <= k < sentences(p).len() - 1 implies (#[trigger] sentences(p)[k]).len()
        > 0 && (sentences(p)[k].last() == '.' || sentences(p)[k].last() == '!'
        || sentences(p)[k].last() == '?') by {
        assert(sentences(p)[k].len() > 0 && is_terminator(sentences(p)[k].last()));
    }
}

/// A text that is a single paragraph with no sentence end (a `.`, `!` or `?`
/// followed by whitespace) before its last character is a single chunk,
/// however long it is: it is cut neither at commas nor anywhere else.
pub proof fn law_unterminated_paragraph_is_one_chunk(text: Seq<char>, target: int)
    requires
        paragraphs(text).len() == 1,
        forall|j: int|
            0 <= j < paragraphs(text)[0].len() - 1 ==> !#[trigger] sentence_end_at(
                paragraphs(text)[0],
                j,
            ),
    ensures
        chunks_of(text, target) == paragraphs(text),
{
    let p = paragraphs(text)[0];
    let t = budget(target);
    lemma_keep_trimmed_tidy(blank_pieces(text, 0, 0));
    assert(tidy(p));
    crate::text::lemma_trim_noop(p);
    law_sentences_cut_only_at_terminators(p);
    assert(sentences(p) == seq![p]);
    assert(paragraphs(text) =~= seq![p]);
    if p.len() > t {
        assert(pack_from(seq![p], 1, seq![], p, t, seq![' ']) == seq![p]);
        assert(oversized_pieces(p, t) == seq![p]);
        assert(flush(Seq::<Seq<char>>::empty(), Seq::<char>::empty()) + seq![p] =~= seq![p]);
        assert(trim_ws(Seq::<char>::empty()).len() == 0);
        assert(chunk_from(seq![p], 1, seq![p], seq![], t) == seq![p]);
    } else {
        assert(chunk_from(seq![p], 1, seq![], p, t) == seq![p]);
    }
}

/// No sentence holds a sentence end inside it: a `.`, `!` or `?` in a
/// sentence is its last character or is followed by a non-whitespace one.
pub proof fn law_sentences_have_no_inner_end(p: Seq<char>)
    ensures
        forall|k: int, j: int|
            0 <= k < sentences(p).len() && 0 <= j < sentences(p)[k].len() - 1 ==> !#[trigger] sentence_end_at(
                #[trigger] sentences(p)[k],
                j,
            ),
{
    law_sentences_are_single(p);
    assert forall|k: int, j: int|
        0 <= k < sentences(p).len() && 0 <= j < sentences(p)[k].len() - 1 implies !#[trigger] sentence_end_at(
        #[trigger] sentences(p)[k],
        j,
    ) by {
        assert(no_inner_break(sentences(p)[k]));
        assert(!break_at(sentences(p)[k], j));
    }
}
} // verus!
