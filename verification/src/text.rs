//! Character-level text model: whitespace, trimming, words.
use vstd::prelude::*;

verus! {

/// Unicode `White_Space`, the set `char::is_whitespace` and `str::trim` use.
pub open spec fn is_ws(c: char) -> bool {
    let u = c as u32;
    ||| 0x09 <= u <= 0x0d
    ||| u == 0x20
    ||| u == 0x85
    ||| u == 0xa0
    ||| u == 0x1680
    ||| 0x2000 <= u <= 0x200a
    ||| u == 0x2028
    ||| u == 0x2029
    ||| u == 0x202f
    ||| u == 0x205f
    ||| u == 0x3000
}

/// Whether `c` is Unicode whitespace.
pub fn is_whitespace(c: char) -> (res: bool)
    ensures
        res == is_ws(c),
{
    let u = c as u32;
    (0x09 <= u && u <= 0x0d) || u == 0x20 || u == 0x85 || u == 0xa0 || u == 0x1680 || (0x2000
        <= u && u <= 0x200a) || u == 0x2028 || u == 0x2029 || u == 0x202f || u == 0x205f || u
        == 0x3000
}

/// `s` without leading whitespace.
pub open spec fn trim_start(s: Seq<char>) -> Seq<char>
    decreases s.len(),
{
    if s.len() > 0 && is_ws(s[0]) {
        trim_start(s.drop_first())
    } else {
        s
    }
}

/// `s` without trailing whitespace.
pub open spec fn trim_end(s: Seq<char>) -> Seq<char>
    decreases s.len(),
{
    if s.len() > 0 && is_ws(s.last()) {
        trim_end(s.drop_last())
    } else {
        s
    }
}

/// `s` without leading and trailing whitespace.
pub open spec fn trim_ws(s: Seq<char>) -> Seq<char> {
    trim_end(trim_start(s))
}

pub assume_specification[ str::trim ](s: &str) -> (res: &str)
    ensures
        res@ == trim_ws(s@),
;

pub assume_specification[ String::push ](s: &mut String, ch: char)
    ensures
        final(s)@ == old(s)@.push(ch),
;

pub assume_specification[ String::push_str ](s: &mut String, string: &str)
    ensures
        final(s)@ == old(s)@ + string@,
;

/// The characters of `s`, in order.
pub fn chars_of(s: &str) -> (res: Vec<char>)
    ensures
        res@ == s@,
{
    let mut res: Vec<char> = Vec::new();
    for c in it: s.chars()
        invariant
            res@ == it.seq().take(it.index() as int),
    {
        res.push(c);
    }
    res
}


/// `s[k..]` is `trim_start(s)` when `k` is the index of the first non-whitespace character.
pub proof fn lemma_trim_start_at(s: Seq<char>, k: int)
    requires
        0 <= k <= s.len(),
        forall|j: int| 0 <= j < k ==> is_ws(#[trigger] s[j]),
        k == s.len() || !is_ws(s[k]),
    ensures
        trim_start(s) == s.subrange(k, s.len() as int),
    decreases k,
{
    if k == 0 {
        assert(s.subrange(0, s.len() as int) =~= s);
    } else {
        let t = s.drop_first();
        assert forall|j: int| 0 <= j < k - 1 implies is_ws(#[trigger] t[j]) by {
            assert(t[j] == s[j + 1]);
        }
        lemma_trim_start_at(t, k - 1);
        assert(t.subrange(k - 1, t.len() as int) =~= s.subrange(k, s.len() as int));
    }
}

/// `s[..k]` is `trim_end(s)` when `k` is one past the last non-whitespace character.
pub proof fn lemma_trim_end_at(s: Seq<char>, k: int)
    requires
        0 <= k <= s.len(),
        forall|j: int| k <= j < s.len() ==> is_ws(#[trigger] s[j]),
        k == 0 || !is_ws(s[k - 1]),
    ensures
        trim_end(s) == s.subrange(0, k),
    decreases s.len() - k,
{
    if k == s.len() {
        assert(s.subrange(0, k) =~= s);
    } else {
        let t = s.drop_last();
        assert forall|j: int| k <= j < t.len() implies is_ws(#[trigger] t[j]) by {
            assert(t[j] == s[j]);
        }
        lemma_trim_end_at(t, k);
        assert(t.subrange(0, k) =~= s.subrange(0, k));
    }
}

/// Bounds `(a, b)` with `v[a..b] == trim_ws(v[lo..hi])`.
pub fn trim_bounds(v: &Vec<char>, lo: usize, hi: usize) -> (res: (usize, usize))
    requires
        lo <= hi <= v@.len(),
    ensures
        lo <= res.0 <= res.1 <= hi,
        v@.subrange(res.0 as int, res.1 as int) == trim_ws(v@.subrange(lo as int, hi as int)),
{
    let mut a = lo;
    while a < hi && is_whitespace(v[a])
        invariant
            lo <= a <= hi <= v@.len(),
            forall|j: int| lo <= j < a ==> is_ws(#[trigger] v@[j]),
        decreases hi - a,
    {
        a = a + 1;
    }
    let mut b = hi;
    while b > a && is_whitespace(v[b - 1])
        invariant
            lo <= a <= b <= hi <= v@.len(),
            forall|j: int| b <= j < hi ==> is_ws(#[trigger] v@[j]),
        decreases b - a,
    {
        b = b - 1;
    }
    proof {
        let s = v@.subrange(lo as int, hi as int);
        assert forall|j: int| 0 <= j < a - lo implies is_ws(#[trigger] s[j]) by {
            assert(s[j] == v@[lo + j]);
        }
        lemma_trim_start_at(s, a - lo);
        let t = s.subrange(a - lo, s.len() as int);
        assert(t =~= v@.subrange(a as int, hi as int));
        assert forall|j: int| b - a <= j < t.len() implies is_ws(#[trigger] t[j]) by {
            assert(t[j] == v@[a + j]);
        }
        if b > a {
            assert(t[b - a - 1] == v@[b - 1]);
        }
        lemma_trim_end_at(t, b - a);
        assert(t.subrange(0, b - a) =~= v@.subrange(a as int, b as int));
    }
    (a, b)
}

/// A new string holding `v[lo..hi]`.
pub fn string_of(v: &Vec<char>, lo: usize, hi: usize) -> (res: String)
    requires
        lo <= hi <= v@.len(),
    ensures
        res@ == v@.subrange(lo as int, hi as int),
{
    let mut res = String::new();
    let mut i = lo;
    while i < hi
        invariant
            lo <= i <= hi <= v@.len(),
            res@ == v@.subrange(lo as int, i as int),
        decreases hi - i,
    {
        res.push(v[i]);
        assert(v@.subrange(lo as int, i + 1) =~= v@.subrange(lo as int, i as int).push(v@[i as int]));
        i = i + 1;
    }
    res
}


/// The maximal runs of non-whitespace characters of `s`, in order
/// (what `str::split_whitespace` yields).
pub open spec fn words(s: Seq<char>) -> Seq<Seq<char>>
    decreases s.len(),
{
    if s.len() == 0 {
        seq![]
    } else {
        let p = s.drop_last();
        let c = s.last();
        let w = words(p);
        if is_ws(c) {
            w
        } else if p.len() == 0 || is_ws(p.last()) {
            w.push(seq![c])
        } else {
            w.update(w.len() - 1, w.last().push(c))
        }
    }
}

/// The pieces of `ws` with `sep` between neighbours.
pub open spec fn join(ws: Seq<Seq<char>>, sep: Seq<char>) -> Seq<char>
    decreases ws.len(),
{
    if ws.len() == 0 {
        seq![]
    } else if ws.len() == 1 {
        ws[0]
    } else {
        join(ws.drop_last(), sep) + sep + ws.last()
    }
}

/// The words of `s` separated by single spaces: whitespace runs collapsed, ends trimmed.
pub open spec fn collapse(s: Seq<char>) -> Seq<char> {
    join(words(s), seq![' '])
}

/// Every word is non-empty and free of whitespace; a string that ends in a
/// non-whitespace character has at least one word.
pub proof fn lemma_words_facts(s: Seq<char>)
    ensures
        forall|i: int| 0 <= i < words(s).len() ==> (#[trigger] words(s)[i]).len() > 0,
        forall|i: int, j: int|
            0 <= i < words(s).len() && 0 <= j < words(s)[i].len() ==> !is_ws(
                #[trigger] words(s)[i][j],
            ),
        s.len() > 0 && !is_ws(s.last()) ==> words(s).len() > 0,
    decreases s.len(),
{
    if s.len() > 0 {
        let p = s.drop_last();
        lemma_words_facts(p);
        let w = words(p);
        let c = s.last();
        if is_ws(c) {
        } else if p.len() == 0 || is_ws(p.last()) {
            assert forall|i: int, j: int|
                0 <= i < words(s).len() && 0 <= j < words(s)[i].len() implies !is_ws(
                #[trigger] words(s)[i][j],
            ) by {
                if i < w.len() {
                    assert(words(s)[i] == w[i]);
                }
            }
        } else {
            assert forall|i: int, j: int|
                0 <= i < words(s).len() && 0 <= j < words(s)[i].len() implies !is_ws(
                #[trigger] words(s)[i][j],
            ) by {
                if i < w.len() - 1 {
                    assert(words(s)[i] == w[i]);
                } else {
                    assert(words(s)[i] == w.last().push(c));
                    if j < w.last().len() {
                        assert(words(s)[i][j] == w[w.len() - 1][j]);
                    }
                }
            }
        }
    }
}

pub proof fn lemma_join_push(ws: Seq<Seq<char>>, w: Seq<char>, sep: Seq<char>)
    ensures
        join(ws.push(w), sep) == if ws.len() == 0 {
            w
        } else {
            join(ws, sep) + sep + w
        },
{
    assert(ws.push(w).drop_last() =~= ws);
}

pub proof fn lemma_join_extend_last(ws: Seq<Seq<char>>, c: char, sep: Seq<char>)
    requires
        ws.len() > 0,
    ensures
        join(ws.update(ws.len() - 1, ws.last().push(c)), sep) == join(ws, sep).push(c),
{
    let u = ws.update(ws.len() - 1, ws.last().push(c));
    if ws.len() == 1 {
    } else {
        assert(u.drop_last() =~= ws.drop_last());
        assert(join(u, sep) == join(ws.drop_last(), sep) + sep + ws.last().push(c));
        assert(join(ws.drop_last(), sep) + sep + ws.last().push(c) =~= (join(ws.drop_last(), sep)
            + sep + ws.last()).push(c));
    }
}

/// `v[lo..hi]` with whitespace runs collapsed to single spaces and ends trimmed
/// (`split_whitespace` joined by `" "`).
pub fn collapse_range(v: &Vec<char>, lo: usize, hi: usize) -> (res: String)
    requires
        lo <= hi <= v@.len(),
    ensures
        res@ == collapse(v@.subrange(lo as int, hi as int)),
{
    let mut res = String::new();
    let mut any = false;
    let mut i = lo;
    while i < hi
        invariant
            lo <= i <= hi <= v@.len(),
            res@ == collapse(v@.subrange(lo as int, i as int)),
            any == (words(v@.subrange(lo as int, i as int)).len() > 0),
        decreases hi - i,
    {
        let c = v[i];
        let ghost p = v@.subrange(lo as int, i as int);
        let ghost s = v@.subrange(lo as int, i + 1);
        proof {
            assert(s.drop_last() =~= p);
            assert(s.last() == c);
            lemma_words_facts(p);
        }
        if is_whitespace(c) {
        } else if i == lo || is_whitespace(v[i - 1]) {
            proof {
                if i > lo {
                    assert(p.last() == v@[i - 1]);
                }
                lemma_join_push(words(p), seq![c], seq![' ']);
            }
            if any {
                res.push(' ');
            }
            res.push(c);
            proof {
                if any {
                    assert(res@ =~= collapse(p) + seq![' '] + seq![c]);
                } else {
                    assert(res@ =~= seq![c]);
                }
            }
            any = true;
        } else {
            proof {
                assert(p.last() == v@[i - 1]);
                lemma_join_extend_last(words(p), c, seq![' ']);
            }
            res.push(c);
        }
        i = i + 1;
    }
    res
}

/// `s` with whitespace runs collapsed to single spaces and ends trimmed.
pub fn collapse_ws(s: &str) -> (res: String)
    ensures
        res@ == collapse(s@),
{
    let v = chars_of(s);
    let res = collapse_range(&v, 0, v.len());
    assert(v@.subrange(0, v@.len() as int) =~= s@);
    res
}


/// A string that ends in a non-whitespace character keeps that character
/// under `trim_start`, and `trim` leaves such a string non-empty.
pub proof fn lemma_trim_start_keeps_last(s: Seq<char>)
    requires
        s.len() > 0,
        !is_ws(s.last()),
    ensures
        trim_start(s).len() > 0,
        trim_start(s).last() == s.last(),
        trim_ws(s) == trim_start(s),
        trim_ws(s).len() > 0,
    decreases s.len(),
{
    if is_ws(s[0]) {
        lemma_trim_start_keeps_last(s.drop_first());
    }
}

/// `trim_end(s)` is a prefix of `s`; `trim_start(s)` is a suffix of `s`.
pub proof fn lemma_trim_parts(s: Seq<char>)
    ensures
        trim_end(s).len() <= s.len(),
        trim_end(s) == s.subrange(0, trim_end(s).len() as int),
        trim_end(s).len() > 0 ==> !is_ws(trim_end(s).last()),
        trim_start(s).len() <= s.len(),
        trim_start(s) == s.subrange(s.len() - trim_start(s).len(), s.len() as int),
        trim_start(s).len() > 0 ==> !is_ws(trim_start(s)[0]),
    decreases s.len(),
{
    if s.len() > 0 {
        lemma_trim_parts(s.drop_last());
        lemma_trim_parts(s.drop_first());
        if is_ws(s.last()) {
            assert(s.drop_last().subrange(0, trim_end(s).len() as int) =~= s.subrange(
                0,
                trim_end(s).len() as int,
            ));
        } else {
            assert(s.subrange(0, s.len() as int) =~= s);
        }
        if is_ws(s[0]) {
            let t = s.drop_first();
            assert(t.subrange(t.len() - trim_start(s).len(), t.len() as int) =~= s.subrange(
                s.len() - trim_start(s).len(),
                s.len() as int,
            ));
        } else {
            assert(s.subrange(0, s.len() as int) =~= s);
        }
    } else {
        assert(s.subrange(0, 0) =~= s);
    }
}

/// A non-empty trimmed string starts and ends with non-whitespace characters.
pub proof fn lemma_trim_ends(s: Seq<char>)
    ensures
        trim_ws(s).len() > 0 ==> !is_ws(trim_ws(s)[0]) && !is_ws(trim_ws(s).last()),
{
    let a = trim_start(s);
    lemma_trim_parts(s);
    lemma_trim_parts(a);
    if trim_ws(s).len() > 0 {
        assert(trim_ws(s)[0] == a[0]);
    }
}

/// The characters of `v[lo..hi]` as a new vector.
pub fn sub_vec(v: &Vec<char>, lo: usize, hi: usize) -> (res: Vec<char>)
    requires
        lo <= hi <= v@.len(),
    ensures
        res@ == v@.subrange(lo as int, hi as int),
{
    let mut res: Vec<char> = Vec::new();
    let mut i = lo;
    while i < hi
        invariant
            lo <= i <= hi <= v@.len(),
            res@ == v@.subrange(lo as int, i as int),
        decreases hi - i,
    {
        res.push(v[i]);
        assert(v@.subrange(lo as int, i + 1) =~= v@.subrange(lo as int, i as int).push(v@[i as int]));
        i = i + 1;
    }
    res
}

/// Appends `v[lo..hi]` to `s`.
pub fn push_range(s: &mut String, v: &Vec<char>, lo: usize, hi: usize)
    requires
        lo <= hi <= v@.len(),
    ensures
        final(s)@ == old(s)@ + v@.subrange(lo as int, hi as int),
{
    let mut i = lo;
    while i < hi
        invariant
            lo <= i <= hi <= v@.len(),
            s@ == old(s)@ + v@.subrange(lo as int, i as int),
        decreases hi - i,
    {
        s.push(v[i]);
        assert(v@.subrange(lo as int, i + 1) =~= v@.subrange(lo as int, i as int).push(v@[i as int]));
        i = i + 1;
    }
}

/// The character views of a list of strings.
pub open spec fn views(v: Seq<String>) -> Seq<Seq<char>> {
    v.map_values(|s: String| s@)
}

/// The pieces of `s` that a list of `(start, end)` bounds picks out.
pub open spec fn pieces(s: Seq<char>, b: Seq<(usize, usize)>) -> Seq<Seq<char>> {
    b.map_values(|r: (usize, usize)| s.subrange(r.0 as int, r.1 as int))
}

/// Every bound is a non-empty range inside `s`.
pub open spec fn bounds_ok(s: Seq<char>, b: Seq<(usize, usize)>) -> bool {
    forall|k: int| 0 <= k < b.len() ==> (#[trigger] b[k]).0 < b[k].1 <= s.len()
}

/// Every bounded piece starts and ends with a non-whitespace character.
pub open spec fn bounds_trimmed(s: Seq<char>, b: Seq<(usize, usize)>) -> bool {
    forall|k: int|
        0 <= k < b.len() ==> !is_ws(s[(#[trigger] b[k]).0 as int]) && !is_ws(s[b[k].1 - 1])
}


/// Every character of `s` is whitespace.
pub open spec fn all_ws(s: Seq<char>) -> bool {
    forall|j: int| 0 <= j < s.len() ==> is_ws(#[trigger] s[j])
}

/// The words of each piece, concatenated in order.
pub open spec fn all_words(cs: Seq<Seq<char>>) -> Seq<Seq<char>>
    decreases cs.len(),
{
    if cs.len() == 0 {
        seq![]
    } else {
        words(cs[0]) + all_words(cs.drop_first())
    }
}

/// A string of whitespace has no words.
pub proof fn lemma_words_all_ws(s: Seq<char>)
    requires
        all_ws(s),
    ensures
        words(s) == Seq::<Seq<char>>::empty(),
    decreases s.len(),
{
    if s.len() > 0 {
        assert(all_ws(s.drop_last())) by {
            assert forall|j: int| 0 <= j < s.drop_last().len() implies is_ws(
                #[trigger] s.drop_last()[j],
            ) by {
                assert(s.drop_last()[j] == s[j]);
            }
        }
        lemma_words_all_ws(s.drop_last());
        assert(is_ws(s[s.len() - 1]));
    }
}

/// Concatenating at a whitespace boundary concatenates the words.
pub proof fn lemma_words_append(a: Seq<char>, b: Seq<char>)
    requires
        a.len() == 0 || is_ws(a.last()) || b.len() == 0 || is_ws(b[0]),
    ensures
        words(a + b) == words(a) + words(b),
    decreases b.len(),
{
    if b.len() == 0 {
        assert(a + b =~= a);
        assert(words(a) + words(b) =~= words(a));
    } else {
        let b1 = b.drop_last();
        let c = b.last();
        assert((a + b).drop_last() =~= a + b1);
        assert((a + b).last() == c);
        if b1.len() > 0 {
            assert(b1[0] == b[0]);
        } else {
            assert(b[0] == c);
        }
        lemma_words_append(a, b1);
        let p = a + b1;
        if b1.len() > 0 {
            assert(p.last() == b1.last());
        } else {
            assert(p =~= a);
        }
        lemma_words_facts(b1);
        lemma_words_facts(a);
        if is_ws(c) {
        } else if p.len() == 0 || is_ws(p.last()) {
            assert((words(a) + words(b1)).push(seq![c]) =~= words(a) + words(b1).push(seq![c]));
        } else {
            assert(b1.len() > 0);
            let w = words(a) + words(b1);
            assert(w.update(w.len() - 1, w.last().push(c)) =~= words(a) + words(b1).update(
                words(b1).len() - 1,
                words(b1).last().push(c),
            ));
        }
    }
}

/// A whitespace separator splits words and adds none.
pub proof fn lemma_words_sep(x: Seq<char>, sep: Seq<char>, y: Seq<char>)
    requires
        sep.len() > 0,
        all_ws(sep),
    ensures
        words(x + sep + y) == words(x) + words(y),
{
    assert(is_ws(sep[0]));
    lemma_words_append(x, sep);
    lemma_words_all_ws(sep);
    assert(words(x) + words(sep) =~= words(x));
    assert((x + sep).last() == sep.last());
    assert(is_ws(sep[sep.len() - 1]));
    lemma_words_append(x + sep, y);
}

pub proof fn lemma_words_trim_start(s: Seq<char>)
    ensures
        words(trim_start(s)) == words(s),
    decreases s.len(),
{
    if s.len() > 0 && is_ws(s[0]) {
        let r = s.drop_first();
        lemma_words_trim_start(r);
        assert(s =~= seq![s[0]] + r);
        lemma_words_append(seq![s[0]], r);
        lemma_words_all_ws(seq![s[0]]);
        assert(words(seq![s[0]]) + words(r) =~= words(r));
    }
}

pub proof fn lemma_words_trim_end(s: Seq<char>)
    ensures
        words(trim_end(s)) == words(s),
    decreases s.len(),
{
    if s.len() > 0 && is_ws(s.last()) {
        lemma_words_trim_end(s.drop_last());
    }
}

/// Trimming keeps the words.
pub proof fn lemma_words_trim(s: Seq<char>)
    ensures
        words(trim_ws(s)) == words(s),
{
    lemma_words_trim_start(s);
    lemma_words_trim_end(trim_start(s));
}

pub proof fn lemma_all_words_append(a: Seq<Seq<char>>, b: Seq<Seq<char>>)
    ensures
        all_words(a + b) == all_words(a) + all_words(b),
    decreases a.len(),
{
    if a.len() == 0 {
        assert(a + b =~= b);
        assert(all_words(a) + all_words(b) =~= all_words(b));
    } else {
        lemma_all_words_append(a.drop_first(), b);
        assert((a + b).drop_first() =~= a.drop_first() + b);
        assert((a + b)[0] == a[0]);
        assert(words(a[0]) + (all_words(a.drop_first()) + all_words(b)) =~= (words(a[0])
            + all_words(a.drop_first())) + all_words(b));
    }
}

pub proof fn lemma_all_words_push(a: Seq<Seq<char>>, x: Seq<char>)
    ensures
        all_words(a.push(x)) == all_words(a) + words(x),
{
    lemma_all_words_append(a, seq![x]);
    assert(a.push(x) =~= a + seq![x]);
    assert(seq![x].drop_first() =~= Seq::<Seq<char>>::empty());
    assert(seq![x][0] == x);
    assert(all_words(Seq::<Seq<char>>::empty()) == Seq::<Seq<char>>::empty());
    assert(all_words(seq![x]) == words(x) + all_words(seq![x].drop_first()));
    assert(words(x) + Seq::<Seq<char>>::empty() =~= words(x));
}

/// The words of `s[i..]` are those of `s[i]` followed by those of `s[i + 1..]`.
pub proof fn lemma_all_words_tail(s: Seq<Seq<char>>, i: int)
    requires
        0 <= i < s.len(),
    ensures
        all_words(s.subrange(i, s.len() as int)) == words(s[i]) + all_words(
            s.subrange(i + 1, s.len() as int),
        ),
{
    assert(s.subrange(i, s.len() as int).drop_first() =~= s.subrange(i + 1, s.len() as int));
    assert(s.subrange(i, s.len() as int)[0] == s[i]);
}


/// ASCII lowercase of one character (`char::to_ascii_lowercase`).
pub open spec fn lower_char(c: char) -> char {
    if 'A' <= c <= 'Z' {
        ((c as u32) + 32) as char
    } else {
        c
    }
}

/// ASCII lowercase of a string (`str::to_ascii_lowercase`).
pub open spec fn ascii_lower(s: Seq<char>) -> Seq<char> {
    s.map_values(|c: char| lower_char(c))
}

pub fn to_lower_char(c: char) -> (res: char)
    ensures
        res == lower_char(c),
{
    if 'A' <= c && c <= 'Z' {
        let b = c as u8;
        ((b + 32) as char)
    } else {
        c
    }
}

/// ASCII lowercase of `v`.
pub fn lower_vec(v: &Vec<char>) -> (res: Vec<char>)
    ensures
        res@ == ascii_lower(v@),
{
    let mut res: Vec<char> = Vec::new();
    let mut i: usize = 0;
    while i < v.len()
        invariant
            i <= v@.len(),
            res@ == ascii_lower(v@.subrange(0, i as int)),
        decreases v@.len() - i,
    {
        res.push(to_lower_char(v[i]));
        assert(ascii_lower(v@.subrange(0, i + 1)) =~= ascii_lower(v@.subrange(0, i as int)).push(
            lower_char(v@[i as int]),
        ));
        i = i + 1;
    }
    assert(v@.subrange(0, v@.len() as int) =~= v@);
    res
}

/// Whether `v` holds exactly the characters of `lit`.
pub fn eq_str(v: &Vec<char>, lit: &str) -> (res: bool)
    ensures
        res == (v@ == lit@),
{
    let w = chars_of(lit);
    if v.len() != w.len() {
        return false;
    }
    let mut i: usize = 0;
    while i < v.len()
        invariant
            v@.len() == w@.len(),
            w@ == lit@,
            i <= v@.len(),
            forall|j: int| 0 <= j < i ==> v@[j] == w@[j],
        decreases v@.len() - i,
    {
        if v[i] != w[i] {
            return false;
        }
        i = i + 1;
    }
    assert(v@ =~= w@);
    true
}

/// Whether `v` starts with the characters of `lit`.
pub fn starts_with_str(v: &Vec<char>, lit: &str) -> (res: bool)
    ensures
        res == (lit@.len() <= v@.len() && v@.subrange(0, lit@.len() as int) == lit@),
{
    let w = chars_of(lit);
    if v.len() < w.len() {
        return false;
    }
    let mut i: usize = 0;
    while i < w.len()
        invariant
            w@.len() <= v@.len(),
            w@ == lit@,
            i <= w@.len(),
            forall|j: int| 0 <= j < i ==> v@[j] == w@[j],
        decreases w@.len() - i,
    {
        if v[i] != w[i] {
            assert(v@.subrange(0, w@.len() as int)[i as int] != w@[i as int]);
            return false;
        }
        i = i + 1;
    }
    assert(v@.subrange(0, w@.len() as int) =~= w@);
    true
}


/// Bytes one character takes in UTF-8 (`char::len_utf8`).
pub open spec fn char_width(c: char) -> nat {
    let u = c as u32;
    if u < 0x80 {
        1
    } else if u < 0x800 {
        2
    } else if u < 0x10000 {
        3
    } else {
        4
    }
}

/// Bytes a string takes in UTF-8 (`str::len`).
pub open spec fn utf8_len(s: Seq<char>) -> nat
    decreases s.len(),
{
    if s.len() == 0 {
        0
    } else {
        utf8_len(s.drop_last()) + char_width(s.last())
    }
}

/// Whether `utf8_len(v[lo..hi]) <= limit`.
pub fn utf8_len_at_most(v: &Vec<char>, lo: usize, hi: usize, limit: usize) -> (res: bool)
    requires
        lo <= hi <= v@.len(),
    ensures
        res == (utf8_len(v@.subrange(lo as int, hi as int)) <= limit),
{
    let mut total: usize = 0;
    let mut i = lo;
    while i < hi
        invariant
            lo <= i <= hi <= v@.len(),
            total == utf8_len(v@.subrange(lo as int, i as int)),
            total <= limit,
        decreases hi - i,
    {
        let u = v[i] as u32;
        let w: usize = if u < 0x80 {
            1
        } else if u < 0x800 {
            2
        } else if u < 0x10000 {
            3
        } else {
            4
        };
        assert(v@.subrange(lo as int, i + 1).drop_last() =~= v@.subrange(lo as int, i as int));
        if w > limit - total {
            proof {
                lemma_utf8_len_prefix(v@.subrange(lo as int, hi as int), i + 1 - lo);
                assert(v@.subrange(lo as int, hi as int).subrange(0, i + 1 - lo) =~= v@.subrange(
                    lo as int,
                    i + 1,
                ));
            }
            return false;
        }
        total = total + w;
        i = i + 1;
    }
    true
}

/// A prefix takes no more bytes than the whole.
pub proof fn lemma_utf8_len_prefix(s: Seq<char>, k: int)
    requires
        0 <= k <= s.len(),
    ensures
        utf8_len(s.subrange(0, k)) <= utf8_len(s),
    decreases s.len(),
{
    if k < s.len() {
        assert(s.drop_last().subrange(0, k) =~= s.subrange(0, k));
        lemma_utf8_len_prefix(s.drop_last(), k);
    } else {
        assert(s.subrange(0, k) =~= s);
    }
}

pub open spec fn is_digit(c: char) -> bool {
    '0' <= c <= '9'
}

/// Every character is an ASCII digit (vacuously true when empty).
pub open spec fn all_digits(s: Seq<char>) -> bool {
    forall|j: int| 0 <= j < s.len() ==> is_digit(#[trigger] s[j])
}

/// Whether every character of `v[lo..hi]` is an ASCII digit.
pub fn digits_only(v: &Vec<char>, lo: usize, hi: usize) -> (res: bool)
    requires
        lo <= hi <= v@.len(),
    ensures
        res == all_digits(v@.subrange(lo as int, hi as int)),
{
    let mut i = lo;
    while i < hi
        invariant
            lo <= i <= hi <= v@.len(),
            forall|j: int| lo <= j < i ==> is_digit(#[trigger] v@[j]),
        decreases hi - i,
    {
        if !('0' <= v[i] && v[i] <= '9') {
            assert(!is_digit(v@.subrange(lo as int, hi as int)[i - lo]));
            return false;
        }
        i = i + 1;
    }
    assert forall|j: int| 0 <= j < hi - lo implies is_digit(
        #[trigger] v@.subrange(lo as int, hi as int)[j],
    ) by {
        assert(v@.subrange(lo as int, hi as int)[j] == v@[lo + j]);
    }
    true
}

/// A string whose ends are not whitespace is its own trim.
pub proof fn lemma_trim_noop(s: Seq<char>)
    requires
        s.len() > 0,
        !is_ws(s[0]),
        !is_ws(s.last()),
    ensures
        trim_ws(s) == s,
{
    assert(trim_start(s) == s);
    assert(trim_end(s) == s);
}

/// Trimming twice is trimming once.
pub proof fn lemma_trim_idem(s: Seq<char>)
    ensures
        trim_ws(trim_ws(s)) == trim_ws(s),
{
    lemma_trim_ends(s);
    if trim_ws(s).len() > 0 {
        lemma_trim_noop(trim_ws(s));
    } else {
        assert(trim_ws(s) =~= Seq::<char>::empty());
    }
}


/// A non-empty string without whitespace is a single word.
pub proof fn lemma_words_single(w: Seq<char>)
    requires
        w.len() > 0,
        forall|j: int| 0 <= j < w.len() ==> !is_ws(#[trigger] w[j]),
    ensures
        words(w) == seq![w],
    decreases w.len(),
{
    let p = w.drop_last();
    if p.len() == 0 {
        assert(w =~= seq![w.last()]);
        assert(words(p) =~= Seq::<Seq<char>>::empty());
        assert(words(p).push(seq![w.last()]) =~= seq![w]);
    } else {
        lemma_words_single(p);
        assert(!is_ws(p.last()));
        assert(p.push(w.last()) =~= w);
        assert(seq![p].last() == p);
        assert(seq![p].update(0, w) =~= seq![w]);
    }
}

/// Joining words with single spaces and splitting again gives the same words.
pub proof fn lemma_words_join(ws: Seq<Seq<char>>)
    requires
        forall|i: int| 0 <= i < ws.len() ==> (#[trigger] ws[i]).len() > 0,
        forall|i: int, j: int| 0 <= i < ws.len() && 0 <= j < ws[i].len() ==> !is_ws(#[trigger] ws[i][j]),
    ensures
        words(join(ws, seq![' '])) == ws,
    decreases ws.len(),
{
    if ws.len() == 0 {
    } else if ws.len() == 1 {
        lemma_words_single(ws[0]);
        assert(seq![ws[0]] =~= ws);
    } else {
        let init = ws.drop_last();
        lemma_words_join(init);
        assert(is_ws(seq![' '][0]));
        assert(all_ws(seq![' ']));
        lemma_words_sep(join(init, seq![' ']), seq![' '], ws.last());
        assert(ws.last() == ws[ws.len() - 1]);
        lemma_words_single(ws.last());
        assert(init + seq![ws.last()] =~= ws);
    }
}

/// Collapsing whitespace twice is collapsing it once.
pub proof fn lemma_collapse_idem(s: Seq<char>)
    ensures
        collapse(collapse(s)) == collapse(s),
        words(collapse(s)) == words(s),
{
    lemma_words_facts(s);
    lemma_words_join(words(s));
}


/// The ASCII digit for `d < 10`.
pub open spec fn digit_char(d: nat) -> char {
    ((d + 48) as u8) as char
}

/// The decimal numeral of `n`, without leading zeros.
pub open spec fn decimal(n: nat) -> Seq<char>
    decreases n,
{
    if n < 10 {
        seq![digit_char(n)]
    } else {
        decimal(n / 10).push(digit_char(n % 10))
    }
}

/// The decimal numeral of a signed number, with `-` before a negative one.
pub open spec fn signed_decimal(n: int) -> Seq<char> {
    if n < 0 {
        seq!['-'] + decimal((-n) as nat)
    } else {
        decimal(n as nat)
    }
}

/// Appends the decimal numeral of `n` to `s`.
pub fn push_decimal(s: &mut String, n: u64)
    ensures
        final(s)@ == old(s)@ + decimal(n as nat),
    decreases n,
{
    if n >= 10 {
        push_decimal(s, n / 10);
    }
    let d = (n % 10) as u8;
    s.push((48u8 + d) as char);
    proof {
        if n >= 10 {
            assert(decimal(n as nat) == decimal((n / 10) as nat).push(digit_char((n % 10) as nat)));
        }
    }
}

/// Appends the decimal numeral of the signed `n` to `s`.
pub fn push_signed_decimal(s: &mut String, n: i64)
    ensures
        final(s)@ == old(s)@ + signed_decimal(n as int),
{
    if n < 0 {
        s.push('-');
        let m: u64 = if n == i64::MIN {
            9223372036854775808u64
        } else {
            (-n) as u64
        };
        push_decimal(s, m);
    } else {
        push_decimal(s, n as u64);
    }
}

} // verus!
