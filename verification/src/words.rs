//! Word-list text: the lines of a text with surrounding whitespace trimmed,
//! the sorted list written back as lines, the answer bitmap, and the
//! three-letter prefix-trie code.
use vstd::prelude::*;
use crate::bits::{bit_of, packs, stream_bit, value_bits, BitWriter};

verus! {

/// A one-byte whitespace character: tab, line feed, vertical tab, form feed,
/// carriage return, space.
pub open spec fn is_ws1(b: u8) -> bool {
    (9 <= b <= 13) || b == 32
}

/// A two-byte UTF-8 whitespace character: U+0085, U+00A0.
pub open spec fn is_ws2(b0: u8, b1: u8) -> bool {
    b0 == 0xC2 && (b1 == 0x85 || b1 == 0xA0)
}

/// A three-byte UTF-8 whitespace character: U+1680, U+2000 to U+200A,
/// U+2028, U+2029, U+202F, U+205F, U+3000.
pub open spec fn is_ws3(b0: u8, b1: u8, b2: u8) -> bool {
    ||| b0 == 0xE1 && b1 == 0x9A && b2 == 0x80
    ||| b0 == 0xE2 && b1 == 0x80 && ((0x80 <= b2 <= 0x8A) || b2 == 0xA8 || b2 == 0xA9 || b2 == 0xAF)
    ||| b0 == 0xE2 && b1 == 0x81 && b2 == 0x9F
    ||| b0 == 0xE3 && b1 == 0x80 && b2 == 0x80
}

/// The length of the whitespace character that starts at `i` (0 if none).
pub open spec fn ws_at(s: Seq<u8>, i: int) -> int {
    if 0 <= i < s.len() && is_ws1(s[i]) {
        1
    } else if 0 <= i && i + 1 < s.len() && is_ws2(s[i], s[i + 1]) {
        2
    } else if 0 <= i && i + 2 < s.len() && is_ws3(s[i], s[i + 1], s[i + 2]) {
        3
    } else {
        0
    }
}

/// The length of the whitespace character that ends just before `e` (0 if none).
pub open spec fn ws_before(s: Seq<u8>, e: int) -> int {
    if 1 <= e <= s.len() && is_ws1(s[e - 1]) {
        1
    } else if 2 <= e <= s.len() && is_ws2(s[e - 2], s[e - 1]) {
        2
    } else if 3 <= e <= s.len() && is_ws3(s[e - 3], s[e - 2], s[e - 1]) {
        3
    } else {
        0
    }
}

/// A UTF-8 continuation byte.
pub open spec fn is_cont(b: u8) -> bool {
    0x80 <= b <= 0xBF
}

/// The length of the well-formed UTF-8 character that starts at `i` (0 if none):
/// no overlong forms, no surrogates, nothing above U+10FFFF.
pub open spec fn utf8_char_len(s: Seq<u8>, i: int) -> int {
    if !(0 <= i < s.len()) {
        0
    } else {
        let n = s.len() - i;
        let b0 = s[i];
        if b0 <= 0x7F {
            1
        } else if 0xC2 <= b0 <= 0xDF {
            if n >= 2 && is_cont(s[i + 1]) {
                2
            } else {
                0
            }
        } else if 0xE0 <= b0 <= 0xEF {
            let lo: u8 = if b0 == 0xE0 {
                0xA0
            } else {
                0x80
            };
            let hi: u8 = if b0 == 0xED {
                0x9F
            } else {
                0xBF
            };
            if n >= 3 && lo <= s[i + 1] <= hi && is_cont(s[i + 2]) {
                3
            } else {
                0
            }
        } else if 0xF0 <= b0 <= 0xF4 {
            let lo: u8 = if b0 == 0xF0 {
                0x90
            } else {
                0x80
            };
            let hi: u8 = if b0 == 0xF4 {
                0x8F
            } else {
                0xBF
            };
            if n >= 4 && lo <= s[i + 1] <= hi && is_cont(s[i + 2]) && is_cont(s[i + 3]) {
                4
            } else {
                0
            }
        } else {
            0
        }
    }
}

/// `s` from `i` on is a sequence of well-formed UTF-8 characters.
pub open spec fn utf8_from(s: Seq<u8>, i: int) -> bool
    decreases s.len() - i,
{
    if i < 0 || i >= s.len() {
        true
    } else if utf8_char_len(s, i) == 0 {
        false
    } else {
        utf8_from(s, i + utf8_char_len(s, i))
    }
}

/// `s` is UTF-8 text (what `String::from_utf8` accepts).
pub open spec fn is_utf8(s: Seq<u8>) -> bool {
    utf8_from(s, 0)
}

fn utf8_char_len_exec(s: &Vec<u8>, i: usize) -> (n: usize)
    requires
        i < s.len(),
    ensures
        n == utf8_char_len(s@, i as int),
{
    let n = s.len() - i;
    let b0 = s[i];
    if b0 <= 0x7F {
        1
    } else if 0xC2 <= b0 && b0 <= 0xDF {
        if n >= 2 && 0x80 <= s[i + 1] && s[i + 1] <= 0xBF {
            2
        } else {
            0
        }
    } else if 0xE0 <= b0 && b0 <= 0xEF {
        let lo: u8 = if b0 == 0xE0 {
            0xA0
        } else {
            0x80
        };
        let hi: u8 = if b0 == 0xED {
            0x9F
        } else {
            0xBF
        };
        if n >= 3 && lo <= s[i + 1] && s[i + 1] <= hi && 0x80 <= s[i + 2] && s[i + 2] <= 0xBF {
            3
        } else {
            0
        }
    } else if 0xF0 <= b0 && b0 <= 0xF4 {
        let lo: u8 = if b0 == 0xF0 {
            0x90
        } else {
            0x80
        };
        let hi: u8 = if b0 == 0xF4 {
            0x8F
        } else {
            0xBF
        };
        if n >= 4 && lo <= s[i + 1] && s[i + 1] <= hi && 0x80 <= s[i + 2] && s[i + 2] <= 0xBF
            && 0x80 <= s[i + 3] && s[i + 3] <= 0xBF {
            4
        } else {
            0
        }
    } else {
        0
    }
}

/// Whether `s` is UTF-8 text.
pub fn is_utf8_text(s: &Vec<u8>) -> (ok: bool)
    ensures
        ok == is_utf8(s@),
{
    let mut i: usize = 0;
    while i < s.len()
        invariant
            i <= s.len(),
            utf8_from(s@, i as int) == is_utf8(s@),
        decreases s.len() - i,
    {
        let n = utf8_char_len_exec(s, i);
        if n == 0 {
            return false;
        }
        i = i + n;
    }
    true
}

/// Where `s` stops being whitespace, looking forward from `i`.
pub open spec fn trim_start_at(s: Seq<u8>, i: int) -> int
    decreases s.len() - i,
{
    if 0 <= i < s.len() && ws_at(s, i) > 0 {
        trim_start_at(s, i + ws_at(s, i))
    } else {
        i
    }
}

/// Where `s` stops being whitespace, looking back from `e` but not past `lo`.
pub open spec fn trim_end_at(s: Seq<u8>, lo: int, e: int) -> int
    decreases e,
{
    if e > lo && ws_before(s, e) > 0 && e - ws_before(s, e) >= lo {
        trim_end_at(s, lo, e - ws_before(s, e))
    } else {
        e
    }
}

/// `s` without leading and trailing whitespace (on UTF-8 text, what `str::trim` gives).
pub open spec fn trim(s: Seq<u8>) -> Seq<u8> {
    let a = trim_start_at(s, 0);
    s.subrange(a, trim_end_at(s, a, s.len() as int))
}

/// The pieces of `s` between line feeds (`str::split('\n')`): a text with `n`
/// line feeds has `n + 1` pieces, the last one empty when the text ends with one.
pub open spec fn lines(s: Seq<u8>) -> Seq<Seq<u8>>
    decreases s.len(),
{
    if s.len() == 0 {
        seq![Seq::<u8>::empty()]
    } else {
        let l = lines(s.drop_last());
        if s.last() == 10 {
            l.push(Seq::<u8>::empty())
        } else {
            l.update(l.len() - 1, l.last().push(s.last()))
        }
    }
}

/// The words of a text: its lines, each trimmed.
pub open spec fn text_words(s: Seq<u8>) -> Seq<Seq<u8>> {
    lines(s).map_values(|l: Seq<u8>| trim(l))
}

pub proof fn lemma_lines_len(s: Seq<u8>)
    ensures
        lines(s).len() >= 1,
    decreases s.len(),
{
    if s.len() > 0 {
        lemma_lines_len(s.drop_last());
    }
}

pub proof fn lemma_trim_start_bounds(s: Seq<u8>, i: int)
    requires
        0 <= i <= s.len(),
    ensures
        i <= trim_start_at(s, i) <= s.len(),
    decreases s.len() - i,
{
    if 0 <= i < s.len() && ws_at(s, i) > 0 {
        lemma_trim_start_bounds(s, i + ws_at(s, i));
    }
}

pub proof fn lemma_trim_end_bounds(s: Seq<u8>, lo: int, e: int)
    requires
        0 <= lo <= e <= s.len(),
    ensures
        lo <= trim_end_at(s, lo, e) <= e,
    decreases e,
{
    if e > lo && ws_before(s, e) > 0 && e - ws_before(s, e) >= lo {
        lemma_trim_end_bounds(s, lo, e - ws_before(s, e));
    }
}

fn ws_at_exec(s: &Vec<u8>, i: usize) -> (n: usize)
    requires
        i < s.len(),
    ensures
        n == ws_at(s@, i as int),
{
    let b0 = s[i];
    if (9 <= b0 && b0 <= 13) || b0 == 32 {
        return 1;
    }
    if s.len() - i > 1 && b0 == 0xC2 && (s[i + 1] == 0x85 || s[i + 1] == 0xA0) {
        return 2;
    }
    if s.len() - i > 2 {
        let b1 = s[i + 1];
        let b2 = s[i + 2];
        if (b0 == 0xE1 && b1 == 0x9A && b2 == 0x80) || (b0 == 0xE2 && b1 == 0x80 && ((0x80 <= b2
            && b2 <= 0x8A) || b2 == 0xA8 || b2 == 0xA9 || b2 == 0xAF)) || (b0 == 0xE2 && b1 == 0x81
            && b2 == 0x9F) || (b0 == 0xE3 && b1 == 0x80 && b2 == 0x80) {
            return 3;
        }
    }
    0
}

fn ws_before_exec(s: &Vec<u8>, e: usize) -> (n: usize)
    requires
        1 <= e <= s.len(),
    ensures
        n == ws_before(s@, e as int),
{
    let c = s[e - 1];
    if (9 <= c && c <= 13) || c == 32 {
        return 1;
    }
    if e >= 2 && s[e - 2] == 0xC2 && (c == 0x85 || c == 0xA0) {
        return 2;
    }
    if e >= 3 {
        let b0 = s[e - 3];
        let b1 = s[e - 2];
        if (b0 == 0xE1 && b1 == 0x9A && c == 0x80) || (b0 == 0xE2 && b1 == 0x80 && ((0x80 <= c && c
            <= 0x8A) || c == 0xA8 || c == 0xA9 || c == 0xAF)) || (b0 == 0xE2 && b1 == 0x81 && c
            == 0x9F) || (b0 == 0xE3 && b1 == 0x80 && c == 0x80) {
            return 3;
        }
    }
    0
}

/// `s` without leading and trailing whitespace.
pub fn trim_line(s: &Vec<u8>) -> (r: Vec<u8>)
    ensures
        r@ == trim(s@),
{
    let mut a: usize = 0;
    while a < s.len()
        invariant
            a <= s.len(),
            trim_start_at(s@, a as int) == trim_start_at(s@, 0),
        ensures
            a == trim_start_at(s@, 0),
        decreases s.len() - a,
    {
        let n = ws_at_exec(s, a);
        if n == 0 {
            break;
        }
        a = a + n;
    }
    let mut e: usize = s.len();
    proof {
        lemma_trim_start_bounds(s@, 0);
    }
    while e > a
        invariant
            a <= e <= s.len(),
            a == trim_start_at(s@, 0),
            trim_end_at(s@, a as int, e as int) == trim_end_at(s@, a as int, s.len() as int),
        ensures
            a <= e <= s.len(),
            e == trim_end_at(s@, a as int, s.len() as int),
        decreases e,
    {
        let n = ws_before_exec(s, e);
        if n == 0 || e - n < a {
            break;
        }
        e = e - n;
    }
    let mut r: Vec<u8> = Vec::new();
    let mut k: usize = a;
    while k < e
        invariant
            a <= k <= e <= s.len(),
            r@ == s@.subrange(a as int, k as int),
        decreases e - k,
    {
        r.push(s[k]);
        k = k + 1;
        proof {
            assert(r@ =~= s@.subrange(a as int, k as int));
        }
    }
    r
}

/// The pieces of `text` between line feeds.
pub fn split_lines(text: &Vec<u8>) -> (r: Vec<Vec<u8>>)
    ensures
        r.deep_view() == lines(text@),
{
    let mut out: Vec<Vec<u8>> = Vec::new();
    let mut cur: Vec<u8> = Vec::new();
    let mut i: usize = 0;
    proof {
        assert(text@.take(0) =~= Seq::<u8>::empty());
        assert(out.deep_view().push(cur@) =~= lines(text@.take(0)));
    }
    while i < text.len()
        invariant
            i <= text.len(),
            out.deep_view().push(cur@) == lines(text@.take(i as int)),
        decreases text.len() - i,
    {
        let ghost pre = out.deep_view();
        let ghost c0 = cur@;
        proof {
            let t1 = text@.take(i + 1);
            assert(t1.drop_last() =~= text@.take(i as int));
            assert(t1.last() == text@[i as int]);
        }
        if text[i] == 10 {
            out.push(cur);
            cur = Vec::new();
            proof {
                assert(out.deep_view() =~~= pre.push(c0));
                assert(out.deep_view().push(cur@) =~= pre.push(c0).push(Seq::<u8>::empty()));
            }
        } else {
            cur.push(text[i]);
            proof {
                assert(out.deep_view().push(cur@) =~= pre.push(c0).update(
                    pre.len() as int,
                    c0.push(text@[i as int]),
                ));
            }
        }
        i = i + 1;
    }
    let ghost pre = out.deep_view();
    let ghost c0 = cur@;
    out.push(cur);
    proof {
        assert(out.deep_view() =~~= pre.push(c0));
        assert(text@.take(text.len() as int) =~= text@);
    }
    out
}

/// The words of a UTF-8 text: its lines, each trimmed.
pub fn words_of_text(text: &Vec<u8>) -> (r: Vec<Vec<u8>>)
    requires
        is_utf8(text@),
    ensures
        r.deep_view() == text_words(text@),
{
    let ls = split_lines(text);
    let mut out: Vec<Vec<u8>> = Vec::new();
    let mut i: usize = 0;
    while i < ls.len()
        invariant
            i <= ls.len(),
            ls.deep_view() == lines(text@),
            out.len() == i,
            out.deep_view() == lines(text@).take(i as int).map_values(|l: Seq<u8>| trim(l)),
        decreases ls.len() - i,
    {
        let ghost pre = out.deep_view();
        let w = trim_line(&ls[i]);
        let ghost wv = w@;
        proof {
            assert(ls.deep_view()[i as int] == ls@[i as int]@);
            assert(wv == trim(lines(text@)[i as int]));
        }
        out.push(w);
        i = i + 1;
        proof {
            let target = lines(text@).take(i as int).map_values(|l: Seq<u8>| trim(l));
            assert(out.deep_view()[i - 1] == wv);
            assert forall|j: int| 0 <= j < i implies out.deep_view()[j] == target[j] by {
                if j < i - 1 {
                    assert(out.deep_view()[j] == pre[j]);
                }
            }
            assert(out.deep_view() =~= target);
        }
    }
    proof {
        assert(lines(text@).take(i as int) =~= lines(text@));
    }
    out
}

/// Byte-wise lexicographic order (the order of `str`): a proper prefix comes
/// first, else the first differing byte decides.
pub open spec fn lex_lt(a: Seq<u8>, b: Seq<u8>) -> bool
    decreases a.len(),
{
    if a.len() == 0 {
        b.len() > 0
    } else if b.len() == 0 {
        false
    } else if a[0] != b[0] {
        a[0] < b[0]
    } else {
        lex_lt(a.drop_first(), b.drop_first())
    }
}

pub proof fn lemma_lex_irreflexive(a: Seq<u8>)
    ensures
        !lex_lt(a, a),
    decreases a.len(),
{
    if a.len() > 0 {
        lemma_lex_irreflexive(a.drop_first());
    }
}

pub proof fn lemma_lex_transitive(a: Seq<u8>, b: Seq<u8>, c: Seq<u8>)
    requires
        lex_lt(a, b),
        lex_lt(b, c),
    ensures
        lex_lt(a, c),
    decreases a.len(),
{
    if a.len() > 0 && b.len() > 0 && c.len() > 0 && a[0] == b[0] && b[0] == c[0] {
        lemma_lex_transitive(a.drop_first(), b.drop_first(), c.drop_first());
    }
}

pub proof fn lemma_lex_total(a: Seq<u8>, b: Seq<u8>)
    ensures
        a == b || lex_lt(a, b) || lex_lt(b, a),
    decreases a.len(),
{
    if a.len() > 0 && b.len() > 0 && a[0] == b[0] {
        lemma_lex_total(a.drop_first(), b.drop_first());
        if a.drop_first() == b.drop_first() {
            assert(a =~= seq![a[0]] + a.drop_first());
            assert(b =~= seq![b[0]] + b.drop_first());
        }
    } else if a.len() == 0 && b.len() == 0 {
        assert(a =~= b);
    }
}

pub proof fn lemma_lex_asymmetric(a: Seq<u8>, b: Seq<u8>)
    requires
        lex_lt(a, b),
    ensures
        !lex_lt(b, a),
{
    if lex_lt(b, a) {
        lemma_lex_transitive(a, b, a);
        lemma_lex_irreflexive(a);
    }
}

/// Whether `a` comes before `b` in byte-wise lexicographic order.
pub fn lex_less(a: &Vec<u8>, b: &Vec<u8>) -> (r: bool)
    ensures
        r == lex_lt(a@, b@),
{
    let mut i: usize = 0;
    proof {
        assert(a@.skip(0) =~= a@);
        assert(b@.skip(0) =~= b@);
    }
    while i < a.len() && i < b.len() && a[i] == b[i]
        invariant
            i <= a.len(),
            i <= b.len(),
            lex_lt(a@, b@) == lex_lt(a@.skip(i as int), b@.skip(i as int)),
        decreases a.len() - i,
    {
        proof {
            assert(a@.skip(i as int).drop_first() =~= a@.skip(i + 1));
            assert(b@.skip(i as int).drop_first() =~= b@.skip(i + 1));
        }
        i = i + 1;
    }
    if i == a.len() {
        i < b.len()
    } else if i == b.len() {
        false
    } else {
        a[i] < b[i]
    }
}

/// A list in lexicographic order: no word comes before one ahead of it.
pub open spec fn lex_sorted(ws: Seq<Seq<u8>>) -> bool {
    forall|i: int, j: int| 0 <= i < j < ws.len() ==> !lex_lt(#[trigger] ws[j], #[trigger] ws[i])
}

/// Where `w` goes in `l`: before the first word it comes before, looking from `j` on.
pub open spec fn insert_pos(l: Seq<Seq<u8>>, w: Seq<u8>, j: int) -> int
    decreases l.len() - j,
{
    if j >= l.len() {
        l.len() as int
    } else if lex_lt(w, l[j]) {
        j
    } else {
        insert_pos(l, w, j + 1)
    }
}

/// The words of `ws` in lexicographic order, each inserted after the words it
/// does not come before.
pub open spec fn sort_lines(ws: Seq<Seq<u8>>) -> Seq<Seq<u8>>
    decreases ws.len(),
{
    if ws.len() == 0 {
        Seq::empty()
    } else {
        let l = sort_lines(ws.drop_last());
        l.insert(insert_pos(l, ws.last(), 0), ws.last())
    }
}

pub proof fn lemma_insert_pos(l: Seq<Seq<u8>>, w: Seq<u8>, j: int)
    requires
        0 <= j <= l.len(),
    ensures
        j <= insert_pos(l, w, j) <= l.len(),
        forall|k: int| j <= k < insert_pos(l, w, j) ==> !lex_lt(w, #[trigger] l[k]),
        insert_pos(l, w, j) < l.len() ==> lex_lt(w, l[insert_pos(l, w, j)]),
    decreases l.len() - j,
{
    if j < l.len() && !lex_lt(w, l[j]) {
        lemma_insert_pos(l, w, j + 1);
    }
}

/// Inserting a word at its place keeps a list sorted.
pub proof fn lemma_insert_sorted(l: Seq<Seq<u8>>, w: Seq<u8>)
    requires
        lex_sorted(l),
    ensures
        lex_sorted(l.insert(insert_pos(l, w, 0), w)),
{
    let p = insert_pos(l, w, 0);
    lemma_insert_pos(l, w, 0);
    let l2 = l.insert(p, w);
    assert forall|i: int, j: int| 0 <= i < j < l2.len() implies !lex_lt(
        #[trigger] l2[j],
        #[trigger] l2[i],
    ) by {
        if j < p {
            assert(l2[i] == l[i] && l2[j] == l[j]);
        } else if j == p {
            assert(l2[i] == l[i]);
            assert(!lex_lt(w, l[i]));
        } else if i > p {
            assert(l2[i] == l[i - 1] && l2[j] == l[j - 1]);
        } else if i == p {
            assert(l2[j] == l[j - 1]);
            if p < j - 1 {
                assert(!lex_lt(l[j - 1], l[p]));
            }
            if lex_lt(l[j - 1], w) {
                lemma_lex_total(l[j - 1], l[p]);
                if lex_lt(l[p], l[j - 1]) {
                    lemma_lex_transitive(w, l[p], l[j - 1]);
                    lemma_lex_asymmetric(w, l[j - 1]);
                } else {
                    lemma_lex_asymmetric(w, l[p]);
                }
            }
        } else {
            assert(l2[i] == l[i] && l2[j] == l[j - 1]);
        }
    }
}

/// The sorted list is in lexicographic order.
pub proof fn lemma_sort_lines_sorted(ws: Seq<Seq<u8>>)
    ensures
        lex_sorted(sort_lines(ws)),
    decreases ws.len(),
{
    if ws.len() > 0 {
        lemma_sort_lines_sorted(ws.drop_last());
        lemma_insert_sorted(sort_lines(ws.drop_last()), ws.last());
    }
}

/// The sorted list holds the same words, each as often.
pub proof fn lemma_sort_lines_permutes(ws: Seq<Seq<u8>>)
    ensures
        sort_lines(ws).to_multiset() == ws.to_multiset(),
    decreases ws.len(),
{
    broadcast use vstd::seq_lib::to_multiset_insert, vstd::seq_lib::to_multiset_build;

    if ws.len() > 0 {
        lemma_sort_lines_permutes(ws.drop_last());
        let l = sort_lines(ws.drop_last());
        lemma_insert_pos(l, ws.last(), 0);
        assert(ws.drop_last().push(ws.last()) =~= ws);
    } else {
        assert(sort_lines(ws) =~= ws);
    }
}

/// Two lists in lexicographic order with the same words, each as often, are
/// the same list: there is one sorted arrangement of a list.
pub proof fn lemma_sorted_unique(a: Seq<Seq<u8>>, b: Seq<Seq<u8>>)
    requires
        lex_sorted(a),
        lex_sorted(b),
        a.to_multiset() == b.to_multiset(),
    ensures
        a == b,
    decreases a.len(),
{
    broadcast use vstd::seq_lib::to_multiset_remove, vstd::seq_lib::to_multiset_len,
        vstd::seq_lib::to_multiset_contains;

    vstd::seq_lib::to_multiset_len(a);
    vstd::seq_lib::to_multiset_len(b);
    assert(a.len() == b.len());
    if a.len() == 0 {
        assert(a =~= b);
    } else {
        assert(a.to_multiset().count(a[0]) > 0);
        assert(b.contains(a[0]));
        let j = choose|j: int| 0 <= j < b.len() && b[j] == a[0];
        assert(b.to_multiset().count(b[0]) > 0);
        assert(a.contains(b[0]));
        let i = choose|i: int| 0 <= i < a.len() && a[i] == b[0];
        if j > 0 {
            assert(!lex_lt(b[j], b[0]));
        } else {
            lemma_lex_irreflexive(b[0]);
        }
        if i > 0 {
            assert(!lex_lt(a[i], a[0]));
        } else {
            lemma_lex_irreflexive(a[0]);
        }
        lemma_lex_total(a[0], b[0]);
        assert(a[0] == b[0]);
        let a1 = a.drop_first();
        let b1 = b.drop_first();
        assert(a.remove(0) =~= a1);
        assert(b.remove(0) =~= b1);
        assert(a1.to_multiset() == b1.to_multiset());
        assert(lex_sorted(a1)) by {
            assert forall|x: int, y: int| 0 <= x < y < a1.len() implies !lex_lt(
                #[trigger] a1[y],
                #[trigger] a1[x],
            ) by {
                assert(a1[x] == a[x + 1] && a1[y] == a[y + 1]);
            }
        }
        assert(lex_sorted(b1)) by {
            assert forall|x: int, y: int| 0 <= x < y < b1.len() implies !lex_lt(
                #[trigger] b1[y],
                #[trigger] b1[x],
            ) by {
                assert(b1[x] == b[x + 1] && b1[y] == b[y + 1]);
            }
        }
        lemma_sorted_unique(a1, b1);
        assert(a =~= seq![a[0]] + a1);
        assert(b =~= seq![b[0]] + b1);
    }
}

/// The sorted list is the one arrangement of the list in lexicographic order
/// (what any correct sort of the list gives).
pub proof fn lemma_sort_lines_unique(ws: Seq<Seq<u8>>, r: Seq<Seq<u8>>)
    requires
        lex_sorted(r),
        r.to_multiset() == ws.to_multiset(),
    ensures
        r == sort_lines(ws),
{
    lemma_sort_lines_sorted(ws);
    lemma_sort_lines_permutes(ws);
    lemma_sorted_unique(r, sort_lines(ws));
}

/// The words of a list in lexicographic order (`sort` on the list).
pub fn sort_word_list(words: &Vec<Vec<u8>>) -> (r: Vec<Vec<u8>>)
    ensures
        r.deep_view() == sort_lines(words.deep_view()),
{
    let ghost ws = words.deep_view();
    let mut out: Vec<Vec<u8>> = Vec::new();
    let mut i: usize = 0;
    proof {
        assert(ws.take(0) =~= Seq::<Seq<u8>>::empty());
    }
    while i < words.len()
        invariant
            i <= words.len(),
            ws == words.deep_view(),
            out.deep_view() == sort_lines(ws.take(i as int)),
        decreases words.len() - i,
    {
        let w = words[i].clone();
        proof {
            assert(w@ =~= words@[i as int]@);
            assert(ws[i as int] == w@);
        }
        let ghost l = out.deep_view();
        let mut j: usize = 0;
        while j < out.len() && !lex_less(&w, &out[j])
            invariant
                j <= out.len(),
                l == out.deep_view(),
                insert_pos(l, w@, j as int) == insert_pos(l, w@, 0),
            decreases out.len() - j,
        {
            proof {
                assert(l[j as int] == out@[j as int]@);
            }
            j = j + 1;
        }
        proof {
            if j < out.len() {
                assert(l[j as int] == out@[j as int]@);
            }
            assert(insert_pos(l, w@, j as int) == j);
        }
        let ghost wv = w@;
        out.insert(j, w);
        i = i + 1;
        proof {
            let t1 = ws.take(i as int);
            assert(t1.drop_last() =~= ws.take(i - 1));
            assert(t1.last() == wv);
            assert(out.deep_view() =~~= l.insert(j as int, wv));
        }
    }
    proof {
        assert(ws.take(i as int) =~= ws);
    }
    out
}

/// A list written as text: each word followed by a line feed.
pub open spec fn joined(ws: Seq<Seq<u8>>) -> Seq<u8>
    decreases ws.len(),
{
    if ws.len() == 0 {
        Seq::empty()
    } else {
        joined(ws.drop_last()) + ws.last() + seq![10u8]
    }
}

/// Writes a list as text: each word followed by a line feed.
pub fn join_lines(ws: &Vec<Vec<u8>>) -> (r: Vec<u8>)
    ensures
        r@ == joined(ws.deep_view()),
{
    let ghost v = ws.deep_view();
    let mut out: Vec<u8> = Vec::new();
    let mut i: usize = 0;
    proof {
        assert(v.take(0) =~= Seq::<Seq<u8>>::empty());
    }
    while i < ws.len()
        invariant
            i <= ws.len(),
            v == ws.deep_view(),
            out@ == joined(v.take(i as int)),
        decreases ws.len() - i,
    {
        let ghost o0 = out@;
        let w = &ws[i];
        let mut k: usize = 0;
        while k < w.len()
            invariant
                k <= w.len(),
                out@ == o0 + w@.take(k as int),
            decreases w.len() - k,
        {
            out.push(w[k]);
            k = k + 1;
            proof {
                assert(out@ =~= o0 + w@.take(k as int));
            }
        }
        out.push(10);
        proof {
            let t1 = v.take(i + 1);
            assert(t1.drop_last() =~= v.take(i as int));
            assert(t1.last() == w@);
            assert(w@.take(w.len() as int) =~= w@);
            assert(out@ =~= o0 + w@ + seq![10u8]);
        }
        i = i + 1;
    }
    proof {
        assert(v.take(i as int) =~= v);
    }
    out
}

/// No byte of `w` is a line feed.
pub open spec fn no_line_feed(w: Seq<u8>) -> bool {
    forall|i: int| 0 <= i < w.len() ==> w[i] != 10
}

pub proof fn lemma_lines_no_line_feed(s: Seq<u8>)
    ensures
        forall|j: int| 0 <= j < lines(s).len() ==> no_line_feed(#[trigger] lines(s)[j]),
    decreases s.len(),
{
    if s.len() > 0 {
        lemma_lines_no_line_feed(s.drop_last());
        lemma_lines_len(s.drop_last());
        let l = lines(s.drop_last());
        if s.last() != 10 {
            assert forall|j: int| 0 <= j < lines(s).len() implies no_line_feed(#[trigger] lines(s)[j]) by {
                if j == l.len() - 1 {
                    assert(no_line_feed(l[j]));
                    assert forall|i: int| 0 <= i < lines(s)[j].len() implies lines(s)[j][i] != 10 by {
                        if i < l[j].len() {
                            assert(lines(s)[j][i] == l[j][i]);
                        }
                    }
                } else {
                    assert(lines(s)[j] == l[j]);
                }
            }
        } else {
            assert forall|j: int| 0 <= j < lines(s).len() implies no_line_feed(#[trigger] lines(s)[j]) by {
                if j < l.len() {
                    assert(lines(s)[j] == l[j]);
                }
            }
        }
    }
}

proof fn lemma_lines_append_plain(s: Seq<u8>, t: Seq<u8>)
    requires
        no_line_feed(t),
    ensures
        lines(s + t) == lines(s).update(lines(s).len() - 1, lines(s).last() + t),
    decreases t.len(),
{
    lemma_lines_len(s);
    if t.len() == 0 {
        assert(s + t =~= s);
        assert(lines(s).last() + t =~= lines(s).last());
        assert(lines(s).update(lines(s).len() - 1, lines(s).last() + t) =~= lines(s));
    } else {
        let t0 = t.drop_last();
        assert(no_line_feed(t0)) by {
            assert forall|i: int| 0 <= i < t0.len() implies t0[i] != 10 by {
                assert(t0[i] == t[i]);
            }
        }
        lemma_lines_append_plain(s, t0);
        assert((s + t).drop_last() =~= s + t0);
        assert((s + t).last() == t.last());
        assert(t.last() == t[t.len() - 1]);
        let l = lines(s);
        assert((l.last() + t0).push(t.last()) =~= l.last() + t);
        assert(lines(s + t) =~= l.update(l.len() - 1, l.last() + t));
    }
}

/// A list whose words hold no line feed, written out as lines, splits back
/// into the list followed by the empty piece after the last line feed.
pub proof fn lemma_joined_lines(ws: Seq<Seq<u8>>)
    requires
        forall|j: int| 0 <= j < ws.len() ==> no_line_feed(#[trigger] ws[j]),
    ensures
        lines(joined(ws)) == ws.push(Seq::<u8>::empty()),
    decreases ws.len(),
{
    if ws.len() == 0 {
        assert(lines(joined(ws)) =~= ws.push(Seq::<u8>::empty()));
    } else {
        let init = ws.drop_last();
        assert forall|j: int| 0 <= j < init.len() implies no_line_feed(#[trigger] init[j]) by {
            assert(init[j] == ws[j]);
        }
        lemma_joined_lines(init);
        let x = joined(init);
        assert(no_line_feed(ws[ws.len() - 1]));
        lemma_lines_append_plain(x, ws.last());
        assert((x + ws.last() + seq![10u8]).drop_last() =~= x + ws.last());
        assert(Seq::<u8>::empty() + ws.last() =~= ws.last());
        assert(init.push(Seq::<u8>::empty()).update(init.len() as int, ws.last()) =~= ws);
    }
}

/// Reading back a list written out as lines gives its words, trimmed, and an
/// empty last word (for words that hold no line feed).
pub proof fn lemma_joined_reads_back(ws: Seq<Seq<u8>>)
    requires
        forall|j: int| 0 <= j < ws.len() ==> no_line_feed(#[trigger] ws[j]),
    ensures
        text_words(joined(ws)) == ws.map_values(|w: Seq<u8>| trim(w)).push(Seq::<u8>::empty()),
{
    lemma_joined_lines(ws);
    assert(trim(Seq::<u8>::empty()) =~= Seq::<u8>::empty());
    assert(text_words(joined(ws)) =~= ws.map_values(|w: Seq<u8>| trim(w)).push(Seq::<u8>::empty()));
}

pub proof fn lemma_trim_start_stop(s: Seq<u8>, i: int)
    requires
        0 <= i <= s.len(),
    ensures
        trim_start_at(s, i) == s.len() || ws_at(s, trim_start_at(s, i)) == 0,
    decreases s.len() - i,
{
    if 0 <= i < s.len() && ws_at(s, i) > 0 {
        lemma_trim_start_stop(s, i + ws_at(s, i));
    }
}

pub proof fn lemma_trim_end_stop(s: Seq<u8>, lo: int, e: int)
    requires
        0 <= lo <= e <= s.len(),
    ensures
        ({
            let r = trim_end_at(s, lo, e);
            r <= lo || ws_before(s, r) == 0 || r - ws_before(s, r) < lo
        }),
    decreases e,
{
    if e > lo && ws_before(s, e) > 0 && e - ws_before(s, e) >= lo {
        lemma_trim_end_stop(s, lo, e - ws_before(s, e));
    }
}

/// Trimming a trimmed line changes nothing.
pub proof fn lemma_trim_idempotent(l: Seq<u8>)
    ensures
        trim(trim(l)) == trim(l),
{
    let a = trim_start_at(l, 0);
    lemma_trim_start_bounds(l, 0);
    lemma_trim_start_stop(l, 0);
    let n = l.len() as int;
    let e = trim_end_at(l, a, n);
    lemma_trim_end_bounds(l, a, n);
    lemma_trim_end_stop(l, a, n);
    let t = l.subrange(a, e);
    assert(t == trim(l));
    if t.len() > 0 {
        assert(ws_at(l, a) == 0);
        assert(ws_at(t, 0) == 0) by {
            assert(t[0] == l[a]);
            if 1 < t.len() {
                assert(t[1] == l[a + 1]);
            }
            if 2 < t.len() {
                assert(t[2] == l[a + 2]);
            }
        }
        let m = t.len() as int;
        assert(ws_before(t, m) == 0 || m - ws_before(t, m) < 0) by {
            assert(t[m - 1] == l[e - 1]);
            if m >= 2 {
                assert(t[m - 2] == l[e - 2]);
            }
            if m >= 3 {
                assert(t[m - 3] == l[e - 3]);
            }
        }
    }
    assert(trim(t) =~= t);
}

/// Sorting a word file and reading the result back gives the file's words in
/// order, followed by the empty word after the last line feed.
pub proof fn lemma_sort_words_reads_back(text: Seq<u8>)
    ensures
        text_words(joined(sort_lines(text_words(text)))) == sort_lines(text_words(text)).push(
            Seq::<u8>::empty(),
        ),
{
    broadcast use vstd::seq_lib::to_multiset_contains;

    let ws = text_words(text);
    let sorted = sort_lines(ws);
    lemma_sort_lines_permutes(ws);
    lemma_lines_no_line_feed(text);
    assert forall|j: int| 0 <= j < sorted.len() implies no_line_feed(#[trigger] sorted[j]) && trim(
        sorted[j],
    ) == sorted[j] by {
        assert(sorted.to_multiset().count(sorted[j]) > 0);
        assert(ws.contains(sorted[j]));
        let k = choose|k: int| 0 <= k < ws.len() && ws[k] == sorted[j];
        let l = lines(text)[k];
        assert(no_line_feed(l));
        assert(ws[k] == trim(l));
        lemma_trim_idempotent(l);
        lemma_trim_start_bounds(l, 0);
        lemma_trim_end_bounds(l, trim_start_at(l, 0), l.len() as int);
        assert forall|i: int| 0 <= i < trim(l).len() implies trim(l)[i] != 10 by {
            assert(trim(l)[i] == l[trim_start_at(l, 0) + i]);
        }
    }
    lemma_joined_reads_back(sorted);
    assert(sorted.map_values(|w: Seq<u8>| trim(w)) =~= sorted);
}

/// Sorts the lines of a UTF-8 text (`sort_words`): the text's words, trimmed, in
/// lexicographic order, written back one per line.
pub fn sort_words(text: &Vec<u8>) -> (r: Vec<u8>)
    requires
        is_utf8(text@),
    ensures
        r@ == joined(sort_lines(text_words(text@))),
{
    let ws = words_of_text(text);
    let sorted = sort_word_list(&ws);
    join_lines(&sorted)
}

fn bytes_equal(a: &Vec<u8>, b: &Vec<u8>) -> (r: bool)
    ensures
        r == (a@ == b@),
{
    if a.len() != b.len() {
        return false;
    }
    let mut i: usize = 0;
    while i < a.len()
        invariant
            i <= a.len() == b.len(),
            a@.take(i as int) == b@.take(i as int),
        decreases a.len() - i,
    {
        if a[i] != b[i] {
            return false;
        }
        i = i + 1;
        proof {
            assert(a@.take(i as int) =~= a@.take(i - 1).push(a@[i - 1]));
            assert(b@.take(i as int) =~= b@.take(i - 1).push(b@[i - 1]));
        }
    }
    proof {
        assert(a@.take(i as int) =~= a@);
        assert(b@.take(i as int) =~= b@);
    }
    true
}

/// Whether `w` is one of the words of `list`.
pub fn contains_word(list: &Vec<Vec<u8>>, w: &Vec<u8>) -> (r: bool)
    ensures
        r == list.deep_view().contains(w@),
{
    let ghost v = list.deep_view();
    let mut i: usize = 0;
    while i < list.len()
        invariant
            i <= list.len(),
            v == list.deep_view(),
            forall|j: int| 0 <= j < i ==> v[j] != w@,
        decreases list.len() - i,
    {
        if bytes_equal(&list[i], w) {
            proof {
                assert(v[i as int] == list@[i as int]@);
            }
            return true;
        }
        proof {
            assert(v[i as int] == list@[i as int]@);
        }
        i = i + 1;
    }
    false
}

/// For each word of the whole bytes' worth of `words` (the first
/// `8 * (len / 8)`), whether it is an answer.
pub open spec fn answer_flags(words: Seq<Seq<u8>>, answers: Seq<Seq<u8>>) -> Seq<bool> {
    Seq::new((8 * (words.len() / 8)) as nat, |k: int| answers.contains(words[k]))
}

/// The longest run of non-answers closed by an answer, and the current run,
/// after a sequence of flags.
pub open spec fn run_stats(flags: Seq<bool>) -> (nat, nat)
    decreases flags.len(),
{
    if flags.len() == 0 {
        (0, 0)
    } else {
        let (l, c) = run_stats(flags.drop_last());
        if flags.last() {
            (
                if c > l {
                    c
                } else {
                    l
                },
                0,
            )
        } else {
            (l, c + 1)
        }
    }
}

pub proof fn lemma_run_stats_bound(flags: Seq<bool>)
    ensures
        run_stats(flags).0 <= flags.len(),
        run_stats(flags).1 <= flags.len(),
    decreases flags.len(),
{
    if flags.len() > 0 {
        lemma_run_stats_bound(flags.drop_last());
    }
}

/// The answer bitmap holds one byte per whole eight words, and bit `j` of
/// byte `i` is set exactly when word `8 i + j` is an answer.
pub proof fn lemma_bitmap_bits(words: Seq<Seq<u8>>, answers: Seq<Seq<u8>>, bytes: Seq<u8>)
    requires
        packs(bytes, answer_flags(words, answers)),
    ensures
        bytes.len() == words.len() / 8,
        forall|i: int, j: int|
            0 <= i < words.len() / 8 && 0 <= j < 8 ==> #[trigger] stream_bit(bytes, 8 * i + j)
                == answers.contains(words[8 * i + j]),
{
    let n = words.len() / 8;
    assert((8 * n + 7) / 8 == n);
    assert forall|i: int, j: int| 0 <= i < n && 0 <= j < 8 implies #[trigger] stream_bit(
        bytes,
        8 * i + j,
    ) == answers.contains(words[8 * i + j]) by {
        assert(0 <= 8 * i + j < 8 * n);
        assert(8 * n <= words.len());
    }
}

/// The answer bitmap (`create_answers_bitmap`): bit `j` of byte `i` tells
/// whether word `8 * i + j` is an answer, for the whole bytes' worth of words;
/// also the longest run of non-answers that an answer closes.
pub fn create_answers_bitmap(words: &Vec<Vec<u8>>, answers: &Vec<Vec<u8>>) -> (r: (Vec<u8>, usize))
    ensures
        packs(r.0@, answer_flags(words.deep_view(), answers.deep_view())),
        r.1 == run_stats(answer_flags(words.deep_view(), answers.deep_view())).0,
        r.0.len() == words.len() / 8,
        forall|i: int, j: int|
            0 <= i < words.len() / 8 && 0 <= j < 8 ==> #[trigger] stream_bit(r.0@, 8 * i + j)
                == answers.deep_view().contains(words.deep_view()[8 * i + j]),
{
    let ghost flags = answer_flags(words.deep_view(), answers.deep_view());
    let n = (words.len() / 8) * 8;
    let mut w = BitWriter::new();
    let mut longest: usize = 0;
    let mut curr: usize = 0;
    let mut k: usize = 0;
    proof {
        assert(flags.take(0) =~= Seq::<bool>::empty());
    }
    while k < n
        invariant
            n == flags.len(),
            n <= words.len(),
            k <= n,
            w.wf(),
            w.bits() == flags.take(k as int),
            (longest as nat, curr as nat) == run_stats(flags.take(k as int)),
            flags == answer_flags(words.deep_view(), answers.deep_view()),
        decreases n - k,
    {
        let hit = contains_word(answers, &words[k]);
        proof {
            assert(words.deep_view()[k as int] == words@[k as int]@);
            assert(hit == flags[k as int]);
            let t1 = flags.take(k + 1);
            assert(t1.drop_last() =~= flags.take(k as int));
            assert(t1.last() == flags[k as int]);
            lemma_run_stats_bound(flags.take(k as int));
        }
        let _ = w.pending_bits();
        if hit {
            proof {
                assert(1u64 >> 1u64 == 0) by (bit_vector);
                assert(value_bits(1, 1) =~= seq![true]) by {
                    assert(bit_of(1, 0)) by (bit_vector);
                }
            }
            w.push_bits(1, 1);
            if curr > longest {
                longest = curr;
            }
            curr = 0;
        } else {
            proof {
                assert(0u64 >> 1u64 == 0) by (bit_vector);
                assert(value_bits(0, 1) =~= seq![false]) by {
                    assert(!bit_of(0, 0)) by (bit_vector);
                }
            }
            w.push_bits(0, 1);
            curr = curr + 1;
        }
        k = k + 1;
        proof {
            assert(w.bits() =~= flags.take(k as int));
        }
    }
    proof {
        assert(flags.take(k as int) =~= flags);
    }
    let bytes = w.finish();
    proof {
        lemma_bitmap_bits(words.deep_view(), answers.deep_view(), bytes@);
    }
    (bytes, longest)
}

/// The marker that moves the prefix-trie code up one of its three levels.
pub const TRIE_LEVEL_CHAR: u8 = 125;

/// The first of the three prefix letters, from `i` on, where `w` differs from
/// `last` (3 if none).
pub open spec fn first_diff(last: Seq<u8>, w: Seq<u8>, i: int) -> int
    decreases 3 - i,
{
    if i >= 3 {
        3
    } else if w[i] != last[i] {
        i
    } else {
        first_diff(last, w, i + 1)
    }
}

/// The prefix-trie code of one word after a word with prefix `last`: where
/// the three-letter prefix differs from position `d` on, one level marker per
/// changed level and the word from `d`; else only the last two letters.
pub open spec fn trie_word_code(last: Seq<u8>, w: Seq<u8>) -> Seq<u8> {
    let d = first_diff(last, w, 0);
    if d < 3 {
        Seq::new((3 - d) as nat, |k: int| TRIE_LEVEL_CHAR) + w.subrange(d, 5)
    } else {
        w.subrange(3, 5)
    }
}

/// The prefix-trie code of a word list after a word with prefix `last`.
pub open spec fn trie_stream(ws: Seq<Seq<u8>>, last: Seq<u8>) -> Seq<u8>
    decreases ws.len(),
{
    if ws.len() == 0 {
        Seq::empty()
    } else {
        trie_word_code(last, ws[0]) + trie_stream(ws.drop_first(), ws[0].take(3))
    }
}

/// Every word has at least five letters.
pub open spec fn words_long(ws: Seq<Seq<u8>>) -> bool {
    forall|j: int| 0 <= j < ws.len() ==> (#[trigger] ws[j]).len() >= 5
}

/// The prefix-trie code of a word list (`radix_trie_encode`), starting from
/// the prefix "aah".
pub fn radix_trie_encode(words: &Vec<Vec<u8>>) -> (out: Vec<u8>)
    requires
        words_long(words.deep_view()),
    ensures
        out@ == trie_stream(words.deep_view(), seq![97u8, 97u8, 104u8]),
{
    let ghost ws = words.deep_view();
    let mut last: Vec<u8> = vec![97, 97, 104];
    let mut out: Vec<u8> = Vec::new();
    let mut i: usize = 0;
    proof {
        assert(ws.skip(0) =~= ws);
        assert(last@ =~= seq![97u8, 97u8, 104u8]);
    }
    while i < words.len()
        invariant
            i <= words.len(),
            ws == words.deep_view(),
            words_long(ws),
            last.len() == 3,
            out@ + trie_stream(ws.skip(i as int), last@) == trie_stream(
                ws,
                seq![97u8, 97u8, 104u8],
            ),
        decreases words.len() - i,
    {
        let w = &words[i];
        let ghost o0 = out@;
        let ghost l0 = last@;
        proof {
            assert(ws.skip(i as int)[0] == w@);
            assert(ws.skip(i as int).drop_first() =~= ws.skip(i + 1));
            assert(w@.len() >= 5) by {
                assert(ws[i as int] == w@);
            }
        }
        let mut d: usize = 0;
        while d < 3 && w[d] == last[d]
            invariant
                d <= 3,
                w@.len() >= 5,
                last@ == l0,
                last.len() == 3,
                first_diff(l0, w@, d as int) == first_diff(l0, w@, 0),
            decreases 3 - d,
        {
            d = d + 1;
        }
        let mut j: usize = d;
        while j < 3
            invariant
                d <= j <= 3,
                w@.len() >= 5,
                last.len() == 3,
                out@ == o0 + Seq::new((j - d) as nat, |k: int| TRIE_LEVEL_CHAR),
                forall|k: int| 0 <= k < 3 ==> #[trigger] last@[k] == if d <= k < j {
                    w@[k]
                } else {
                    l0[k]
                },
            decreases 3 - j,
        {
            last.set(j, w[j]);
            out.push(TRIE_LEVEL_CHAR);
            j = j + 1;
            proof {
                assert(out@ =~= o0 + Seq::new((j - d) as nat, |k: int| TRIE_LEVEL_CHAR));
            }
        }
        let ghost o1 = out@;
        let start: usize = if d < 3 {
            d
        } else {
            3
        };
        let mut k: usize = start;
        while k < 5
            invariant
                start <= k <= 5,
                w@.len() >= 5,
                out@ == o1 + w@.subrange(start as int, k as int),
            decreases 5 - k,
        {
            out.push(w[k]);
            k = k + 1;
            proof {
                assert(out@ =~= o1 + w@.subrange(start as int, k as int));
            }
        }
        proof {
            assert(out@ =~= o0 + trie_word_code(l0, w@));
            assert forall|k: int| 0 <= k < 3 implies last@[k] == w@[k] by {
                if k < d {
                    lemma_first_diff_prefix(l0, w@, 0, k);
                }
            }
            assert(last@ =~= w@.take(3));
            assert(trie_stream(ws.skip(i as int), l0) == trie_word_code(l0, w@) + trie_stream(
                ws.skip(i + 1),
                w@.take(3),
            ));
        }
        i = i + 1;
    }
    proof {
        assert(ws.skip(i as int) =~= Seq::<Seq<u8>>::empty());
        assert(out@ + Seq::<u8>::empty() =~= out@);
    }
    out
}

/// How many level markers open `s`, counting at most three.
pub open spec fn leading_marks(s: Seq<u8>) -> int {
    if s.len() >= 1 && s[0] == TRIE_LEVEL_CHAR {
        if s.len() >= 2 && s[1] == TRIE_LEVEL_CHAR {
            if s.len() >= 3 && s[2] == TRIE_LEVEL_CHAR {
                3
            } else {
                2
            }
        } else {
            1
        }
    } else {
        0
    }
}

/// Reads a prefix-trie code back into words, after a word with prefix `p`:
/// `r` level markers, then `2 + r` letters that take the place of the last `r`
/// letters of the prefix and add the last two.  `None` where the code is cut short.
pub open spec fn trie_decode(s: Seq<u8>, p: Seq<u8>) -> Option<Seq<Seq<u8>>>
    decreases s.len(),
{
    if s.len() == 0 {
        Some(Seq::empty())
    } else {
        let r = leading_marks(s);
        let n = 2 * r + 2;
        if s.len() < n {
            None
        } else {
            let w = p.take(3 - r) + s.subrange(r, n);
            match trie_decode(s.skip(n), w.take(3)) {
                None => None,
                Some(ws) => Some(seq![w] + ws),
            }
        }
    }
}

pub proof fn lemma_first_diff_range(last: Seq<u8>, w: Seq<u8>, i: int)
    requires
        0 <= i <= 3,
    ensures
        i <= first_diff(last, w, i) <= 3,
    decreases 3 - i,
{
    if i < 3 && w[i] == last[i] {
        lemma_first_diff_range(last, w, i + 1);
    }
}

/// Prefix-trie round trip: the code of a list of five-letter words that hold
/// no level marker reads back, from the same starting prefix, as the list.
pub proof fn lemma_trie_roundtrip(ws: Seq<Seq<u8>>, last: Seq<u8>)
    requires
        last.len() == 3,
        forall|j: int|
            0 <= j < ws.len() ==> (#[trigger] ws[j]).len() == 5 && forall|i: int|
                0 <= i < 5 ==> ws[j][i] != TRIE_LEVEL_CHAR,
    ensures
        trie_decode(trie_stream(ws, last), last) == Some(ws),
    decreases ws.len(),
{
    if ws.len() == 0 {
        assert(trie_stream(ws, last) =~= Seq::<u8>::empty());
        assert(ws =~= Seq::<Seq<u8>>::empty());
    } else {
        let w = ws[0];
        let rest = ws.drop_first();
        assert forall|j: int| 0 <= j < rest.len() implies (#[trigger] rest[j]).len() == 5 && forall|
            i: int,
        | 0 <= i < 5 ==> rest[j][i] != TRIE_LEVEL_CHAR by {
            assert(rest[j] == ws[j + 1]);
        }
        assert(w.len() == 5);
        assert(forall|i: int| 0 <= i < 5 ==> w[i] != TRIE_LEVEL_CHAR);
        lemma_trie_roundtrip(rest, w.take(3));
        let d = first_diff(last, w, 0);
        lemma_first_diff_range(last, w, 0);
        let code = trie_word_code(last, w);
        let tail = trie_stream(rest, w.take(3));
        let st = trie_stream(ws, last);
        assert(st == code + tail);
        let r = 3 - d;
        assert(code.len() == 2 * r + 2);
        assert forall|i: int| 0 <= i < r implies st[i] == TRIE_LEVEL_CHAR by {
            assert(st[i] == code[i]);
        }
        assert(r < 3 ==> st[r] == w[d]) by {
            if r < 3 {
                assert(st[r] == code[r]);
            }
        }
        assert(leading_marks(st) == r);
        assert(st.subrange(r, 2 * r + 2) =~= w.subrange(d, 5));
        assert forall|i: int| 0 <= i < d implies w[i] == last[i] by {
            lemma_first_diff_prefix(last, w, 0, i);
        }
        assert(last.take(d) + w.subrange(d, 5) =~= w);
        assert(st.skip(2 * r + 2) =~= tail);
        assert(seq![w] + rest =~= ws);
    }
}

pub proof fn lemma_first_diff_prefix(last: Seq<u8>, w: Seq<u8>, i: int, k: int)
    requires
        0 <= i <= k < first_diff(last, w, i),
    ensures
        w[k] == last[k],
    decreases 3 - i,
{
    if i < k {
        lemma_first_diff_prefix(last, w, i + 1, k);
    }
}

} // verus!
