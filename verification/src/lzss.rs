//! LZSS with a fixed search window: the byte stream is rewritten as literals
//! and back-references into the last `window_len` bytes, the references kept in
//! a separate list and marked in the stream by `LZSS_MATCH_CHAR`.
use vstd::prelude::*;
use crate::indexing::TWOS_INDEX_CHAR;
use crate::bits::{bit_of, packs, stream_bit, stream_value, value_bits, lemma_stream_value_of, BitWriter};

verus! {

/// The byte that stands for a back-reference in the encoded stream.
pub const LZSS_MATCH_CHAR: u8 = 126;


/// Shape of an LZSS coder: window size, shortest and longest reference, and the
/// byte that fills the window before any input.
#[derive(Clone, Copy, Debug)]
pub struct LzssParams {
    pub window_len: usize,
    pub match_min: usize,
    pub match_max: usize,
    pub fill: u8,
}

impl LzssParams {
    pub open spec fn wf(self) -> bool {
        &&& 1 <= self.window_len <= 4096
        &&& 1 <= self.match_min
        &&& self.match_max <= 4096
    }
}

/// One step of the encoded stream.
#[derive(Clone, Copy, Debug, PartialEq, Eq)]
pub enum LzssToken {
    Literal(u8),
    /// `Copy(offset, length)`: `length` bytes starting `offset` bytes into the window.
    Copy(usize, usize),
}

/// The window before any input followed by the input.
pub open spec fn history(src: Seq<u8>, p: LzssParams) -> Seq<u8> {
    Seq::new(p.window_len as nat, |i: int| p.fill) + src
}

/// `s[a + k]` and `s[b + k]` are equal.
pub open spec fn agree(s: Seq<u8>, a: int, b: int, k: int) -> bool {
    s[a + k] == s[b + k]
}

/// How many leading bytes of `s[a..]` and `s[b..]` agree, looking at most at `m`.
pub open spec fn common_len(s: Seq<u8>, a: int, b: int, m: nat) -> nat
    decreases m,
{
    if m == 0 {
        0
    } else if s[a] != s[b] {
        0
    } else {
        1 + common_len(s, a + 1, b + 1, (m - 1) as nat)
    }
}

/// The lookahead at position `pos`: up to `match_max` bytes after the window.
pub open spec fn lookahead_len(s: Seq<u8>, pos: int, p: LzssParams) -> int {
    let rest = s.len() - (pos + p.window_len);
    if rest < p.match_max {
        rest
    } else {
        p.match_max as int
    }
}

/// Length of the match found at window offset `i`: the first disagreement
/// within the comparable range, or 0 when the whole range agrees.
pub open spec fn match_len(s: Seq<u8>, pos: int, i: int, p: LzssParams) -> int {
    let w = p.window_len as int;
    let b = lookahead_len(s, pos, p);
    let m = if b < w - i {
        b
    } else {
        w - i
    };
    let c = common_len(s, pos + i, pos + w, m as nat);
    if c < m {
        c as int
    } else {
        0
    }
}

/// The best match among window offsets below `k`: the first offset of
/// greatest match length, `(0, 0)` when none is longer than 0.
pub open spec fn best_match(s: Seq<u8>, pos: int, k: int, p: LzssParams) -> (int, int)
    decreases k,
{
    if k <= 0 {
        (0, 0)
    } else {
        let b = best_match(s, pos, k - 1, p);
        let l = match_len(s, pos, k - 1, p);
        if l > b.1 {
            (k - 1, l)
        } else {
            b
        }
    }
}

pub proof fn lemma_common_len(s: Seq<u8>, a: int, b: int, m: nat)
    ensures
        common_len(s, a, b, m) <= m,
        forall|k: int| 0 <= k < common_len(s, a, b, m) ==> #[trigger] agree(s, a, b, k),
        common_len(s, a, b, m) < m ==> s[a + common_len(s, a, b, m)] != s[b + common_len(
            s,
            a,
            b,
            m,
        )],
    decreases m,
{
    if m > 0 && s[a] == s[b] {
        lemma_common_len(s, a + 1, b + 1, (m - 1) as nat);
        assert forall|k: int| 0 <= k < common_len(s, a, b, m) implies agree(s, a, b, k) by {
            if k > 0 {
                assert(agree(s, a + 1, b + 1, k - 1));
            }
        }
    }
}

/// What a scan that stops at the first disagreement finds is `common_len`.
pub proof fn lemma_common_len_is(s: Seq<u8>, a: int, b: int, m: nat, j: nat)
    requires
        j <= m,
        forall|k: int| 0 <= k < j ==> #[trigger] agree(s, a, b, k),
        j < m ==> s[a + j] != s[b + j],
    ensures
        common_len(s, a, b, m) == j,
    decreases m,
{
    if m > 0 && j > 0 {
        assert(agree(s, a, b, 0));
        let a1 = a + 1;
        let b1 = b + 1;
        assert forall|k: int| 0 <= k < j - 1 implies agree(s, a1, b1, k) by {
            assert(agree(s, a, b, k + 1));
        }
        lemma_common_len_is(s, a + 1, b + 1, (m - 1) as nat, (j - 1) as nat);
    }
}

pub proof fn lemma_best_match(s: Seq<u8>, pos: int, k: int, p: LzssParams)
    requires
        p.wf(),
        0 <= k <= p.window_len,
        0 <= pos,
        pos + p.window_len < s.len(),
    ensures
        0 <= best_match(s, pos, k, p).1,
        best_match(s, pos, k, p).1 > 0 ==> {
            let (o, l) = best_match(s, pos, k, p);
            let a = pos + o;
            let b = pos + p.window_len;
            &&& 0 <= o < k
            &&& o + l < p.window_len
            &&& l < lookahead_len(s, pos, p)
            &&& forall|t: int| 0 <= t < l ==> #[trigger] agree(s, a, b, t)
        },
        best_match(s, pos, k, p).1 == 0 ==> best_match(s, pos, k, p).0 == 0,
    decreases k,
{
    if k > 0 {
        lemma_best_match(s, pos, k - 1, p);
        let i = k - 1;
        let w = p.window_len as int;
        let b = lookahead_len(s, pos, p);
        let m = if b < w - i {
            b
        } else {
            w - i
        };
        lemma_common_len(s, pos + i, pos + w, m as nat);
    }
}

/// The best match is the longest: no window offset below `k` gives a longer
/// match, and the offset chosen is the first one of that length.
pub proof fn lemma_best_match_longest(s: Seq<u8>, pos: int, k: int, p: LzssParams)
    requires
        0 <= k,
    ensures
        forall|i: int| 0 <= i < k ==> #[trigger] match_len(s, pos, i, p) <= best_match(s, pos, k, p).1,
        best_match(s, pos, k, p).1 > 0 ==> {
            let (o, l) = best_match(s, pos, k, p);
            &&& 0 <= o < k
            &&& match_len(s, pos, o, p) == l
            &&& forall|i: int| 0 <= i < o ==> #[trigger] match_len(s, pos, i, p) < l
        },
    decreases k,
{
    if k > 0 {
        lemma_best_match_longest(s, pos, k - 1, p);
    }
}

/// What a match length means: a positive length `l` at offset `i` is a run
/// of `l` agreeing bytes between the window from `i` and the lookahead, that
/// stops at a disagreement before the end of both.
pub proof fn lemma_match_len_meaning(s: Seq<u8>, pos: int, i: int, p: LzssParams)
    ensures
        match_len(s, pos, i, p) >= 0,
        match_len(s, pos, i, p) > 0 ==> {
            let l = match_len(s, pos, i, p);
            let a = pos + i;
            let b = pos + p.window_len;
            &&& l < lookahead_len(s, pos, p)
            &&& i + l < p.window_len
            &&& (forall|t: int| 0 <= t < l ==> #[trigger] agree(s, a, b, t))
            &&& s[a + l] != s[b + l]
        },
{
    let w = p.window_len as int;
    let bl = lookahead_len(s, pos, p);
    let m = if bl < w - i {
        bl
    } else {
        w - i
    };
    if m >= 0 {
        lemma_common_len(s, pos + i, pos + w, m as nat);
    }
}

/// The window from offset `i` and the lookahead agree on their first `l`
/// bytes and disagree on the next, with both runs inside the window and the
/// lookahead.
pub open spec fn is_match_run(s: Seq<u8>, pos: int, i: int, l: int, p: LzssParams) -> bool {
    let a = pos + i;
    let b = pos + p.window_len;
    &&& 0 <= i
    &&& 0 < l < lookahead_len(s, pos, p)
    &&& i + l < p.window_len
    &&& forall|t: int| 0 <= t < l ==> #[trigger] agree(s, a, b, t)
    &&& s[a + l] != s[b + l]
}

pub proof fn lemma_run_is_match_len(s: Seq<u8>, pos: int, i: int, l: int, p: LzssParams)
    requires
        is_match_run(s, pos, i, l, p),
    ensures
        match_len(s, pos, i, p) == l,
{
    let w = p.window_len as int;
    let bl = lookahead_len(s, pos, p);
    let m = if bl < w - i {
        bl
    } else {
        w - i
    };
    lemma_common_len_is(s, pos + i, pos + w, m as nat, l as nat);
}

/// No run of agreeing bytes anywhere in the window is longer than the
/// reference the coder takes, and where it writes a literal every such run is
/// shorter than the shortest reference.
pub proof fn lemma_no_longer_run(s: Seq<u8>, pos: int, p: LzssParams, i: int, l: int)
    requires
        p.wf(),
        0 <= pos,
        pos + p.window_len < s.len(),
        i < p.window_len,
        is_match_run(s, pos, i, l, p),
    ensures
        match lzss_tokens(s, pos, p)[0] {
            LzssToken::Copy(_, len) => l <= len,
            LzssToken::Literal(_) => l < p.match_min,
        },
{
    lemma_run_is_match_len(s, pos, i, l, p);
    lemma_token_is_longest(s, pos, p);
}

/// Each step of the coder takes the longest match in the window: a reference
/// is at least as long as the match at every window offset (and sits at the
/// first offset of its length); a literal is written only where no offset
/// gives a match of the shortest reference length.
pub proof fn lemma_token_is_longest(s: Seq<u8>, pos: int, p: LzssParams)
    requires
        p.wf(),
        0 <= pos,
        pos + p.window_len < s.len(),
    ensures
        match lzss_tokens(s, pos, p)[0] {
            LzssToken::Copy(o, l) => {
                &&& l >= p.match_min
                &&& match_len(s, pos, o as int, p) == l
                &&& forall|i: int|
                    0 <= i < p.window_len ==> #[trigger] match_len(s, pos, i, p) <= l
                &&& forall|i: int| 0 <= i < o ==> #[trigger] match_len(s, pos, i, p) < l
            },
            LzssToken::Literal(c) => {
                &&& c == s[pos + p.window_len]
                &&& forall|i: int|
                    0 <= i < p.window_len ==> #[trigger] match_len(s, pos, i, p) < p.match_min
            },
        },
{
    lemma_best_match_longest(s, pos, p.window_len as int, p);
    lemma_best_match(s, pos, p.window_len as int, p);
}

/// The tokens the coder emits from position `pos` of the history on.
pub open spec fn lzss_tokens(s: Seq<u8>, pos: int, p: LzssParams) -> Seq<LzssToken>
    decreases s.len() - pos,
{
    if !p.wf() || pos < 0 || pos + p.window_len >= s.len() {
        Seq::empty()
    } else {
        let (o, l) = best_match(s, pos, p.window_len as int, p);
        if l >= p.match_min {
            proof {
                lemma_best_match(s, pos, p.window_len as int, p);
            }
            seq![LzssToken::Copy(o as usize, l as usize)] + lzss_tokens(s, pos + l, p)
        } else {
            seq![LzssToken::Literal(s[pos + p.window_len])] + lzss_tokens(s, pos + 1, p)
        }
    }
}

/// The encoded byte stream: literals as themselves, references as `LZSS_MATCH_CHAR`.
pub open spec fn token_bytes(ts: Seq<LzssToken>) -> Seq<u8> {
    Seq::new(
        ts.len(),
        |i: int|
            match ts[i] {
                LzssToken::Literal(c) => c,
                LzssToken::Copy(_, _) => LZSS_MATCH_CHAR,
            },
    )
}

/// The references of a token sequence, in order.
pub open spec fn token_copies(ts: Seq<LzssToken>) -> Seq<(usize, usize)>
    decreases ts.len(),
{
    if ts.len() == 0 {
        Seq::empty()
    } else {
        let rest = token_copies(ts.drop_first());
        match ts[0] {
            LzssToken::Literal(_) => rest,
            LzssToken::Copy(o, l) => seq![(o, l)] + rest,
        }
    }
}

/// Appends `n` bytes copied from `off` bytes into the last `w` bytes, one at a
/// time, so that a copy may read bytes it has itself written.
pub open spec fn window_copy(hist: Seq<u8>, off: int, n: nat, w: int) -> Seq<u8>
    decreases n,
{
    if n == 0 {
        hist
    } else {
        window_copy(hist.push(hist[hist.len() - w + off]), off, (n - 1) as nat, w)
    }
}

/// Decodes an encoded stream onto `hist`: each `LZSS_MATCH_CHAR` takes the next
/// reference `(offset, extra)` and copies `extra + base` bytes; other bytes are
/// literals.  Decoding stops early when the references run out.
pub open spec fn expand(
    bytes: Seq<u8>,
    copies: Seq<(usize, usize)>,
    hist: Seq<u8>,
    w: int,
    base: nat,
) -> Seq<u8>
    decreases bytes.len(),
{
    if bytes.len() == 0 {
        hist
    } else if bytes[0] == LZSS_MATCH_CHAR {
        if copies.len() == 0 {
            hist
        } else {
            let (o, l) = copies[0];
            expand(
                bytes.drop_first(),
                copies.drop_first(),
                window_copy(hist, o as int, (l + base) as nat, w),
                w,
                base,
            )
        }
    } else {
        expand(bytes.drop_first(), copies, hist.push(bytes[0]), w, base)
    }
}

/// References with their length lowered by `base`, as the separate match list stores them.
pub open spec fn lower_lengths(copies: Seq<(usize, usize)>, base: nat) -> Seq<(usize, usize)> {
    Seq::new(copies.len(), |i: int| (copies[i].0, (copies[i].1 - base) as usize))
}

pub proof fn lemma_window_copy(s: Seq<u8>, q: int, off: int, n: nat, w: int, from: int)
    requires
        from == q - w + off,
        0 <= off < w,
        w <= q,
        q + n <= s.len(),
        forall|t: int| 0 <= t < n ==> #[trigger] agree(s, from, q, t),
    ensures
        window_copy(s.take(q), off, n, w) == s.take(q + n),
    decreases n,
{
    if n > 0 {
        assert(s.take(q)[q - w + off] == s[q]) by {
            assert(agree(s, from, q, 0));
        }
        assert(s.take(q).push(s.take(q)[q - w + off]) =~= s.take(q + 1));
        let from1 = from + 1;
        let q1 = q + 1;
        assert forall|t: int| 0 <= t < n - 1 implies agree(s, from1, q1, t) by {
            assert(agree(s, from, q, t + 1));
        }
        lemma_window_copy(s, q + 1, off, (n - 1) as nat, w, from1);
    }
}

/// Decoding the tokens emitted from `pos` on, onto the history up to the end of
/// the window at `pos`, gives back the whole history, provided no literal is
/// itself `LZSS_MATCH_CHAR`.
pub proof fn lemma_expand_tokens(s: Seq<u8>, pos: int, p: LzssParams)
    requires
        p.wf(),
        0 <= pos,
        pos + p.window_len <= s.len(),
        forall|i: int| pos + p.window_len <= i < s.len() ==> s[i] != LZSS_MATCH_CHAR,
    ensures
        ({
            let ts = lzss_tokens(s, pos, p);
            expand(
                token_bytes(ts),
                lower_lengths(token_copies(ts), p.match_min as nat),
                s.take(pos + p.window_len),
                p.window_len as int,
                p.match_min as nat,
            ) == s
        }),
    decreases s.len() - pos,
{
    let w = p.window_len as int;
    let ts = lzss_tokens(s, pos, p);
    let base = p.match_min as nat;
    if pos + w >= s.len() {
        assert(ts.len() == 0);
        assert(s.take(pos + w) =~= s);
    } else {
        let (o, l) = best_match(s, pos, w, p);
        lemma_best_match(s, pos, w, p);
        if l >= p.match_min {
            let rest = lzss_tokens(s, pos + l, p);
            assert(ts == seq![LzssToken::Copy(o as usize, l as usize)] + rest);
            assert(token_bytes(ts).drop_first() =~= token_bytes(rest));
            assert(ts.drop_first() =~= rest);
            assert(lower_lengths(token_copies(ts), base).drop_first() =~= lower_lengths(
                token_copies(rest),
                base,
            ));
            lemma_window_copy(s, pos + w, o, l as nat, w, pos + o);
            assert((l - base) as usize + base == l);
            lemma_expand_tokens(s, pos + l, p);
            assert(pos + w + l == pos + l + w);
        } else {
            let rest = lzss_tokens(s, pos + 1, p);
            assert(ts == seq![LzssToken::Literal(s[pos + w])] + rest);
            assert(token_bytes(ts).drop_first() =~= token_bytes(rest));
            assert(ts.drop_first() =~= rest);
            assert(token_copies(ts) == token_copies(rest));
            assert(s.take(pos + w).push(s[pos + w]) =~= s.take(pos + 1 + w));
            lemma_expand_tokens(s, pos + 1, p);
        }
    }
}

/// LZSS round trip: decoding what the coder emits for `src` restores the
/// window followed by `src`, whenever `src` never uses the match mark itself.
pub proof fn lemma_lzss_roundtrip(src: Seq<u8>, p: LzssParams)
    requires
        p.wf(),
        forall|i: int| 0 <= i < src.len() ==> src[i] != LZSS_MATCH_CHAR,
    ensures
        ({
            let h = history(src, p);
            let ts = lzss_tokens(h, 0, p);
            expand(
                token_bytes(ts),
                lower_lengths(token_copies(ts), p.match_min as nat),
                Seq::new(p.window_len as nat, |i: int| p.fill),
                p.window_len as int,
                p.match_min as nat,
            ) == h
        }),
{
    let h = history(src, p);
    assert(h.take(p.window_len as int) =~= Seq::new(p.window_len as nat, |i: int| p.fill));
    assert forall|i: int| p.window_len <= i < h.len() implies h[i] != LZSS_MATCH_CHAR by {
        assert(h[i] == src[i - p.window_len]);
    }
    lemma_expand_tokens(h, 0, p);
}

/// The window followed by the input, as one buffer.
fn build_history(src: &Vec<u8>, p: LzssParams) -> (h: Vec<u8>)
    requires
        p.wf(),
        src.len() + p.window_len <= usize::MAX,
    ensures
        h@ == history(src@, p),
{
    let mut h: Vec<u8> = Vec::new();
    let mut i: usize = 0;
    while i < p.window_len
        invariant
            i <= p.window_len,
            h@ =~= Seq::new(i as nat, |k: int| p.fill),
        decreases p.window_len - i,
    {
        h.push(p.fill);
        i = i + 1;
    }
    let mut j: usize = 0;
    while j < src.len()
        invariant
            j <= src.len(),
            h@ =~= Seq::new(p.window_len as nat, |k: int| p.fill) + src@.take(j as int),
        decreases src.len() - j,
    {
        h.push(src[j]);
        j = j + 1;
    }
    assert(src@.take(src.len() as int) =~= src@);
    h
}

/// Finds the match the coder takes at `pos`.
fn find_best_match(h: &Vec<u8>, pos: usize, p: LzssParams) -> (r: (usize, usize))
    requires
        p.wf(),
        pos + p.window_len < h.len(),
    ensures
        r.0 as int == best_match(h@, pos as int, p.window_len as int, p).0,
        r.1 as int == best_match(h@, pos as int, p.window_len as int, p).1,
{
    let w = p.window_len;
    let rest = h.len() - (pos + w);
    assert(pos + w + lookahead_len(h@, pos as int, p) <= h.len());
    let buf_len = if rest < p.match_max {
        rest
    } else {
        p.match_max
    };
    let mut best_off: usize = 0;
    let mut best_len: usize = 0;
    let mut i: usize = 0;
    while i < w
        invariant
            p.wf(),
            w == p.window_len,
            pos + w < h.len(),
            buf_len as int == lookahead_len(h@, pos as int, p),
            pos + w + buf_len <= h.len(),
            i <= w,
            best_off as int == best_match(h@, pos as int, i as int, p).0,
            best_len as int == best_match(h@, pos as int, i as int, p).1,
        decreases w - i,
    {
        proof {
            lemma_best_match(h@, pos as int, i as int, p);
        }
        let m = if buf_len < w - i {
            buf_len
        } else {
            w - i
        };
        if h[pos + i] == h[pos + w] {
            let ghost a = pos + i;
            let ghost b = pos + w;
            let mut len: usize = 0;
            let mut j: usize = 0;
            let mut found = false;
            while j < m
                invariant_except_break
                    !found,
                    len == 0,
                invariant
                    m <= w - i,
                    m <= buf_len,
                    pos + w + buf_len <= h.len(),
                    pos + w < h.len(),
                    i < w,
                    j <= m,
                    forall|k: int| 0 <= k < j ==> #[trigger] agree(h@, a, b, k),
                    a == pos + i,
                    b == pos + w,
                ensures
                    found ==> j < m && len == j && h@[a + j] != h@[b + j],
                    !found ==> j == m && len == 0,
                    forall|k: int| 0 <= k < j ==> #[trigger] agree(h@, a, b, k),
                decreases m - j,
            {
                if h[pos + i + j] != h[pos + w + j] {
                    len = j;
                    found = true;
                    break;
                }
                assert(agree(h@, a, b, j as int));
                j = j + 1;
            }
            proof {
                if found {
                    lemma_common_len_is(h@, pos + i, pos + w, m as nat, j as nat);
                } else {
                    lemma_common_len_is(h@, pos + i, pos + w, m as nat, m as nat);
                }
                assert(len as int == match_len(h@, pos as int, i as int, p));
            }
            if len > best_len {
                best_off = i;
                best_len = len;
            }
        } else {
            proof {
                assert(common_len(h@, pos + i, pos + w, m as nat) == 0);
            }
        }
        i = i + 1;
    }
    (best_off, best_len)
}

/// The LZSS coder: the tokens for `src` under `p`.
pub fn lzss_encode(src: &Vec<u8>, p: LzssParams) -> (ts: Vec<LzssToken>)
    requires
        p.wf(),
        src.len() + p.window_len <= usize::MAX,
    ensures
        ts@ == lzss_tokens(history(src@, p), 0, p),
{
    let h = build_history(src, p);
    let mut ts: Vec<LzssToken> = Vec::new();
    let mut pos: usize = 0;
    assert(ts@ + lzss_tokens(h@, 0, p) =~= lzss_tokens(h@, 0, p));
    while pos + p.window_len < h.len()
        invariant
            p.wf(),
            pos + p.window_len <= h.len(),
            h@ == history(src@, p),
            ts@ + lzss_tokens(h@, pos as int, p) == lzss_tokens(h@, 0, p),
        decreases h.len() - pos,
    {
        let (o, l) = find_best_match(&h, pos, p);
        proof {
            lemma_best_match(h@, pos as int, p.window_len as int, p);
        }
        let ghost before = ts@;
        let ghost old_pos = pos as int;
        if l >= p.match_min {
            ts.push(LzssToken::Copy(o, l));
            pos = pos + l;
        } else {
            ts.push(LzssToken::Literal(h[pos + p.window_len]));
            pos = pos + 1;
        }
        proof {
            let rest = lzss_tokens(h@, pos as int, p);
            assert(lzss_tokens(h@, old_pos, p) == seq![ts@.last()] + rest);
            assert(ts@ + rest =~= before + (seq![ts@.last()] + rest));
        }
    }
    assert(lzss_tokens(h@, pos as int, p) =~= Seq::<LzssToken>::empty());
    ts
}

/// Every reference the coder emits lies inside the window (it ends before the
/// window's end), and its length is at least the shortest allowed and below the
/// longest: a match that runs through the whole lookahead is not taken.
pub proof fn lemma_tokens_bounds(s: Seq<u8>, pos: int, p: LzssParams)
    requires
        p.wf(),
    ensures
        forall|k: int|
            0 <= k < lzss_tokens(s, pos, p).len() ==> match #[trigger] lzss_tokens(s, pos, p)[k] {
                LzssToken::Copy(o, l) => o + l < p.window_len && p.match_min <= l < p.match_max,
                LzssToken::Literal(_) => true,
            },
    decreases s.len() - pos,
{
    if p.wf() && pos >= 0 && pos + p.window_len < s.len() {
        let (o, l) = best_match(s, pos, p.window_len as int, p);
        lemma_best_match(s, pos, p.window_len as int, p);
        let ts = lzss_tokens(s, pos, p);
        if l >= p.match_min {
            lemma_tokens_bounds(s, pos + l, p);
            assert forall|k: int| 1 <= k < ts.len() implies ts[k] == lzss_tokens(s, pos + l, p)[k
                - 1] by {}
        } else {
            lemma_tokens_bounds(s, pos + 1, p);
            assert forall|k: int| 1 <= k < ts.len() implies ts[k] == lzss_tokens(s, pos + 1, p)[k
                - 1] by {}
        }
    }
}

pub proof fn lemma_token_copies_bounds(ts: Seq<LzssToken>, w: usize, lo: usize, hi: usize)
    requires
        forall|k: int|
            0 <= k < ts.len() ==> match #[trigger] ts[k] {
                LzssToken::Copy(o, l) => o + l < w && lo <= l < hi,
                LzssToken::Literal(_) => true,
            },
    ensures
        forall|k: int|
            0 <= k < token_copies(ts).len() ==> #[trigger] token_copies(ts)[k].0 + token_copies(
                ts,
            )[k].1 < w && lo <= token_copies(ts)[k].1 < hi,
    decreases ts.len(),
{
    if ts.len() > 0 {
        assert forall|k: int| 0 <= k < ts.drop_first().len() implies match #[trigger] ts.drop_first()[k] {
            LzssToken::Copy(o, l) => o + l < w && lo <= l < hi,
            LzssToken::Literal(_) => true,
        } by {
            assert(ts.drop_first()[k] == ts[k + 1]);
        }
        lemma_token_copies_bounds(ts.drop_first(), w, lo, hi);
        assert(0 <= 0 < ts.len());
        let first = ts[0];
        match first {
            LzssToken::Literal(_) => {
                assert(token_copies(ts) == token_copies(ts.drop_first()));
            },
            LzssToken::Copy(o, l) => {
                let rest = token_copies(ts.drop_first());
                assert(token_copies(ts) == seq![(o, l)] + rest);
                assert forall|k: int| 0 <= k < token_copies(ts).len() implies #[trigger] token_copies(
                    ts,
                )[k].0 + token_copies(ts)[k].1 < w && lo <= token_copies(ts)[k].1 < hi by {
                    if k > 0 {
                        assert(token_copies(ts)[k] == rest[k - 1]);
                    }
                }
            },
        }
    }
}

/// The parameters of the word-list coder: a 2048-byte window filled with
/// `TWOS_INDEX_CHAR`, references of 6 to 12 bytes (stored as 0 to 6 in 3 bits).
pub open spec fn sep_params() -> LzssParams {
    LzssParams { window_len: 2048, match_min: 6, match_max: 13, fill: TWOS_INDEX_CHAR }
}

/// The word-list coder's match list: each stored reference `(offset, extra)`
/// copies `extra + 6` bytes, at most 12, that end inside the window.
pub proof fn lemma_sep_match_bounds(src: Seq<u8>)
    ensures
        ({
            let ms = lower_lengths(
                token_copies(lzss_tokens(history(src, sep_params()), 0, sep_params())),
                6,
            );
            forall|k: int|
                0 <= k < ms.len() ==> #[trigger] ms[k].1 <= 6 && ms[k].0 + ms[k].1 + 6 < 2048
        }),
{
    let p = sep_params();
    let ts = lzss_tokens(history(src, p), 0, p);
    lemma_tokens_bounds(history(src, p), 0, p);
    lemma_token_copies_bounds(ts, 2048, 6, 13);
    let cs = token_copies(ts);
    assert forall|k: int| 0 <= k < cs.len() implies #[trigger] lower_lengths(cs, 6)[k].1 <= 6
        && lower_lengths(cs, 6)[k].0 + lower_lengths(cs, 6)[k].1 + 6 < 2048 by {
        assert(cs[k].0 + cs[k].1 < 2048 && 6 <= cs[k].1 < 13);
    }
}

/// The reader of the word-list coder's output: replays an encoded stream onto
/// `hist`; the `k`-th `LZSS_MATCH_CHAR` takes its reference from bits
/// `14 k .. 14 k + 14` of the packed match list (11 bits of offset into the
/// last 2048 bytes, then 3 bits of length beyond 6).
pub open spec fn unpack_stream(bytes: Seq<u8>, packed: Seq<u8>, hist: Seq<u8>, k: int) -> Seq<u8>
    decreases bytes.len(),
{
    if bytes.len() == 0 {
        hist
    } else if bytes[0] == LZSS_MATCH_CHAR {
        unpack_stream(
            bytes.drop_first(),
            packed,
            window_copy(
                hist,
                stream_value(packed, 14 * k, 11) as int,
                (stream_value(packed, 14 * k + 11, 3) + 6) as nat,
                2048,
            ),
            k + 1,
        )
    } else {
        unpack_stream(bytes.drop_first(), packed, hist.push(bytes[0]), k)
    }
}

/// No literal the coder emits is the match mark when the input holds none.
pub proof fn lemma_tokens_literals_unmarked(s: Seq<u8>, pos: int, p: LzssParams)
    requires
        p.wf(),
        0 <= pos,
        forall|i: int| pos + p.window_len <= i < s.len() ==> #[trigger] s[i] != LZSS_MATCH_CHAR,
    ensures
        forall|j: int|
            0 <= j < lzss_tokens(s, pos, p).len() ==> match #[trigger] lzss_tokens(s, pos, p)[j] {
                LzssToken::Literal(c) => c != LZSS_MATCH_CHAR,
                LzssToken::Copy(_, _) => true,
            },
    decreases s.len() - pos,
{
    if pos + p.window_len < s.len() {
        let (o, l) = best_match(s, pos, p.window_len as int, p);
        lemma_best_match(s, pos, p.window_len as int, p);
        let ts = lzss_tokens(s, pos, p);
        let next = if l >= p.match_min {
            pos + l
        } else {
            pos + 1
        };
        lemma_tokens_literals_unmarked(s, next, p);
        assert forall|j: int| 0 <= j < ts.len() implies match #[trigger] ts[j] {
            LzssToken::Literal(c) => c != LZSS_MATCH_CHAR,
            LzssToken::Copy(_, _) => true,
        } by {
            if j > 0 {
                assert(ts[j] == lzss_tokens(s, next, p)[j - 1]);
            }
        }
    }
}

/// The stored references `ms` sit in `packed` from record `k` on.
pub open spec fn records_at(packed: Seq<u8>, ms: Seq<(usize, usize)>, k: int) -> bool {
    forall|j: int|
        0 <= j < ms.len() ==> stream_value(packed, 14 * (k + j), 11) == #[trigger] ms[j].0
            && stream_value(packed, 14 * (k + j) + 11, 3) == ms[j].1
}

/// No literal is the match mark and every reference is at least 6 long.
pub open spec fn tokens_storable(ts: Seq<LzssToken>) -> bool {
    forall|j: int|
        0 <= j < ts.len() ==> match #[trigger] ts[j] {
            LzssToken::Literal(c) => c != LZSS_MATCH_CHAR,
            LzssToken::Copy(_, l) => l >= 6,
        }
}

proof fn lemma_records_shift(packed: Seq<u8>, ms: Seq<(usize, usize)>, k: int)
    requires
        records_at(packed, ms, k),
        ms.len() > 0,
    ensures
        records_at(packed, ms.drop_first(), k + 1),
        stream_value(packed, 14 * k, 11) == ms[0].0,
        stream_value(packed, 14 * k + 11, 3) == ms[0].1,
{
    assert(stream_value(packed, 14 * (k + 0), 11) == ms[0].0);
    assert forall|j: int| 0 <= j < ms.drop_first().len() implies stream_value(
        packed,
        14 * ((k + 1) + j),
        11,
    ) == #[trigger] ms.drop_first()[j].0 && stream_value(packed, 14 * ((k + 1) + j) + 11, 3)
        == ms.drop_first()[j].1 by {
        assert(ms.drop_first()[j] == ms[j + 1]);
        assert(k + (j + 1) == (k + 1) + j);
        assert(stream_value(packed, 14 * (k + (j + 1)), 11) == ms[j + 1].0);
    }
}

/// Reading the references from the packed list agrees with taking them from
/// the reference list, while every reference is stored where the reader looks.
pub proof fn lemma_unpack_expand(ts: Seq<LzssToken>, packed: Seq<u8>, hist: Seq<u8>, k: int)
    requires
        tokens_storable(ts),
        records_at(packed, lower_lengths(token_copies(ts), 6), k),
    ensures
        unpack_stream(token_bytes(ts), packed, hist, k) == expand(
            token_bytes(ts),
            lower_lengths(token_copies(ts), 6),
            hist,
            2048,
            6,
        ),
    decreases ts.len(),
{
    if ts.len() > 0 {
        let ts1 = ts.drop_first();
        assert(token_bytes(ts).drop_first() =~= token_bytes(ts1));
        assert(tokens_storable(ts1)) by {
            assert forall|j: int| 0 <= j < ts1.len() implies match #[trigger] ts1[j] {
                LzssToken::Literal(c) => c != LZSS_MATCH_CHAR,
                LzssToken::Copy(_, l) => l >= 6,
            } by {
                assert(ts1[j] == ts[j + 1]);
            }
        }
        assert(0 <= 0 < ts.len());
        match ts[0] {
            LzssToken::Literal(c) => {
                assert(token_copies(ts) == token_copies(ts1));
                lemma_unpack_expand(ts1, packed, hist.push(c), k);
            },
            LzssToken::Copy(o, l) => {
                let cs = token_copies(ts);
                let ms = lower_lengths(cs, 6);
                assert(cs == seq![(o, l)] + token_copies(ts1));
                assert(ms.drop_first() =~= lower_lengths(token_copies(ts1), 6));
                lemma_records_shift(packed, ms, k);
                let h2 = window_copy(hist, o as int, (((l - 6) as usize) + 6) as nat, 2048);
                lemma_unpack_expand(ts1, packed, h2, k + 1);
            },
        }
    }
}

/// Word-list LZSS round trip at the byte level: replaying the encoded stream
/// over a window of `TWOS_INDEX_CHAR`, with references read from the packed
/// match list, gives back the window followed by `src`, whenever `src` holds
/// no match mark.
pub proof fn lemma_sep_roundtrip(src: Seq<u8>, encoded: Seq<u8>, packed: Seq<u8>)
    requires
        forall|i: int| 0 <= i < src.len() ==> src[i] != LZSS_MATCH_CHAR,
        encoded == token_bytes(lzss_tokens(history(src, sep_params()), 0, sep_params())),
        packs(
            packed,
            record_bits(
                lower_lengths(
                    token_copies(lzss_tokens(history(src, sep_params()), 0, sep_params())),
                    6,
                ),
            ),
        ),
    ensures
        unpack_stream(encoded, packed, Seq::new(2048, |i: int| TWOS_INDEX_CHAR), 0) == history(
            src,
            sep_params(),
        ),
        unpack_stream(encoded, packed, Seq::new(2048, |i: int| TWOS_INDEX_CHAR), 0).skip(2048)
            == src,
{
    let p = sep_params();
    let h = history(src, p);
    let ts = lzss_tokens(h, 0, p);
    let ms = lower_lengths(token_copies(ts), 6);
    assert forall|i: int| 0 + p.window_len <= i < h.len() implies #[trigger] h[i]
        != LZSS_MATCH_CHAR by {
        assert(h[i] == src[i - 2048]);
    }
    lemma_tokens_literals_unmarked(h, 0, p);
    lemma_tokens_bounds(h, 0, p);
    lemma_token_copies_bounds(ts, 2048, 6, 13);
    assert(tokens_storable(ts)) by {
        assert forall|j: int| 0 <= j < ts.len() implies match #[trigger] ts[j] {
            LzssToken::Literal(c) => c != LZSS_MATCH_CHAR,
            LzssToken::Copy(_, l) => l >= 6,
        } by {
            assert(match ts[j] {
                LzssToken::Literal(c) => c != LZSS_MATCH_CHAR,
                LzssToken::Copy(_, _) => true,
            });
        }
    }
    assert(records_at(packed, ms, 0)) by {
        assert forall|j: int| 0 <= j < ms.len() implies stream_value(packed, 14 * (0 + j), 11)
            == #[trigger] ms[j].0 && stream_value(packed, 14 * (0 + j) + 11, 3) == ms[j].1 by {
            assert(token_copies(ts)[j].0 + token_copies(ts)[j].1 < 2048);
            lemma_record_read(ms, packed, j);
        }
    }
    lemma_unpack_expand(ts, packed, Seq::new(2048, |i: int| TWOS_INDEX_CHAR), 0);
    lemma_lzss_roundtrip(src, p);
    assert(h.skip(2048) =~= src);
}

/// The parameters of the plain coder: a 1024-byte window filled with `'2'`,
/// references of 4 to 10 bytes.
pub open spec fn plain_params() -> LzssParams {
    LzssParams { window_len: 1024, match_min: 4, match_max: 11, fill: 50 }
}

/// A stored reference: the offset in the low 11 bits, the lowered length above.
pub open spec fn record_value(m: (usize, usize)) -> u64 {
    (m.0 as u64) | ((m.1 as u64) << 11u64)
}

/// The bits of a list of stored references, 14 per reference.
pub open spec fn record_bits(ms: Seq<(usize, usize)>) -> Seq<bool>
    decreases ms.len(),
{
    if ms.len() == 0 {
        Seq::empty()
    } else {
        record_bits(ms.drop_last()) + value_bits(record_value(ms.last()), 14)
    }
}

pub proof fn lemma_record_bits(ms: Seq<(usize, usize)>, j: int, t: int)
    requires
        0 <= j < ms.len(),
        0 <= t < 14,
    ensures
        record_bits(ms).len() == 14 * ms.len(),
        record_bits(ms)[14 * j + t] == bit_of(record_value(ms[j]), t as u64),
    decreases ms.len(),
{
    lemma_record_bits_len(ms);
    lemma_record_bits_len(ms.drop_last());
    let pre = record_bits(ms.drop_last());
    assert(record_bits(ms) == pre + value_bits(record_value(ms.last()), 14));
    if j < ms.len() - 1 {
        lemma_record_bits(ms.drop_last(), j, t);
        assert(record_bits(ms)[14 * j + t] == pre[14 * j + t]);
        assert(ms.drop_last()[j] == ms[j]);
    } else {
        assert(record_bits(ms)[14 * j + t] == value_bits(record_value(ms.last()), 14)[t]);
    }
}

pub proof fn lemma_record_bits_len(ms: Seq<(usize, usize)>)
    ensures
        record_bits(ms).len() == 14 * ms.len(),
    decreases ms.len(),
{
    if ms.len() > 0 {
        lemma_record_bits_len(ms.drop_last());
    }
}

/// Match-list round trip: reading the 11 + 3 bits at record `j` of a packed
/// match list gives back the offset and lowered length stored there.
pub proof fn lemma_record_read(ms: Seq<(usize, usize)>, bytes: Seq<u8>, j: int)
    requires
        packs(bytes, record_bits(ms)),
        0 <= j < ms.len(),
        ms[j].0 < 2048,
        ms[j].1 < 8,
    ensures
        stream_value(bytes, 14 * j, 11) == ms[j].0,
        stream_value(bytes, 14 * j + 11, 3) == ms[j].1,
{
    lemma_record_bits_len(ms);
    let off = ms[j].0 as u64;
    let len = ms[j].1 as u64;
    let v = record_value(ms[j]);
    assert forall|t: int| 0 <= t < 14 implies #[trigger] stream_bit(bytes, 14 * j + t) == bit_of(
        v,
        t as u64,
    ) by {
        lemma_record_bits(ms, j, t);
    }
    assert forall|t: int| 0 <= t < 11 implies #[trigger] stream_bit(bytes, 14 * j + t) == bit_of(
        off,
        t as u64,
    ) by {
        let u = t as u64;
        assert(bit_of(v, u) == bit_of(off, u)) by (bit_vector)
            requires
                v == off | (len << 11u64),
                off < 2048,
                u < 11,
        ;
    }
    let b = 14 * j + 11;
    assert forall|t: int| 0 <= t < 3 implies #[trigger] stream_bit(bytes, b + t) == bit_of(
        len,
        t as u64,
    ) by {
        let u = t as u64;
        assert(bit_of(v, (u + 11) as u64) == bit_of(len, u)) by (bit_vector)
            requires
                v == off | (len << 11u64),
                off < 2048,
                len < 8,
                u < 3,
        ;
        assert(stream_bit(bytes, 14 * j + (t + 11)) == bit_of(v, (t + 11) as u64));
    }
    assert(off >> 11u64 == 0) by (bit_vector)
        requires
            off < 2048,
    ;
    assert(len >> 3u64 == 0) by (bit_vector)
        requires
            len < 8,
    ;
    lemma_stream_value_of(bytes, 14 * j, 11, off);
    lemma_stream_value_of(bytes, b, 3, len);
}

/// Packs stored references into bytes, 14 bits each, least significant bit first.
fn pack_records(ms: &Vec<(usize, usize)>) -> (bytes: Vec<u8>)
    requires
        forall|k: int| 0 <= k < ms.len() ==> #[trigger] ms@[k].0 < 2048 && ms@[k].1 < 8,
    ensures
        packs(bytes@, record_bits(ms@)),
{
    let mut w = BitWriter::new();
    let mut i: usize = 0;
    while i < ms.len()
        invariant
            i <= ms.len(),
            w.wf(),
            w.bits() == record_bits(ms@.take(i as int)),
            forall|k: int| 0 <= k < ms.len() ==> #[trigger] ms@[k].0 < 2048 && ms@[k].1 < 8,
        decreases ms.len() - i,
    {
        let (o, l) = ms[i];
        let v: u64 = (o as u64) | ((l as u64) << 11u64);
        let ol = o as u64;
        let ll = l as u64;
        assert(v >> 14u64 == 0) by (bit_vector)
            requires
                v == ol | (ll << 11u64),
                ol < 2048,
                ll < 8,
        ;
        let _ = w.pending_bits();
        w.push_bits(v, 14);
        proof {
            let t = ms@.take(i + 1);
            assert(t.drop_last() =~= ms@.take(i as int));
            assert(t.last() == ms@[i as int]);
        }
        i = i + 1;
    }
    assert(ms@.take(ms.len() as int) =~= ms@);
    w.finish()
}

/// The encoded stream of a token sequence.
fn tokens_to_bytes(ts: &Vec<LzssToken>) -> (bytes: Vec<u8>)
    ensures
        bytes@ == token_bytes(ts@),
{
    let mut bytes: Vec<u8> = Vec::new();
    let mut i: usize = 0;
    while i < ts.len()
        invariant
            i <= ts.len(),
            bytes@ =~= token_bytes(ts@.take(i as int)),
        decreases ts.len() - i,
    {
        match ts[i] {
            LzssToken::Literal(c) => bytes.push(c),
            LzssToken::Copy(_, _) => bytes.push(LZSS_MATCH_CHAR),
        }
        i = i + 1;
    }
    assert(ts@.take(ts.len() as int) =~= ts@);
    bytes
}

pub proof fn lemma_token_copies_push(ts: Seq<LzssToken>, t: LzssToken)
    ensures
        token_copies(ts.push(t)) == token_copies(ts) + match t {
            LzssToken::Literal(_) => Seq::<(usize, usize)>::empty(),
            LzssToken::Copy(o, l) => seq![(o, l)],
        },
    decreases ts.len(),
{
    if ts.len() > 0 {
        assert(ts.push(t).drop_first() =~= ts.drop_first().push(t));
        lemma_token_copies_push(ts.drop_first(), t);
        match ts[0] {
            LzssToken::Literal(_) => {},
            LzssToken::Copy(o, l) => {
                assert(seq![(o, l)] + (token_copies(ts.drop_first()) + match t {
                    LzssToken::Literal(_) => Seq::<(usize, usize)>::empty(),
                    LzssToken::Copy(o2, l2) => seq![(o2, l2)],
                }) =~= (seq![(o, l)] + token_copies(ts.drop_first())) + match t {
                    LzssToken::Literal(_) => Seq::<(usize, usize)>::empty(),
                    LzssToken::Copy(o2, l2) => seq![(o2, l2)],
                });
            },
        }
    } else {
        assert(ts.push(t).drop_first() =~= ts);
    }
}

/// The references of a token sequence, their lengths lowered by `base`.
fn tokens_to_copies(ts: &Vec<LzssToken>, base: usize) -> (ms: Vec<(usize, usize)>)
    requires
        forall|k: int|
            0 <= k < ts.len() ==> match #[trigger] ts@[k] {
                LzssToken::Copy(o, l) => base <= l,
                LzssToken::Literal(_) => true,
            },
    ensures
        ms@ == lower_lengths(token_copies(ts@), base as nat),
{
    let mut ms: Vec<(usize, usize)> = Vec::new();
    let mut i: usize = 0;
    while i < ts.len()
        invariant
            i <= ts.len(),
            ms@ =~= lower_lengths(token_copies(ts@.take(i as int)), base as nat),
            forall|k: int|
                0 <= k < ts.len() ==> match #[trigger] ts@[k] {
                    LzssToken::Copy(o, l) => base <= l,
                    LzssToken::Literal(_) => true,
                },
        decreases ts.len() - i,
    {
        proof {
            assert(ts@.take(i + 1) =~= ts@.take(i as int).push(ts@[i as int]));
            lemma_token_copies_push(ts@.take(i as int), ts@[i as int]);
        }
        match ts[i] {
            LzssToken::Literal(_) => {},
            LzssToken::Copy(o, l) => {
                ms.push((o, l - base));
            },
        }
        i = i + 1;
    }
    assert(ts@.take(ts.len() as int) =~= ts@);
    ms
}

/// What the word-list LZSS pass produces: the encoded stream, the match list
/// (offset, length - 6), and that list packed 14 bits per entry.
pub struct LzssSepOutput {
    pub encoded: Vec<u8>,
    pub matches: Vec<(usize, usize)>,
    pub packed: Vec<u8>,
}

/// LZSS pass of the word-list coder over `src`: 2048-byte window filled with
/// `TWOS_INDEX_CHAR`, references of 6..=12 bytes stored apart from the stream.
/// This is the computation alone: it returns normally whatever the number of
/// references.  Printing the first three references, and the failure when
/// there are fewer than three, belong to the program that writes the files.
pub fn lzss_sep_matches(src: &Vec<u8>) -> (out: LzssSepOutput)
    requires
        src.len() > 0,
        src.len() + 2048 <= usize::MAX,
    ensures
        ({
            let ts = lzss_tokens(history(src@, sep_params()), 0, sep_params());
            &&& out.encoded@ == token_bytes(ts)
            &&& out.matches@ == lower_lengths(token_copies(ts), 6)
            &&& packs(out.packed@, record_bits(out.matches@))
        }),
{
    let p = LzssParams { window_len: 2048, match_min: 6, match_max: 13, fill: TWOS_INDEX_CHAR };
    let ts = lzss_encode(src, p);
    proof {
        lemma_tokens_bounds(history(src@, p), 0, p);
        lemma_token_copies_bounds(ts@, 2048, 6, 13);
    }
    let encoded = tokens_to_bytes(&ts);
    let matches = tokens_to_copies(&ts, 6);
    proof {
        assert forall|k: int| 0 <= k < matches.len() implies #[trigger] matches@[k].0 < 2048
            && matches@[k].1 < 8 by {
            assert(token_copies(ts@)[k].0 + token_copies(ts@)[k].1 < 2048 && 6 <= token_copies(
                ts@,
            )[k].1 < 13);
        }
    }
    let packed = pack_records(&matches);
    LzssSepOutput { encoded, matches, packed }
}

/// Moves whole bytes out of the accumulator of the plain coder's match
/// packing, most significant first.
pub open spec fn flush13(out: Seq<u8>, buf: u64, len: u64) -> (Seq<u8>, u64, u64)
    decreases len,
{
    if len < 8 {
        (out, buf, len)
    } else {
        flush13(out.push((buf >> ((len - 8) as u64)) as u8), buf >> 8u64, (len - 8) as u64)
    }
}

/// The plain coder's match packing after the references `ms`: bytes so far,
/// accumulator and its bit count.
pub open spec fn pack13(ms: Seq<(usize, usize)>) -> (Seq<u8>, u64, u64)
    decreases ms.len(),
{
    if ms.len() == 0 {
        (Seq::empty(), 0, 0)
    } else {
        let (out, buf, len) = pack13(ms.drop_last());
        let m = ms.last();
        flush13(out, (buf << 13u64) | ((m.1 as u64) | ((m.0 as u64) << 3u64)), (len + 13) as u64)
    }
}

/// The plain coder's packed match list: 13 bits per reference `(offset << 3) | length`
/// (the length not lowered), the last byte filled from the top.
pub open spec fn pack13_bytes(ms: Seq<(usize, usize)>) -> Seq<u8> {
    let (out, buf, len) = pack13(ms);
    if len > 0 {
        out.push((buf << ((8 - len) as u64)) as u8)
    } else {
        out
    }
}

pub proof fn lemma_flush13(out: Seq<u8>, buf: u64, len: u64)
    ensures
        flush13(out, buf, len).2 < 8,
        len < 8 ==> flush13(out, buf, len).2 == len,
    decreases len,
{
    if len >= 8 {
        lemma_flush13(out.push((buf >> ((len - 8) as u64)) as u8), buf >> 8u64, (len - 8) as u64);
    }
}

fn pack13_exec(ms: &Vec<(usize, usize)>) -> (bytes: Vec<u8>)
    ensures
        bytes@ == pack13_bytes(ms@),
{
    let mut out: Vec<u8> = Vec::new();
    let mut buf: u64 = 0;
    let mut len: u64 = 0;
    let mut i: usize = 0;
    while i < ms.len()
        invariant
            i <= ms.len(),
            (out@, buf, len) == pack13(ms@.take(i as int)),
            len < 8,
        decreases ms.len() - i,
    {
        let (o, l) = ms[i];
        proof {
            let t = ms@.take(i + 1);
            assert(t.drop_last() =~= ms@.take(i as int));
            assert(t.last() == ms@[i as int]);
            lemma_flush13(out@, (buf << 13u64) | ((l as u64) | ((o as u64) << 3u64)), (len + 13) as u64);
        }
        len = len + 13;
        buf = (buf << 13u64) | ((l as u64) | ((o as u64) << 3u64));
        while len >= 8
            invariant
                len < 21,
                flush13(out@, buf, len) == pack13(ms@.take(i + 1)),
            decreases len,
        {
            out.push((buf >> (len - 8)) as u8);
            len = len - 8;
            buf = buf >> 8u64;
        }
        i = i + 1;
    }
    assert(ms@.take(ms.len() as int) =~= ms@);
    if len > 0 {
        out.push((buf << (8 - len)) as u8);
    }
    out
}

/// What the plain LZSS pass produces: the encoded stream, the references
/// (offset, length) and their 13-bit packing.
pub struct LzssOutput {
    pub encoded: Vec<u8>,
    pub matches: Vec<(usize, usize)>,
    pub packed: Vec<u8>,
}

/// The plain LZSS pass over `src`: 1024-byte window filled with `'2'`,
/// references of 4..=10 bytes.
pub fn lzss(src: &Vec<u8>) -> (out: LzssOutput)
    requires
        src.len() > 0,
        src.len() + 1024 <= usize::MAX,
    ensures
        ({
            let ts = lzss_tokens(history(src@, plain_params()), 0, plain_params());
            &&& out.encoded@ == token_bytes(ts)
            &&& out.matches@ == token_copies(ts)
            &&& out.packed@ == pack13_bytes(out.matches@)
        }),
{
    let p = LzssParams { window_len: 1024, match_min: 4, match_max: 11, fill: 50 };
    let ts = lzss_encode(src, p);
    let encoded = tokens_to_bytes(&ts);
    let matches = tokens_to_copies(&ts, 0);
    assert(matches@ =~= token_copies(ts@));
    let packed = pack13_exec(&matches);
    LzssOutput { encoded, matches, packed }
}

} // verus!
