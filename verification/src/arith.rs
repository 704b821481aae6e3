//! Arithmetic coding of a byte stream with 32-bit interval bounds and
//! underflow (straddle) bits, over the stream's own symbol frequencies.
use vstd::prelude::*;
use crate::bits::stream_bit;
use crate::huffman::{count_sum, counts_of, lemma_count_sum_le, occurrences, symbol_counts};

verus! {

/// The interval `[lo, hi]`, the pending underflow bits, and the next output bit.
#[derive(Clone, Copy, Debug)]
pub struct AriState {
    pub lo: u64,
    pub hi: u64,
    pub under: usize,
    pub idx: usize,
}

pub open spec fn half() -> int {
    0x8000_0000
}

pub open spec fn quarter() -> int {
    0x4000_0000
}

pub open spec fn whole() -> int {
    0x1_0000_0000
}

/// Sets bit `i` of the output (bit `i % 8` of byte `i / 8`).
pub open spec fn set_bit(out: Seq<u8>, i: int) -> Seq<u8> {
    out.update(i / 8, out[i / 8] | ((1u8 << ((i % 8) as u8)) as u8))
}

/// Sets the `n` bits from `idx` on; `None` when a bit lies past the output or
/// the index overflows.
pub open spec fn emit_ones(out: Seq<u8>, idx: int, n: nat) -> Option<(Seq<u8>, int)>
    decreases n,
{
    if n == 0 {
        Some((out, idx))
    } else if idx / 8 >= out.len() || idx + 1 > usize::MAX {
        None
    } else {
        emit_ones(set_bit(out, idx), idx + 1, (n - 1) as nat)
    }
}

/// Doubles the interval: `lo` shifts in a 0, `hi` a 1, both kept to 32 bits.
pub open spec fn shift_state(st: AriState) -> AriState {
    AriState {
        lo: ((st.lo * 2) % whole()) as u64,
        hi: ((st.hi * 2) % whole() + 1) as u64,
        ..st
    }
}

pub proof fn lemma_shift(st: AriState)
    requires
        st.lo <= st.hi < whole(),
        st.lo >= half() || st.hi < half(),
    ensures
        shift_state(st).lo <= shift_state(st).hi < whole(),
        shift_state(st).hi - shift_state(st).lo == 2 * (st.hi - st.lo) + 1,
{
    if st.lo >= half() {
        assert((st.lo * 2) % whole() == st.lo * 2 - whole()) by (nonlinear_arith)
            requires
                half() <= st.lo < whole(),
        ;
        assert((st.hi * 2) % whole() == st.hi * 2 - whole()) by (nonlinear_arith)
            requires
                half() <= st.hi < whole(),
        ;
    } else {
        assert((st.lo * 2) % whole() == st.lo * 2) by (nonlinear_arith)
            requires
                0 <= st.lo < half(),
        ;
        assert((st.hi * 2) % whole() == st.hi * 2) by (nonlinear_arith)
            requires
                0 <= st.hi < half(),
        ;
    }
}

/// Renormalises after a symbol: while both bounds share their top bit, emits
/// it (a 1 followed by skipped 0s for the underflow bits, or a 0 followed by
/// set 1s) and doubles; while the interval straddles the middle within the
/// middle half, counts an underflow bit, recentres and doubles.  `None` where
/// the coder fails: a bound outside 32 bits, an overflowing counter, or an
/// output bit index that reaches the end of the output (every later bit, the
/// final one included, would then lie past it).
pub open spec fn normalize(st: AriState, out: Seq<u8>) -> Option<(AriState, Seq<u8>)>
    decreases 8 * out.len() - st.idx, whole() - (st.hi - st.lo),
{
    if !(st.lo < whole() && st.hi < whole()) {
        None
    } else if st.lo >= half() {
        if st.idx / 8 >= out.len() || st.idx + 1 + st.under > usize::MAX || st.idx + 1 + st.under
            >= 8 * out.len() {
            None
        } else {
            normalize(
                shift_state(AriState { idx: (st.idx + 1 + st.under) as usize, under: 0, ..st }),
                set_bit(out, st.idx as int),
            )
        }
    } else if st.hi < half() {
        if st.idx + 1 > usize::MAX {
            None
        } else {
            match emit_ones(out, st.idx + 1, st.under as nat) {
                None => None,
                Some((out2, i2)) => {
                    if i2 >= 8 * out.len() || i2 > usize::MAX {
                        None
                    } else {
                        proof {
                            lemma_emit_ones(out, st.idx + 1, st.under as nat);
                        }
                        normalize(shift_state(AriState { idx: i2 as usize, under: 0, ..st }), out2)
                    }
                },
            }
        }
    } else if st.lo >= quarter() && st.hi < half() + quarter() {
        if st.under + 1 > usize::MAX {
            None
        } else {
            let st2 = AriState {
                lo: (st.lo - quarter()) as u64,
                hi: (st.hi - quarter()) as u64,
                under: (st.under + 1) as usize,
                ..st
            };
            proof {
                lemma_shift(st2);
            }
            normalize(shift_state(st2), out)
        }
    } else {
        Some((st, out))
    }
}

pub proof fn lemma_emit_ones(out: Seq<u8>, idx: int, n: nat)
    requires
        idx >= 0,
    ensures
        emit_ones(out, idx, n) matches Some((o2, i2)) ==> o2.len() == out.len() && i2 == idx + n,
    decreases n,
{
    if n > 0 && !(idx / 8 >= out.len() || idx + 1 > usize::MAX) {
        lemma_emit_ones(set_bit(out, idx), idx + 1, (n - 1) as nat);
    }
}

/// Cumulative frequencies: `cf[i]` is how many bytes of `s` lie below `i`.
pub open spec fn cumulative(s: Seq<u8>) -> Seq<u64> {
    Seq::new(257, |i: int| count_sum(counts_of(s), i) as u64)
}

/// Codes one byte: narrows the interval to the byte's share of it, then
/// renormalises.  `None` where the coder fails (an overflowing product or sum,
/// a bound outside 32 bits).
pub open spec fn code_symbol(st: AriState, out: Seq<u8>, cf: Seq<u64>, total: u64, b: u8) -> Option<
    (AriState, Seq<u8>),
> {
    let range = st.hi - st.lo + 1;
    let p1 = range * cf[b + 1];
    if p1 > u64::MAX || st.lo + p1 / (total as int) > u64::MAX || st.lo + p1 / (total as int) < 1 {
        None
    } else {
        let hi2 = st.lo + p1 / (total as int) - 1;
        let lo2 = st.lo + range * cf[b as int] / (total as int);
        if hi2 >= whole() || lo2 >= whole() {
            None
        } else {
            normalize(AriState { lo: lo2 as u64, hi: hi2 as u64, ..st }, out)
        }
    }
}

/// The state before the first byte: the full 32-bit interval and a zeroed
/// output as long as the input.
pub open spec fn initial_state() -> AriState {
    AriState { lo: 0, hi: 0xFFFF_FFFF, under: 0, idx: 0 }
}

/// The coder after the first `k` bytes of `s`.
pub open spec fn coded_prefix(s: Seq<u8>, k: int) -> Option<(AriState, Seq<u8>)>
    decreases k,
{
    if k <= 0 {
        Some((initial_state(), Seq::new(s.len(), |i: int| 0u8)))
    } else {
        match coded_prefix(s, k - 1) {
            None => None,
            Some((st, out)) => code_symbol(
                st,
                out,
                cumulative(s),
                cumulative(s)[256],
                s[k - 1],
            ),
        }
    }
}

/// The arithmetic code of `s` and its length in bytes: after the last byte the
/// pending underflow bits (when `lo` is in the lower quarter) and one final
/// bit are set, and the output is cut to the bytes before the final bit
/// index rounded up.  `None` exactly where the coder fails: a byte 255 (its
/// frequency slot overflows), or a failing step.
pub open spec fn arithmetic_code(s: Seq<u8>) -> Option<(Seq<u8>, nat)> {
    if exists|i: int| 0 <= i < s.len() && s[i] == 255 {
        None
    } else {
        match coded_prefix(s, s.len() as int) {
            None => None,
            Some((st, out)) => {
                let tail = if st.lo < quarter() {
                    emit_ones(out, st.idx as int, st.under as nat)
                } else {
                    Some((out, st.idx as int))
                };
                match tail {
                    None => None,
                    Some((out2, i2)) => if i2 / 8 >= out2.len() || i2 + 7 > usize::MAX {
                        None
                    } else {
                        let n = ((i2 + 7) / 8) as nat;
                        Some((set_bit(out2, i2).take(n as int), n))
                    },
                }
            },
        }
    }
}

/// The byte that holds bit `i`.
pub open spec fn byte_of_bit(i: int) -> int {
    i / 8
}

/// Everything the coder writes into its output buffer, final bit included,
/// and the index of that final bit: the coded bits before the cut to whole bytes.
pub open spec fn coded_bits(s: Seq<u8>) -> Option<(Seq<u8>, int)> {
    match coded_prefix(s, s.len() as int) {
        None => None,
        Some((st, out)) => {
            let tail = if st.lo < quarter() {
                emit_ones(out, st.idx as int, st.under as nat)
            } else {
                Some((out, st.idx as int))
            };
            match tail {
                None => None,
                Some((out2, i2)) => if i2 / 8 >= out2.len() {
                    None
                } else {
                    Some((set_bit(out2, i2), i2))
                },
            }
        },
    }
}

/// The code is not cut short: every bit the coder writes before its final bit
/// lies within the returned bytes, which agree with what the coder wrote and
/// hold no byte beyond the last one such a bit needs.  Conversely, whenever
/// the coder writes its bits (and the count fits), a code is returned.
pub proof fn lemma_code_holds_all_bits(s: Seq<u8>)
    ensures
        arithmetic_code(s) matches Some((b, n)) ==> {
            &&& coded_bits(s) is Some
            &&& b.len() == n
            &&& forall|i: int| 0 <= i < coded_bits(s).unwrap().1 ==> #[trigger] byte_of_bit(i) < n
            &&& (n == 0 || 8 * (n - 1) < coded_bits(s).unwrap().1)
            &&& forall|i: int|
                0 <= i < 8 * n ==> #[trigger] stream_bit(b, i) == stream_bit(
                    coded_bits(s).unwrap().0,
                    i,
                )
        },
        (forall|i: int| 0 <= i < s.len() ==> s[i] != 255) ==> (coded_bits(s) matches Some((o, i2))
            ==> (i2 + 7 <= usize::MAX ==> arithmetic_code(s) is Some)),
{
    if !(exists|i: int| 0 <= i < s.len() && s[i] == 255) {
        match coded_prefix(s, s.len() as int) {
            None => {},
            Some((st, out)) => {
                lemma_coded_prefix_bounds(s, s.len() as int);
                let tail = if st.lo < quarter() {
                    emit_ones(out, st.idx as int, st.under as nat)
                } else {
                    Some((out, st.idx as int))
                };
                if st.lo < quarter() {
                    lemma_emit_ones(out, st.idx as int, st.under as nat);
                }
                match tail {
                    None => {},
                    Some((out2, i2)) => {
                        if !(i2 / 8 >= out2.len()) {
                            let o = set_bit(out2, i2);
                            let n = (i2 + 7) / 8;
                            assert(i2 >= 0);
                            assert(n <= o.len());
                            assert forall|i: int| 0 <= i < i2 implies #[trigger] byte_of_bit(i) < n by {
                                assert(i / 8 <= (i2 - 1) / 8);
                            }
                            assert forall|i: int| 0 <= i < 8 * n implies #[trigger] stream_bit(
                                o.take(n),
                                i,
                            ) == stream_bit(o, i) by {
                                assert(i / 8 < n);
                            }
                        }
                    },
                }
            },
        }
    } else {
        assert(!(forall|i: int| 0 <= i < s.len() ==> s[i] != 255));
    }
}

fn set_bit_exec(out: &mut Vec<u8>, i: usize)
    requires
        i / 8 < old(out).len(),
    ensures
        final(out)@ == set_bit(old(out)@, i as int),
{
    let b = out[i / 8] | (1u8 << ((i % 8) as u8));
    out.set(i / 8, b);
}

fn emit_ones_exec(out: &mut Vec<u8>, idx: usize, n: usize) -> (r: Option<usize>)
    ensures
        final(out).len() == old(out).len(),
        match emit_ones(old(out)@, idx as int, n as nat) {
            None => r is None,
            Some((o2, i2)) => r == Some(i2 as usize) && final(out)@ == o2 && i2 == idx + n
                && i2 <= usize::MAX,
        },
{
    proof {
        lemma_emit_ones(out@, idx as int, n as nat);
    }
    let ghost target = emit_ones(out@, idx as int, n as nat);
    let mut i = idx;
    let mut k: usize = 0;
    while k < n
        invariant
            k <= n,
            out.len() == old(out).len(),
            emit_ones(out@, i as int, (n - k) as nat) == target,
            target == emit_ones(old(out)@, idx as int, n as nat),
        decreases n - k,
    {
        if i / 8 >= out.len() || i == usize::MAX {
            return None;
        }
        set_bit_exec(out, i);
        i = i + 1;
        k = k + 1;
    }
    Some(i)
}

fn normalize_exec(st: &mut AriState, out: &mut Vec<u8>) -> (ok: bool)
    ensures
        final(out).len() == old(out).len(),
        match normalize(*old(st), old(out)@) {
            None => !ok,
            Some((s2, o2)) => ok && *final(st) == s2 && final(out)@ == o2,
        },
{
    let ghost target = normalize(*st, out@);
    loop
        invariant
            out.len() == old(out).len(),
            normalize(*st, out@) == target,
            target == normalize(*old(st), old(out)@),
        decreases 8 * out.len() - st.idx, whole() - (st.hi - st.lo),
    {
        if !(st.lo < 0x1_0000_0000 && st.hi < 0x1_0000_0000) {
            return false;
        }
        if st.lo >= 0x8000_0000 {
            if st.idx / 8 >= out.len() || st.under >= usize::MAX - st.idx {
                return false;
            }
            let next = st.idx + 1 + st.under;
            if next / 8 >= out.len() {
                return false;
            }
            set_bit_exec(out, st.idx);
            st.idx = next;
            st.under = 0;
            st.lo = (st.lo * 2) % 0x1_0000_0000;
            st.hi = (st.hi * 2) % 0x1_0000_0000 + 1;
        } else if st.hi < 0x8000_0000 {
            if st.idx == usize::MAX {
                return false;
            }
            proof {
                lemma_emit_ones(out@, st.idx + 1, st.under as nat);
            }
            match emit_ones_exec(out, st.idx + 1, st.under) {
                None => {
                    return false;
                },
                Some(next) => {
                    if next / 8 >= out.len() {
                        return false;
                    }
                    st.idx = next;
                    st.under = 0;
                    st.lo = (st.lo * 2) % 0x1_0000_0000;
                    st.hi = (st.hi * 2) % 0x1_0000_0000 + 1;
                },
            }
        } else if st.lo >= 0x4000_0000 && st.hi < 0xC000_0000 {
            if st.under == usize::MAX {
                return false;
            }
            st.lo = st.lo - 0x4000_0000;
            st.hi = st.hi - 0x4000_0000;
            st.under = st.under + 1;
            proof {
                lemma_shift(*st);
            }
            st.lo = (st.lo * 2) % 0x1_0000_0000;
            st.hi = (st.hi * 2) % 0x1_0000_0000 + 1;
        } else {
            return true;
        }
    }
}

fn cumulative_exec(src: &Vec<u8>) -> (cf: Vec<u64>)
    ensures
        cf@ == cumulative(src@),
{
    let counts = symbol_counts(src);
    let mut cf: Vec<u64> = Vec::new();
    let mut acc: u64 = 0;
    cf.push(0);
    let mut i: usize = 0;
    while i < 256
        invariant
            i <= 256,
            counts@ == counts_of(src@),
            count_sum(counts@, 256) == src.len(),
            cf.len() == i + 1,
            acc == count_sum(counts@, i as int),
            forall|j: int| 0 <= j <= i ==> #[trigger] cf@[j] == count_sum(counts@, j) as u64,
        decreases 256 - i,
    {
        proof {
            lemma_count_sum_mono(counts@, i + 1, 256);
        }
        acc = acc + counts[i] as u64;
        cf.push(acc);
        i = i + 1;
    }
    assert(cf@ =~= cumulative(src@));
    cf
}

pub proof fn lemma_count_sum_mono(counts: Seq<usize>, i: int, j: int)
    requires
        0 <= i <= j <= counts.len(),
    ensures
        count_sum(counts, i) <= count_sum(counts, j),
    decreases j - i,
{
    if i < j {
        lemma_count_sum_mono(counts, i, j - 1);
    }
}

fn arith_run(src: &Vec<u8>) -> (r: Option<(Vec<u8>, usize)>)
    ensures
        match arithmetic_code(src@) {
            None => r is None,
            Some((bytes, n)) => r matches Some((v, m)) && v@ == bytes && m == n,
        },
{
    let mut i: usize = 0;
    while i < src.len()
        invariant
            i <= src.len(),
            forall|j: int| 0 <= j < i ==> src@[j] != 255,
        decreases src.len() - i,
    {
        if src[i] == 255 {
            return None;
        }
        i = i + 1;
    }
    let cf = cumulative_exec(src);
    let total = cf[256];
    let mut out: Vec<u8> = Vec::new();
    let mut k: usize = 0;
    while k < src.len()
        invariant
            k <= src.len(),
            out@ =~= Seq::new(k as nat, |j: int| 0u8),
        decreases src.len() - k,
    {
        out.push(0);
        k = k + 1;
    }
    let mut st = AriState { lo: 0, hi: 0xFFFF_FFFF, under: 0, idx: 0 };
    let mut k: usize = 0;
    while k < src.len()
        invariant
            k <= src.len(),
            cf@ == cumulative(src@),
            total == cumulative(src@)[256],
            out.len() == src.len(),
            coded_prefix(src@, k as int) == Some((st, out@)),
            forall|j: int| 0 <= j < src.len() ==> src@[j] != 255,
        decreases src.len() - k,
    {
        let b = src[k];
        let ghost st0 = st;
        proof {
            assert(st0.lo < half() <= st0.hi < whole()) by {
                lemma_coded_prefix_bounds(src@, k as int);
            }
        }
        let range: u64 = st.hi - st.lo + 1;
        let c1 = cf[b as usize + 1];
        let c0 = cf[b as usize];
        proof {
            lemma_cumulative_mono(src@, b as int, b + 1);
        }
        if c1 != 0 && range > u64::MAX / c1 {
            proof {
                assert(range * c1 > u64::MAX) by (nonlinear_arith)
                    requires
                        range > u64::MAX / c1,
                        c1 > 0,
                ;
                lemma_step_fails(src@, k as int);
            }
            return None;
        }
        proof {
            if c1 != 0 {
                assert(range * c1 <= u64::MAX) by (nonlinear_arith)
                    requires
                        range <= u64::MAX / c1,
                        c1 > 0,
                ;
            }
            assert(range * c0 <= range * c1) by (nonlinear_arith)
                requires
                    c0 <= c1,
            ;
        }
        let p1 = range * c1;
        proof {
            lemma_total_pos(src@, k as int);
        }
        let q1 = p1 / total;
        if q1 > u64::MAX - st.lo || st.lo + q1 < 1 {
            proof {
                lemma_step_fails(src@, k as int);
            }
            return None;
        }
        let hi2 = st.lo + q1 - 1;
        proof {
            let r0: int = range * c0;
            assert(r0 / (total as int) <= (p1 as int) / (total as int)) by (nonlinear_arith)
                requires
                    r0 <= p1,
                    total > 0,
            ;
        }
        let lo2 = st.lo + (range * c0) / total;
        if hi2 >= 0x1_0000_0000 || lo2 >= 0x1_0000_0000 {
            proof {
                lemma_step_fails(src@, k as int);
            }
            return None;
        }
        st.lo = lo2;
        st.hi = hi2;
        let ok = normalize_exec(&mut st, &mut out);
        if !ok {
            proof {
                lemma_step_fails(src@, k as int);
            }
            return None;
        }
        k = k + 1;
    }
    proof {
        assert(!(exists|j: int| 0 <= j < src.len() && src@[j] == 255));
        lemma_coded_prefix_bounds(src@, src.len() as int);
    }
    let mut i2 = st.idx;
    if st.lo < 0x4000_0000 {
        match emit_ones_exec(&mut out, st.idx, st.under) {
            None => {
                return None;
            },
            Some(j) => {
                i2 = j;
            },
        }
    }
    if i2 / 8 >= out.len() || i2 > usize::MAX - 7 {
        return None;
    }
    set_bit_exec(&mut out, i2);
    let n = (i2 + 7) / 8;
    out.truncate(n);
    Some((out, n))
}

/// Once a step fails, the whole code fails.
proof fn lemma_step_fails(s: Seq<u8>, k: int)
    requires
        0 <= k < s.len(),
        coded_prefix(s, k + 1) is None,
    ensures
        arithmetic_code(s) is None,
{
    lemma_coded_prefix_none(s, k + 1, s.len() as int);
}

proof fn lemma_coded_prefix_none(s: Seq<u8>, k: int, j: int)
    requires
        0 <= k <= j,
        coded_prefix(s, k) is None,
    ensures
        coded_prefix(s, j) is None,
    decreases j - k,
{
    if k < j {
        lemma_coded_prefix_none(s, k, j - 1);
    }
}

pub proof fn lemma_cumulative_mono(s: Seq<u8>, i: int, j: int)
    requires
        0 <= i <= j <= 256,
        s.len() <= usize::MAX,
    ensures
        cumulative(s)[i] <= cumulative(s)[j],
        cumulative(s)[j] <= s.len(),
{
    crate::roundtrip::lemma_counts_of_sum(s);
    lemma_count_sum_mono(counts_of(s), i, j);
    lemma_count_sum_mono(counts_of(s), j, 256);
}

pub proof fn lemma_total_pos(s: Seq<u8>, k: int)
    requires
        0 <= k < s.len(),
        s.len() <= usize::MAX,
    ensures
        cumulative(s)[256] > 0,
{
    crate::roundtrip::lemma_counts_of_sum(s);
}

pub proof fn lemma_normalize_bounds(st: AriState, out: Seq<u8>)
    ensures
        normalize(st, out) matches Some((s2, o2)) ==> s2.lo < half() <= s2.hi < whole()
            && !(s2.lo >= quarter() && s2.hi < half() + quarter()) && o2.len() == out.len(),
    decreases 8 * out.len() - st.idx, whole() - (st.hi - st.lo),
{
    if st.lo < whole() && st.hi < whole() {
        if st.lo >= half() {
            if !(st.idx / 8 >= out.len() || st.idx + 1 + st.under > usize::MAX || st.idx + 1
                + st.under >= 8 * out.len()) {
                lemma_normalize_bounds(
                    shift_state(AriState { idx: (st.idx + 1 + st.under) as usize, under: 0, ..st }),
                    set_bit(out, st.idx as int),
                );
            }
        } else if st.hi < half() {
            if st.idx + 1 <= usize::MAX {
                lemma_emit_ones(out, st.idx + 1, st.under as nat);
                match emit_ones(out, st.idx + 1, st.under as nat) {
                    None => {},
                    Some((out2, i2)) => {
                        if !(i2 >= 8 * out.len() || i2 > usize::MAX) {
                            lemma_normalize_bounds(
                                shift_state(AriState { idx: i2 as usize, under: 0, ..st }),
                                out2,
                            );
                        }
                    },
                }
            }
        } else if st.lo >= quarter() && st.hi < half() + quarter() {
            if st.under + 1 <= usize::MAX {
                let st2 = AriState {
                    lo: (st.lo - quarter()) as u64,
                    hi: (st.hi - quarter()) as u64,
                    under: (st.under + 1) as usize,
                    ..st
                };
                lemma_shift(st2);
                lemma_normalize_bounds(shift_state(st2), out);
            }
        }
    }
}

pub proof fn lemma_coded_prefix_bounds(s: Seq<u8>, k: int)
    requires
        0 <= k <= s.len(),
    ensures
        coded_prefix(s, k) matches Some((st, out)) ==> st.lo < half() <= st.hi < whole()
            && !(st.lo >= quarter() && st.hi < half() + quarter()) && out.len() == s.len(),
    decreases k,
{
    if k > 0 {
        lemma_coded_prefix_bounds(s, k - 1);
        match coded_prefix(s, k - 1) {
            None => {},
            Some((st, out)) => {
                let cf = cumulative(s);
                let total = cf[256];
                let b = s[k - 1];
                let range = st.hi - st.lo + 1;
                let p1 = range * cf[b + 1];
                if !(p1 > u64::MAX || st.lo + p1 / (total as int) > u64::MAX || st.lo + p1 / (
                total as int) < 1) {
                    let hi2 = st.lo + p1 / (total as int) - 1;
                    let lo2 = st.lo + range * cf[b as int] / (total as int);
                    if !(hi2 >= whole() || lo2 >= whole()) {
                        lemma_normalize_bounds(AriState { lo: lo2 as u64, hi: hi2 as u64, ..st }, out);
                    }
                }
            },
        }
    }
}

/// The interval a byte narrows `st` to, before renormalising.
pub open spec fn narrowed(st: AriState, cf: Seq<u64>, total: u64, b: u8) -> AriState {
    let range = st.hi - st.lo + 1;
    AriState {
        lo: (st.lo + range * cf[b as int] / (total as int)) as u64,
        hi: (st.lo + range * cf[b + 1] / (total as int) - 1) as u64,
        ..st
    }
}

/// The 32-bit interval checks of one step pass: the product fits 64 bits, the
/// new upper bound neither underflows nor leaves 32 bits, and the new interval
/// is not empty.
pub open spec fn narrow_ok(st: AriState, cf: Seq<u64>, total: u64, b: u8) -> bool {
    let range = st.hi - st.lo + 1;
    let p1 = range * cf[b + 1];
    &&& p1 <= u64::MAX
    &&& 1 <= st.lo + p1 / (total as int) <= u64::MAX
    &&& st.lo + range * cf[b as int] / (total as int) <= st.lo + p1 / (total as int) - 1
    &&& st.lo + p1 / (total as int) - 1 < whole()
}

proof fn lemma_narrow_arith(lo: int, hi: int, t: int, c0: int, c1: int)
    by (nonlinear_arith)
    requires
        0 <= lo,
        hi < 0x1_0000_0000,
        hi - lo + 1 > t,
        1 <= t,
        0 <= c0,
        c0 + 1 <= c1 <= t,
        t <= 0x4000_0000,
    ensures
        (hi - lo + 1) * c1 <= 0x4000_0000_0000_0000,
        1 <= (hi - lo + 1) * c1 / t <= hi - lo + 1,
        (hi - lo + 1) * c0 / t + 1 <= (hi - lo + 1) * c1 / t,
{
    let r = hi - lo + 1;
    assert(r * c1 <= 0x1_0000_0000 * 0x4000_0000);
    assert(r * c1 >= r);
    assert(r * c1 <= r * t);
    assert(r * c1 >= r * c0 + r);
    assert((r * c0 + t) / t == r * c0 / t + 1);
}

/// The arithmetic coder's 32-bit bounds hold on every input of at most 2^30
/// bytes without a byte 255: after renormalising, the interval is wider than
/// 2^30, at least the total count, so each byte narrows it to a non-empty
/// 32-bit interval without overflow.  A step then fails only in
/// renormalising, where the output bit index or a counter runs out.
pub proof fn lemma_interval_bounds_hold(s: Seq<u8>, k: int)
    requires
        1 <= s.len() <= 0x4000_0000,
        forall|i: int| 0 <= i < s.len() ==> s[i] != 255,
        0 <= k < s.len(),
        coded_prefix(s, k) is Some,
    ensures
        ({
            let (st, out) = coded_prefix(s, k).unwrap();
            let cf = cumulative(s);
            &&& narrow_ok(st, cf, cf[256], s[k])
            &&& narrowed(st, cf, cf[256], s[k]).lo <= narrowed(st, cf, cf[256], s[k]).hi < whole()
            &&& coded_prefix(s, k + 1) == normalize(narrowed(st, cf, cf[256], s[k]), out)
        }),
{
    let (st, out) = coded_prefix(s, k).unwrap();
    lemma_coded_prefix_bounds(s, k);
    crate::roundtrip::lemma_counts_of_sum(s);
    let b = s[k];
    assert(b < 255);
    lemma_cumulative_mono(s, b as int, b + 1);
    lemma_cumulative_mono(s, b + 1, 256);
    crate::roundtrip::lemma_occurrences_pos(s, k);
    let cf = cumulative(s);
    let t = cf[256];
    assert(t == s.len());
    let counts = counts_of(s);
    lemma_count_sum_mono(counts, b + 1, 256);
    lemma_count_sum_mono(counts, b as int, b + 1);
    crate::huffman::lemma_occurrences_le(s, b);
    assert(count_sum(counts, b + 1) == count_sum(counts, b as int) + counts[b as int] as nat);
    assert(counts[b as int] == occurrences(s, b) as usize);
    assert(cf[b + 1] == cf[b as int] + counts[b as int]);
    assert(counts[b as int] >= 1);
    lemma_narrow_arith(st.lo as int, st.hi as int, t as int, cf[b as int] as int, cf[b + 1] as int);
}

/// Whether the arithmetic coder runs to the end on `src` (see `arithmetic_code`).
pub fn arithmetic_fits(src: &Vec<u8>) -> (ok: bool)
    ensures
        ok == arithmetic_code(src@) is Some,
{
    arith_run(src).is_some()
}

/// Arithmetic-codes `src` over its own byte frequencies; returns the coded
/// bytes and their count.
pub fn arithmetic_compression(src: &Vec<u8>) -> (r: (Vec<u8>, usize))
    requires
        arithmetic_code(src@) is Some,
    ensures
        r.0@ == arithmetic_code(src@).unwrap().0,
        r.1 == arithmetic_code(src@).unwrap().1,
        r.0.len() == r.1,
        forall|i: int| 0 <= i < coded_bits(src@).unwrap().1 ==> #[trigger] byte_of_bit(i) < r.1,
{
    proof {
        lemma_code_holds_all_bits(src@);
    }
    match arith_run(src) {
        Some(r) => r,
        None => {
            assert(false);
            (Vec::new(), 0)
        },
    }
}

} // verus!
