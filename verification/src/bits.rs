//! Bit streams packed least-significant-bit first into bytes, as both the
//! Huffman-coded word stream and the LZSS match list are stored.
use vstd::prelude::*;

verus! {

/// Bit `t` of `x`, counting from the least significant bit.
pub open spec fn bit_of(x: u64, t: u64) -> bool {
    (x >> t) & 1 == 1
}

/// Bit `i` of a byte string, reading each byte from its least significant bit;
/// positions past the end read as 0.
pub open spec fn stream_bit(bytes: Seq<u8>, i: int) -> bool {
    0 <= i && i / 8 < bytes.len() && bit_of(bytes[i / 8] as u64, (i % 8) as u64)
}

/// The `n` low bits of `v`, least significant first.
pub open spec fn value_bits(v: u64, n: nat) -> Seq<bool> {
    Seq::new(n, |t: int| bit_of(v, t as u64))
}

/// `bytes` holds exactly the bit sequence `bits`, padded with zero bits up to a whole byte.
pub open spec fn packs(bytes: Seq<u8>, bits: Seq<bool>) -> bool {
    &&& bytes.len() == (bits.len() + 7) / 8
    &&& forall|i: int| 0 <= i < 8 * bytes.len() ==> #[trigger] stream_bit(bytes, i) == (i
        < bits.len() && bits[i])
}

pub proof fn lemma_or_shift_bit(acc: u64, v: u64, l: u64, n: u64, t: u64)
    requires
        acc >> l == 0,
        v >> n == 0,
        l + n < 64,
        t < 64,
    ensures
        bit_of(acc | (v << l), t) == (if t < l {
            bit_of(acc, t)
        } else {
            bit_of(v, (t - l) as u64)
        }),
        (acc | (v << l)) >> ((l + n) as u64) == 0,
{
    assert(((acc | (v << l)) >> t) & 1 == 1 <==> (if t < l {
        (acc >> t) & 1 == 1
    } else {
        (v >> ((t - l) as u64)) & 1 == 1
    })) by (bit_vector)
        requires
            acc >> l == 0,
            v >> n == 0,
            l + n < 64,
            t < 64,
    ;
    assert((acc | (v << l)) >> ((l + n) as u64) == 0) by (bit_vector)
        requires
            acc >> l == 0,
            v >> n == 0,
            l + n < 64,
    ;
}

pub proof fn lemma_shift8_bit(acc: u64, l: u64, t: u64)
    requires
        acc >> l == 0,
        8 <= l < 64,
        t < 56,
    ensures
        bit_of(acc >> 8, t) == bit_of(acc, (t + 8) as u64),
        (acc >> 8) >> ((l - 8) as u64) == 0,
{
    assert((((acc >> 8) >> t) & 1 == 1) == (((acc >> ((t + 8) as u64)) & 1) == 1)) by (bit_vector)
        requires
            t < 56,
    ;
    assert((acc >> 8) >> ((l - 8) as u64) == 0) by (bit_vector)
        requires
            acc >> l == 0,
            8 <= l < 64,
    ;
}

pub proof fn lemma_low_byte_bit(acc: u64, t: u64)
    requires
        t < 8,
    ensures
        bit_of((acc as u8) as u64, t) == bit_of(acc, t),
{
    assert(((((acc as u8) as u64) >> t) & 1 == 1) == ((acc >> t) & 1 == 1)) by (bit_vector)
        requires
            t < 8,
    ;
}

/// Two bytes with the same eight bits are equal.
pub proof fn lemma_byte_from_bits(a: u8, b: u8)
    requires
        forall|t: u64| t < 8 ==> #[trigger] bit_of(a as u64, t) == bit_of(b as u64, t),
    ensures
        a == b,
{
    assert(bit_of(a as u64, 0) == bit_of(b as u64, 0));
    assert(bit_of(a as u64, 1) == bit_of(b as u64, 1));
    assert(bit_of(a as u64, 2) == bit_of(b as u64, 2));
    assert(bit_of(a as u64, 3) == bit_of(b as u64, 3));
    assert(bit_of(a as u64, 4) == bit_of(b as u64, 4));
    assert(bit_of(a as u64, 5) == bit_of(b as u64, 5));
    assert(bit_of(a as u64, 6) == bit_of(b as u64, 6));
    assert(bit_of(a as u64, 7) == bit_of(b as u64, 7));
    let x = a as u64;
    let y = b as u64;
    assert(x == y) by (bit_vector)
        requires
            x < 256,
            y < 256,
            ((x >> 0) & 1 == 1) == ((y >> 0) & 1 == 1),
            ((x >> 1) & 1 == 1) == ((y >> 1) & 1 == 1),
            ((x >> 2) & 1 == 1) == ((y >> 2) & 1 == 1),
            ((x >> 3) & 1 == 1) == ((y >> 3) & 1 == 1),
            ((x >> 4) & 1 == 1) == ((y >> 4) & 1 == 1),
            ((x >> 5) & 1 == 1) == ((y >> 5) & 1 == 1),
            ((x >> 6) & 1 == 1) == ((y >> 6) & 1 == 1),
            ((x >> 7) & 1 == 1) == ((y >> 7) & 1 == 1),
    ;
}

/// A packed bit sequence determines its bytes: two byte strings that pack the
/// same bits are equal.
pub proof fn lemma_packs_unique(a: Seq<u8>, b: Seq<u8>, bits: Seq<bool>)
    requires
        packs(a, bits),
        packs(b, bits),
    ensures
        a == b,
{
    assert forall|k: int| 0 <= k < a.len() implies a[k] == b[k] by {
        assert forall|t: u64| t < 8 implies #[trigger] bit_of(a[k] as u64, t) == bit_of(b[k] as u64, t) by {
            let i = 8 * k + t;
            assert(i / 8 == k && i % 8 == t);
            assert(stream_bit(a, i) == stream_bit(b, i));
        }
        lemma_byte_from_bits(a[k], b[k]);
    }
    assert(a =~= b);
}

/// The `n` bits of a byte string starting at bit `start`, read as a number
/// whose least significant bit comes first.
pub open spec fn stream_value(bytes: Seq<u8>, start: int, n: nat) -> nat
    decreases n,
{
    if n == 0 {
        0
    } else {
        (if stream_bit(bytes, start) {
            1nat
        } else {
            0nat
        }) + 2 * stream_value(bytes, start + 1, (n - 1) as nat)
    }
}

pub proof fn lemma_half_bits(v: u64, t: u64)
    requires
        t < 63,
    ensures
        bit_of(v >> 1, t) == bit_of(v, (t + 1) as u64),
        v == (v & 1) + 2 * (v >> 1),
        (v & 1 == 1) == bit_of(v, 0),
        v & 1 == (if bit_of(v, 0) {
            1u64
        } else {
            0u64
        }),
{
    assert((((v >> 1) >> t) & 1 == 1) == ((v >> ((t + 1) as u64)) & 1 == 1)) by (bit_vector)
        requires
            t < 63,
    ;
    assert(v == (v & 1) + 2 * (v >> 1)) by (bit_vector);
    assert((v & 1 == 1) == ((v >> 0) & 1 == 1)) by (bit_vector);
    assert(v & 1 == (if (v >> 0) & 1 == 1 {
        1u64
    } else {
        0u64
    })) by (bit_vector);
}

/// A number below `2^n` whose bits sit in the stream at `start` is the value read there.
pub proof fn lemma_stream_value_of(bytes: Seq<u8>, start: int, n: nat, v: u64)
    requires
        n < 64,
        v >> (n as u64) == 0,
        forall|t: int| 0 <= t < n ==> #[trigger] stream_bit(bytes, start + t) == bit_of(v, t as u64),
    ensures
        stream_value(bytes, start, n) == v,
    decreases n,
{
    lemma_half_bits(v, 0);
    if n == 0 {
        assert(v == 0) by (bit_vector)
            requires
                v >> 0 == 0,
        ;
    } else {
        let h = v >> 1;
        let nn = n as u64;
        assert(h >> ((nn - 1) as u64) == 0) by (bit_vector)
            requires
                v >> nn == 0,
                h == v >> 1,
                1 <= nn < 64,
        ;
        let s1 = start + 1;
        assert forall|t: int| 0 <= t < n - 1 implies #[trigger] stream_bit(bytes, s1 + t) == bit_of(
            h,
            t as u64,
        ) by {
            lemma_half_bits(v, t as u64);
            assert(stream_bit(bytes, start + (t + 1)) == bit_of(v, (t + 1) as u64));
        }
        lemma_stream_value_of(bytes, s1, (n - 1) as nat, h);
        assert(stream_bit(bytes, start + 0) == bit_of(v, 0));
    }
}

/// Byte `i` of a string as a number, 0 past the end.
fn byte_or_zero(bytes: &Vec<u8>, i: usize) -> (r: u64)
    ensures
        r < 256,
        forall|t: u64| t < 8 ==> #[trigger] bit_of(r, t) == stream_bit(bytes@, 8 * i + t),
{
    if i < bytes.len() {
        let r = bytes[i] as u64;
        proof {
            assert forall|t: u64| t < 8 implies #[trigger] bit_of(r, t) == stream_bit(bytes@, 8 * i + t) by {
                assert((8 * i + t) / 8 == i as int);
                assert((8 * i + t) % 8 == t as int);
            }
        }
        r
    } else {
        proof {
            assert forall|t: u64| t < 8 implies #[trigger] bit_of(0, t) == stream_bit(
                bytes@,
                8 * i + t,
            ) by {
                assert((8 * i + t) / 8 == i as int);
                assert(((0u64 >> t) & 1 == 1) == false) by (bit_vector);
            }
        }
        0
    }
}

/// Reads `n <= 16` bits of a byte string starting at bit `start`, the way the
/// decoder fetches a match record: three bytes from `start / 8` on, shifted
/// right by `start % 8` and masked (bytes past the end read as 0).
pub fn read_bits(bytes: &Vec<u8>, start: usize, n: u64) -> (r: u64)
    requires
        n <= 16,
        start / 8 + 2 <= usize::MAX,
    ensures
        r == stream_value(bytes@, start as int, n as nat),
        r >> n == 0,
{
    let q = start / 8;
    let sh = (start % 8) as u64;
    let b0 = byte_or_zero(bytes, q);
    let b1 = byte_or_zero(bytes, q + 1);
    let b2 = byte_or_zero(bytes, q + 2);
    let x = (b0 | (b1 << 8) | (b2 << 16)) >> sh;
    proof {
        assert(1u64 << n >= 1) by (bit_vector)
            requires
                n <= 16,
        ;
    }
    let mask: u64 = (1u64 << n) - 1;
    let r = x & mask;
    proof {
        assert(r >> n == 0) by (bit_vector)
            requires
                mask == (1u64 << n) - 1,
                r == x & mask,
                n <= 16,
        ;
        assert forall|t: int| 0 <= t < n implies #[trigger] stream_bit(bytes@, start + t) == bit_of(
            r,
            t as u64,
        ) by {
            let u = t as u64;
            let k = (sh + u) as u64;
            assert(bit_of(r, u) == bit_of(b0 | (b1 << 8) | (b2 << 16), k)) by (bit_vector)
                requires
                    r == x & mask,
                    mask == (1u64 << n) - 1,
                    x == (b0 | (b1 << 8) | (b2 << 16)) >> sh,
                    u < n,
                    n <= 16,
                    sh < 8,
                    k == sh + u,
            ;
            assert(bit_of(b0 | (b1 << 8) | (b2 << 16), k) == (if k < 8 {
                bit_of(b0, k)
            } else if k < 16 {
                bit_of(b1, (k - 8) as u64)
            } else {
                bit_of(b2, (k - 16) as u64)
            })) by (bit_vector)
                requires
                    b0 < 256,
                    b1 < 256,
                    b2 < 256,
                    k < 24,
            ;
            if k < 8 {
                assert(8 * q + k == start + t);
            } else if k < 16 {
                assert(8 * (q + 1) + (k - 8) == start + t);
            } else {
                assert(8 * (q + 2) + (k - 16) == start + t);
            }
        }
        lemma_stream_value_of(bytes@, start as int, n as nat, r);
    }
    r
}

/// Accumulates bits least-significant first and emits them byte by byte.
pub struct BitWriter {
    bytes: Vec<u8>,
    acc: u64,
    acc_len: u64,
}

impl BitWriter {
    /// The bits written so far.
    pub closed spec fn bits(&self) -> Seq<bool> {
        Seq::new(
            (8 * self.bytes@.len() + self.acc_len) as nat,
            |i: int|
                if i < 8 * self.bytes@.len() {
                    stream_bit(self.bytes@, i)
                } else {
                    bit_of(self.acc, (i - 8 * self.bytes@.len()) as u64)
                },
        )
    }

    pub closed spec fn wf(&self) -> bool {
        &&& self.acc_len < 8
        &&& self.acc >> self.acc_len == 0
    }

    /// The number of written bits that do not yet fill a byte.
    pub closed spec fn pending(&self) -> nat {
        self.acc_len as nat
    }

    pub fn new() -> (w: Self)
        ensures
            w.wf(),
            w.bits() == Seq::<bool>::empty(),
            w.pending() == 0,
    {
        let w = BitWriter { bytes: Vec::new(), acc: 0, acc_len: 0 };
        assert(0u64 >> 0u64 == 0) by (bit_vector);
        assert(w.bits() =~= Seq::<bool>::empty());
        w
    }

    pub fn pending_bits(&self) -> (r: u64)
        requires
            self.wf(),
        ensures
            r == self.pending(),
            r < 8,
            r as int == self.bits().len() % 8,
    {
        self.acc_len
    }

    /// Appends the `n` low bits of `v`, least significant first; the bits that
    /// complete a byte are flushed.
    pub fn push_bits(&mut self, v: u64, n: u64)
        requires
            old(self).wf(),
            v >> n == 0,
            old(self).pending() + n < 64,
        ensures
            final(self).wf(),
            final(self).bits() == old(self).bits() + value_bits(v, n as nat),
            final(self).pending() as int == (old(self).bits().len() + n) % 8,
    {
        let ghost target = old(self).bits() + value_bits(v, n as nat);
        let ghost l0 = self.acc_len;
        proof {
            assert forall|t: u64| t < 64 implies #[trigger] bit_of(self.acc | (v << self.acc_len), t) == (
            if t < self.acc_len {
                bit_of(self.acc, t)
            } else {
                bit_of(v, (t - self.acc_len) as u64)
            }) by {
                lemma_or_shift_bit(self.acc, v, self.acc_len, n, t);
            }
            lemma_or_shift_bit(self.acc, v, self.acc_len, n, 0);
        }
        self.acc = self.acc | (v << self.acc_len);
        self.acc_len = self.acc_len + n;
        assert(self.bits() =~= target);
        while self.acc_len >= 8
            invariant
                self.acc_len < 64,
                self.acc >> self.acc_len == 0,
                self.bits() == target,
            decreases self.acc_len,
        {
            let ghost old_bytes = self.bytes@;
            let ghost old_acc = self.acc;
            let ghost old_len = self.acc_len;
            proof {
                assert forall|t: u64| t < 56 implies #[trigger] bit_of(self.acc >> 8, t) == bit_of(
                    self.acc,
                    (t + 8) as u64,
                ) by {
                    lemma_shift8_bit(self.acc, self.acc_len, t);
                }
                assert forall|t: u64| t < 8 implies #[trigger] bit_of((self.acc as u8) as u64, t) == bit_of(
                    self.acc,
                    t,
                ) by {
                    lemma_low_byte_bit(self.acc, t);
                }
                lemma_shift8_bit(self.acc, self.acc_len, 0);
            }
            self.bytes.push(self.acc as u8);
            self.acc_len = self.acc_len - 8;
            self.acc = self.acc >> 8;
            proof {
                let nb = 8 * old_bytes.len();
                assert forall|i: int| 0 <= i < self.bits().len() implies self.bits()[i]
                    == target[i] by {
                    if i < nb {
                        assert(i / 8 < old_bytes.len());
                        assert(self.bytes@[i / 8] == old_bytes[i / 8]);
                    } else if i < nb + 8 {
                        assert(i / 8 == old_bytes.len());
                        assert((i % 8) as u64 == (i - nb) as u64);
                    } else {
                        assert((i - 8 * self.bytes@.len()) as u64 + 8 == (i - nb) as u64);
                    }
                }
                assert(self.bits() =~= target);
            }
        }
    }

    /// Flushes a partial last byte (zero-padded) and returns the bytes.
    pub fn finish(self) -> (bytes: Vec<u8>)
        requires
            self.wf(),
        ensures
            packs(bytes@, self.bits()),
    {
        let ghost bits = self.bits();
        let mut bytes = self.bytes;
        let ghost old_bytes = bytes@;
        if self.acc_len > 0 {
            proof {
                assert forall|t: u64| t < 8 implies #[trigger] bit_of((self.acc as u8) as u64, t) == bit_of(
                    self.acc,
                    t,
                ) by {
                    lemma_low_byte_bit(self.acc, t);
                }
                let a = self.acc;
                let l = self.acc_len;
                assert forall|t: u64| l <= t < 64 implies !bit_of(a, t) by {
                    assert(((a >> t) & 1 == 1) == false) by (bit_vector)
                        requires
                            a >> l == 0,
                            l <= t < 64,
                    ;
                }
            }
            bytes.push(self.acc as u8);
        }
        proof {
            let nb = 8 * old_bytes.len();
            assert forall|i: int| 0 <= i < 8 * bytes@.len() implies #[trigger] stream_bit(
                bytes@,
                i,
            ) == (i < bits.len() && bits[i]) by {
                if i < nb {
                    assert(bytes@[i / 8] == old_bytes[i / 8]);
                } else {
                    assert(i / 8 == old_bytes.len());
                    assert((i % 8) as u64 == (i - nb) as u64);
                }
            }
        }
        bytes
    }
}

} // verus!
