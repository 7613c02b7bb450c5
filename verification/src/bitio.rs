//! Packing a stream of bits into bytes, most significant bit first.
use vstd::prelude::*;

verus! {

/// Bit `i` of byte `b`, counting from the most significant bit (`i == 0`)
/// down to the least significant one (`i == 7`).
pub open spec fn byte_bit(b: u8, i: int) -> bool {
    (b >> ((7 - i) as u8)) & 1u8 == 1u8
}

/// The eight bits of a byte, most significant first.
pub open spec fn byte_bits(b: u8) -> Seq<bool> {
    Seq::new(8, |i: int| byte_bit(b, i))
}

/// The bits of a byte string: each byte in turn, most significant bit first.
pub open spec fn bytes_bits(s: Seq<u8>) -> Seq<bool> {
    Seq::new(8 * s.len(), |k: int| byte_bit(s[k / 8], k % 8))
}

/// The low `n` bits of `b`, most significant first.
pub open spec fn low_bits(b: u8, n: nat) -> Seq<bool> {
    Seq::new(n, |i: int| (b >> ((n - 1 - i) as u8)) & 1u8 == 1u8)
}

/// `n` zero bits.
pub open spec fn zero_bits(n: nat) -> Seq<bool> {
    Seq::new(n, |i: int| false)
}

/// Number of zero bits that fill up the last byte of a stream of `n` bits.
pub open spec fn padding_for(n: nat) -> nat {
    ((8 - (n % 8)) % 8) as nat
}

proof fn lemma_shift_in(b: u8, x: u8, n: u8, i: u8)
    by (bit_vector)
    requires
        n < 8,
        i < n,
        x <= 1,
        b >> n == 0,
    ensures
        (((b << 1u8) | x) >> ((n - i) as u8)) & 1u8 == (b >> ((n - 1 - i) as u8)) & 1u8,
{
}

proof fn lemma_shift_in_last(b: u8, x: u8, n: u8)
    by (bit_vector)
    requires
        n < 8,
        x <= 1,
        b >> n == 0,
    ensures
        (((b << 1u8) | x) >> 0u8) & 1u8 == x,
        ((b << 1u8) | x) >> ((n + 1) as u8) == 0 || n + 1 == 8,
{
}

proof fn lemma_pad_high(b: u8, c: u8, i: u8)
    by (bit_vector)
    requires
        0 < c < 8,
        i < c,
        b >> c == 0,
    ensures
        ((b << ((8 - c) as u8)) >> ((7 - i) as u8)) & 1u8 == (b >> ((c - 1 - i) as u8)) & 1u8,
{
}

proof fn lemma_pad_low(b: u8, c: u8, i: u8)
    by (bit_vector)
    requires
        0 < c < 8,
        c <= i < 8,
        b >> c == 0,
    ensures
        ((b << ((8 - c) as u8)) >> ((7 - i) as u8)) & 1u8 == 0u8,
{
}

/// Appending a byte to a byte string appends its eight bits to the bit stream.
pub proof fn lemma_bytes_bits_push(s: Seq<u8>, b: u8)
    ensures
        bytes_bits(s.push(b)) == bytes_bits(s) + byte_bits(b),
{
    let l = bytes_bits(s.push(b));
    let r = bytes_bits(s) + byte_bits(b);
    assert forall|k: int| 0 <= k < l.len() implies l[k] == r[k] by {
        if k < 8 * s.len() {
            assert(k / 8 < s.len());
        } else {
            assert(k / 8 == s.len());
            assert(k % 8 == k - 8 * s.len());
        }
    }
    assert(l =~= r);
}

proof fn lemma_byte_from_bits(b: u8, c: u8)
    by (bit_vector)
    requires
        (b >> 7u8) & 1u8 == (c >> 7u8) & 1u8,
        (b >> 6u8) & 1u8 == (c >> 6u8) & 1u8,
        (b >> 5u8) & 1u8 == (c >> 5u8) & 1u8,
        (b >> 4u8) & 1u8 == (c >> 4u8) & 1u8,
        (b >> 3u8) & 1u8 == (c >> 3u8) & 1u8,
        (b >> 2u8) & 1u8 == (c >> 2u8) & 1u8,
        (b >> 1u8) & 1u8 == (c >> 1u8) & 1u8,
        (b >> 0u8) & 1u8 == (c >> 0u8) & 1u8,
    ensures
        b == c,
{
}

proof fn lemma_bit_values(b: u8, i: u8)
    by (bit_vector)
    requires
        i < 8,
    ensures
        (b >> i) & 1u8 == 0u8 || (b >> i) & 1u8 == 1u8,
{
}

/// A byte string is determined by its bits: two byte strings with the same
/// bit stream are equal.
pub proof fn lemma_bytes_bits_injective(s: Seq<u8>, t: Seq<u8>)
    requires
        bytes_bits(s) == bytes_bits(t),
    ensures
        s == t,
{
    assert(bytes_bits(s).len() == 8 * s.len());
    assert(bytes_bits(t).len() == 8 * t.len());
    assert(s.len() == t.len());
    assert forall|k: int| 0 <= k < s.len() implies s[k] == t[k] by {
        let b = s[k];
        let c = t[k];
        assert forall|i: int| 0 <= i < 8 implies #[trigger] byte_bit(b, i) == byte_bit(c, i) by {
            let j = 8 * k + i;
            assert(j / 8 == k && j % 8 == i) by (nonlinear_arith)
                requires
                    j == 8 * k + i,
                    0 <= i < 8,
            ;
            assert(0 <= j < bytes_bits(s).len());
            assert(bytes_bits(s)[j] == byte_bit(s[k], i));
            assert(bytes_bits(t)[j] == byte_bit(t[k], i));
        }
        assert forall|i: u8| i < 8 implies (b >> i) & 1u8 == (c >> i) & 1u8 by {
            lemma_bit_values(b, i);
            lemma_bit_values(c, i);
            assert(byte_bit(b, 7 - i) == byte_bit(c, 7 - i));
        }
        lemma_byte_from_bits(b, c);
    }
    assert(s =~= t);
}

/// The bits of the empty byte string.
pub proof fn lemma_bytes_bits_empty()
    ensures
        bytes_bits(Seq::<u8>::empty()) == Seq::<bool>::empty(),
{
    assert(bytes_bits(Seq::<u8>::empty()) =~= Seq::<bool>::empty());
}

/// Collects bits and packs each eight of them into a byte, most significant
/// bit first.
pub struct BitWriter {
    buffer: u8,
    bit_count: u8,
    output: Vec<u8>,
}

impl BitWriter {
    /// The writer's state is consistent: fewer than eight bits wait in the
    /// buffer, and no stray bit sits above them.
    pub closed spec fn wf(&self) -> bool {
        &&& self.bit_count < 8
        &&& self.buffer >> self.bit_count == 0
    }

    /// Every bit written so far, in order.
    pub closed spec fn bits(&self) -> Seq<bool> {
        bytes_bits(self.output@) + low_bits(self.buffer, self.bit_count as nat)
    }

    /// A writer that holds no bit.
    pub fn new() -> (w: Self)
        ensures
            w.wf(),
            w.bits() == Seq::<bool>::empty(),
    {
        let w = BitWriter { buffer: 0, bit_count: 0, output: Vec::new() };
        proof {
            lemma_bytes_bits_empty();
            assert(0u8 >> 0u8 == 0u8) by (bit_vector);
            assert(w.bits() =~= Seq::<bool>::empty());
        }
        w
    }

    /// Appends one bit to the stream.
    pub fn write_bit(&mut self, bit: bool)
        requires
            old(self).wf(),
        ensures
            final(self).wf(),
            final(self).bits() == old(self).bits().push(bit),
    {
        let x: u8 = if bit { 1 } else { 0 };
        let b = self.buffer;
        let n = self.bit_count;
        let nb: u8 = (b << 1u8) | x;
        proof {
            let lo = low_bits(nb, (n + 1) as nat);
            let want = low_bits(b, n as nat).push(bit);
            assert forall|i: int| 0 <= i < lo.len() implies lo[i] == want[i] by {
                if i < n {
                    lemma_shift_in(b, x, n, i as u8);
                } else {
                    lemma_shift_in_last(b, x, n);
                }
            }
            assert(lo =~= want);
            lemma_shift_in_last(b, x, n);
        }
        self.buffer = nb;
        self.bit_count = n + 1;
        if self.bit_count == 8 {
            let ghost before = self.output@;
            self.output.push(self.buffer);
            proof {
                lemma_bytes_bits_push(before, nb);
                assert(byte_bits(nb) =~= low_bits(nb, 8));
                assert(low_bits(0u8, 0) =~= Seq::<bool>::empty());
                assert(0u8 >> 0u8 == 0u8) by (bit_vector);
            }
            self.buffer = 0;
            self.bit_count = 0;
            assert(self.bits() =~= old(self).bits().push(bit));
        } else {
            assert(self.bits() =~= old(self).bits().push(bit));
        }
    }

    /// Emits the pending bits, filling the last byte up with zero bits on
    /// the right. Returns the bytes and the number of filling bits.
    pub fn flush(self) -> (r: (Vec<u8>, u8))
        requires
            self.wf(),
        ensures
            r.1 as nat == padding_for(self.bits().len()),
            r.1 < 8,
            bytes_bits(r.0@) == self.bits() + zero_bits(r.1 as nat),
    {
        let mut out = self.output;
        let c = self.bit_count;
        let b = self.buffer;
        proof {
            assert(self.bits().len() == 8 * out@.len() + c);
            assert((8 * out@.len() + c) % 8 == c as int) by {
                assert((8 * out@.len() + c) == 8 * out@.len() + c);
            }
        }
        if c > 0 {
            let p: u8 = 8 - c;
            let nb: u8 = b << p;
            let ghost before = out@;
            out.push(nb);
            proof {
                lemma_bytes_bits_push(before, nb);
                let want = low_bits(b, c as nat) + zero_bits(p as nat);
                assert forall|i: int| 0 <= i < 8 implies byte_bits(nb)[i] == want[i] by {
                    if i < c {
                        lemma_pad_high(b, c, i as u8);
                    } else {
                        lemma_pad_low(b, c, i as u8);
                    }
                }
                assert(byte_bits(nb) =~= want);
                assert(bytes_bits(out@) =~= self.bits() + zero_bits(p as nat));
            }
            (out, p)
        } else {
            proof {
                assert(low_bits(b, 0) =~= Seq::<bool>::empty());
                assert(zero_bits(0) =~= Seq::<bool>::empty());
                assert(bytes_bits(out@) =~= self.bits() + zero_bits(0));
            }
            (out, 0)
        }
    }
}

} // verus!
