//! A cursor that reads fixed-width unsigned fields from a byte buffer,
//! least-significant bit first within each byte, bytes in ascending order.
use vstd::arithmetic::div_mod::*;
use vstd::arithmetic::power2::*;
use vstd::bits::*;
use vstd::prelude::*;

verus! {

/// The buffer as one little-endian number: byte `j` carries weight `2^(8j)`.
/// Bit `i` of this number is bit `i % 8` of byte `i / 8`, so it is the
/// stream in reading order.
pub open spec fn le_value(s: Seq<u8>) -> nat
    decreases s.len(),
{
    if s.len() == 0 {
        0
    } else {
        s[0] as nat + pow2(8) * le_value(s.drop_first())
    }
}

/// The `n` bits of the stream that start at bit `p`; bit 0 of the result is
/// bit `p` of the stream.
pub open spec fn bits_at(s: Seq<u8>, p: nat, n: nat) -> nat {
    (le_value(s) / pow2(p)) % pow2(n)
}

/// The stream's bits `p, p + w0, p + w0 + w1, ...` read field by field with
/// the widths in `widths`, and put back together with the first field in
/// the lowest bits.
pub open spec fn assemble(s: Seq<u8>, widths: Seq<nat>, p: nat) -> nat
    decreases widths.len(),
{
    if widths.len() == 0 {
        0
    } else {
        bits_at(s, p, widths[0]) + pow2(widths[0]) * assemble(
            s,
            widths.drop_first(),
            p + widths[0],
        )
    }
}

/// The sum of a sequence of widths.
pub open spec fn total_width(widths: Seq<nat>) -> nat
    decreases widths.len(),
{
    if widths.len() == 0 {
        0
    } else {
        widths[0] + total_width(widths.drop_first())
    }
}

/// The bytes of the low `len * 8` bits of `v`, lowest byte first.
pub open spec fn bytes_of(v: nat, len: nat) -> Seq<u8> {
    Seq::new(len, |j: int| ((v / pow2((8 * j) as nat)) % 256) as u8)
}

proof fn lemma_le_value_bound(s: Seq<u8>)
    ensures
        le_value(s) < pow2(8 * s.len()),
    decreases s.len(),
{
    lemma_pow2_pos(0);
    if s.len() > 0 {
        let t = s.drop_first();
        lemma_le_value_bound(t);
        lemma_pow2_adds(8, 8 * t.len());
        assert(8 + 8 * t.len() == 8 * s.len());
        lemma2_to64();
        let a = pow2(8);
        let b = pow2(8 * t.len());
        assert(pow2(8 * s.len()) == a * b);
        assert(le_value(s) == s[0] as nat + a * le_value(t));
        assert(s[0] as nat + a * le_value(t) < a * b) by (nonlinear_arith)
            requires
                s[0] < a,
                le_value(t) + 1 <= b,
        {
            assert(a * (le_value(t) + 1) <= a * b);
        }
    }
}

proof fn lemma_le_value_append(s: Seq<u8>, t: Seq<u8>)
    ensures
        le_value(s + t) == le_value(s) + pow2(8 * s.len()) * le_value(t),
    decreases s.len(),
{
    if s.len() == 0 {
        assert(s + t =~= t);
        lemma2_to64();
    } else {
        let r = s.drop_first();
        assert((s + t).drop_first() =~= r + t);
        lemma_le_value_append(r, t);
        lemma_pow2_adds(8, 8 * r.len());
        assert(8 + 8 * r.len() == 8 * s.len());
        let a = pow2(8);
        let b = pow2(8 * r.len());
        assert(a * (le_value(r) + b * le_value(t)) == a * le_value(r) + (a * b) * le_value(
            t,
        )) by (nonlinear_arith);
    }
}

/// Dropping the first byte moves the stream by eight bits.
proof fn lemma_bits_at_drop_byte(s: Seq<u8>, p: nat, n: nat)
    requires
        s.len() > 0,
    ensures
        bits_at(s, p + 8, n) == bits_at(s.drop_first(), p, n),
{
    let t = s.drop_first();
    lemma2_to64();
    lemma_pow2_adds(8, p);
    lemma_pow2_pos(p);
    assert(p + 8 == 8 + p);
    let l = le_value(s);
    lemma_div_denominator(l as int, pow2(8) as int, pow2(p) as int);
    lemma_fundamental_div_mod_converse(l as int, 256, le_value(t) as int, s[0] as int);
}

/// Dropping the first `b` bytes moves the stream by `8 * b` bits.
proof fn lemma_bits_at_drop_bytes(s: Seq<u8>, b: nat, off: nat, n: nat)
    requires
        b <= s.len(),
    ensures
        bits_at(s, 8 * b + off, n) == bits_at(s.subrange(b as int, s.len() as int), off, n),
    decreases b,
{
    if b == 0 {
        assert(s.subrange(0, s.len() as int) =~= s);
    } else {
        let t = s.drop_first();
        lemma_bits_at_drop_byte(s, (8 * (b - 1) + off) as nat, n);
        assert(8 * (b - 1) + off + 8 == 8 * b + off);
        lemma_bits_at_drop_bytes(t, (b - 1) as nat, off, n);
        assert(t.subrange((b - 1) as int, t.len() as int) =~= s.subrange(b as int, s.len() as int));
    }
}

/// Bytes after the first `k` do not change a field that ends within them.
proof fn lemma_bits_at_prefix(t: Seq<u8>, k: nat, off: nat, n: nat)
    requires
        k <= t.len(),
        off + n <= 8 * k,
    ensures
        bits_at(t, off, n) == bits_at(t.subrange(0, k as int), off, n),
{
    let x = t.subrange(0, k as int);
    let y = t.subrange(k as int, t.len() as int);
    assert(t =~= x + y);
    lemma_le_value_append(x, y);
    let lx = le_value(x);
    let ly = le_value(y);
    let d = pow2(off);
    let m = pow2(n);
    let rest = pow2((8 * k - off - n) as nat);
    lemma_pow2_pos(off);
    lemma_pow2_pos(n);
    lemma_pow2_adds(off, (8 * k - off) as nat);
    lemma_pow2_adds(n, (8 * k - off - n) as nat);
    assert(off + (8 * k - off) == 8 * k);
    assert(n + (8 * k - off - n) == 8 * k - off);
    let z = (m * rest) * ly;
    assert(pow2(8 * k) * ly == d * z) by (nonlinear_arith)
        requires
            pow2(8 * k) == d * pow2((8 * k - off) as nat),
            pow2((8 * k - off) as nat) == m * rest,
            z == (m * rest) * ly,
    ;
    assert(lx + d * z == (lx / d + z) * d + lx % d) by (nonlinear_arith)
        requires
            d > 0,
    {
        lemma_fundamental_div_mod(lx as int, d as int);
    }
    lemma_fundamental_div_mod_converse((lx + d * z) as int, d as int, (lx / d + z) as int, (lx % d) as int);
    assert(lx / d + z == m * (rest * ly) + lx / d) by (nonlinear_arith)
        requires
            z == (m * rest) * ly,
    ;
    lemma_mod_multiples_vanish((rest * ly) as int, (lx / d) as int, m as int);
}

/// A field read from the whole buffer equals the same field read from the
/// `k` bytes that hold it.
proof fn lemma_bits_at_window(s: Seq<u8>, p: nat, n: nat, k: nat)
    requires
        p / 8 + k <= s.len(),
        p % 8 + n <= 8 * k,
    ensures
        bits_at(s, p, n) == bits_at(s.subrange((p / 8) as int, (p / 8 + k) as int), p % 8, n),
{
    let b = p / 8;
    let off = p % 8;
    assert(p == 8 * b + off);
    lemma_bits_at_drop_bytes(s, b, off, n);
    let t = s.subrange(b as int, s.len() as int);
    lemma_bits_at_prefix(t, k, off, n);
    assert(t.subrange(0, k as int) =~= s.subrange(b as int, (b + k) as int));
}

proof fn lemma_le_value_single(x: u8)
    ensures
        le_value(seq![x]) == x as nat,
{
    let s = seq![x];
    assert(s.len() == 1 && s[0] == x);
    assert(s.drop_first() =~= Seq::<u8>::empty());
    assert(le_value(Seq::<u8>::empty()) == 0);
    assert(le_value(s) == s[0] as nat + pow2(8) * le_value(s.drop_first()));
}

/// Reading the stream in fields of the given widths and putting the fields
/// back together yields the stream's bits from `p` on, as many as the
/// widths add up to.
proof fn lemma_assemble(s: Seq<u8>, widths: Seq<nat>, p: nat)
    ensures
        assemble(s, widths, p) == (le_value(s) / pow2(p)) % pow2(total_width(widths)),
    decreases widths.len(),
{
    lemma_pow2_pos(p);
    if widths.len() == 0 {
        lemma2_to64();
    } else {
        let w0 = widths[0];
        let rest = widths.drop_first();
        lemma_assemble(s, rest, p + w0);
        let x = le_value(s) / pow2(p);
        lemma_pow2_pos(w0);
        lemma_pow2_pos(total_width(rest));
        lemma_pow2_adds(w0, total_width(rest));
        lemma_pow2_adds(p, w0);
        lemma_mod_breakdown(x as int, pow2(w0) as int, pow2(total_width(rest)) as int);
        lemma_div_denominator(le_value(s) as int, pow2(p) as int, pow2(w0) as int);
    }
}

/// Byte `j` of the buffer is the field of eight bits at bit `8 * j`.
proof fn lemma_byte_field(s: Seq<u8>, j: nat)
    requires
        j < s.len(),
    ensures
        bits_at(s, 8 * j, 8) == s[j as int],
{
    lemma_bits_at_window(s, 8 * j, 8, 1);
    assert((8 * j) / 8 == j);
    assert((8 * j) % 8 == 0);
    let w = s.subrange(j as int, j as int + 1);
    assert(w =~= seq![s[j as int]]);
    lemma_le_value_single(s[j as int]);
    lemma2_to64();
}

/// Reading a whole buffer as consecutive fields, of any widths that add up
/// to its length in bits, and putting the fields together in reading order
/// gives back the buffer byte for byte.
pub proof fn lemma_fields_reconstruct_buffer(s: Seq<u8>, widths: Seq<nat>)
    requires
        forall|i: int| 0 <= i < widths.len() ==> widths[i] <= 32,
        total_width(widths) == 8 * s.len(),
    ensures
        bytes_of(assemble(s, widths, 0), s.len()) == s,
{
    lemma_assemble(s, widths, 0);
    lemma2_to64();
    lemma_le_value_bound(s);
    lemma_small_mod(le_value(s), pow2(8 * s.len()));
    assert(assemble(s, widths, 0) == le_value(s));
    assert forall|j: int| 0 <= j < s.len() implies #[trigger] bytes_of(le_value(s), s.len())[j]
        == s[j] by {
        lemma_byte_field(s, j as nat);
        lemma2_to64();
    }
    assert(bytes_of(le_value(s), s.len()) =~= s);
}

/// Reads fields of up to 32 bits from a borrowed byte buffer.
pub struct BitStream<'a> {
    buffer: &'a [u8],
    // the next bit to read is bit `bit_offset` of byte `byte_index`
    byte_index: usize,
    bit_offset: usize,
}

impl<'a> BitStream<'a> {
    /// The bytes being read.
    pub closed spec fn data(&self) -> Seq<u8> {
        self.buffer@
    }

    /// How many bits have been read so far.
    pub closed spec fn pos(&self) -> nat {
        (8 * self.byte_index + self.bit_offset) as nat
    }

    /// The cursor never stands past the end of the buffer.
    pub closed spec fn wf(&self) -> bool {
        &&& self.bit_offset < 8
        &&& self.pos() <= 8 * self.data().len()
    }

    /// Whether `n` more bits can be read.
    pub open spec fn can_read(&self, n: nat) -> bool {
        self.pos() + n <= 8 * self.data().len()
    }

    /// A cursor at the first bit of `data_bytes`.
    pub fn new(data_bytes: &'a [u8]) -> (r: Self)
        ensures
            r.data() == data_bytes@,
            r.pos() == 0,
            r.wf(),
    {
        BitStream { buffer: data_bytes, byte_index: 0, bit_offset: 0 }
    }

    /// Reads the next `n` bits; bit 0 of the result is the first unread bit.
    pub fn get_bits(&mut self, n: u32) -> (r: u32)
        requires
            old(self).wf(),
            n <= 32,
            old(self).can_read(n as nat),
        ensures
            final(self).data() == old(self).data(),
            final(self).pos() == old(self).pos() + n,
            final(self).wf(),
            r as nat == bits_at(old(self).data(), old(self).pos(), n as nat),
    {
        let byte_index = self.byte_index;
        let bit_offset = self.bit_offset;
        let len = self.buffer.len();
        let ghost s = self.buffer@;
        let ghost p = self.pos();
        // the bytes that hold the field: at most five
        let count = (bit_offset + n as usize + 7) / 8;
        assert(byte_index + count <= s.len());
        let mut chunk: u64 = 0;
        let mut weight: u64 = 1;
        let mut i: usize = 0;
        proof {
            lemma2_to64();
            assert(s.subrange(byte_index as int, byte_index as int) =~= Seq::<u8>::empty());
        }
        while i < count
            invariant
                s == self.buffer@,
                len == s.len(),
                byte_index + count <= s.len(),
                count <= 5,
                i <= count,
                weight as nat == pow2(8 * i as nat),
                chunk as nat == le_value(s.subrange(byte_index as int, (byte_index + i) as int)),
                (chunk as nat) < pow2(8 * i as nat),
            decreases count - i,
        {
            let ghost prev = s.subrange(byte_index as int, (byte_index + i) as int);
            let b = self.buffer[byte_index + i];
            proof {
                lemma_pow2_adds(8 * i as nat, 8);
                assert(8 * i as nat + 8 == 8 * (i + 1) as nat);
                lemma_pow2_strictly_increases(8 * i as nat, 40);
                lemma2_to64();
                lemma2_to64_rest();
                let next = s.subrange(byte_index as int, (byte_index + i + 1) as int);
                assert(next =~= prev + seq![b]);
                lemma_le_value_append(prev, seq![b]);
                lemma_le_value_single(b);
                assert(chunk + weight * b < weight * 256) by (nonlinear_arith)
                    requires
                        chunk < weight,
                        b < 256,
                ;
                assert(weight * 256 <= 0x1_0000_0000_0000u64) by (nonlinear_arith)
                    requires
                        weight <= 0x100_0000_0000u64,
                ;
            }
            chunk = chunk + weight * (b as u64);
            weight = weight * 256;
            i = i + 1;
        }
        proof {
            assert(p / 8 == byte_index && p % 8 == bit_offset);
            lemma_bits_at_window(s, p, n as nat, count as nat);
            lemma_u64_shr_is_div(chunk, bit_offset as u64);
            lemma_u64_pow2_no_overflow(n as nat);
            lemma_u64_shl_is_mul(1, n as u64);
        }
        let val = (chunk >> (bit_offset as u64)) % (1u64 << (n as u64));
        proof {
            lemma_pow2_pos(n as nat);
            if n < 32 {
                lemma_pow2_strictly_increases(n as nat, 32);
            }
            lemma2_to64();
        }
        let end = bit_offset + n as usize;
        self.byte_index = byte_index + end / 8;
        self.bit_offset = end % 8;
        val as u32
    }

    /// Whether `n` more bits can be read.
    pub fn has_bits(&self, n: u32) -> (r: bool)
        requires
            self.wf(),
            n <= 32,
        ensures
            r == self.can_read(n as nat),
    {
        (self.bit_offset + n as usize + 7) / 8 <= self.buffer.len() - self.byte_index
    }

    /// Whether the cursor has reached the end of the buffer.
    pub fn no_bits_left(&self) -> (r: bool)
        requires
            self.wf(),
        ensures
            r == (self.pos() >= 8 * self.data().len()),
    {
        self.buffer.len() <= self.byte_index
    }
}

} // verus!
