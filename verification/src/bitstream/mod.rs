//! A growing buffer of bits with a read cursor.

pub mod bits;
pub mod encode;

use vstd::prelude::*;
use vstd::arithmetic::power2::*;
use vstd::arithmetic::div_mod::*;
use crate::bitstream::bits::Field;

verus! {

/// The largest number of bits that one read or write moves.
pub const MAX_FIELD_BITS: usize = 23;

#[derive(Debug, Clone, Eq, PartialEq)]
pub struct BitStream {
    buf: Vec<u8>,
    bits_used: usize,
    read_pos: usize,
}

/// Bit `k` of a byte, counted from the most significant one.
spec fn byte_bit(b: u8, k: int) -> bool {
    (b >> ((7 - k) as u8)) & 1u8 == 1u8
}

proof fn lemma_byte_bit(b: u8, k: int)
    requires
        0 <= k < 8,
    ensures
        byte_bit(b, k) == bits::msb_bits(b as nat, 8)[k],
{
    let s: u8 = (7 - k) as u8;
    vstd::bits::lemma_u8_shr_is_div(b, s);
    let x: u8 = b >> s;
    assert(x & 1u8 == x % 2u8) by (bit_vector);
}

proof fn lemma_u32_bit(v: u32, k: u32)
    requires
        k < 32,
    ensures
        (v >> k) & 1u32 == (v as nat / pow2(k as nat)) % 2,
{
    vstd::bits::lemma_u32_shr_is_div(v, k);
    let x: u32 = v >> k;
    assert(x & 1u32 == x % 2u32) by (bit_vector);
}

impl BitStream {
    pub closed spec fn wf(&self) -> bool {
        &&& self.buf@.len() == (self.bits_used + 7) / 8
        &&& self.bits_used + 7 <= usize::MAX
        &&& self.read_pos <= 8 * self.buf@.len()
        &&& forall|i: int|
            self.bits_used <= i < 8 * self.buf@.len() ==> !#[trigger] bits::bytes_bits(self.buf@)[i]
    }

    /// The bits written so far.
    pub closed spec fn bits(&self) -> Seq<bool> {
        bits::bytes_bits(self.buf@).take(self.bits_used as int)
    }

    /// The position of the next bit to read.
    pub closed spec fn read_pos(&self) -> nat {
        self.read_pos as nat
    }

    proof fn lemma_padded(&self)
        requires
            self.wf(),
        ensures
            bits::padded(self.bits()) == bits::bytes_bits(self.buf@),
            self.bits().len() == self.bits_used,
            self.buf@ == bits::pack(self.bits()),
    {
        assert(bits::padded(self.bits()) =~= bits::bytes_bits(self.buf@));
        bits::lemma_pack_bytes_bits(self.buf@);
        assert(bits::padded(bits::bytes_bits(self.buf@)) =~= bits::bytes_bits(self.buf@));
        assert(bits::pack(self.bits()) =~= bits::pack(bits::bytes_bits(self.buf@)));
    }

    pub fn new() -> (s: Self)
        ensures
            s.wf(),
            s.bits() == Seq::<bool>::empty(),
            s.read_pos() == 0,
    {
        let s = BitStream { buf: Vec::new(), bits_used: 0, read_pos: 0 };
        assert(s.bits() =~= Seq::<bool>::empty());
        s
    }

    pub fn from_bytes(buf: &[u8]) -> (s: Self)
        requires
            8 * buf@.len() + 7 <= usize::MAX,
        ensures
            s.wf(),
            s.bits() == bits::bytes_bits(buf@),
            s.read_pos() == 0,
    {
        let s = BitStream {
            buf: vstd::slice::slice_to_vec(buf),
            bits_used: buf.len() * 8,
            read_pos: 0,
        };
        assert(s.bits() =~= bits::bytes_bits(buf@));
        s
    }

    /// Appends the `n` low bits of `val`, most significant first.
    pub fn write(&mut self, val: u32, n: usize)
        requires
            old(self).wf(),
            n <= MAX_FIELD_BITS,
            old(self).bits().len() + n + 7 <= usize::MAX,
        ensures
            final(self).wf(),
            final(self).bits() == old(self).bits() + bits::msb_bits(val as nat, n as nat),
            final(self).read_pos() == old(self).read_pos(),
    {
        proof {
            self.lemma_padded();
        }
        if n == 0 {
            assert(self.bits() =~= old(self).bits() + bits::msb_bits(val as nat, 0));
            return;
        }
        let needed_bits: usize = self.bits_used + n;
        let needed_bytes: usize = (needed_bits + 7) / 8;
        let ghost before = self.buf@;
        if self.buf.len() < needed_bytes {
            self.buf.resize(needed_bytes, 0);
        }
        proof {
            assert forall|i: int|
                self.bits_used <= i < 8 * self.buf@.len() implies !#[trigger] bits::bytes_bits(
                self.buf@,
            )[i] by {
                if i < 8 * before.len() {
                    assert(self.buf@[i / 8] == self.buf@.subrange(0, before.len() as int)[i / 8]);
                    assert(bits::bytes_bits(before)[i] == bits::bytes_bits(self.buf@)[i]);
                } else {
                    assert(self.buf@[i / 8] == 0u8);
                    let k = (7 - i % 8) as nat;
                    lemma_pow2_pos(k);
                    lemma_basic_div(0, pow2(k) as int);
                }
            }
            assert forall|i: int| 0 <= i < self.bits_used implies bits::bytes_bits(self.buf@)[i]
                == bits::bytes_bits(before)[i] by {
                assert(self.buf@[i / 8] == self.buf@.subrange(0, before.len() as int)[i / 8]);
            }
        }
        let ghost start = self.bits_used as int;
        let ghost written = bits::msb_bits(val as nat, n as nat);
        let mut left: usize = n;
        while left > 0
            invariant
                left <= n <= 23,
                self.bits_used == start + (n - left),
                start + n == needed_bits,
                needed_bits + 7 <= usize::MAX,
                self.buf@.len() == needed_bytes,
                needed_bytes == (needed_bits + 7) / 8,
                self.read_pos == old(self).read_pos,
                written == bits::msb_bits(val as nat, n as nat),
                old(self).bits().len() == start,
                forall|i: int|
                    self.bits_used <= i < 8 * self.buf@.len() ==> !#[trigger] bits::bytes_bits(
                        self.buf@,
                    )[i],
                forall|i: int|
                    0 <= i < start ==> #[trigger] bits::bytes_bits(self.buf@)[i] == old(self).bits()[i],
                forall|i: int|
                    start <= i < self.bits_used ==> #[trigger] bits::bytes_bits(self.buf@)[i]
                        == written[i - start],
            decreases left,
        {
            left -= 1;
            let bit: u8 = ((val >> (left as u32)) & 1) as u8;
            let pos: usize = self.bits_used;
            let byte_pos: usize = pos / 8;
            let bit_pos: u8 = (7 - (pos % 8)) as u8;
            let old_byte: u8 = self.buf[byte_pos];
            let new_byte: u8 = old_byte | (bit << bit_pos);
            let ghost prev = self.buf@;
            self.buf[byte_pos] = new_byte;
            self.bits_used += 1;
            proof {
                lemma_u32_bit(val, left as u32);
                let w: u32 = val >> (left as u32);
                assert(w & 1u32 == 0u32 || w & 1u32 == 1u32) by (bit_vector);
                assert(written[pos - start] == (bit == 1u8));
                assert forall|i: int| 0 <= i < 8 * prev.len() implies #[trigger] bits::bytes_bits(
                    self.buf@,
                )[i] == (if i == pos {
                    bit == 1u8
                } else {
                    bits::bytes_bits(prev)[i]
                }) by {
                    assert(!bits::bytes_bits(prev)[pos as int]);
                    if i / 8 == byte_pos {
                        let k: u8 = (7 - i % 8) as u8;
                        lemma_byte_bit(new_byte, i % 8);
                        lemma_byte_bit(old_byte, i % 8);
                        lemma_byte_bit(old_byte, pos as int % 8);
                        assert((bit == 0u8 || bit == 1u8) && k < 8 && bit_pos < 8 && new_byte == (
                        old_byte | (bit << bit_pos)) && (old_byte >> bit_pos) & 1u8 != 1u8 ==> (((
                        new_byte >> k) & 1u8 == 1u8) == (if k == bit_pos {
                            bit == 1u8
                        } else {
                            (old_byte >> k) & 1u8 == 1u8
                        }))) by (bit_vector);
                    }
                }
            }
        }
        assert(self.bits() =~= old(self).bits() + written);
    }

    /// Takes the next `n` bits as a number, most significant first.
    pub fn read(&mut self, n: usize) -> (out: u32)
        requires
            old(self).wf(),
            n <= MAX_FIELD_BITS,
            old(self).read_pos() + n <= bits::padded(old(self).bits()).len(),
        ensures
            final(self).wf(),
            final(self).bits() == old(self).bits(),
            final(self).read_pos() == old(self).read_pos() + n,
            out == bits::bits_value(
                bits::padded(old(self).bits()).subrange(
                    old(self).read_pos() as int,
                    old(self).read_pos() + n,
                ),
            ),
    {
        proof {
            self.lemma_padded();
        }
        let ghost all = bits::bytes_bits(self.buf@);
        let ghost start = self.read_pos as int;
        proof {
            lemma2_to64();
        }
        let mut out: u32 = 0;
        let mut taken: usize = 0;
        while taken < n
            invariant
                taken <= n <= 23,
                self.buf == old(self).buf,
                self.bits_used == old(self).bits_used,
                self.read_pos == start + taken,
                self.bits_used + 7 <= usize::MAX,
                self.buf@.len() == (self.bits_used + 7) / 8,
                all == bits::bytes_bits(self.buf@),
                0 <= start,
                start + n <= all.len(),
                out == bits::bits_value(all.subrange(start, start + taken)),
                out < pow2(taken as nat),
            decreases n - taken,
        {
            let byte_pos: usize = self.read_pos / 8;
            let bit_pos: u8 = (7 - (self.read_pos % 8)) as u8;
            let byte: u8 = self.buf[byte_pos];
            let bit: u32 = ((byte >> bit_pos) & 1) as u32;
            proof {
                lemma_byte_bit(byte, self.read_pos as int % 8);
                let x: u8 = byte >> bit_pos;
                assert(x & 1u8 == 0u8 || x & 1u8 == 1u8) by (bit_vector);
                let a = all.subrange(start, start + taken);
                let b = all.subrange(start, start + taken + 1);
                assert(b.drop_last() =~= a);
                assert(b.last() == (bit == 1));
                lemma2_to64();
                lemma_pow2_unfold((taken + 1) as nat);
                bits::lemma_bits_value_bound(b);
                if taken < 22 {
                    lemma_pow2_strictly_increases(taken as nat, 22);
                }
                let o: u32 = out;
                assert(o < 0x400000u32 && (bit == 0u32 || bit == 1u32) ==> ((o << 1u32) | bit) == 2
                    * o + bit) by (bit_vector);
            }
            out = (out << 1) | bit;
            self.read_pos += 1;
            taken += 1;
        }
        out
    }

    pub fn size_in_bits(&self) -> (n: usize)
        requires
            self.wf(),
        ensures
            n == self.bits().len(),
    {
        self.bits_used
    }

    pub fn buf_size(&self) -> (n: usize)
        requires
            self.wf(),
        ensures
            n == (self.bits().len() + 7) / 8,
            n == bits::pack(self.bits()).len(),
    {
        self.buf.len()
    }

    pub fn bytes(&self) -> (r: &[u8])
        requires
            self.wf(),
        ensures
            r@ == bits::pack(self.bits()),
    {
        proof {
            self.lemma_padded();
        }
        self.buf.as_slice()
    }
}

impl Default for BitStream {
    fn default() -> (s: Self)
        ensures
            s.wf(),
            s.bits() == Seq::<bool>::empty(),
            s.read_pos() == 0,
    {
        BitStream::new()
    }
}

/// The value of the low `bits` bits of `val` read as a two's complement number.
pub open spec fn sign_extend(val: int, bits: nat) -> int {
    let m = val % (pow2(bits) as int);
    if m < pow2((bits - 1) as nat) {
        m
    } else {
        m - pow2(bits)
    }
}

proof fn lemma_make_sign(val: i32, bits: u32, r: i32)
    requires
        1 <= bits <= 32,
        r == (val << ((32 - bits) as u32)) >> ((32 - bits) as u32),
    ensures
        r == sign_extend(val as int, bits as nat),
{
    let shift: u32 = (32 - bits) as u32;
    let x: u64 = (val as u32) as u64;
    let p: u64 = 1u64 << (bits as u64);
    let h: u64 = 1u64 << ((bits - 1) as u64);
    let mask: u64 = (p - 1) as u64;
    let m: u64 = x & mask;
    assert(1 <= bits <= 32 && shift == 32 - bits && x == (val as u32) as u64 && p == 1u64 << (
    bits as u64) && h == 1u64 << ((bits - 1) as u64) && mask == p - 1 && m == x & mask && r == ((val
        << shift) >> shift) ==> (if m < h {
        r == m
    } else {
        r == m - p
    }) && (if val >= 0 {
        x == val
    } else {
        x == val + 0x1_0000_0000i64
    })) by (bit_vector);
    lemma2_to64();
    lemma2_to64_rest();
    lemma_pow2_pos(bits as nat);
    lemma_pow2_pos((bits - 1) as nat);
    vstd::bits::lemma_u64_pow2_no_overflow(bits as nat);
    vstd::bits::lemma_u64_pow2_no_overflow((bits - 1) as nat);
    vstd::bits::lemma_u64_shl_is_mul(1, bits as u64);
    vstd::bits::lemma_u64_shl_is_mul(1, (bits - 1) as u64);
    vstd::bits::lemma_u64_low_bits_mask_is_mod(x, bits as nat);
    let q = pow2((32 - bits) as nat) as int;
    lemma_pow2_adds(bits as nat, (32 - bits) as nat);
    lemma_mod_multiples_vanish(q, val as int, p as int);
}

/// Reads the low `bits` bits of `val` as a two's complement number.
pub fn make_sign(val: i32, bits: u32) -> (r: i32)
    requires
        1 <= bits <= 32,
    ensures
        r == sign_extend(val as int, bits as nat),
{
    let shift: u32 = 32 - bits;
    let r: i32 = (val << shift) >> shift;
    proof {
        lemma_make_sign(val, bits, r);
    }
    r
}

/// The sign-restored number as an unsigned word has the number's low bits.
pub proof fn lemma_signed_low_bits(m: i32, n: u32, s: i32)
    requires
        1 <= n <= 32,
        s == sign_extend(m as int, n as nat),
    ensures
        bits::msb_bits((s as u32) as nat, n as nat) == bits::low_bits(m as int, n as nat),
{
    let v: u32 = s as u32;
    assert(if s >= 0 {
        v == s
    } else {
        v == s + 0x1_0000_0000i64
    }) by (bit_vector)
        requires
            v == s as u32,
    ;
    lemma2_to64();
    let p = pow2(n as nat) as int;
    lemma_pow2_pos(n as nat);
    lemma_pow2_adds(n as nat, (32 - n) as nat);
    let q = pow2((32 - n) as nat) as int;
    lemma_mod_multiples_vanish(q, s as int, p);
    lemma_mod_twice(m as int, p);
    lemma_mod_multiples_vanish(-1, m as int % p, p);
    bits::lemma_low_bits(v as nat, m as int, n as nat);
}

/// The low bits of a number that fits in `n` bits as two's complement are the
/// number again once its sign is restored.
pub proof fn lemma_low_bits_round_trip(v: i32, n: nat)
    requires
        1 <= n <= 32,
        -(pow2((n - 1) as nat) as int) <= v < pow2((n - 1) as nat),
    ensures
        sign_extend(bits::bits_value(bits::low_bits(v as int, n)) as int, n) == v,
{
    let p = pow2(n) as int;
    lemma_pow2_pos(n);
    lemma_pow2_unfold(n);
    bits::lemma_bits_value_msb_bits((v as int % p) as nat, n);
    lemma_mod_twice(v as int, p);
    if v >= 0 {
        lemma_small_mod(v as nat, p as nat);
    } else {
        lemma_mod_add_multiples_vanish(v as int, p);
        lemma_small_mod((v + p) as nat, p as nat);
    }
}

/// Fields written in a row are read back in the same order: where the fields
/// before number `k` end, the next `width` bits hold the value of field `k`
/// modulo two to its width, whatever was written after it.
pub proof fn law_writes_read_back(fields: Seq<Field>, k: int)
    requires
        0 <= k < fields.len(),
    ensures
        ({
            let at = bits::fields_bits(fields.take(k)).len() as int;
            let width = fields[k].width;
            &&& at + width <= bits::padded(bits::fields_bits(fields)).len()
            &&& bits::bits_value(bits::padded(bits::fields_bits(fields)).subrange(at, at + width)) == fields[k].value
                % pow2(width)
        }),
{
    let f = fields[k];
    let head = fields.take(k);
    let tail = fields.skip(k + 1);
    assert(fields =~= head.push(f) + tail);
    bits::lemma_fields_bits_concat(head.push(f), tail);
    assert(head.push(f).drop_last() =~= head);
    let at = bits::fields_bits(head).len() as int;
    assert(bits::padded(bits::fields_bits(fields)).subrange(at, at + f.width) =~= bits::msb_bits(f.value, f.width));
    bits::lemma_bits_value_msb_bits(f.value, f.width);
}

/// A number that fits in `n` bits as two's complement, written in `n` bits and
/// read back, is the same number once its sign is restored.
pub proof fn law_signed_round_trip(v: i32, n: nat)
    requires
        1 <= n <= 32,
        -(pow2((n - 1) as nat) as int) <= v < pow2((n - 1) as nat),
    ensures
        sign_extend(bits::bits_value(bits::msb_bits((v as u32) as nat, n)) as int, n) == v,
{
    let x: u32 = v as u32;
    assert(if v >= 0 {
        x == v
    } else {
        x == v + 0x1_0000_0000i64
    }) by (bit_vector)
        requires
            x == v as u32,
    ;
    bits::lemma_bits_value_msb_bits(x as nat, n);
    lemma2_to64();
    lemma_pow2_pos(n);
    lemma_pow2_unfold(n);
    lemma_pow2_adds(n, (32 - n) as nat);
    let p = pow2(n) as int;
    let q = pow2((32 - n) as nat) as int;
    lemma_mod_twice(x as int, p);
    lemma_mod_multiples_vanish(q, v as int, p);
    if v >= 0 {
        lemma_small_mod(v as nat, p as nat);
    } else {
        lemma_mod_add_multiples_vanish(v as int, p);
        lemma_small_mod((v + p) as nat, p as nat);
    }
}

/// Restoring the sign is idempotent.
pub proof fn law_sign_extend_idempotent(v: int, n: nat)
    requires
        n >= 1,
    ensures
        sign_extend(sign_extend(v, n), n) == sign_extend(v, n),
{
    lemma_pow2_pos(n);
    let p = pow2(n) as int;
    lemma_mod_twice(v, p);
    lemma_mod_multiples_vanish(-1, v % p, p);
}

} // verus!
