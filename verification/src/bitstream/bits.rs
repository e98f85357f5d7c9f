//! Bits as a mathematical sequence, most significant bit first.

use vstd::prelude::*;
use vstd::arithmetic::power2::*;
use vstd::arithmetic::div_mod::*;

verus! {

/// The `n` low bits of `v`, most significant first.
pub open spec fn msb_bits(v: nat, n: nat) -> Seq<bool> {
    Seq::new(n, |i: int| (v / pow2((n - 1 - i) as nat)) % 2 == 1)
}

/// The number whose binary digits are `s`, most significant first.
pub open spec fn bits_value(s: Seq<bool>) -> nat
    decreases s.len(),
{
    if s.len() == 0 {
        0
    } else {
        2 * bits_value(s.drop_last()) + (if s.last() {
            1nat
        } else {
            0nat
        })
    }
}

/// The number held by the `n` bits of `s` from position `at` on.
pub open spec fn number_at(s: Seq<bool>, at: int, n: int) -> nat {
    bits_value(s.subrange(at, at + n))
}

/// `bits` filled up with zeros to a whole number of bytes.
pub open spec fn padded(bits: Seq<bool>) -> Seq<bool> {
    bits + Seq::new(((8 - bits.len() as int % 8) % 8) as nat, |i: int| false)
}

/// The bits of a byte string.
pub open spec fn bytes_bits(bytes: Seq<u8>) -> Seq<bool> {
    Seq::new(8 * bytes.len(), |i: int| msb_bits(bytes[i / 8] as nat, 8)[i % 8])
}

/// The byte string that holds `bits`, the last byte filled up with zeros.
pub open spec fn pack(bits: Seq<bool>) -> Seq<u8> {
    Seq::new(
        (bits.len() + 7) / 8,
        |i: int| bits_value(padded(bits).subrange(8 * i, 8 * i + 8)) as u8,
    )
}

/// A number and the count of bits that it takes in a stream.
pub struct Field {
    pub value: nat,
    pub width: nat,
}

/// The bits of fields written one after the other.
pub open spec fn fields_bits(fields: Seq<Field>) -> Seq<bool>
    decreases fields.len(),
{
    if fields.len() == 0 {
        Seq::empty()
    } else {
        fields_bits(fields.drop_last()) + msb_bits(fields.last().value, fields.last().width)
    }
}

pub proof fn lemma_fields_bits_push(fields: Seq<Field>, f: Field)
    ensures
        fields_bits(fields.push(f)) == fields_bits(fields) + msb_bits(f.value, f.width),
{
    assert(fields.push(f).drop_last() =~= fields);
}

pub proof fn lemma_fields_bits_concat(a: Seq<Field>, b: Seq<Field>)
    ensures
        fields_bits(a + b) == fields_bits(a) + fields_bits(b),
    decreases b.len(),
{
    if b.len() == 0 {
        assert(a + b =~= a);
        assert(fields_bits(a) + fields_bits(b) =~= fields_bits(a));
    } else {
        assert((a + b).drop_last() =~= a + b.drop_last());
        lemma_fields_bits_concat(a, b.drop_last());
        assert(fields_bits(a + b) =~= fields_bits(a) + fields_bits(b));
    }
}

pub proof fn lemma_msb_bits_push(v: nat, n: nat)
    requires
        n > 0,
    ensures
        msb_bits(v, n) == msb_bits(v / 2, (n - 1) as nat).push(v % 2 == 1),
{
    let head = msb_bits(v / 2, (n - 1) as nat);
    assert forall|i: int| 0 <= i < n - 1 implies msb_bits(v, n)[i] == #[trigger] head[i] by {
        let k = (n - 2 - i) as nat;
        lemma_pow2_unfold((k + 1) as nat);
        lemma_pow2_pos(k);
        lemma_div_denominator(v as int, 2, pow2(k) as int);
    }
    assert(msb_bits(v, n)[n - 1] == (v % 2 == 1)) by {
        lemma2_to64();
        lemma_div_basics(v as int);
    }
    assert(msb_bits(v, n) =~= head.push(v % 2 == 1));
}

/// Writing a number in `n` bits and reading the bits back gives the number
/// modulo two to the `n`.
pub proof fn lemma_bits_value_msb_bits(v: nat, n: nat)
    ensures
        bits_value(msb_bits(v, n)) == v % pow2(n),
    decreases n,
{
    lemma2_to64();
    if n == 0 {
        assert(msb_bits(v, 0) =~= Seq::empty());
    } else {
        lemma_msb_bits_push(v, n);
        lemma_bits_value_msb_bits(v / 2, (n - 1) as nat);
        let head = msb_bits(v / 2, (n - 1) as nat);
        assert(msb_bits(v, n).drop_last() =~= head);
        lemma_pow2_unfold(n);
        lemma_pow2_pos((n - 1) as nat);
        let p = pow2((n - 1) as nat) as int;
        lemma_mod_breakdown(v as int, 2, p);
        assert(v % 2 == 1 || v % 2 == 0);
    }
}

pub proof fn lemma_bits_value_bound(s: Seq<bool>)
    ensures
        bits_value(s) < pow2(s.len()),
    decreases s.len(),
{
    lemma2_to64();
    if s.len() > 0 {
        lemma_bits_value_bound(s.drop_last());
        lemma_pow2_unfold(s.len());
    }
}

/// Reading bits as a number and writing the number in as many bits gives the
/// bits back.
pub proof fn lemma_msb_bits_bits_value(s: Seq<bool>)
    ensures
        msb_bits(bits_value(s), s.len()) == s,
    decreases s.len(),
{
    if s.len() == 0 {
        assert(msb_bits(bits_value(s), 0) =~= s);
    } else {
        lemma_msb_bits_bits_value(s.drop_last());
        lemma_msb_bits_push(bits_value(s), s.len());
        assert(bits_value(s) / 2 == bits_value(s.drop_last()));
        assert(s =~= s.drop_last().push(s.last()));
    }
}

/// The bytes that `pack` gives hold the padded bits.
pub proof fn lemma_bytes_bits_pack(bits: Seq<bool>)
    ensures
        bytes_bits(pack(bits)) == padded(bits),
{
    let p = padded(bits);
    lemma2_to64();
    assert(p.len() == 8 * ((bits.len() + 7) / 8));
    assert forall|i: int| 0 <= i < p.len() implies bytes_bits(pack(bits))[i] == p[i] by {
        let chunk = p.subrange(8 * (i / 8), 8 * (i / 8) + 8);
        lemma_bits_value_bound(chunk);
        lemma_msb_bits_bits_value(chunk);
        assert(chunk[i % 8] == p[i]);
    }
    assert(bytes_bits(pack(bits)) =~= p);
}

/// A byte string is what its own bits pack to.
pub proof fn lemma_pack_bytes_bits(bytes: Seq<u8>)
    ensures
        pack(bytes_bits(bytes)) == bytes,
{
    let bits = bytes_bits(bytes);
    lemma2_to64();
    assert(padded(bits) =~= bits);
    assert forall|i: int| 0 <= i < bytes.len() implies pack(bits)[i] == bytes[i] by {
        let chunk = bits.subrange(8 * i, 8 * i + 8);
        assert(chunk =~= msb_bits(bytes[i] as nat, 8));
        lemma_bits_value_msb_bits(bytes[i] as nat, 8);
        lemma_small_mod(bytes[i] as nat, 256);
    }
    assert(pack(bits) =~= bytes);
}

/// The `n` low bits of a number in two's complement.
pub open spec fn low_bits(m: int, n: nat) -> Seq<bool> {
    msb_bits((m % (pow2(n) as int)) as nat, n)
}

pub proof fn lemma_low_bits(v: nat, m: int, n: nat)
    requires
        v as int % (pow2(n) as int) == m % (pow2(n) as int),
    ensures
        msb_bits(v, n) == low_bits(m, n),
{
    lemma_pow2_pos(n);
    lemma_bits_value_msb_bits(v, n);
    lemma_msb_bits_bits_value(msb_bits(v, n));
}

/// What is read from the first of two strings of bits does not depend on the second.
pub proof fn lemma_number_before(s: Seq<bool>, t: Seq<bool>, at: int, n: int)
    requires
        0 <= at,
        0 <= n,
        at + n <= s.len(),
    ensures
        number_at(s + t, at, n) == number_at(s, at, n),
{
    assert((s + t).subrange(at, at + n) =~= s.subrange(at, at + n));
}

/// The second of two strings of bits is read behind the first.
pub proof fn lemma_number_behind(s: Seq<bool>, t: Seq<bool>, at: int, n: int)
    requires
        0 <= at,
        0 <= n,
        at + n <= t.len(),
    ensures
        number_at(s + t, s.len() + at, n) == number_at(t, at, n),
{
    assert((s + t).subrange(s.len() + at, s.len() + at + n) =~= t.subrange(at, at + n));
}

/// A number between other bits is read back, modulo two to its width.
pub proof fn lemma_number_between(s: Seq<bool>, v: nat, n: nat, t: Seq<bool>)
    ensures
        number_at(s + msb_bits(v, n) + t, s.len() as int, n as int) == v % pow2(n),
{
    assert((s + msb_bits(v, n) + t).subrange(s.len() as int, (s.len() + n) as int) =~= msb_bits(v, n));
    lemma_bits_value_msb_bits(v, n);
}

} // verus!
