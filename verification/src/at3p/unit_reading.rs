//! What a reader gets out of the bits of a quantisation unit.

use vstd::prelude::*;
use vstd::arithmetic::power2::*;
use vstd::arithmetic::div_mod::*;
use crate::at3p::fields;
use crate::at3p::fields::BitField;
use crate::at3p::spectra;
use crate::at3p::tables::{SpectraTab, VlcElement};
use crate::bitstream::bits;

verus! {

/// Bits put above others add up with them.
proof fn lemma_put_above(a: u32, w: u32, s: u32, b: u32)
    requires
        s + b <= 31,
        a < pow2(s as nat),
        w < pow2(b as nat),
    ensures
        (a | (w << s)) == a + w * pow2(s as nat),
        (a | (w << s)) < pow2((s + b) as nat),
{
    lemma_pow2_adds(s as nat, b as nat);
    let ps = pow2(s as nat);
    let pb = pow2(b as nat);
    assert(w * ps <= (pb - 1) * ps) by (nonlinear_arith)
        requires
            w <= pb - 1,
    ;
    assert((pb - 1) * ps == ps * pb - ps) by (nonlinear_arith);
    if s + b < 31 {
        lemma_pow2_strictly_increases((s + b) as nat, 31);
    }
    lemma2_to64();
    vstd::bits::lemma_u32_shl_is_mul(w, s);
    vstd::bits::lemma_u32_shl_is_mul(1, s);
    assert((a | (w << s)) == a + (w << s)) by (bit_vector)
        requires
            a < (1u32 << s),
            s < 32,
    ;
}

proof fn lemma_index_grows(c: Seq<i32>, tab: SpectraTab, n: nat)
    requires
        n <= c.len(),
        tab.bits * n <= 31,
        forall|i: int|
            0 <= i < n ==> spectra::coeff_word(#[trigger] c[i], tab) < pow2(tab.bits as nat),
    ensures
        spectra::tuple_index(c, tab, n) < pow2((tab.bits * n) as nat),
        n > 0 ==> tab.bits * (n - 1) >= 0 && spectra::tuple_index(c, tab, n) == spectra::tuple_index(
            c,
            tab,
            (n - 1) as nat,
        ) + spectra::coeff_word(c[n - 1], tab) * pow2((tab.bits * (n - 1)) as nat),
    decreases n,
{
    lemma2_to64();
    if n > 0 {
        let b = tab.bits as int;
        assert(b * (n - 1) + b == b * n && b * (n - 1) >= 0) by (nonlinear_arith)
            requires
                b >= 0,
                n >= 1,
        ;
        lemma_index_grows(c, tab, (n - 1) as nat);
        assert(spectra::coeff_word(c[n - 1], tab) < pow2(tab.bits as nat));
        lemma_put_above(
            spectra::tuple_index(c, tab, (n - 1) as nat),
            spectra::coeff_word(c[n - 1], tab),
            (tab.bits * (n - 1)) as u32,
            tab.bits as u32,
        );
    } else {
        assert(tab.bits * n == 0) by (nonlinear_arith)
            requires
                n == 0,
        ;
    }
}

proof fn lemma_digit(c: Seq<i32>, tab: SpectraTab, n: nat, k: int)
    requires
        0 <= k < n <= c.len(),
        tab.bits * n <= 31,
        forall|i: int|
            0 <= i < n ==> spectra::coeff_word(#[trigger] c[i], tab) < pow2(tab.bits as nat),
    ensures
        tab.bits * k >= 0,
        spectra::tuple_index(c, tab, n) as nat / pow2((tab.bits * k) as nat) % pow2(tab.bits as nat)
            == spectra::coeff_word(c[k], tab),
    decreases n,
{
    let b = tab.bits as int;
    assert(b * k >= 0 && b * (n - 1) >= 0 && b * (n - 1) <= b * n) by (nonlinear_arith)
        requires
            b >= 0,
            n >= 1,
            k >= 0,
    ;
    lemma_index_grows(c, tab, n);
    lemma_index_grows(c, tab, (n - 1) as nat);
    let a = spectra::tuple_index(c, tab, (n - 1) as nat) as int;
    let w = spectra::coeff_word(c[n - 1], tab) as int;
    let p = pow2((b * (n - 1)) as nat) as int;
    let q = pow2((b * k) as nat) as int;
    let r = pow2(b as nat) as int;
    lemma_pow2_pos((b * (n - 1)) as nat);
    lemma_pow2_pos((b * k) as nat);
    lemma_pow2_pos(b as nat);
    if k == n - 1 {
        assert(w < r);
        lemma_fundamental_div_mod_converse(a + w * p, p, w, a);
        lemma_small_mod(w as nat, r as nat);
    } else {
        let rest = b * (n - 1) - b * k - b;
        assert(rest >= 0) by (nonlinear_arith)
            requires
                rest == b * (n - 1) - b * k - b,
                k + 1 <= n - 1,
                b >= 0,
        ;
        let m = pow2(rest as nat) as int;
        lemma_pow2_adds((b * k) as nat, b as nat);
        lemma_pow2_adds((b * k + b) as nat, rest as nat);
        assert(p == q * r * m);
        assert(w * p == (w * m * r) * q) by (nonlinear_arith)
            requires
                p == q * r * m,
        ;
        lemma_hoist_over_denominator(a, w * m * r, q as nat);
        assert((a + w * p) / q == a / q + w * m * r);
        assert(w * m * r == r * (w * m)) by (nonlinear_arith);
        lemma_mod_multiples_vanish(w * m, a / q, r);
        lemma_digit(c, tab, (n - 1) as nat, k);
    }
}

/// The index of a tuple tells its lines: of line `k` it has, from bit `k` times the width
/// on, the absolute value where signs are coded apart, else the low bits in two's
/// complement.
pub proof fn law_tuple_tells_lines(c: Seq<i32>, tab: SpectraTab, n: nat, k: int)
    requires
        0 <= k < n <= c.len(),
        c[k] > i32::MIN,
        tab.bits <= 8,
        tab.bits * n <= 31,
        forall|i: int|
            0 <= i < n ==> spectra::coeff_word(#[trigger] c[i], tab) < pow2(tab.bits as nat),
    ensures
        spectra::tuple_index(c, tab, n) < pow2((tab.bits * n) as nat),
        !tab.is_signed ==> spectra::tuple_index(c, tab, n) as nat / pow2((tab.bits * k) as nat) % pow2(
            tab.bits as nat,
        ) == (if c[k] < 0 {
            -c[k]
        } else {
            c[k] as int
        }),
        tab.is_signed ==> spectra::tuple_index(c, tab, n) as nat / pow2((tab.bits * k) as nat) % pow2(
            tab.bits as nat,
        ) == c[k] as int % (pow2(tab.bits as nat) as int),
{
    lemma_index_grows(c, tab, n);
    lemma_digit(c, tab, n, k);
    assert(spectra::coeff_word(c[k], tab) < pow2(tab.bits as nat));
    lemma_pow2_pos(tab.bits as nat);
    if !tab.is_signed && c[k] == 0 {
        lemma_small_mod(0, pow2(tab.bits as nat));
    }
    if tab.is_signed {
        lemma_pow2_strictly_increases(tab.bits as nat, 32);
        lemma2_to64();
    }
}

/// One bit for each line other than zero, set for a negative one.
pub open spec fn sign_bits(c: Seq<i32>) -> Seq<bool>
    decreases c.len(),
{
    if c.len() == 0 {
        Seq::empty()
    } else if c.last() == 0 {
        sign_bits(c.drop_last())
    } else {
        sign_bits(c.drop_last()).push(c.last() < 0)
    }
}

/// The bits of tuple `j` of a unit: a set bit where it opens a group of more than one, its
/// code word, and the signs of its lines where the table has none.
pub open spec fn tuple_bits(q: Seq<i32>, tab: SpectraTab, vlc: Seq<VlcElement>, j: int) -> Seq<bool> {
    let c = q.subrange(j * tab.num_coeffs, (j + 1) * tab.num_coeffs);
    let e = vlc[spectra::tuple_index(c, tab, tab.num_coeffs as nat) as int];
    (if tab.group_size > 1 && j % tab.group_size as int == 0 {
        seq![true]
    } else {
        Seq::empty()
    }) + bits::msb_bits(e.code as u16 as nat, e.len as u8 as nat) + (if tab.is_signed {
        Seq::empty()
    } else {
        sign_bits(c)
    })
}

/// The bits of the first `n` tuples of a unit.
pub open spec fn tuples_bits(q: Seq<i32>, tab: SpectraTab, vlc: Seq<VlcElement>, n: nat) -> Seq<bool>
    decreases n,
{
    if n == 0 {
        Seq::empty()
    } else {
        tuples_bits(q, tab, vlc, (n - 1) as nat) + tuple_bits(q, tab, vlc, n - 1)
    }
}

proof fn lemma_one_bit()
    ensures
        bits::msb_bits(0, 1) == seq![false],
        bits::msb_bits(1, 1) == seq![true],
        fields::fields_bits(seq![(0u16, 1u8)]) == seq![false],
        fields::fields_bits(seq![(1u16, 1u8)]) == seq![true],
{
    lemma2_to64();
    assert(bits::msb_bits(0, 1) =~= seq![false]);
    assert(bits::msb_bits(1, 1) =~= seq![true]);
    let none = Seq::<BitField>::empty();
    fields::lemma_fields_bits_push(none, (0u16, 1u8));
    fields::lemma_fields_bits_push(none, (1u16, 1u8));
    assert(none.push((0u16, 1u8)) =~= seq![(0u16, 1u8)]);
    assert(none.push((1u16, 1u8)) =~= seq![(1u16, 1u8)]);
    assert(Seq::<bool>::empty() + seq![false] =~= seq![false]);
    assert(Seq::<bool>::empty() + seq![true] =~= seq![true]);
}

proof fn lemma_sign_bits(c: Seq<i32>, tab: SpectraTab, n: nat)
    requires
        n <= c.len(),
    ensures
        tab.is_signed ==> fields::fields_bits(spectra::sign_fields(c, tab, n)).len() == 0,
        !tab.is_signed ==> fields::fields_bits(spectra::sign_fields(c, tab, n)) == sign_bits(
            c.take(n as int),
        ),
    decreases n,
{
    if n > 0 {
        lemma_sign_bits(c, tab, (n - 1) as nat);
        lemma_one_bit();
        let r = spectra::sign_fields(c, tab, (n - 1) as nat);
        assert(c.take(n as int).drop_last() =~= c.take(n - 1));
        assert(c.take(n as int).last() == c[n - 1]);
        if !tab.is_signed && c[n - 1] != 0 {
            let x = if c[n - 1] > 0 {
                seq![(0u16, 1u8)]
            } else {
                seq![(1u16, 1u8)]
            };
            fields::lemma_fields_bits_concat(r, x);
            assert(sign_bits(c.take(n as int)) =~= sign_bits(c.take(n - 1)) + seq![c[n - 1] < 0]);
        } else {
            assert(r + Seq::<BitField>::empty() =~= r);
        }
    } else {
        assert(c.take(0) =~= Seq::<i32>::empty());
    }
}

proof fn lemma_tuple_bits(c: Seq<i32>, tab: SpectraTab, vlc: Seq<VlcElement>)
    ensures
        ({
            let e = vlc[spectra::tuple_index(c, tab, c.len()) as int];
            fields::fields_bits(spectra::tuple_fields(c, tab, vlc)) == bits::msb_bits(
                e.code as u16 as nat,
                e.len as u8 as nat,
            ) + (if tab.is_signed {
                Seq::empty()
            } else {
                sign_bits(c)
            })
        }),
{
    let e = vlc[spectra::tuple_index(c, tab, c.len()) as int];
    let x = (e.code as u16, e.len as u8);
    let none = Seq::<BitField>::empty();
    let signs = spectra::sign_fields(c, tab, c.len());
    fields::lemma_fields_bits_concat(seq![x], signs);
    fields::lemma_fields_bits_push(none, x);
    assert(none.push(x) =~= seq![x]);
    assert(fields::fields_bits(none) =~= Seq::<bool>::empty());
    let m = bits::msb_bits(e.code as u16 as nat, e.len as u8 as nat);
    assert(Seq::<bool>::empty() + m =~= m);
    lemma_sign_bits(c, tab, c.len());
    assert(c.take(c.len() as int) =~= c);
    if tab.is_signed {
        assert(fields::fields_bits(signs) =~= Seq::<bool>::empty());
    }
}

/// A unit is written tuple after tuple, each as its lines say.
pub proof fn law_unit_reads_back(q: Seq<i32>, tab: SpectraTab, vlc: Seq<VlcElement>, n: nat)
    requires
        tab.num_coeffs >= 1,
        tab.group_size >= 1,
        n * tab.num_coeffs <= q.len(),
    ensures
        fields::fields_bits(spectra::tuples_fields(q, tab, vlc, n)) == tuples_bits(q, tab, vlc, n),
        n == q.len() / tab.num_coeffs as nat ==> fields::fields_bits(
            spectra::unit_fields(q, tab, vlc),
        ) == tuples_bits(q, tab, vlc, n),
    decreases n,
{
    if n > 0 {
        let m = (n - 1) as nat;
        let k = tab.num_coeffs as int;
        assert(m * k + k == n * k && m * k >= 0 && (n - 1 + 1) * k == n * k) by (nonlinear_arith)
            requires
                m == n - 1,
                n >= 1,
                k >= 1,
        ;
        law_unit_reads_back(q, tab, vlc, m);
        lemma_one_bit();
        let r = spectra::tuples_fields(q, tab, vlc, m);
        let opens = tab.group_size != 1 && m % tab.group_size as nat == 0;
        let flag = if opens {
            seq![(1u16, 1u8)]
        } else {
            Seq::<BitField>::empty()
        };
        let c = spectra::tuple(q, tab, m as int);
        assert(c =~= q.subrange(m * k, (m + 1) * k));
        let t = spectra::tuple_fields(c, tab, vlc);
        lemma_tuple_bits(c, tab, vlc);
        fields::lemma_fields_bits_concat(r, flag);
        fields::lemma_fields_bits_concat(r + flag, t);
        assert(fields::fields_bits(Seq::<BitField>::empty()) =~= Seq::<bool>::empty());
        assert(fields::fields_bits(spectra::tuples_fields(q, tab, vlc, n)) =~= tuples_bits(
            q,
            tab,
            vlc,
            n,
        ));
    } else {
        assert(fields::fields_bits(Seq::<BitField>::empty()) =~= Seq::<bool>::empty());
    }
}

} // verus!
