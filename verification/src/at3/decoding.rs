//! The codes of ATRAC3 mantissas can be read back.

use vstd::prelude::*;
use vstd::arithmetic::div_mod::*;
use vstd::arithmetic::mul::*;
use vstd::arithmetic::power2::*;
use crate::at3::coding;
use crate::at3::data;
use crate::bitstream::bits;

verus! {

/// The symbol with the `r`-th code word of a table, in the order of the words.
spec fn symbol_of_rank(selector: int, r: int) -> int {
    if selector == 7 {
        if r == 0 {
            0
        } else if r <= 2 {
            r + 60
        } else {
            r - 2
        }
    } else if selector == 6 {
        if r <= 6 {
            r
        } else if r <= 8 {
            r + 22
        } else {
            r - 2
        }
    } else if selector == 5 {
        if r <= 6 {
            r
        } else if r <= 8 {
            r + 6
        } else {
            r - 2
        }
    } else {
        r
    }
}

/// The rank of the code word of a symbol.
spec fn rank(selector: int, symbol: int) -> int {
    if selector == 7 {
        if symbol == 0 {
            0
        } else if symbol >= 61 {
            symbol - 60
        } else {
            symbol + 2
        }
    } else if selector == 6 {
        if symbol <= 6 {
            symbol
        } else if symbol >= 29 {
            symbol - 22
        } else {
            symbol + 2
        }
    } else if selector == 5 {
        if symbol <= 6 {
            symbol
        } else if symbol >= 13 {
            symbol - 6
        } else {
            symbol + 2
        }
    } else {
        symbol
    }
}

spec fn word(selector: int, symbol: int) -> int {
    data::huff_table(selector)[symbol].0 as int
}

spec fn word_len(selector: int, symbol: int) -> int {
    data::huff_table(selector)[symbol].1 as int
}

/// `v` with `n` further bits behind it, all zero.
spec fn shifted(v: int, n: int) -> int
    decreases n,
{
    if n <= 0 {
        v
    } else {
        2 * shifted(v, n - 1)
    }
}

/// The number of bytes that begin with the code word of a symbol.
spec fn width(selector: int, symbol: int) -> int {
    shifted(1, 8 - word_len(selector, symbol))
}

/// The first byte that begins with the code word of a symbol.
spec fn start(selector: int, symbol: int) -> int {
    shifted(word(selector, symbol), 8 - word_len(selector, symbol))
}

/// Up to rank `n` the bytes that begin with a word come after those that begin with
/// words of lower rank, and the words are no longer than they claim.
spec fn in_order(selector: int, n: int) -> bool
    decreases n,
{
    let s = symbol_of_rank(selector, n);
    &&& 1 <= word_len(selector, s) <= 8
    &&& start(selector, s) + width(selector, s) <= 256
    &&& n > 0 ==> in_order(selector, n - 1) && start(selector, symbol_of_rank(selector, n - 1))
        + width(selector, symbol_of_rank(selector, n - 1)) <= start(selector, s)
}

proof fn lemma_short_tables_in_order()
    ensures
        in_order(1, 8),
        in_order(2, 4),
        in_order(3, 6),
        in_order(4, 8),
        in_order(5, 14),
{
    reveal_with_fuel(shifted, 9);
    reveal_with_fuel(in_order, 16);
}

proof fn lemma_table_6_in_order()
    ensures
        in_order(6, 30),
{
    reveal_with_fuel(shifted, 9);
    reveal_with_fuel(in_order, 32);
}

#[verifier::rlimit(60)]
proof fn lemma_table_7_in_order()
    ensures
        in_order(7, 62),
{
    reveal_with_fuel(shifted, 9);
    reveal_with_fuel(in_order, 64);
}

/// The ranks of a table, and the order of its words.
proof fn lemma_table(selector: int)
    requires
        1 <= selector <= 7,
    ensures
        in_order(selector, data::huff_table(selector).len() - 1),
        forall|s: int|
            0 <= s < data::huff_table(selector).len() ==> 0 <= #[trigger] rank(selector, s)
                < data::huff_table(selector).len() && symbol_of_rank(selector, rank(selector, s))
                == s,
{
    if selector <= 5 {
        lemma_short_tables_in_order();
    } else if selector == 6 {
        lemma_table_6_in_order();
    } else {
        lemma_table_7_in_order();
    }
}

/// What `in_order` says of the word of rank `r`, and of one of lower rank.
proof fn lemma_in_order(selector: int, n: int, r: int, lower: int)
    requires
        in_order(selector, n),
        0 <= lower < r <= n || lower == r && 0 <= r <= n,
    ensures
        1 <= word_len(selector, symbol_of_rank(selector, r)) <= 8,
        start(selector, symbol_of_rank(selector, r)) + width(
            selector,
            symbol_of_rank(selector, r),
        ) <= 256,
        lower < r ==> start(selector, symbol_of_rank(selector, lower)) + width(
            selector,
            symbol_of_rank(selector, lower),
        ) <= start(selector, symbol_of_rank(selector, r)),
    decreases n,
{
    if r < n {
        lemma_in_order(selector, n - 1, r, lower);
    } else if lower < n - 1 {
        lemma_in_order(selector, n - 1, n - 1, lower);
        lemma_shifted(1, 8 - word_len(selector, symbol_of_rank(selector, n - 1)));
        lemma_pow2_pos((8 - word_len(selector, symbol_of_rank(selector, n - 1))) as nat);
    }
}

proof fn lemma_shifted(v: int, n: int)
    requires
        0 <= n,
    ensures
        shifted(v, n) == v * pow2(n as nat),
    decreases n,
{
    if n == 0 {
        lemma2_to64();
    } else {
        lemma_shifted(v, n - 1);
        lemma_pow2_unfold(n as nat);
        let p = pow2((n - 1) as nat) as int;
        assert(2 * (v * p) == v * (2 * p)) by (nonlinear_arith);
    }
}

/// The first `k` of `n` bits of a number are those of its quotient.
proof fn lemma_msb_bits_take(v: nat, n: nat, k: nat)
    requires
        k <= n,
    ensures
        bits::msb_bits(v, n).take(k as int) == bits::msb_bits(v / pow2((n - k) as nat), k),
{
    let d = (n - k) as nat;
    lemma_pow2_pos(d);
    let q = v / pow2(d);
    assert forall|i: int| 0 <= i < k implies bits::msb_bits(v, n).take(k as int)[i]
        == #[trigger] bits::msb_bits(q, k)[i] by {
        let e = (k - 1 - i) as nat;
        lemma_pow2_adds(d, e);
        lemma_pow2_pos(e);
        lemma_div_denominator(v as int, pow2(d) as int, pow2(e) as int);
        assert((n - 1 - i) as nat == d + e);
    }
    assert(bits::msb_bits(v, n).take(k as int) =~= bits::msb_bits(q, k));
}

/// A code word fits its length.
proof fn lemma_word_fits(selector: int, s: int)
    requires
        1 <= selector <= 7,
        0 <= s < data::huff_table(selector).len(),
    ensures
        1 <= word_len(selector, s) <= 8,
        word(selector, s) < pow2(word_len(selector, s) as nat),
        bits::bits_value(coding::code_word(selector, s)) == word(selector, s),
{
    lemma_table(selector);
    let r = rank(selector, s);
    lemma_in_order(selector, data::huff_table(selector).len() - 1, r, r);
    let c = word(selector, s);
    let l = word_len(selector, s);
    lemma_shifted(c, 8 - l);
    lemma_shifted(1, 8 - l);
    lemma_pow2_adds(l as nat, (8 - l) as nat);
    lemma2_to64();
    lemma_pow2_pos((8 - l) as nat);
    let p = pow2(l as nat) as int;
    let q = pow2((8 - l) as nat) as int;
    assert(c < p) by (nonlinear_arith)
        requires
            c * q + 1 * q <= 256,
            p * q == 256,
            q > 0,
    ;
    bits::lemma_bits_value_msb_bits(c as nat, l as nat);
    lemma_small_mod(c as nat, pow2(l as nat));
}

/// No code word of a table begins with another one.
pub proof fn law_words_prefix_free(selector: int, s: int, t: int)
    requires
        1 <= selector <= 7,
        0 <= s < data::huff_table(selector).len(),
        0 <= t < data::huff_table(selector).len(),
        coding::code_word(selector, s).is_prefix_of(coding::code_word(selector, t)),
    ensures
        s == t,
{
    lemma_word_fits(selector, s);
    lemma_word_fits(selector, t);
    let (cs, ls) = (word(selector, s), word_len(selector, s));
    let (ct, lt) = (word(selector, t), word_len(selector, t));
    let d = (lt - ls) as nat;
    let p = pow2(d) as int;
    let q = pow2((8 - lt) as nat) as int;
    lemma_pow2_pos(d);
    lemma_pow2_pos((8 - lt) as nat);
    lemma_msb_bits_take(ct as nat, lt as nat, ls as nat);
    assert(coding::code_word(selector, t).take(ls) =~= coding::code_word(selector, s));
    let quotient = (ct as nat) / pow2(d);
    bits::lemma_bits_value_msb_bits(quotient, ls as nat);
    lemma_pow2_adds(ls as nat, d);
    let pl = pow2(ls as nat) as int;
    assert(pl * p == p * pl) by (nonlinear_arith);
    lemma_fundamental_div_mod(ct, p);
    let z = ct / p;
    let m = ct % p;
    assert(z < pl) by (nonlinear_arith)
        requires
            ct == p * z + m,
            0 <= m,
            ct < p * pl,
            p > 0,
    ;
    lemma_div_pos_is_pos(ct, p);
    lemma_small_mod(quotient, pow2(ls as nat));
    assert(cs == z);
    lemma_shifted(cs, 8 - ls);
    lemma_shifted(1, 8 - ls);
    lemma_shifted(ct, 8 - lt);
    lemma_shifted(1, 8 - lt);
    lemma_pow2_adds(d, (8 - lt) as nat);
    assert(pow2((8 - ls) as nat) == p * q);
    assert(cs * (p * q) <= ct * q && ct * q < cs * (p * q) + p * q) by (nonlinear_arith)
        requires
            ct == p * cs + m,
            0 <= m < p,
            q > 0,
    ;
    lemma_table(selector);
    let n = data::huff_table(selector).len() - 1;
    if rank(selector, s) < rank(selector, t) {
        lemma_in_order(selector, n, rank(selector, t), rank(selector, s));
    } else if rank(selector, t) < rank(selector, s) {
        lemma_in_order(selector, n, rank(selector, s), rank(selector, t));
    }
}

/// The number of mantissas that share a code word.
spec fn group(selector: int) -> int {
    if selector > 1 {
        1
    } else {
        2
    }
}

/// The symbol of the first mantissas of a block.
spec fn first_symbol(selector: int, m: Seq<i32>) -> int {
    if selector > 1 {
        coding::vlc_symbol(m[0] as int)
    } else {
        data::vlc_pair_idx(m[0] as int, m[1] as int)
    }
}

/// The code of a block starts with the code word of its first mantissas.
proof fn lemma_first_word(selector: int, m: Seq<i32>)
    requires
        1 <= selector <= 7,
        m.len() >= group(selector),
        m.len() as int % group(selector) == 0,
    ensures
        coding::vlc_bits(selector, m) == coding::code_word(selector, first_symbol(selector, m))
            + coding::vlc_bits(selector, m.skip(group(selector))),
    decreases m.len(),
{
    let g = group(selector);
    let head = m.take(m.len() - g);
    let rest = m.skip(g);
    let w = coding::code_word(selector, first_symbol(selector, m));
    if selector > 1 {
        assert(m.drop_last() =~= head);
    }
    if m.len() == g {
        assert(coding::vlc_bits(selector, head) =~= Seq::<bool>::empty());
        assert(coding::vlc_bits(selector, rest) =~= Seq::<bool>::empty());
        assert(coding::vlc_bits(selector, m) =~= w + coding::vlc_bits(selector, rest));
    } else {
        lemma_first_word(selector, head);
        assert(first_symbol(selector, head) == first_symbol(selector, m));
        if selector > 1 {
            assert(rest.drop_last() =~= head.skip(g));
            assert(rest.last() == m.last());
        } else {
            assert(rest.take(rest.len() - 2) =~= head.skip(g));
            assert(rest[rest.len() - 2] == m[m.len() - 2]);
            assert(rest[rest.len() - 1] == m[m.len() - 1]);
        }
        assert(coding::vlc_bits(selector, m) =~= w + coding::vlc_bits(selector, rest));
    }
}

/// Of two code words that start the same bits, the shorter one is a prefix of the
/// other.
proof fn lemma_same_start(a: Seq<bool>, b: Seq<bool>, x: Seq<bool>, y: Seq<bool>)
    requires
        a + x == b + y,
        a.len() <= b.len(),
    ensures
        a.is_prefix_of(b),
        a.len() == b.len() ==> x == y,
{
    assert forall|i: int| 0 <= i < a.len() implies a[i] == b[i] by {
        assert((a + x)[i] == a[i]);
        assert((b + y)[i] == b[i]);
    }
    assert(a =~= b.subrange(0, a.len() as int));
    if a.len() == b.len() {
        assert(x =~= (a + x).skip(a.len() as int));
        assert(y =~= (b + y).skip(a.len() as int));
    }
}

/// The first mantissas have a symbol of their table.
proof fn lemma_first_symbol(selector: int, m: Seq<i32>)
    requires
        1 <= selector <= 7,
        coding::codable(selector, m),
        m.len() >= group(selector),
    ensures
        0 <= first_symbol(selector, m) < data::huff_table(selector).len(),
{
    if selector > 1 {
        assert(-coding::mantissa_limit(selector) <= m[0] <= coding::mantissa_limit(selector));
        coding::lemma_symbol_in_table(selector, m[0] as int);
    } else {
        assert(-1 <= m[0] <= 1 && -1 <= m[1] <= 1);
    }
}

/// The variable length code of a block tells its mantissas, whatever follows it:
/// two blocks of the same size whose codes start the same bits are the same.
pub proof fn law_vlc_decodes(
    selector: int,
    a: Seq<i32>,
    b: Seq<i32>,
    x: Seq<bool>,
    y: Seq<bool>,
)
    requires
        1 <= selector <= 7,
        coding::codable(selector, a),
        coding::codable(selector, b),
        a.len() == b.len(),
        selector == 1 ==> a.len() % 2 == 0,
        coding::vlc_bits(selector, a) + x == coding::vlc_bits(selector, b) + y,
    ensures
        a == b,
        x == y,
    decreases a.len(),
{
    let g = group(selector);
    if a.len() == 0 {
        assert(coding::vlc_bits(selector, a) + x =~= x);
        assert(coding::vlc_bits(selector, b) + y =~= y);
        assert(a =~= b);
    } else {
        let (sa, sb) = (first_symbol(selector, a), first_symbol(selector, b));
        let (wa, wb) = (coding::code_word(selector, sa), coding::code_word(selector, sb));
        let ra = coding::vlc_bits(selector, a.skip(g)) + x;
        let rb = coding::vlc_bits(selector, b.skip(g)) + y;
        lemma_first_word(selector, a);
        lemma_first_word(selector, b);
        lemma_first_symbol(selector, a);
        lemma_first_symbol(selector, b);
        assert(wa + ra =~= coding::vlc_bits(selector, a) + x);
        assert(wb + rb =~= coding::vlc_bits(selector, b) + y);
        if wa.len() <= wb.len() {
            lemma_same_start(wa, wb, ra, rb);
            law_words_prefix_free(selector, sa, sb);
        } else {
            lemma_same_start(wb, wa, rb, ra);
            law_words_prefix_free(selector, sb, sa);
        }
        lemma_same_start(wa, wb, ra, rb);
        assert forall|i: int| 0 <= i < a.skip(g).len() implies -coding::mantissa_limit(selector)
            <= #[trigger] a.skip(g)[i] <= coding::mantissa_limit(selector) by {
            assert(a.skip(g)[i] == a[i + g]);
        }
        assert forall|i: int| 0 <= i < b.skip(g).len() implies -coding::mantissa_limit(selector)
            <= #[trigger] b.skip(g)[i] <= coding::mantissa_limit(selector) by {
            assert(b.skip(g)[i] == b[i + g]);
        }
        law_vlc_decodes(selector, a.skip(g), b.skip(g), x, y);
        assert forall|i: int| 0 <= i < a.len() implies a[i] == b[i] by {
            if i >= g {
                assert(a.skip(g)[i - g] == b.skip(g)[i - g]);
            } else if selector > 1 {
                coding::law_vlc_symbol_injective(a[0] as int, b[0] as int);
            } else {
                assert(-1 <= a[0] <= 1 && -1 <= a[1] <= 1 && -1 <= b[0] <= 1 && -1 <= b[1] <= 1);
                data::law_vlc_pair_idx_injective(
                    a[0] as int,
                    a[1] as int,
                    b[0] as int,
                    b[1] as int,
                );
            }
        }
        assert(a =~= b);
    }
}

/// The constant length code of the first mantissas of a block.
spec fn first_clc(selector: int, m: Seq<i32>) -> Seq<bool> {
    if selector > 1 {
        bits::low_bits(m[0] as int, data::CLC_LENGTH_TAB@[selector] as nat)
    } else {
        bits::msb_bits((4 * data::clc_idx(m[0] as int) + data::clc_idx(m[1] as int)) as nat, 4)
    }
}

/// The constant length code of a block starts with that of its first mantissas.
proof fn lemma_first_clc(selector: int, m: Seq<i32>)
    requires
        1 <= selector <= 7,
        m.len() >= group(selector),
        m.len() as int % group(selector) == 0,
    ensures
        coding::clc_bits(selector, m) == first_clc(selector, m) + coding::clc_bits(
            selector,
            m.skip(group(selector)),
        ),
    decreases m.len(),
{
    let g = group(selector);
    let head = m.take(m.len() - g);
    let rest = m.skip(g);
    let w = first_clc(selector, m);
    if selector > 1 {
        assert(m.drop_last() =~= head);
    }
    if m.len() == g {
        assert(coding::clc_bits(selector, head) =~= Seq::<bool>::empty());
        assert(coding::clc_bits(selector, rest) =~= Seq::<bool>::empty());
        assert(coding::clc_bits(selector, m) =~= w + coding::clc_bits(selector, rest));
    } else {
        lemma_first_clc(selector, head);
        assert(first_clc(selector, head) == first_clc(selector, m));
        if selector > 1 {
            assert(rest.drop_last() =~= head.skip(g));
            assert(rest.last() == m.last());
        } else {
            assert(rest.take(rest.len() - 2) =~= head.skip(g));
            assert(rest[rest.len() - 2] == m[m.len() - 2]);
            assert(rest[rest.len() - 1] == m[m.len() - 1]);
        }
        assert(coding::clc_bits(selector, m) =~= w + coding::clc_bits(selector, rest));
    }
}

/// Mantissas with the same constant length code are the same.
proof fn lemma_same_clc(selector: int, a: Seq<i32>, b: Seq<i32>)
    requires
        1 <= selector <= 7,
        coding::clc_codable(selector, a),
        coding::clc_codable(selector, b),
        a.len() >= group(selector),
        b.len() >= group(selector),
        first_clc(selector, a) == first_clc(selector, b),
    ensures
        a[0] == b[0],
        selector == 1 ==> a[1] == b[1],
{
    if selector > 1 {
        assert(coding::fits_clc(selector, a[0] as int));
        assert(coding::fits_clc(selector, b[0] as int));
        coding::law_clc_decodes(selector, a[0] as int);
        coding::law_clc_decodes(selector, b[0] as int);
    } else {
        assert(coding::fits_clc(1, a[0] as int) && coding::fits_clc(1, a[1] as int));
        assert(coding::fits_clc(1, b[0] as int) && coding::fits_clc(1, b[1] as int));
        let va = (4 * data::clc_idx(a[0] as int) + data::clc_idx(a[1] as int)) as nat;
        let vb = (4 * data::clc_idx(b[0] as int) + data::clc_idx(b[1] as int)) as nat;
        lemma2_to64();
        bits::lemma_bits_value_msb_bits(va, 4);
        bits::lemma_bits_value_msb_bits(vb, 4);
        lemma_small_mod(va, 16);
        lemma_small_mod(vb, 16);
    }
}

/// The constant length code of a block tells its mantissas, whatever follows it.
pub proof fn law_clc_block_decodes(
    selector: int,
    a: Seq<i32>,
    b: Seq<i32>,
    x: Seq<bool>,
    y: Seq<bool>,
)
    requires
        1 <= selector <= 7,
        coding::clc_codable(selector, a),
        coding::clc_codable(selector, b),
        a.len() == b.len(),
        selector == 1 ==> a.len() % 2 == 0,
        coding::clc_bits(selector, a) + x == coding::clc_bits(selector, b) + y,
    ensures
        a == b,
        x == y,
    decreases a.len(),
{
    let g = group(selector);
    if a.len() == 0 {
        assert(coding::clc_bits(selector, a) + x =~= x);
        assert(coding::clc_bits(selector, b) + y =~= y);
        assert(a =~= b);
    } else {
        let (wa, wb) = (first_clc(selector, a), first_clc(selector, b));
        let ra = coding::clc_bits(selector, a.skip(g)) + x;
        let rb = coding::clc_bits(selector, b.skip(g)) + y;
        lemma_first_clc(selector, a);
        lemma_first_clc(selector, b);
        assert(wa + ra =~= coding::clc_bits(selector, a) + x);
        assert(wb + rb =~= coding::clc_bits(selector, b) + y);
        assert(wa.len() == wb.len());
        lemma_same_start(wa, wb, ra, rb);
        assert(wa =~= wb);
        lemma_same_clc(selector, a, b);
        assert forall|i: int| 0 <= i < a.skip(g).len() implies coding::fits_clc(
            selector,
            #[trigger] a.skip(g)[i] as int,
        ) by {
            assert(a.skip(g)[i] == a[i + g]);
        }
        assert forall|i: int| 0 <= i < b.skip(g).len() implies coding::fits_clc(
            selector,
            #[trigger] b.skip(g)[i] as int,
        ) by {
            assert(b.skip(g)[i] == b[i + g]);
        }
        law_clc_block_decodes(selector, a.skip(g), b.skip(g), x, y);
        assert forall|i: int| 0 <= i < a.len() implies a[i] == b[i] by {
            if i >= g {
                assert(a.skip(g)[i - g] == b.skip(g)[i - g]);
            }
        }
        assert(a =~= b);
    }
}

/// The constant length code of a pair is that of its mantissas one after the other.
proof fn lemma_clc_pair(a: int, b: int)
    ensures
        bits::msb_bits((4 * data::clc_idx(a) + data::clc_idx(b)) as nat, 4) == bits::low_bits(a, 2)
            + bits::low_bits(b, 2),
{
    lemma2_to64();
    let v = (4 * data::clc_idx(a) + data::clc_idx(b)) as nat;
    let whole = bits::msb_bits(v, 4);
    let parts = bits::low_bits(a, 2) + bits::low_bits(b, 2);
    let (x, y) = ((a % 4) as nat, (b % 4) as nat);
    assert(v / 8 % 2 == x / 2 % 2 && v / 4 % 2 == x / 1 % 2 && v / 2 % 2 == y / 2 % 2 && v / 1 % 2
        == y / 1 % 2);
    assert(whole[0] == parts[0]);
    assert(whole[1] == parts[1]);
    assert(whole[2] == parts[2]);
    assert(whole[3] == parts[3]);
    assert(whole =~= parts);
}

/// Number `i` of a constant length code is mantissa `i`.
proof fn lemma_clc_number(selector: int, m: Seq<i32>, i: int)
    requires
        1 <= selector <= 7,
        coding::clc_codable(selector, m),
        selector == 1 ==> m.len() % 2 == 0,
        0 <= i < m.len(),
    ensures
        coding::clc_bits(selector, m).len() == coding::clc_width(selector) * m.len(),
        crate::bitstream::sign_extend(
            bits::number_at(
                coding::clc_bits(selector, m),
                i * coding::clc_width(selector),
                coding::clc_width(selector) as int,
            ) as int,
            coding::clc_width(selector),
        ) == m[i],
    decreases m.len(),
{
    let g = group(selector);
    let w = coding::clc_width(selector) as int;
    let n = m.len() as int;
    let head = m.take(n - g);
    let all = coding::clc_bits(selector, m);
    let before = coding::clc_bits(selector, head);
    if selector > 1 {
        assert(head =~= m.drop_last());
    } else {
        lemma_clc_pair(m[n - 2] as int, m[n - 1] as int);
    }
    assert forall|k: int| 0 <= k < head.len() implies coding::fits_clc(
        selector,
        #[trigger] head[k] as int,
    ) by {
        assert(head[k] == m[k]);
    }
    if n > g {
        lemma_clc_number(selector, head, 0);
    } else {
        assert(w * 0 == 0);
    }
    assert(before.len() == w * (n - g));
    assert(w * (n - g) + w * g == w * n && i * w == w * i && w * (n - 1) + w == w * n && w * (n - 2)
        + 2 * w == w * n) by (nonlinear_arith);
    assert(w * g == (if selector == 1 {
        2 * w
    } else {
        w
    })) by (nonlinear_arith)
        requires
            g == (if selector == 1 {
                2int
            } else {
                1
            }),
    ;
    coding::law_clc_decodes(selector, m[i] as int);
    assert(coding::fits_clc(selector, m[i] as int));
    if i < n - g {
        lemma_clc_number(selector, head, i);
        assert(w * i + w <= w * (n - g)) by (nonlinear_arith)
            requires
                i + 1 <= n - g,
                w >= 0,
        ;
        assert(all.subrange(i * w, i * w + w) =~= before.subrange(i * w, i * w + w));
    } else {
        assert(all.subrange(i * w, i * w + w) =~= bits::low_bits(m[i] as int, w as nat));
    }
}

/// A block of the constant length code takes as many bits for every mantissa. Wherever it
/// stands in a stream, reading it number by number, each with its sign restored, gives
/// the mantissas back in order.
pub proof fn law_clc_reads_back(
    selector: int,
    mantissas: Seq<i32>,
    block_size: int,
    before: Seq<bool>,
    behind: Seq<bool>,
    i: int,
)
    requires
        1 <= selector <= 7,
        block_size <= mantissas.len(),
        selector == 1 ==> block_size % 2 == 0,
        coding::clc_codable(selector, mantissas.take(block_size)),
        0 <= i < block_size,
    ensures
        ({
            let w = coding::clc_width(selector);
            let code = coding::clc_bits(
                selector,
                coding::coded_part(selector, mantissas, block_size),
            );
            &&& code.len() == w * block_size
            &&& crate::bitstream::sign_extend(
                bits::number_at(before + code + behind, before.len() + i * w, w as int) as int,
                w,
            ) == mantissas[i]
        }),
{
    let w = coding::clc_width(selector) as int;
    let m = mantissas.take(block_size);
    let code = coding::clc_bits(selector, m);
    assert(coding::coded_part(selector, mantissas, block_size) =~= m);
    lemma_clc_number(selector, m, i);
    let at = before.len() + i * w;
    assert(0 <= i * w && i * w + w <= w * block_size) by (nonlinear_arith)
        requires
            0 <= i < block_size,
            0 <= w,
    ;
    assert((before + code + behind).subrange(at, at + w) =~= code.subrange(i * w, i * w + w));
}

/// The variable length codes of different blocks of one size differ, and neither is the
/// start of the other.
pub proof fn law_vlc_block_prefix_free(
    selector: int,
    a: Seq<i32>,
    b: Seq<i32>,
    block_size: int,
)
    requires
        1 <= selector <= 7,
        0 <= block_size <= a.len(),
        block_size <= b.len(),
        selector == 1 ==> block_size % 2 == 0,
        coding::codable(selector, a.take(block_size)),
        coding::codable(selector, b.take(block_size)),
        a.take(block_size) != b.take(block_size),
    ensures
        ({
            let x = coding::vlc_bits(selector, coding::coded_part(selector, a, block_size));
            let y = coding::vlc_bits(selector, coding::coded_part(selector, b, block_size));
            !x.is_prefix_of(y) && !y.is_prefix_of(x)
        }),
{
    let (p, q) = (a.take(block_size), b.take(block_size));
    let (x, y) = (coding::vlc_bits(selector, p), coding::vlc_bits(selector, q));
    let none = Seq::<bool>::empty();
    assert(coding::coded_part(selector, a, block_size) =~= p);
    assert(coding::coded_part(selector, b, block_size) =~= q);
    if x.is_prefix_of(y) {
        assert(x + y.skip(x.len() as int) =~= y + none);
        law_vlc_decodes(selector, p, q, y.skip(x.len() as int), none);
    }
    if y.is_prefix_of(x) {
        assert(y + x.skip(y.len() as int) =~= x + none);
        law_vlc_decodes(selector, q, p, x.skip(y.len() as int), none);
    }
}

/// Symbols count mantissas by magnitude, each positive one before its negative: 0 stands for
/// 0, an odd symbol for half of what follows it, an even one for half of itself, negative.
pub proof fn law_symbols_count_mantissas(m: int)
    ensures
        m == 0 ==> coding::vlc_symbol(m) == 0,
        m > 0 ==> coding::vlc_symbol(m) % 2 == 1 && (coding::vlc_symbol(m) + 1) / 2 == m,
        m < 0 ==> coding::vlc_symbol(m) % 2 == 0 && coding::vlc_symbol(m) / 2 == -m,
{
}

/// The symbols of pairs: none for two zeros, then one line other than zero, the second before
/// the first and the positive before the negative, then two of them.
pub proof fn law_pair_symbols(a: int, b: int)
    requires
        -1 <= a <= 1,
        -1 <= b <= 1,
    ensures
        a == 0 && b == 0 ==> data::vlc_pair_idx(a, b) == 0,
        a == 0 && b == 1 ==> data::vlc_pair_idx(a, b) == 1,
        a == 0 && b == -1 ==> data::vlc_pair_idx(a, b) == 2,
        a == 1 && b == 0 ==> data::vlc_pair_idx(a, b) == 3,
        a == -1 && b == 0 ==> data::vlc_pair_idx(a, b) == 4,
        a == 1 && b == 1 ==> data::vlc_pair_idx(a, b) == 5,
        a == 1 && b == -1 ==> data::vlc_pair_idx(a, b) == 6,
        a == -1 && b == 1 ==> data::vlc_pair_idx(a, b) == 7,
        a == -1 && b == -1 ==> data::vlc_pair_idx(a, b) == 8,
{
}

/// Mantissa `i` of a block is coded behind those before it, by the code word of its own
/// symbol; at selector 1 so are pairs.
pub proof fn law_words_in_order(selector: int, m: Seq<i32>, i: int)
    requires
        1 <= selector <= 7,
        0 <= i,
        selector > 1 ==> i < m.len(),
        selector == 1 ==> 2 * i + 2 <= m.len() && m.len() % 2 == 0,
    ensures
        ({
            let b = coding::vlc_bits(selector, m);
            let step = if selector == 1 {
                2int
            } else {
                1
            };
            let at = coding::vlc_bits(selector, m.take(step * i)).len() as int;
            let symbol = if selector == 1 {
                data::vlc_pair_idx(m[2 * i] as int, m[2 * i + 1] as int)
            } else {
                coding::vlc_symbol(m[i] as int)
            };
            let w = data::huff_table(selector)[symbol];
            let word = bits::msb_bits(w.0 as nat, w.1 as nat);
            &&& at + word.len() <= b.len()
            &&& b.subrange(at, at + word.len()) == word
        }),
    decreases m.len(),
{
    let b = coding::vlc_bits(selector, m);
    let step = if selector == 1 {
        2int
    } else {
        1
    };
    let last = m.len() - step;
    let r = m.take(last);
    assert(selector > 1 ==> r =~= m.drop_last());
    let rb = coding::vlc_bits(selector, r);
    let at = coding::vlc_bits(selector, m.take(step * i)).len() as int;
    let symbol = if selector == 1 {
        data::vlc_pair_idx(m[2 * i] as int, m[2 * i + 1] as int)
    } else {
        coding::vlc_symbol(m[i] as int)
    };
    let w = data::huff_table(selector)[symbol];
    let word = bits::msb_bits(w.0 as nat, w.1 as nat);
    if step * i < last {
        law_words_in_order(selector, r, i);
        assert(r.take(step * i) =~= m.take(step * i));
        assert(b.subrange(at, at + word.len()) =~= rb.subrange(at, at + word.len()));
    } else {
        assert(m.take(step * i) =~= r);
        assert(b == rb + word);
        assert(b.subrange(at, at + word.len()) =~= word);
    }
}

/// How large the mantissas of a selector are.
pub proof fn law_mantissa_limits(selector: int)
    requires
        1 <= selector <= 7,
    ensures
        selector <= 4 ==> coding::mantissa_limit(selector) == selector,
        selector >= 5 ==> coding::mantissa_limit(selector) + 1 == pow2((selector - 2) as nat),
{
    lemma2_to64();
}

/// Constant length codes are as short as the mantissas of the selector allow.
pub proof fn law_clc_widths_least(selector: int)
    requires
        2 <= selector <= 7,
    ensures
        pow2((coding::clc_width(selector) - 2) as nat) <= coding::mantissa_limit(selector) < pow2(
            (coding::clc_width(selector) - 1) as nat,
        ),
{
    lemma2_to64();
}

} // verus!
