//! Constant and variable length coding of mantissas.

use vstd::prelude::*;
use vstd::arithmetic::power2::*;
use vstd::arithmetic::div_mod::*;
use crate::at3::data;
use crate::at3::data::{
    huff_table_for, mantissa_to_clc_idx, mantissas_to_vlc_index, CLC_LENGTH_TAB,
};
use crate::bitstream::bits;
use crate::bitstream::{make_sign, BitStream};

verus! {

/// The largest absolute value of a mantissa that the code table of a selector holds.
pub open spec fn mantissa_limit(selector: int) -> int {
    if selector == 1 {
        1
    } else if selector == 2 {
        2
    } else if selector == 3 {
        3
    } else if selector == 4 {
        4
    } else if selector == 5 {
        7
    } else if selector == 6 {
        15
    } else {
        31
    }
}

/// Every mantissa can be coded under `selector`.
pub open spec fn codable(selector: int, m: Seq<i32>) -> bool {
    forall|i: int|
        0 <= i < m.len() ==> -mantissa_limit(selector) <= #[trigger] m[i] <= mantissa_limit(
            selector,
        )
}

/// The part of a block that gets coded: whole pairs for selector 1.
pub open spec fn coded_part(selector: int, m: Seq<i32>, block_size: int) -> Seq<i32> {
    if selector > 1 {
        if block_size < m.len() {
            m.take(block_size)
        } else {
            m
        }
    } else {
        m.take(2 * (block_size / 2))
    }
}

/// Constant length code of mantissas.
pub open spec fn clc_bits(selector: int, m: Seq<i32>) -> Seq<bool>
    decreases m.len(),
{
    if selector > 1 {
        if m.len() == 0 {
            Seq::empty()
        } else {
            clc_bits(selector, m.drop_last()) + bits::low_bits(
                m.last() as int,
                CLC_LENGTH_TAB@[selector] as nat,
            )
        }
    } else {
        if m.len() < 2 {
            Seq::empty()
        } else {
            let a = m[m.len() - 2] as int;
            let b = m[m.len() - 1] as int;
            clc_bits(selector, m.take(m.len() - 2)) + bits::msb_bits(
                (4 * data::clc_idx(a) + data::clc_idx(b)) as nat,
                4,
            )
        }
    }
}

/// The place of a mantissa in a code table: 0, 1, -1, 2, -2 and so on.
pub open spec fn vlc_symbol(m: int) -> int {
    if m > 0 {
        2 * m - 1
    } else {
        -2 * m
    }
}

/// The code word at place `symbol` of the table of `selector`.
pub open spec fn code_word(selector: int, symbol: int) -> Seq<bool> {
    bits::msb_bits(
        data::huff_table(selector)[symbol].0 as nat,
        data::huff_table(selector)[symbol].1 as nat,
    )
}

/// Variable length code of mantissas.
pub open spec fn vlc_bits(selector: int, m: Seq<i32>) -> Seq<bool>
    decreases m.len(),
{
    if selector > 1 {
        if m.len() == 0 {
            Seq::empty()
        } else {
            vlc_bits(selector, m.drop_last()) + code_word(selector, vlc_symbol(m.last() as int))
        }
    } else {
        if m.len() < 2 {
            Seq::empty()
        } else {
            let a = m[m.len() - 2] as int;
            let b = m[m.len() - 1] as int;
            vlc_bits(selector, m.take(m.len() - 2)) + code_word(selector, data::vlc_pair_idx(a, b))
        }
    }
}

pub proof fn lemma_clc_bits_len(selector: int, m: Seq<i32>)
    requires
        1 <= selector <= 7,
    ensures
        selector > 1 ==> clc_bits(selector, m).len() == CLC_LENGTH_TAB@[selector] * m.len(),
        selector == 1 ==> clc_bits(selector, m).len() == 4 * (m.len() / 2),
    decreases m.len(),
{
    if selector > 1 {
        if m.len() > 0 {
            lemma_clc_bits_len(selector, m.drop_last());
            let n = CLC_LENGTH_TAB@[selector] as int;
            let l = m.len() as int;
            assert(n * (l - 1) + n == n * l) by (nonlinear_arith);
        } else {
            assert(CLC_LENGTH_TAB@[selector] * m.len() == 0);
        }
    } else if m.len() >= 2 {
        lemma_clc_bits_len(selector, m.take(m.len() - 2));
    }
}

/// Codes the first `block_size` mantissas with a constant number of bits each
/// and returns that number of bits; without a bitstream it only counts.
pub fn clc_encode(
    selector: u32,
    mantissas: &[i32],
    block_size: u32,
    bitstream: Option<&mut BitStream>,
) -> (bits_used: u32)
    requires
        1 <= selector <= 7,
        CLC_LENGTH_TAB@[selector as int] * block_size <= u32::MAX,
        selector == 1 ==> mantissas@.len() >= 2 * (block_size / 2),
        selector == 1 ==> forall|i: int|
            0 <= i < 2 * (block_size / 2) ==> -3 < #[trigger] mantissas@[i] < 2,
        bitstream matches Some(bs) ==> bs.wf() && bs.bits().len() + (if selector > 1 {
            CLC_LENGTH_TAB@[selector as int] * block_size
        } else {
            2 * block_size as int
        }) + 7 <= usize::MAX,
    ensures
        bits_used == (if selector > 1 {
            CLC_LENGTH_TAB@[selector as int] * block_size
        } else {
            2 * block_size as int
        }),
        bitstream matches Some(bs) ==> final(bs).wf() && final(bs).read_pos() == bs.read_pos()
            && final(bs).bits() == bs.bits() + clc_bits(
            selector as int,
            coded_part(selector as int, mantissas@, block_size as int),
        ),
{
    let num_bits: u32 = CLC_LENGTH_TAB[selector as usize];
    let bits_used: u32 = if selector > 1 {
        num_bits * block_size
    } else {
        assert(num_bits == 4);
        4 * block_size / 2
    };
    assert(bits_used == (if selector > 1 {
        CLC_LENGTH_TAB@[selector as int] * block_size
    } else {
        2 * block_size as int
    }));
    let ghost part = coded_part(selector as int, mantissas@, block_size as int);
    match bitstream {
        Some(bs) => {
            let ghost start = bs.bits();
            let ghost start_pos = bs.read_pos();
            if selector > 1 {
                let count: usize = if (block_size as usize) < mantissas.len() {
                    block_size as usize
                } else {
                    mantissas.len()
                };
                let mut i: usize = 0;
                proof {
                    assert(part.take(0) =~= Seq::<i32>::empty());
                    assert(start + Seq::<bool>::empty() =~= start);
                }
                while i < count
                    invariant
                        2 <= selector <= 7,
                        i <= count,
                        count <= mantissas@.len(),
                        count <= block_size,
                        part == mantissas@.take(count as int),
                        num_bits == CLC_LENGTH_TAB@[selector as int],
                        bs.wf(),
                        bs.read_pos() == start_pos,
                        bs.bits() == start + clc_bits(selector as int, part.take(i as int)),
                        start.len() + num_bits * block_size + 7 <= usize::MAX,
                    decreases count - i,
                {
                    proof {
                        lemma_clc_bits_len(selector as int, part.take(i as int));
                        assert(num_bits * i + num_bits <= num_bits * block_size)
                            by (nonlinear_arith)
                            requires
                                i + 1 <= block_size,
                                num_bits >= 0,
                        ;
                    }
                    let m: i32 = mantissas[i];
                    let s: i32 = make_sign(m, num_bits);
                    bs.write(s as u32, num_bits as usize);
                    proof {
                        crate::bitstream::lemma_signed_low_bits(m, num_bits, s);
                        assert(part.take(i + 1).drop_last() =~= part.take(i as int));
                        assert(bs.bits() =~= start + clc_bits(selector as int, part.take(i + 1)));
                    }
                    i += 1;
                }
                assert(part.take(count as int) =~= part);
            } else {
                let pairs: usize = block_size as usize / 2;
                let mut i: usize = 0;
                proof {
                    assert(part.take(0) =~= Seq::<i32>::empty());
                    assert(start + Seq::<bool>::empty() =~= start);
                }
                while i < pairs
                    invariant
                        selector == 1,
                        i <= pairs,
                        pairs == block_size / 2,
                        2 * pairs <= mantissas@.len(),
                        part == mantissas@.take(2 * pairs),
                        num_bits == 4,
                        forall|j: int| 0 <= j < 2 * pairs ==> -3 < #[trigger] mantissas@[j] < 2,
                        bs.wf(),
                        bs.read_pos() == start_pos,
                        bs.bits() == start + clc_bits(selector as int, part.take(2 * i)),
                        start.len() + 2 * block_size + 7 <= usize::MAX,
                    decreases pairs - i,
                {
                    proof {
                        lemma_clc_bits_len(selector as int, part.take(2 * i));
                    }
                    let a: u32 = mantissa_to_clc_idx(mantissas[i * 2]);
                    let b: u32 = mantissa_to_clc_idx(mantissas[i * 2 + 1]);
                    let code: u32 = (a << 2) | b;
                    assert(a < 4 && b < 4 ==> (a << 2u32) | b == 4 * a + b) by (bit_vector);
                    bs.write(code, num_bits as usize);
                    proof {
                        let p = part.take(2 * (i + 1));
                        assert(p.take(p.len() - 2) =~= part.take(2 * i));
                        assert(bs.bits() =~= start + clc_bits(selector as int, p));
                    }
                    i += 1;
                }
                assert(part.take(2 * pairs) =~= part);
            }
        },
        None => {},
    }
    bits_used
}

pub proof fn lemma_symbol_in_table(selector: int, m: int)
    requires
        2 <= selector <= 7,
        -mantissa_limit(selector) <= m <= mantissa_limit(selector),
    ensures
        0 <= vlc_symbol(m) < data::huff_table(selector).len(),
{
}

proof fn lemma_code_word(selector: int, symbol: int)
    requires
        1 <= selector <= 7,
        0 <= symbol < data::huff_table(selector).len(),
    ensures
        1 <= data::huff_table(selector)[symbol].1 <= 8,
        code_word(selector, symbol).len() == data::huff_table(selector)[symbol].1,
{
}

/// The length of the code of a prefix is at most that of the whole.
proof fn lemma_vlc_bits_prefix(selector: int, m: Seq<i32>, k: int)
    requires
        1 <= selector <= 7,
        0 <= k <= m.len(),
        selector == 1 ==> k % 2 == m.len() as int % 2,
    ensures
        vlc_bits(selector, m.take(k)).len() <= vlc_bits(selector, m).len(),
    decreases m.len() - k,
{
    if k == m.len() {
        assert(m.take(k) =~= m);
    } else if selector > 1 {
        lemma_vlc_bits_prefix(selector, m, k + 1);
        assert(m.take(k + 1).drop_last() =~= m.take(k));
    } else {
        lemma_vlc_bits_prefix(selector, m, k + 2);
        let p = m.take(k + 2);
        assert(p.take(p.len() - 2) =~= m.take(k));
    }
}

/// A code word takes at most eight bits.
pub proof fn lemma_vlc_bits_len(selector: int, m: Seq<i32>)
    requires
        1 <= selector <= 7,
        codable(selector, m),
    ensures
        vlc_bits(selector, m).len() <= 8 * m.len(),
    decreases m.len(),
{
    if selector > 1 {
        if m.len() > 0 {
            assert(codable(selector, m.drop_last()));
            lemma_vlc_bits_len(selector, m.drop_last());
            assert(m.last() == m[m.len() - 1]);
            lemma_symbol_in_table(selector, m.last() as int);
            lemma_code_word(selector, vlc_symbol(m.last() as int));
        }
    } else if m.len() >= 2 {
        assert(codable(selector, m.take(m.len() - 2)));
        lemma_vlc_bits_len(selector, m.take(m.len() - 2));
        let a = m[m.len() - 2] as int;
        let b = m[m.len() - 1] as int;
        lemma_code_word(selector, data::vlc_pair_idx(a, b));
    }
}

/// The place in the code table of the mantissas at step `i`.
fn symbol_at(selector: u32, mantissas: &[i32], i: usize) -> (symbol: usize)
    requires
        1 <= selector <= 7,
        codable(selector as int, mantissas@),
        selector > 1 ==> i < mantissas@.len(),
        selector == 1 ==> 2 * i + 1 < mantissas@.len(),
    ensures
        selector > 1 ==> symbol == vlc_symbol(mantissas@[i as int] as int),
        selector == 1 ==> symbol == data::vlc_pair_idx(
            mantissas@[2 * i] as int,
            mantissas@[2 * i + 1] as int,
        ),
        symbol < data::huff_table(selector as int).len(),
{
    if selector > 1 {
        let m: i32 = mantissas[i];
        proof {
            lemma_symbol_in_table(selector as int, m as int);
        }
        let doubled: u32 = if m < 0 {
            let a: u32 = (-m) as u32;
            assert(a < 64 ==> (a << 1u32) | 1u32 == 2 * a + 1) by (bit_vector);
            (a << 1) | 1
        } else {
            let a: u32 = m as u32;
            assert(a < 64 ==> (a << 1u32) == 2 * a) by (bit_vector);
            a << 1
        };
        if doubled > 0 {
            (doubled - 1) as usize
        } else {
            0
        }
    } else {
        assert(mantissas@.len() == mantissas.len());
        mantissas_to_vlc_index(mantissas[i * 2], mantissas[i * 2 + 1]) as usize
    }
}

/// The mantissas coded after `i` steps.
spec fn steps_part(selector: int, m: Seq<i32>, i: int) -> Seq<i32> {
    m.take(if selector > 1 {
        i
    } else {
        2 * i
    })
}

proof fn lemma_vlc_step(selector: int, m: Seq<i32>, i: int)
    requires
        1 <= selector <= 7,
        codable(selector, m),
        0 <= i,
        selector > 1 ==> i < m.len(),
        selector == 1 ==> 2 * i + 1 < m.len() && m.len() % 2 == 0,
    ensures
        vlc_bits(selector, steps_part(selector, m, i + 1)) == vlc_bits(
            selector,
            steps_part(selector, m, i),
        ) + code_word(
            selector,
            if selector > 1 {
                vlc_symbol(m[i] as int)
            } else {
                data::vlc_pair_idx(m[2 * i] as int, m[2 * i + 1] as int)
            },
        ),
        vlc_bits(selector, steps_part(selector, m, i + 1)).len() <= vlc_bits(selector, m).len(),
{
    if selector > 1 {
        assert(m.take(i + 1).drop_last() =~= m.take(i));
        lemma_vlc_bits_prefix(selector, m, i + 1);
    } else {
        let p = m.take(2 * i + 2);
        assert(p.take(p.len() - 2) =~= m.take(2 * i));
        lemma_vlc_bits_prefix(selector, m, 2 * i + 2);
    }
}

/// Codes the first `block_size` mantissas by the code table of the selector and
/// returns the number of bits used; without a bitstream it only counts.
pub fn vlc_encode(
    selector: u32,
    mantissas: &[i32],
    block_size: u32,
    bitstream: Option<&mut BitStream>,
) -> (bits_used: u32)
    requires
        1 <= selector <= 7,
        selector == 1 ==> mantissas@.len() >= 2 * (block_size / 2),
        codable(selector as int, coded_part(selector as int, mantissas@, block_size as int)),
        vlc_bits(
            selector as int,
            coded_part(selector as int, mantissas@, block_size as int),
        ).len() <= u32::MAX,
        bitstream matches Some(bs) ==> bs.wf() && bs.bits().len() + vlc_bits(
            selector as int,
            coded_part(selector as int, mantissas@, block_size as int),
        ).len() + 7 <= usize::MAX,
    ensures
        bits_used == vlc_bits(
            selector as int,
            coded_part(selector as int, mantissas@, block_size as int),
        ).len(),
        bitstream matches Some(bs) ==> final(bs).wf() && final(bs).read_pos() == bs.read_pos()
            && final(bs).bits() == bs.bits() + vlc_bits(
            selector as int,
            coded_part(selector as int, mantissas@, block_size as int),
        ),
{
    let ghost part = coded_part(selector as int, mantissas@, block_size as int);
    let ghost whole = vlc_bits(selector as int, part);
    let huff_table: &[(u8, u8)] = huff_table_for(selector);
    let count: usize = if selector > 1 {
        if (block_size as usize) < mantissas.len() {
            block_size as usize
        } else {
            mantissas.len()
        }
    } else {
        2 * (block_size as usize / 2)
    };
    let used: &[i32] = vstd::slice::slice_subrange(mantissas, 0, count);
    assert(used@ =~= part);
    let steps: usize = if selector > 1 {
        count
    } else {
        count / 2
    };
    let mut bits_used: u32 = 0;
    assert(steps_part(selector as int, part, 0) =~= Seq::<i32>::empty());
    assert(steps_part(selector as int, part, steps as int) =~= part);
    match bitstream {
        Some(bs) => {
            let ghost start = bs.bits();
            let ghost start_pos = bs.read_pos();
            let mut i: usize = 0;
            assert(start + Seq::<bool>::empty() =~= start);
            while i < steps
                invariant
                    1 <= selector <= 7,
                    i <= steps,
                    selector > 1 ==> steps == part.len(),
                    selector == 1 ==> 2 * steps == part.len(),
                    used@ == part,
                    codable(selector as int, part),
                    huff_table@ == data::huff_table(selector as int),
                    bs.wf(),
                    bs.read_pos() == start_pos,
                    whole == vlc_bits(selector as int, part),
                    bs.bits() == start + vlc_bits(
                        selector as int,
                        steps_part(selector as int, part, i as int),
                    ),
                    bits_used == vlc_bits(
                        selector as int,
                        steps_part(selector as int, part, i as int),
                    ).len(),
                    whole.len() <= u32::MAX,
                    start.len() + whole.len() + 7 <= usize::MAX,
                decreases steps - i,
            {
                let symbol: usize = symbol_at(selector, used, i);
                let entry: (u8, u8) = huff_table[symbol];
                proof {
                    lemma_code_word(selector as int, symbol as int);
                    lemma_vlc_step(selector as int, part, i as int);
                }
                bits_used += entry.1 as u32;
                bs.write(entry.0 as u32, entry.1 as usize);
                assert(bs.bits() =~= start + vlc_bits(
                    selector as int,
                    steps_part(selector as int, part, i + 1),
                ));
                i += 1;
            }
        },
        None => {
            let mut i: usize = 0;
            while i < steps
                invariant
                    1 <= selector <= 7,
                    i <= steps,
                    selector > 1 ==> steps == part.len(),
                    selector == 1 ==> 2 * steps == part.len(),
                    used@ == part,
                    codable(selector as int, part),
                    huff_table@ == data::huff_table(selector as int),
                    whole == vlc_bits(selector as int, part),
                    bits_used == vlc_bits(
                        selector as int,
                        steps_part(selector as int, part, i as int),
                    ).len(),
                    whole.len() <= u32::MAX,
                decreases steps - i,
            {
                let symbol: usize = symbol_at(selector, used, i);
                let entry: (u8, u8) = huff_table[symbol];
                proof {
                    lemma_code_word(selector as int, symbol as int);
                    lemma_vlc_step(selector as int, part, i as int);
                }
                bits_used += entry.1 as u32;
                i += 1;
            }
        },
    }
    bits_used
}

/// The bits that the constant length code spends on a mantissa.
pub open spec fn clc_width(selector: int) -> nat {
    if selector == 1 {
        2
    } else {
        CLC_LENGTH_TAB@[selector] as nat
    }
}

/// A number that the constant length code of a selector can hold.
pub open spec fn fits_clc(selector: int, m: int) -> bool {
    -(pow2((clc_width(selector) - 1) as nat) as int) <= m < pow2((clc_width(selector) - 1) as nat)
}

/// Every mantissa fits the constant length code of `selector`.
pub open spec fn clc_codable(selector: int, m: Seq<i32>) -> bool {
    forall|i: int| 0 <= i < m.len() ==> fits_clc(selector, #[trigger] m[i] as int)
}

/// The constant length code of a number that fits it gives the number back once its
/// sign is restored.
pub proof fn law_clc_decodes(selector: int, m: int)
    requires
        1 <= selector <= 7,
        fits_clc(selector, m),
    ensures
        ({
            let n = clc_width(selector);
            crate::bitstream::sign_extend(bits::bits_value(bits::low_bits(m, n)) as int, n) == m
        }),
{
    let n = clc_width(selector);
    lemma2_to64();
    let p = pow2(n) as int;
    bits::lemma_bits_value_msb_bits((m % p) as nat, n);
    lemma_mod_twice(m, p);
    if m >= 0 {
        lemma_small_mod(m as nat, p as nat);
    } else {
        lemma_mod_add_multiples_vanish(m, p);
        lemma_small_mod((m + p) as nat, p as nat);
    }
}

/// The variable length symbols of distinct mantissas differ.
pub proof fn law_vlc_symbol_injective(a: int, b: int)
    requires
        vlc_symbol(a) == vlc_symbol(b),
    ensures
        a == b,
{
}

} // verus!
