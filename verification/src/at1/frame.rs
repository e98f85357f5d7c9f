//! ATRAC1 frames: how word lengths, scale factors and lines become bits.

use vstd::prelude::*;
use vstd::arithmetic::power2::*;
use crate::at1::bitalloc;
use crate::at1::data;
use crate::at1::data::{
    BlockSizeMod, BFU_AMOUNT_TAB, BITS_PER_BFU_AMOUNT_TAB_IDX, MAX_BFUS, SPECS_PER_BLOCK,
};
use crate::bitstream::bits;
use crate::bitstream::{make_sign, BitStream, MAX_FIELD_BITS};

verus! {

/// A block with its lines quantised for the word length that it got.
#[derive(Debug, Clone, Eq, PartialEq)]
pub struct QuantBlock {
    pub scale_factor_index: u8,
    pub mantissas: Vec<i32>,
}

/// How a word length is written.
pub open spec fn word_code(w: u32) -> nat {
    if w == 0 {
        0
    } else {
        (w - 1) as nat
    }
}

/// The word lengths of the first `n` blocks.
pub open spec fn word_bits(words: Seq<u32>, n: nat) -> Seq<bool>
    decreases n,
{
    if n == 0 {
        Seq::empty()
    } else {
        word_bits(words, (n - 1) as nat) + bits::msb_bits(word_code(words[n - 1]), 4)
    }
}

/// The scale factors of the first `n` blocks.
pub open spec fn scale_bits(blocks: Seq<QuantBlock>, n: nat) -> Seq<bool>
    decreases n,
{
    if n == 0 {
        Seq::empty()
    } else {
        scale_bits(blocks, (n - 1) as nat) + bits::msb_bits(
            blocks[n - 1].scale_factor_index as nat,
            6,
        )
    }
}

/// The first `n` mantissas in words of `w` bits.
pub open spec fn mantissa_bits(m: Seq<i32>, w: u32, n: nat) -> Seq<bool>
    decreases n,
{
    if n == 0 {
        Seq::empty()
    } else {
        mantissa_bits(m, w, (n - 1) as nat) + bits::low_bits(m[n - 1] as int, w as nat)
    }
}

/// The lines of the first `n` blocks; those without a word length are left out.
pub open spec fn lines_bits(blocks: Seq<QuantBlock>, words: Seq<u32>, n: nat) -> Seq<bool>
    decreases n,
{
    if n == 0 {
        Seq::empty()
    } else {
        lines_bits(blocks, words, (n - 1) as nat) + (if words[n - 1] <= 1 {
            Seq::empty()
        } else {
            mantissa_bits(
                blocks[n - 1].mantissas@,
                words[n - 1],
                blocks[n - 1].mantissas@.len(),
            )
        })
    }
}

/// The bits before the word lengths.
pub open spec fn head_bits(mode: BlockSizeMod, bfu_idx: nat) -> Seq<bool> {
    mode.header_bits() + bits::msb_bits(bfu_idx, 3) + bits::msb_bits(0, 2) + bits::msb_bits(0, 3)
}

/// The bits after the lines.
pub open spec fn tail_bits() -> Seq<bool> {
    bits::msb_bits(0, 8) + bits::msb_bits(0, 8) + bits::msb_bits(0, 8)
}

/// A whole frame.
pub open spec fn frame_bits(
    blocks: Seq<QuantBlock>,
    mode: BlockSizeMod,
    bfu_idx: nat,
    words: Seq<u32>,
) -> Seq<bool> {
    head_bits(mode, bfu_idx) + word_bits(words, words.len()) + scale_bits(blocks, words.len())
        + lines_bits(blocks, words, words.len()) + tail_bits()
}

/// There is a block for every word length, with as many mantissas as it has lines.
pub open spec fn blocks_match(blocks: Seq<QuantBlock>, words: Seq<u32>) -> bool {
    &&& words.len() <= blocks.len()
    &&& words.len() <= MAX_BFUS
    &&& forall|i: int|
        0 <= i < words.len() ==> (#[trigger] blocks[i]).mantissas@.len() == SPECS_PER_BLOCK@[i]
}

pub proof fn lemma_word_bits_len(words: Seq<u32>, n: nat)
    ensures
        word_bits(words, n).len() == 4 * n,
    decreases n,
{
    if n > 0 {
        lemma_word_bits_len(words, (n - 1) as nat);
    }
}

pub proof fn lemma_scale_bits_len(blocks: Seq<QuantBlock>, n: nat)
    ensures
        scale_bits(blocks, n).len() == 6 * n,
    decreases n,
{
    if n > 0 {
        lemma_scale_bits_len(blocks, (n - 1) as nat);
    }
}

pub proof fn lemma_mantissa_bits_len(m: Seq<i32>, w: u32, n: nat)
    ensures
        mantissa_bits(m, w, n).len() == n * w,
    decreases n,
{
    if n > 0 {
        lemma_mantissa_bits_len(m, w, (n - 1) as nat);
    }
    assert(n * w == (if n == 0 {
        0
    } else {
        (n - 1) * w + w
    })) by (nonlinear_arith);
}

pub proof fn lemma_lines_bits_len(blocks: Seq<QuantBlock>, words: Seq<u32>, n: nat)
    requires
        n <= words.len(),
        blocks_match(blocks, words),
        bitalloc::words_wf(words),
    ensures
        lines_bits(blocks, words, n).len() == bitalloc::bits_used(words, n),
        bitalloc::bits_used(words, n) <= 320 * n,
    decreases n,
{
    if n > 0 {
        lemma_lines_bits_len(blocks, words, (n - 1) as nat);
        let b = blocks[n - 1];
        lemma_mantissa_bits_len(b.mantissas@, words[n - 1], b.mantissas@.len());
        let s = SPECS_PER_BLOCK@[n - 1] as int;
        let w = words[n - 1] as int;
        assert(s <= 20);
        assert(0 <= s * w <= 320) by (nonlinear_arith)
            requires
                0 <= s <= 20,
                0 <= w <= 16,
        ;
    }
}

/// Word lengths that can be written as one field.
pub open spec fn words_writable(words: Seq<u32>) -> bool {
    forall|i: int| 0 <= i < words.len() ==> (#[trigger] words[i]) <= MAX_FIELD_BITS
}

proof fn lemma_lines_bits_bound(blocks: Seq<QuantBlock>, words: Seq<u32>, n: nat)
    requires
        n <= words.len(),
        blocks_match(blocks, words),
        words_writable(words),
    ensures
        lines_bits(blocks, words, n).len() <= 460 * n,
    decreases n,
{
    if n > 0 {
        lemma_lines_bits_bound(blocks, words, (n - 1) as nat);
        let b = blocks[n - 1];
        lemma_mantissa_bits_len(b.mantissas@, words[n - 1], b.mantissas@.len());
        let s = SPECS_PER_BLOCK@[n - 1] as int;
        let w = words[n - 1] as int;
        assert(s <= 20);
        assert(0 <= s * w <= 460) by (nonlinear_arith)
            requires
                0 <= s <= 20,
                0 <= w <= 23,
        ;
    }
}

fn write_lines(m: &Vec<i32>, w: u32, bs: &mut BitStream)
    requires
        2 <= w <= MAX_FIELD_BITS,
        m@.len() <= 20,
        old(bs).wf(),
        old(bs).bits().len() + 460 + 7 <= usize::MAX,
    ensures
        final(bs).wf(),
        final(bs).bits() == old(bs).bits() + mantissa_bits(m@, w, m@.len()),
{
    let ghost start = bs.bits();
    assert(start + Seq::<bool>::empty() =~= start);
    let mut k: usize = 0;
    while k < m.len()
        invariant
            k <= m@.len() <= 20,
            2 <= w <= MAX_FIELD_BITS,
            bs.wf(),
            start.len() + 460 + 7 <= usize::MAX,
            bs.bits() == start + mantissa_bits(m@, w, k as nat),
        decreases m@.len() - k,
    {
        proof {
            lemma_mantissa_bits_len(m@, w, k as nat);
            assert(k * w <= 437) by (nonlinear_arith)
                requires
                    k <= 19,
                    w <= 23,
            ;
        }
        let s: i32 = make_sign(m[k], w);
        bs.write(s as u32, w as usize);
        proof {
            crate::bitstream::lemma_signed_low_bits(m@[k as int], w, s);
            assert(bs.bits() =~= start + mantissa_bits(m@, w, (k + 1) as nat));
        }
        k += 1;
    }
}

/// Writes a frame.
pub fn dump_frame(
    blocks: &[QuantBlock],
    block_size: &BlockSizeMod,
    bfu_idx: u32,
    bits_per_each_block: &[u32],
) -> (frame: Vec<u8>)
    requires
        block_size.wf(),
        blocks_match(blocks@, bits_per_each_block@),
        words_writable(bits_per_each_block@),
    ensures
        frame@ == bits::pack(
            frame_bits(blocks@, *block_size, bfu_idx as nat, bits_per_each_block@),
        ),
{
    let ghost words = bits_per_each_block@;
    let n: usize = bits_per_each_block.len();
    let mut bs = BitStream::new();
    bs.write(2 - block_size.log_count[0], 2);
    bs.write(2 - block_size.log_count[1], 2);
    bs.write(3 - block_size.log_count[2], 2);
    bs.write(0, 2);
    bs.write(bfu_idx, BITS_PER_BFU_AMOUNT_TAB_IDX as usize);
    bs.write(0, 2);
    bs.write(0, 3);
    let ghost head = head_bits(*block_size, bfu_idx as nat);
    assert(bs.bits() =~= head);
    assert(head.len() == 16);

    let mut i: usize = 0;
    assert(head + Seq::<bool>::empty() =~= head);
    while i < n
        invariant
            i <= n == words.len() <= MAX_BFUS,
            words == bits_per_each_block@,
            bs.wf(),
            head.len() == 16,
            bs.bits() == head + word_bits(words, i as nat),
        decreases n - i,
    {
        proof {
            lemma_word_bits_len(words, i as nat);
        }
        let w: u32 = bits_per_each_block[i];
        let code: u32 = if w != 0 {
            w - 1
        } else {
            0
        };
        bs.write(code, 4);
        assert(bs.bits() =~= head + word_bits(words, (i + 1) as nat));
        i += 1;
    }

    let ghost before_scale = bs.bits();
    proof {
        lemma_word_bits_len(words, words.len());
        assert(before_scale + Seq::<bool>::empty() =~= before_scale);
    }
    i = 0;
    while i < n
        invariant
            i <= n == words.len() <= MAX_BFUS,
            words == bits_per_each_block@,
            blocks_match(blocks@, words),
            bs.wf(),
            before_scale.len() <= 16 + 4 * 52,
            bs.bits() == before_scale + scale_bits(blocks@, i as nat),
        decreases n - i,
    {
        proof {
            lemma_scale_bits_len(blocks@, i as nat);
        }
        bs.write(blocks[i].scale_factor_index as u32, 6);
        assert(bs.bits() =~= before_scale + scale_bits(blocks@, (i + 1) as nat));
        i += 1;
    }

    let ghost before_lines = bs.bits();
    proof {
        lemma_scale_bits_len(blocks@, words.len());
        assert(before_lines + Seq::<bool>::empty() =~= before_lines);
    }
    i = 0;
    while i < n
        invariant
            i <= n == words.len() <= MAX_BFUS,
            words == bits_per_each_block@,
            blocks_match(blocks@, words),
            words_writable(words),
            bs.wf(),
            before_lines.len() <= 16 + 10 * 52,
            bs.bits() == before_lines + lines_bits(blocks@, words, i as nat),
        decreases n - i,
    {
        proof {
            lemma_lines_bits_bound(blocks@, words, i as nat);
            assert(blocks@[i as int].mantissas@.len() == SPECS_PER_BLOCK@[i as int]);
            assert(SPECS_PER_BLOCK@[i as int] <= 20);
        }
        let w: u32 = bits_per_each_block[i];
        if w > 1 {
            assert(words[i as int] <= MAX_FIELD_BITS);
            write_lines(&blocks[i].mantissas, w, &mut bs);
        }
        assert(bs.bits() =~= before_lines + lines_bits(blocks@, words, (i + 1) as nat));
        i += 1;
    }

    proof {
        lemma_lines_bits_bound(blocks@, words, words.len());
    }
    bs.write(0, 8);
    bs.write(0, 8);
    bs.write(0, 8);
    assert(bs.bits() =~= frame_bits(blocks@, *block_size, bfu_idx as nat, words));
    vstd::slice::slice_to_vec(bs.bytes())
}

/// A frame whose lines take no more than the bits of their budget takes no more
/// bytes than a sound unit.
pub proof fn law_frame_fits(
    blocks: Seq<QuantBlock>,
    mode: BlockSizeMod,
    bfu_idx: nat,
    words: Seq<u32>,
)
    requires
        blocks_match(blocks, words),
        bitalloc::words_wf(words),
        bitalloc::bits_used(words, words.len()) <= 1656 - 10 * words.len(),
    ensures
        bits::pack(frame_bits(blocks, mode, bfu_idx, words)).len() <= data::SOUND_UNIT_SIZE,
{
    lemma_word_bits_len(words, words.len());
    lemma_scale_bits_len(blocks, words.len());
    lemma_lines_bits_len(blocks, words, words.len());
}

} // verus!
