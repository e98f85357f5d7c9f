//! Reading ATRAC1 frames back into scale factors and mantissas.

use vstd::prelude::*;
use vstd::arithmetic::power2::*;
use crate::at1::bitalloc;
use crate::at1::data;
use crate::at1::data::{
    bfu_to_band, BlockSizeMod, BFU_AMOUNT_TAB, BLOCKS_PER_BAND, MAX_BFUS, SPECS_PER_BLOCK,
    SPECS_START_LONG, SPECS_START_SHORT,
};
use crate::at1::frame;
use crate::at1::frame::QuantBlock;
use crate::atrac::scale;
use crate::atrac::scale::BlockLayout;
use crate::bitstream::bits;
use crate::bitstream::{make_sign, BitStream};

verus! {

/// A block as read from a frame: where its lines start, and for each line its
/// mantissa, 0 throughout where the word length is 0.
#[derive(Debug, Clone, Eq, PartialEq)]
pub struct DequantBlock {
    pub start_pos: usize,
    pub word_len: u32,
    pub scale_factor_index: u32,
    pub mantissas: Vec<i32>,
}

/// The number of blocks that the bits from `at` on announce.
pub open spec fn num_bfus_at(all: Seq<bool>, at: int) -> int {
    BFU_AMOUNT_TAB@[bits::number_at(all, at, 3) as int] as int
}

/// The word length of block `i`.
pub open spec fn word_len_at(all: Seq<bool>, at: int, i: int) -> int {
    let code = bits::number_at(all, at + 8 + 4 * i, 4);
    if i >= num_bfus_at(all, at) || code == 0 {
        0
    } else {
        code as int + 1
    }
}

/// The scale factor of block `i`.
pub open spec fn scale_at(all: Seq<bool>, at: int, i: int) -> int {
    if i >= num_bfus_at(all, at) {
        0
    } else {
        bits::number_at(all, at + 8 + 4 * num_bfus_at(all, at) + 6 * i, 6) as int
    }
}

/// Where the lines of block `i` start in the bits.
pub open spec fn lines_at(all: Seq<bool>, at: int, i: nat) -> int
    decreases i,
{
    if i == 0 {
        at + 8 + 10 * num_bfus_at(all, at)
    } else {
        lines_at(all, at, (i - 1) as nat) + SPECS_PER_BLOCK@[i - 1] * word_len_at(all, at, i - 1)
    }
}

/// The mantissa of line `k` of block `i`.
pub open spec fn mantissa_at(all: Seq<bool>, at: int, i: int, k: int) -> int {
    let w = word_len_at(all, at, i);
    if w == 0 {
        0
    } else {
        crate::bitstream::sign_extend(
            bits::number_at(all, lines_at(all, at, i as nat) + k * w, w) as int,
            w as nat,
        )
    }
}

/// What block `i` is read as.
pub open spec fn is_block_at(
    all: Seq<bool>,
    at: int,
    log_count: Seq<u32>,
    i: int,
    b: DequantBlock,
) -> bool {
    &&& b.start_pos == data::specs_start(log_count, i)
    &&& b.word_len == word_len_at(all, at, i)
    &&& b.scale_factor_index == scale_at(all, at, i)
    &&& b.mantissas@.len() == SPECS_PER_BLOCK@[i]
    &&& forall|k: int|
        0 <= k < b.mantissas@.len() ==> #[trigger] b.mantissas@[k] == mantissa_at(all, at, i, k)
}

/// A block is put where its own band has it: band `band` holds the blocks from
/// `BLOCKS_PER_BAND[band]` up to the next entry, and its split alone chooses between the
/// starts of short and of whole transforms.
pub proof fn law_block_starts(
    all: Seq<bool>,
    at: int,
    log_count: Seq<u32>,
    band: int,
    i: int,
    b: DequantBlock,
)
    requires
        0 <= band < 3,
        BLOCKS_PER_BAND@[band] <= i < BLOCKS_PER_BAND@[band + 1],
        is_block_at(all, at, log_count, i, b),
    ensures
        log_count[band] != 0 ==> b.start_pos == SPECS_START_SHORT@[i],
        log_count[band] == 0 ==> b.start_pos == SPECS_START_LONG@[i],
        b.mantissas@.len() == SPECS_PER_BLOCK@[i],
{
}

/// Decoding puts every block back where the spectrum was cut for it: under a layout of
/// the ATRAC1 tables, whose windows are short in just the split bands, block `i` is read
/// to the very lines from which it was taken.
pub proof fn law_blocks_return(
    all: Seq<bool>,
    at: int,
    log_count: Seq<u32>,
    layout: BlockLayout<'_>,
    i: int,
    b: DequantBlock,
)
    requires
        0 <= i < MAX_BFUS,
        is_block_at(all, at, log_count, i, b),
        layout.num_qmf == 3,
        layout.blocks_per_band@.len() == 4,
        layout.short_windows@.len() == 3,
        forall|k: int| 0 <= k < 4 ==> #[trigger] layout.blocks_per_band@[k] == BLOCKS_PER_BAND@[k],
        forall|k: int| 0 <= k < 3 ==> #[trigger] layout.short_windows@[k] == (log_count[k] != 0),
        forall|k: int|
            0 <= k < MAX_BFUS ==> #[trigger] layout.specs_start_short@[k] == SPECS_START_SHORT@[k],
        forall|k: int|
            0 <= k < MAX_BFUS ==> #[trigger] layout.specs_start_long@[k] == SPECS_START_LONG@[k],
        forall|k: int|
            0 <= k < MAX_BFUS ==> #[trigger] layout.specs_per_block@[k] == SPECS_PER_BLOCK@[k],
    ensures
        layout.ranges(3).len() == MAX_BFUS,
        layout.ranges(3)[i] == (b.start_pos, b.mantissas@.len() as usize),
{
    let band: int = if i < 20 {
        0
    } else if i < 36 {
        1
    } else {
        2
    };
    assert(layout.blocks_per_band@[0] == 0 && layout.blocks_per_band@[1] == 20
        && layout.blocks_per_band@[2] == 36 && layout.blocks_per_band@[3] == 52);
    scale::law_block_ranges(layout, band, i);
    law_block_starts(all, at, log_count, band, i, b);
    assert(layout.short_windows@[band] == (log_count[band] != 0));
    assert(layout.specs_start_short@[i] == SPECS_START_SHORT@[i]);
    assert(layout.specs_start_long@[i] == SPECS_START_LONG@[i]);
    assert(layout.specs_per_block@[i] == SPECS_PER_BLOCK@[i]);
}

proof fn lemma_number_bound(all: Seq<bool>, at: int, n: int)
    requires
        0 <= at,
        0 <= n,
        at + n <= all.len(),
    ensures
        bits::number_at(all, at, n) < pow2(n as nat),
{
    bits::lemma_bits_value_bound(all.subrange(at, at + n));
}

/// The blocks that the bits announce are 20 to 52.
proof fn lemma_num_bfus(all: Seq<bool>, at: int)
    requires
        0 <= at,
        at + 3 <= all.len(),
    ensures
        20 <= num_bfus_at(all, at) <= MAX_BFUS,
        bits::number_at(all, at, 3) < 8,
{
    lemma2_to64();
    lemma_number_bound(all, at, 3);
}

proof fn lemma_word_len(all: Seq<bool>, at: int, i: int)
    requires
        0 <= at,
        0 <= i,
        at + 8 + 10 * num_bfus_at(all, at) <= all.len(),
        num_bfus_at(all, at) >= 0,
    ensures
        0 <= word_len_at(all, at, i) <= 16,
        word_len_at(all, at, i) != 1,
{
    lemma2_to64();
    if i < num_bfus_at(all, at) {
        lemma_number_bound(all, at + 8 + 4 * i, 4);
    }
}

proof fn lemma_lines_mono(all: Seq<bool>, at: int, i: nat, j: nat)
    requires
        0 <= at,
        i <= j <= MAX_BFUS,
        at + 8 + 10 * num_bfus_at(all, at) <= all.len(),
        num_bfus_at(all, at) >= 0,
    ensures
        at + 8 + 10 * num_bfus_at(all, at) <= lines_at(all, at, i) <= lines_at(all, at, j) <= lines_at(
            all,
            at,
            i,
        ) + 320 * (j - i),
    decreases j,
{
    if j > 0 {
        let s = SPECS_PER_BLOCK@[j - 1] as int;
        let w = word_len_at(all, at, j - 1);
        lemma_word_len(all, at, j - 1);
        assert(s <= 20);
        assert(0 <= s * w <= 320) by (nonlinear_arith)
            requires
                0 <= s <= 20,
                0 <= w <= 16,
        ;
        if i < j {
            lemma_lines_mono(all, at, i, (j - 1) as nat);
        } else {
            lemma_lines_mono(all, at, (j - 1) as nat, (j - 1) as nat);
        }
    }
}

/// Reads frames.
#[derive(Debug, Clone, Copy)]
pub struct Atrac1Dequantiser;

/// Reads `n` numbers of `width` bits.
fn read_numbers(stream: &mut BitStream, n: usize, width: usize) -> (v: Vec<u32>)
    requires
        old(stream).wf(),
        n <= MAX_BFUS,
        width <= 6,
        old(stream).read_pos() + n * width <= bits::padded(old(stream).bits()).len(),
    ensures
        final(stream).wf(),
        final(stream).bits() == old(stream).bits(),
        final(stream).read_pos() == old(stream).read_pos() + n * width,
        v@.len() == n,
        forall|i: int|
            0 <= i < n ==> #[trigger] v@[i] == bits::number_at(
                bits::padded(old(stream).bits()),
                old(stream).read_pos() + i * width,
                width as int,
            ),
{
    let ghost all = bits::padded(stream.bits());
    let ghost start = stream.read_pos() as int;
    let mut v: Vec<u32> = Vec::new();
    let mut i: usize = 0;
    while i < n
        invariant
            i <= n <= MAX_BFUS,
            width <= 6,
            stream.wf(),
            stream.bits() == old(stream).bits(),
            all == bits::padded(stream.bits()),
            start == old(stream).read_pos(),
            stream.read_pos() == start + i * width,
            start + n * width <= all.len(),
            v@.len() == i,
            forall|k: int|
                0 <= k < i ==> #[trigger] v@[k] == bits::number_at(
                    all,
                    start + k * width,
                    width as int,
                ),
        decreases n - i,
    {
        assert(i * width + width == (i + 1) * width && (i + 1) * width <= n * width)
            by (nonlinear_arith)
            requires
                i < n,
        ;
        let x: u32 = stream.read(width);
        v.push(x);
        i += 1;
    }
    v
}

impl Atrac1Dequantiser {
    pub fn new() -> (d: Self) {
        Atrac1Dequantiser
    }

    /// Reads what follows the first byte of a frame, whose bits must all be there.
    pub fn dequant(&self, stream: &mut BitStream, bs: &BlockSizeMod) -> (blocks: Vec<DequantBlock>)
        requires
            old(stream).wf(),
            ({
                let all = bits::padded(old(stream).bits());
                let at = old(stream).read_pos() as int;
                &&& at + 3 <= all.len()
                &&& at + 8 + 10 * num_bfus_at(all, at) <= all.len()
                &&& lines_at(all, at, MAX_BFUS as nat) <= all.len()
            }),
        ensures
            blocks@.len() == MAX_BFUS,
            forall|i: int|
                0 <= i < MAX_BFUS ==> is_block_at(
                    bits::padded(old(stream).bits()),
                    old(stream).read_pos() as int,
                    bs.log_count@,
                    i,
                    #[trigger] blocks@[i],
                ),
            final(stream).wf(),
            final(stream).bits() == old(stream).bits(),
            final(stream).read_pos() == lines_at(
                bits::padded(old(stream).bits()),
                old(stream).read_pos() as int,
                MAX_BFUS as nat,
            ),
    {
        let ghost all = bits::padded(stream.bits());
        let ghost at = stream.read_pos() as int;
        proof {
            lemma_num_bfus(all, at);
        }
        let idx: u32 = stream.read(3);
        let num_bfus: usize = BFU_AMOUNT_TAB[idx as usize] as usize;
        let _ = stream.read(2);
        let _ = stream.read(3);
        let word_lens: Vec<u32> = read_numbers(stream, num_bfus, 4);
        let scales: Vec<u32> = read_numbers(stream, num_bfus, 6);

        let mut blocks: Vec<DequantBlock> = Vec::new();
        let mut i: usize = 0;
        while i < MAX_BFUS
            invariant
                i <= MAX_BFUS,
                num_bfus == num_bfus_at(all, at),
                20 <= num_bfus <= MAX_BFUS,
                0 <= at,
                at + 8 + 10 * num_bfus <= all.len(),
                lines_at(all, at, MAX_BFUS as nat) <= all.len(),
                word_lens@.len() == num_bfus,
                scales@.len() == num_bfus,
                forall|k: int|
                    0 <= k < num_bfus ==> #[trigger] word_lens@[k] == bits::number_at(
                        all,
                        at + 8 + k * 4,
                        4,
                    ),
                forall|k: int|
                    0 <= k < num_bfus ==> #[trigger] scales@[k] == bits::number_at(
                        all,
                        at + 8 + num_bfus * 4 + k * 6,
                        6,
                    ),
                stream.wf(),
                stream.bits() == old(stream).bits(),
                all == bits::padded(stream.bits()),
                stream.read_pos() == lines_at(all, at, i as nat),
                blocks@.len() == i,
                forall|k: int|
                    0 <= k < i ==> is_block_at(all, at, bs.log_count@, k, #[trigger] blocks@[k]),
            decreases MAX_BFUS - i,
        {
            proof {
                lemma_word_len(all, at, i as int);
                lemma_lines_mono(all, at, (i + 1) as nat, MAX_BFUS as nat);
                lemma_lines_mono(all, at, i as nat, (i + 1) as nat);
                data::law_blocks_in_frame(bs.log_count@, i as int);
            }
            let num_specs: usize = SPECS_PER_BLOCK[i] as usize;
            let code: u32 = if i < num_bfus {
                word_lens[i]
            } else {
                0
            };
            let word_len: u32 = if code != 0 {
                code + 1
            } else {
                0
            };
            let scale_factor_index: u32 = if i < num_bfus {
                scales[i]
            } else {
                0
            };
            let band: usize = bfu_to_band(i as u32) as usize;
            let start_pos: usize = if bs.log_count[band] != 0 {
                SPECS_START_SHORT[i] as usize
            } else {
                SPECS_START_LONG[i] as usize
            };
            let ghost from = lines_at(all, at, i as nat);
            assert(word_len == word_len_at(all, at, i as int));
            let mut mantissas: Vec<i32> = Vec::new();
            let mut k: usize = 0;
            while k < num_specs
                invariant
                    k <= num_specs,
                    num_specs == SPECS_PER_BLOCK@[i as int],
                    num_specs <= 20,
                    i < MAX_BFUS,
                    0 <= at,
                    0 <= from,
                    word_len <= 16,
                    word_len == word_len_at(all, at, i as int),
                    from == lines_at(all, at, i as nat),
                    from + num_specs * word_len <= all.len(),
                    stream.wf(),
                    stream.bits() == old(stream).bits(),
                    all == bits::padded(stream.bits()),
                    stream.read_pos() == from + k * word_len,
                    mantissas@.len() == k,
                    forall|j: int|
                        0 <= j < k ==> #[trigger] mantissas@[j] == mantissa_at(
                            all,
                            at,
                            i as int,
                            j,
                        ),
                decreases num_specs - k,
            {
                assert(k * word_len + word_len == (k + 1) * word_len && (k + 1) * word_len
                    <= num_specs * word_len) by (nonlinear_arith)
                    requires
                        k < num_specs,
                ;
                let m: i32 = if word_len != 0 {
                    proof {
                        lemma_number_bound(all, from + k * word_len, word_len as int);
                        lemma2_to64();
                        if word_len < 16 {
                            lemma_pow2_strictly_increases(word_len as nat, 16);
                        }
                    }
                    let x: u32 = stream.read(word_len as usize);
                    make_sign(x as i32, word_len)
                } else {
                    assert(k * word_len == 0 && (k + 1) * word_len == 0) by (nonlinear_arith)
                        requires
                            word_len == 0,
                    ;
                    0
                };
                mantissas.push(m);
                k += 1;
            }
            blocks.push(DequantBlock { start_pos, word_len, scale_factor_index, mantissas });
            i += 1;
        }
        blocks
    }

    /// Whether a frame holds all the bits that its header calls for, under splits
    /// that exist.
    pub fn is_decodable(&self, frame: &[u8]) -> (r: bool)
        requires
            8 * frame@.len() + 7 <= usize::MAX,
        ensures
            r == decodable(bits::bytes_bits(frame@)),
    {
        if frame.len() < 2 {
            return false;
        }
        let mut stream = BitStream::from_bytes(frame);
        let ghost all = bits::bytes_bits(frame@);
        assert(bits::padded(all) =~= all);
        let low: u32 = stream.read(2);
        let mid: u32 = stream.read(2);
        if low >= 3 || mid >= 3 {
            return false;
        }
        let _ = stream.read(4);
        proof {
            lemma_num_bfus(all, 8);
        }
        let idx: u32 = stream.read(3);
        let num_bfus: usize = BFU_AMOUNT_TAB[idx as usize] as usize;
        if frame.len() * 8 < 16 + 10 * num_bfus {
            return false;
        }
        let _ = stream.read(5);
        let word_lens: Vec<u32> = read_numbers(&mut stream, num_bfus, 4);
        let mut end: usize = 16 + 10 * num_bfus;
        let mut i: usize = 0;
        while i < MAX_BFUS
            invariant
                i <= MAX_BFUS,
                num_bfus == num_bfus_at(all, 8),
                20 <= num_bfus <= MAX_BFUS,
                16 + 10 * num_bfus <= all.len(),
                word_lens@.len() == num_bfus,
                forall|k: int|
                    0 <= k < num_bfus ==> #[trigger] word_lens@[k] == bits::number_at(
                        all,
                        8 + 8 + k * 4,
                        4,
                    ),
                end == lines_at(all, 8, i as nat),
                end <= 16 + 10 * 52 + 320 * i,
            decreases MAX_BFUS - i,
        {
            proof {
                lemma_word_len(all, 8, i as int);
                lemma_lines_mono(all, 8, i as nat, (i + 1) as nat);
            }
            let ghost w = word_len_at(all, 8, i as int);
            assert(lines_at(all, 8, (i + 1) as nat) == end + SPECS_PER_BLOCK@[i as int] * w);
            assert(w == 0 ==> SPECS_PER_BLOCK@[i as int] * w == 0);
            if i < num_bfus && word_lens[i] != 0 {
                end += SPECS_PER_BLOCK[i] as usize * (word_lens[i] as usize + 1);
            }
            i += 1;
        }
        end <= frame.len() * 8
    }
}

/// The bits of a frame can be read: the splits exist and nothing is missing.
pub open spec fn decodable(all: Seq<bool>) -> bool {
    &&& 16 <= all.len()
    &&& bits::number_at(all, 0, 2) < 3
    &&& bits::number_at(all, 2, 2) < 3
    &&& 16 + 10 * num_bfus_at(all, 8) <= all.len()
    &&& lines_at(all, 8, MAX_BFUS as nat) <= all.len()
}

impl Default for Atrac1Dequantiser {
    fn default() -> (d: Self) {
        Self::new()
    }
}

/// A frame that can be read back: the mantissas fit their words, the scale factors
/// theirs, and the index stands for the number of word lengths.
pub open spec fn frame_valid(
    blocks: Seq<QuantBlock>,
    mode: BlockSizeMod,
    bfu_idx: nat,
    words: Seq<u32>,
) -> bool {
    &&& mode.wf()
    &&& frame::blocks_match(blocks, words)
    &&& bitalloc::words_wf(words)
    &&& bfu_idx < 8
    &&& words.len() == BFU_AMOUNT_TAB@[bfu_idx as int]
    &&& forall|i: int| 0 <= i < words.len() ==> (#[trigger] blocks[i]).scale_factor_index < 64
    &&& forall|i: int, k: int|
        0 <= i < words.len() && words[i] != 0 && 0 <= k < SPECS_PER_BLOCK@[i] ==> -(pow2(
            (words[i] - 1) as nat,
        ) as int) <= (#[trigger] blocks[i].mantissas@[k]) < pow2((words[i] - 1) as nat)
}

proof fn lemma_middle(pre: Seq<bool>, seg: Seq<bool>, post: Seq<bool>, x: int, n: int)
    requires
        0 <= x,
        0 <= n,
        x + n <= seg.len(),
    ensures
        (pre + seg + post).subrange(pre.len() + x, pre.len() + x + n) == seg.subrange(x, x + n),
{
    assert((pre + seg + post).subrange(pre.len() + x, pre.len() + x + n) =~= seg.subrange(x, x + n));
}

proof fn lemma_word_piece(words: Seq<u32>, n: nat, i: int)
    requires
        0 <= i < n,
    ensures
        frame::word_bits(words, n).len() == 4 * n,
        frame::word_bits(words, n).subrange(4 * i, 4 * i + 4) == bits::msb_bits(
            frame::word_code(words[i]),
            4,
        ),
    decreases n,
{
    frame::lemma_word_bits_len(words, n);
    frame::lemma_word_bits_len(words, (n - 1) as nat);
    if i < n - 1 {
        lemma_word_piece(words, (n - 1) as nat, i);
    }
    assert(frame::word_bits(words, n).subrange(4 * i, 4 * i + 4) =~= bits::msb_bits(
        frame::word_code(words[i]),
        4,
    )) by {
        if i < n - 1 {
            let prev = frame::word_bits(words, (n - 1) as nat);
            assert(frame::word_bits(words, n).subrange(4 * i, 4 * i + 4) =~= prev.subrange(
                4 * i,
                4 * i + 4,
            ));
        }
    }
}

proof fn lemma_scale_piece(blocks: Seq<QuantBlock>, n: nat, i: int)
    requires
        0 <= i < n,
    ensures
        frame::scale_bits(blocks, n).len() == 6 * n,
        frame::scale_bits(blocks, n).subrange(6 * i, 6 * i + 6) == bits::msb_bits(
            blocks[i].scale_factor_index as nat,
            6,
        ),
    decreases n,
{
    frame::lemma_scale_bits_len(blocks, n);
    frame::lemma_scale_bits_len(blocks, (n - 1) as nat);
    if i < n - 1 {
        lemma_scale_piece(blocks, (n - 1) as nat, i);
    }
    assert(frame::scale_bits(blocks, n).subrange(6 * i, 6 * i + 6) =~= bits::msb_bits(
        blocks[i].scale_factor_index as nat,
        6,
    )) by {
        if i < n - 1 {
            let prev = frame::scale_bits(blocks, (n - 1) as nat);
            assert(frame::scale_bits(blocks, n).subrange(6 * i, 6 * i + 6) =~= prev.subrange(
                6 * i,
                6 * i + 6,
            ));
        }
    }
}

proof fn lemma_mantissa_piece(m: Seq<i32>, w: u32, n: nat, k: int)
    requires
        0 <= k < n,
    ensures
        k * w + w <= n * w,
        frame::mantissa_bits(m, w, n).len() == n * w,
        frame::mantissa_bits(m, w, n).subrange(k * w, k * w + w) == bits::low_bits(
            m[k] as int,
            w as nat,
        ),
    decreases n,
{
    frame::lemma_mantissa_bits_len(m, w, n);
    frame::lemma_mantissa_bits_len(m, w, (n - 1) as nat);
    let all = frame::mantissa_bits(m, w, n);
    let prev = frame::mantissa_bits(m, w, (n - 1) as nat);
    assert((n - 1) * w + w == n * w && k * w + w <= n * w && k * w >= 0) by (nonlinear_arith)
        requires
            0 <= k < n,
    ;
    if k < n - 1 {
        lemma_mantissa_piece(m, w, (n - 1) as nat, k);
        assert(all.subrange(k * w, k * w + w) =~= prev.subrange(k * w, k * w + w));
    } else {
        assert(all.subrange(k * w, k * w + w) =~= bits::low_bits(m[k] as int, w as nat));
    }
}

proof fn lemma_lines_piece(blocks: Seq<QuantBlock>, words: Seq<u32>, n: nat, i: int)
    requires
        0 <= i < n <= words.len(),
        frame::blocks_match(blocks, words),
        bitalloc::words_wf(words),
        words[i] != 0,
    ensures
        ({
            let from = bitalloc::bits_used(words, i as nat);
            let len = SPECS_PER_BLOCK@[i] * words[i];
            &&& 0 <= from
            &&& from + len <= frame::lines_bits(blocks, words, n).len()
            &&& frame::lines_bits(blocks, words, n).subrange(from, from + len)
                == frame::mantissa_bits(
                blocks[i].mantissas@,
                words[i],
                blocks[i].mantissas@.len(),
            )
        }),
    decreases n,
{
    let from = bitalloc::bits_used(words, i as nat);
    let len = SPECS_PER_BLOCK@[i] * words[i];
    let all = frame::lines_bits(blocks, words, n);
    let prev = frame::lines_bits(blocks, words, (n - 1) as nat);
    frame::lemma_lines_bits_len(blocks, words, n);
    frame::lemma_lines_bits_len(blocks, words, (n - 1) as nat);
    frame::lemma_mantissa_bits_len(blocks[i].mantissas@, words[i], blocks[i].mantissas@.len());
    bitalloc::lemma_bits_used_mono(words, i as nat, (i + 1) as nat);
    bitalloc::lemma_bits_used_mono(words, (i + 1) as nat, n);
    let piece = frame::mantissa_bits(
        blocks[i].mantissas@,
        words[i],
        blocks[i].mantissas@.len(),
    );
    assert(piece.len() == len);
    if i < n - 1 {
        lemma_lines_piece(blocks, words, (n - 1) as nat, i);
        assert(all.subrange(from, from + len) =~= prev.subrange(from, from + len));
    } else {
        assert(words[i] > 1);
        assert(all.subrange(from, from + len) =~= piece);
    }
}

/// Numbers in the parts of a frame.
proof fn lemma_frame_parts(
    blocks: Seq<QuantBlock>,
    mode: BlockSizeMod,
    bfu_idx: nat,
    words: Seq<u32>,
)
    requires
        frame_valid(blocks, mode, bfu_idx, words),
    ensures
        ({
            let all = bits::padded(frame::frame_bits(blocks, mode, bfu_idx, words));
            let n = words.len() as int;
            &&& BlockSizeMod::parsed(all, 0) == mode.log_count@.map_values(|x: u32| x as int)
            &&& num_bfus_at(all, 8) == n
            &&& forall|i: int|
                0 <= i < n ==> #[trigger] bits::number_at(all, 8 + 8 + 4 * i, 4)
                    == frame::word_code(words[i])
            &&& forall|i: int|
                0 <= i < n ==> #[trigger] bits::number_at(all, 8 + 8 + 4 * n + 6 * i, 6)
                    == blocks[i].scale_factor_index
            &&& all.len() >= 16 + 10 * n + bitalloc::bits_used(words, words.len())
        }),
{
    let f = frame::frame_bits(blocks, mode, bfu_idx, words);
    let all = bits::padded(f);
    let n = words.len() as int;
    let head = frame::head_bits(mode, bfu_idx);
    let wb = frame::word_bits(words, words.len());
    let sb = frame::scale_bits(blocks, words.len());
    let lb = frame::lines_bits(blocks, words, words.len());
    let rest = all.skip(f.len() as int);
    frame::lemma_word_bits_len(words, words.len());
    frame::lemma_scale_bits_len(blocks, words.len());
    frame::lemma_lines_bits_len(blocks, words, words.len());
    lemma2_to64();
    let z = Seq::<bool>::empty();
    assert(all =~= z + head + (wb + sb + lb + frame::tail_bits() + rest));
    lemma_head(mode, bfu_idx);
    let post = wb + sb + lb + frame::tail_bits() + rest;
    lemma_middle(z, head, post, 0, 2);
    lemma_middle(z, head, post, 2, 2);
    lemma_middle(z, head, post, 4, 2);
    lemma_middle(z, head, post, 8, 3);
    assert(BlockSizeMod::parsed(all, 0) =~= mode.log_count@.map_values(|x: u32| x as int));
    assert forall|i: int| 0 <= i < n implies #[trigger] bits::number_at(all, 8 + 8 + 4 * i, 4)
        == frame::word_code(words[i]) by {
        assert(all =~= head + wb + (sb + lb + frame::tail_bits() + rest));
        lemma_middle(head, wb, sb + lb + frame::tail_bits() + rest, 4 * i, 4);
        lemma_word_piece(words, words.len(), i);
        bits::lemma_bits_value_msb_bits(frame::word_code(words[i]), 4);
        assert(words[i] <= 16);
        vstd::arithmetic::div_mod::lemma_small_mod(frame::word_code(words[i]), 16);
    }
    assert forall|i: int| 0 <= i < n implies #[trigger] bits::number_at(
        all,
        8 + 8 + 4 * n + 6 * i,
        6,
    ) == blocks[i].scale_factor_index by {
        assert(all =~= (head + wb) + sb + (lb + frame::tail_bits() + rest));
        lemma_middle(head + wb, sb, lb + frame::tail_bits() + rest, 6 * i, 6);
        lemma_scale_piece(blocks, words.len(), i);
        bits::lemma_bits_value_msb_bits(blocks[i].scale_factor_index as nat, 6);
        assert(blocks[i].scale_factor_index < 64);
        vstd::arithmetic::div_mod::lemma_small_mod(blocks[i].scale_factor_index as nat, 64);
    }
}

/// The numbers in the head of a frame.
proof fn lemma_head(mode: BlockSizeMod, bfu_idx: nat)
    requires
        mode.wf(),
        bfu_idx < 8,
    ensures
        ({
            let head = frame::head_bits(mode, bfu_idx);
            &&& head.len() == 16
            &&& bits::bits_value(head.subrange(0, 2)) == 2 - mode.log_count@[0]
            &&& bits::bits_value(head.subrange(2, 4)) == 2 - mode.log_count@[1]
            &&& bits::bits_value(head.subrange(4, 6)) == 3 - mode.log_count@[2]
            &&& bits::bits_value(head.subrange(8, 11)) == bfu_idx
        }),
{
    let head = frame::head_bits(mode, bfu_idx);
    let a = (2 - mode.log_count@[0]) as nat;
    let b = (2 - mode.log_count@[1]) as nat;
    let c = (3 - mode.log_count@[2]) as nat;
    lemma2_to64();
    assert(head.subrange(0, 2) =~= bits::msb_bits(a, 2));
    assert(head.subrange(2, 4) =~= bits::msb_bits(b, 2));
    assert(head.subrange(4, 6) =~= bits::msb_bits(c, 2));
    assert(head.subrange(8, 11) =~= bits::msb_bits(bfu_idx, 3));
    bits::lemma_bits_value_msb_bits(a, 2);
    bits::lemma_bits_value_msb_bits(b, 2);
    bits::lemma_bits_value_msb_bits(c, 2);
    bits::lemma_bits_value_msb_bits(bfu_idx, 3);
    vstd::arithmetic::div_mod::lemma_small_mod(a, 4);
    vstd::arithmetic::div_mod::lemma_small_mod(b, 4);
    vstd::arithmetic::div_mod::lemma_small_mod(c, 4);
    vstd::arithmetic::div_mod::lemma_small_mod(bfu_idx, 8);
}

proof fn lemma_lines_at(
    blocks: Seq<QuantBlock>,
    mode: BlockSizeMod,
    bfu_idx: nat,
    words: Seq<u32>,
    i: nat,
)
    requires
        frame_valid(blocks, mode, bfu_idx, words),
        i <= MAX_BFUS,
    ensures
        ({
            let all = bits::padded(frame::frame_bits(blocks, mode, bfu_idx, words));
            let n = words.len();
            lines_at(all, 8, i) == 16 + 10 * n + bitalloc::bits_used(
                words,
                if i < n {
                    i
                } else {
                    n
                },
            )
        }),
    decreases i,
{
    let all = bits::padded(frame::frame_bits(blocks, mode, bfu_idx, words));
    lemma_frame_parts(blocks, mode, bfu_idx, words);
    if i > 0 {
        lemma_lines_at(blocks, mode, bfu_idx, words, (i - 1) as nat);
        let j = i - 1;
        if j < words.len() {
            assert(bits::number_at(all, 8 + 8 + 4 * j, 4) == frame::word_code(words[j]));
            assert(words[j] != 1);
            assert(word_len_at(all, 8, j) == words[j]);
        } else {
            assert(word_len_at(all, 8, j) == 0);
            assert(SPECS_PER_BLOCK@[j] * word_len_at(all, 8, j) == 0);
        }
    }
}

/// What is written into a frame is read back from it: the splits, the number of
/// blocks, and every block's word length, scale factor and mantissas.
pub proof fn law_frame_reads_back(
    blocks: Seq<QuantBlock>,
    mode: BlockSizeMod,
    bfu_idx: nat,
    words: Seq<u32>,
)
    requires
        frame_valid(blocks, mode, bfu_idx, words),
    ensures
        ({
            let all = bits::bytes_bits(
                bits::pack(frame::frame_bits(blocks, mode, bfu_idx, words)),
            );
            &&& decodable(all)
            &&& BlockSizeMod::parsed(all, 0) == mode.log_count@.map_values(|x: u32| x as int)
            &&& num_bfus_at(all, 8) == words.len()
            &&& forall|i: int|
                0 <= i < words.len() ==> #[trigger] word_len_at(all, 8, i) == words[i]
            &&& forall|i: int|
                0 <= i < words.len() ==> #[trigger] scale_at(all, 8, i)
                    == blocks[i].scale_factor_index
            &&& forall|i: int, k: int|
                0 <= i < words.len() && 0 <= k < SPECS_PER_BLOCK@[i] ==> #[trigger] mantissa_at(
                    all,
                    8,
                    i,
                    k,
                ) == (if words[i] == 0 {
                    0
                } else {
                    blocks[i].mantissas@[k] as int
                })
        }),
{
    let f = frame::frame_bits(blocks, mode, bfu_idx, words);
    let all = bits::bytes_bits(bits::pack(f));
    let n = words.len() as int;
    bits::lemma_bytes_bits_pack(f);
    lemma_frame_parts(blocks, mode, bfu_idx, words);
    lemma_lines_at(blocks, mode, bfu_idx, words, MAX_BFUS as nat);
    bitalloc::lemma_bits_used_mono(words, 0, words.len());
    let parsed = BlockSizeMod::parsed(all, 0);
    let stated = mode.log_count@.map_values(|x: u32| x as int);
    assert(parsed[0] == stated[0] && parsed[1] == stated[1]);
    assert forall|i: int| 0 <= i < n implies #[trigger] word_len_at(all, 8, i) == words[i] by {
        assert(bits::number_at(all, 8 + 8 + 4 * i, 4) == frame::word_code(words[i]));
        assert(words[i] != 1);
    }
    assert forall|i: int| 0 <= i < n implies #[trigger] scale_at(all, 8, i)
        == blocks[i].scale_factor_index by {
        assert(bits::number_at(all, 8 + 8 + 4 * n + 6 * i, 6) == blocks[i].scale_factor_index);
    }
    assert forall|i: int, k: int| 0 <= i < n && 0 <= k < SPECS_PER_BLOCK@[i] implies #[trigger] mantissa_at(
        all,
        8,
        i,
        k,
    ) == (if words[i] == 0 {
        0
    } else {
        blocks[i].mantissas@[k] as int
    }) by {
        assert(word_len_at(all, 8, i) == words[i]);
        if words[i] != 0 {
            lemma_mantissa_reads_back(blocks, mode, bfu_idx, words, i, k);
        }
    }
}

proof fn lemma_mantissa_reads_back(
    blocks: Seq<QuantBlock>,
    mode: BlockSizeMod,
    bfu_idx: nat,
    words: Seq<u32>,
    i: int,
    k: int,
)
    requires
        frame_valid(blocks, mode, bfu_idx, words),
        0 <= i < words.len(),
        words[i] != 0,
        0 <= k < SPECS_PER_BLOCK@[i],
        word_len_at(bits::padded(frame::frame_bits(blocks, mode, bfu_idx, words)), 8, i)
            == words[i],
    ensures
        mantissa_at(bits::padded(frame::frame_bits(blocks, mode, bfu_idx, words)), 8, i, k)
            == blocks[i].mantissas@[k],
{
    let f = frame::frame_bits(blocks, mode, bfu_idx, words);
    let all = bits::padded(f);
    let w = words[i];
    let head = frame::head_bits(mode, bfu_idx);
    let wb = frame::word_bits(words, words.len());
    let sb = frame::scale_bits(blocks, words.len());
    let lb = frame::lines_bits(blocks, words, words.len());
    let rest = all.skip(f.len() as int);
    frame::lemma_word_bits_len(words, words.len());
    frame::lemma_scale_bits_len(blocks, words.len());
    lemma_lines_at(blocks, mode, bfu_idx, words, i as nat);
    lemma_lines_piece(blocks, words, words.len(), i);
    let m = blocks[i].mantissas@;
    lemma_mantissa_piece(m, w, m.len(), k);
    let pre = head + wb + sb;
    let post = frame::tail_bits() + rest;
    assert(all =~= pre + lb + post);
    assert(pre.len() == 16 + 10 * words.len());
    let from = bitalloc::bits_used(words, i as nat);
    let len = SPECS_PER_BLOCK@[i] * w;
    assert(k * w >= 0) by (nonlinear_arith)
        requires
            k >= 0,
    ;
    lemma_middle(pre, lb, post, from + k * w, w as int);
    assert(lb.subrange(from + k * w, from + k * w + w) =~= lb.subrange(from, from + len).subrange(
        k * w,
        k * w + w,
    ));
    assert(words[i] <= 16 && words[i] != 1);
    let v = blocks[i].mantissas@[k];
    crate::bitstream::lemma_low_bits_round_trip(v, w as nat);
}

} // verus!
