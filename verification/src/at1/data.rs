//! Tables and small data types of ATRAC1.

use vstd::prelude::*;
use vstd::arithmetic::power2::*;
use crate::bitstream::bits;
use crate::bitstream::BitStream;

verus! {

pub const MAX_BFUS: usize = 52;

pub const NUM_QMF: usize = 3;

/// Bytes of a frame.
pub const SOUND_UNIT_SIZE: u32 = 212;

pub const NUM_SAMPLES: usize = 512;

pub const BITS_PER_BFU_AMOUNT_TAB_IDX: u32 = 3;

pub const BITS_PER_IDWL: u32 = 4;

pub const BITS_PER_IDSF: u32 = 6;

/// The largest fixed choice of the number of blocks; 0 leaves the choice open.
pub const MAX_BFU_IDX_CONST: u32 = 8;

pub const SPECS_PER_BLOCK: [u32; 52] = [
    8, 8, 8, 8, 4, 4, 4, 4, 8, 8, 8, 8, 6, 6, 6, 6, 6, 6, 6, 6, 6, 6, 6, 6, 7, 7, 7, 7, 9, 9, 9, 9,
    10, 10, 10, 10, 12, 12, 12, 12, 12, 12, 12, 12, 20, 20, 20, 20, 20, 20, 20, 20,
];

pub const BLOCKS_PER_BAND: [u32; 4] = [0, 20, 36, 52];

/// Where the lines of each block start in a band that is transformed whole.
pub const SPECS_START_LONG: [u32; 52] = [
    0, 8, 16, 24, 32, 36, 40, 44, 48, 56, 64, 72, 80, 86, 92, 98, 104, 110, 116, 122, 128, 134, 140,
    146, 152, 159, 166, 173, 180, 189, 198, 207, 216, 226, 236, 246, 256, 268, 280, 292, 304, 316,
    328, 340, 352, 372, 392, 412, 432, 452, 472, 492,
];

/// Where the lines of each block start in a band of short transforms.
pub const SPECS_START_SHORT: [u32; 52] = [
    0, 32, 64, 96, 8, 40, 72, 104, 12, 44, 76, 108, 20, 52, 84, 116, 26, 58, 90, 122, 128, 160, 192,
    224, 134, 166, 198, 230, 141, 173, 205, 237, 150, 182, 214, 246, 256, 288, 320, 352, 384, 416,
    448, 480, 268, 300, 332, 364, 396, 428, 460, 492,
];

/// The numbers of blocks that a frame can hold.
pub const BFU_AMOUNT_TAB: [u32; 8] = [20, 28, 32, 36, 40, 44, 48, 52];

#[derive(Debug, Clone, Copy, Eq, PartialEq, Structural)]
pub enum WindowMode {
    NoTransient,
    Auto,
}

#[derive(Debug, Clone, Copy, Eq, PartialEq, Structural)]
pub struct EncodeSettings {
    pub bfu_idx_const: u32,
    pub window_mode: WindowMode,
    pub window_mask: u32,
}

impl Default for EncodeSettings {
    fn default() -> (s: Self)
        ensures
            s == (EncodeSettings {
                bfu_idx_const: 0,
                window_mode: WindowMode::Auto,
                window_mask: 0,
            }),
    {
        EncodeSettings { bfu_idx_const: 0, window_mode: WindowMode::Auto, window_mask: 0 }
    }
}

/// How far each band is split into short transforms; 0 for a whole one.
#[derive(Debug, Clone, Copy, Eq, PartialEq)]
pub struct BlockSizeMod {
    pub log_count: [u32; 3],
}

impl Default for BlockSizeMod {
    fn default() -> (m: Self)
        ensures
            m.log_count@ == seq![0u32, 0u32, 0u32],
    {
        BlockSizeMod { log_count: [0, 0, 0] }
    }
}

impl BlockSizeMod {
    /// The split of each band can be written in two bits.
    pub open spec fn wf(&self) -> bool {
        &&& self.log_count@[0] <= 2
        &&& self.log_count@[1] <= 2
        &&& self.log_count@[2] <= 3
    }

    /// The first byte of a frame: each split as its distance from the highest
    /// one, and two spare bits.
    pub open spec fn header_bits(&self) -> Seq<bool> {
        bits::msb_bits((2 - self.log_count@[0]) as nat, 2) + bits::msb_bits(
            (2 - self.log_count@[1]) as nat,
            2,
        ) + bits::msb_bits((3 - self.log_count@[2]) as nat, 2) + bits::msb_bits(0, 2)
    }

    /// The splits that the bits from position `at` on stand for.
    pub open spec fn parsed(all: Seq<bool>, at: int) -> Seq<int> {
        seq![
            2 - bits::number_at(all, at, 2),
            2 - bits::number_at(all, at + 2, 2),
            3 - bits::number_at(all, at + 4, 2),
        ]
    }

    pub fn new(low_short: bool, mid_short: bool, hi_short: bool) -> (m: Self)
        ensures
            m.wf(),
            m.log_count@ == seq![
                if low_short { 2u32 } else { 0u32 },
                if mid_short { 2u32 } else { 0u32 },
                if hi_short { 3u32 } else { 0u32 },
            ],
    {
        BlockSizeMod {
            log_count: [
                if low_short { 2 } else { 0 },
                if mid_short { 2 } else { 0 },
                if hi_short { 3 } else { 0 },
            ],
        }
    }

    /// Reads the first byte of a frame. The low and the middle band have no
    /// split that is written as 3.
    pub fn parse(stream: &mut BitStream) -> (m: Self)
        requires
            old(stream).wf(),
            old(stream).read_pos() + 8 <= bits::padded(old(stream).bits()).len(),
            bits::number_at(bits::padded(old(stream).bits()), old(stream).read_pos() as int, 2) < 3,
            bits::number_at(bits::padded(old(stream).bits()), old(stream).read_pos() as int + 2, 2) < 3,
        ensures
            m.wf(),
            m.log_count@.map_values(|x: u32| x as int) == Self::parsed(
                bits::padded(old(stream).bits()),
                old(stream).read_pos() as int,
            ),
            final(stream).wf(),
            final(stream).bits() == old(stream).bits(),
            final(stream).read_pos() == old(stream).read_pos() + 8,
    {
        let low: u32 = 2 - stream.read(2);
        let mid: u32 = 2 - stream.read(2);
        proof {
            lemma2_to64();
            let all = bits::padded(stream.bits());
            bits::lemma_bits_value_bound(
                all.subrange(stream.read_pos() as int, stream.read_pos() as int + 2),
            );
        }
        let hi: u32 = 3 - stream.read(2);
        let _ = stream.read(2);
        let m = BlockSizeMod { log_count: [low, mid, hi] };
        assert(m.log_count@.map_values(|x: u32| x as int) =~= Self::parsed(
            bits::padded(old(stream).bits()),
            old(stream).read_pos() as int,
        ));
        m
    }

    pub fn short_win(&self, band: usize) -> (r: bool)
        requires
            band < NUM_QMF,
        ensures
            r == (self.log_count@[band as int] != 0),
    {
        self.log_count[band] != 0
    }
}

/// The band of block `i`.
pub open spec fn band_of(i: int) -> int {
    if i < 20 {
        0
    } else if i < 36 {
        1
    } else {
        2
    }
}

pub fn bfu_to_band(i: u32) -> (b: u32)
    ensures
        b == band_of(i as int),
        i < MAX_BFUS ==> BLOCKS_PER_BAND@[b as int] <= i < BLOCKS_PER_BAND@[b + 1],
{
    if i < 20 {
        0
    } else if i < 36 {
        1
    } else {
        2
    }
}

/// Where the lines of block `i` start under a split of the bands.
pub open spec fn specs_start(log_count: Seq<u32>, i: int) -> int {
    if log_count[band_of(i)] != 0 {
        SPECS_START_SHORT@[i] as int
    } else {
        SPECS_START_LONG@[i] as int
    }
}

/// The lines of every block lie within the frame, however the bands are split.
pub proof fn law_blocks_in_frame(log_count: Seq<u32>, i: int)
    requires
        0 <= i < MAX_BFUS,
    ensures
        0 <= specs_start(log_count, i),
        specs_start(log_count, i) + SPECS_PER_BLOCK@[i] <= NUM_SAMPLES,
{
}

/// No line belongs to two blocks, however the bands are split.
pub proof fn law_blocks_disjoint(log_count: Seq<u32>, i: int, j: int)
    requires
        0 <= i < MAX_BFUS,
        0 <= j < MAX_BFUS,
        i != j,
    ensures
        specs_start(log_count, i) + SPECS_PER_BLOCK@[i] <= specs_start(log_count, j)
            || specs_start(log_count, j) + SPECS_PER_BLOCK@[j] <= specs_start(log_count, i),
{
}

/// Whole transforms: each block starts where the one before ends, the first at line 0
/// and the last ends with the frame.
pub proof fn law_long_blocks_follow(i: int)
    requires
        0 <= i < MAX_BFUS,
    ensures
        SPECS_START_LONG@[0] == 0,
        i + 1 < MAX_BFUS ==> SPECS_START_LONG@[i + 1] == SPECS_START_LONG@[i] + SPECS_PER_BLOCK@[i],
        i + 1 == MAX_BFUS ==> SPECS_START_LONG@[i] + SPECS_PER_BLOCK@[i] == NUM_SAMPLES,
{
}

/// Short transforms: four windows of 32 lines in the low and in the middle band, eight
/// in the high one. The blocks go round the windows, so that those of one round are of
/// one size and lie 32 lines apart, and each round starts in every window where the one
/// before ended.
pub proof fn law_short_blocks_interleave(i: int)
    requires
        0 <= i < MAX_BFUS,
    ensures
        SPECS_START_SHORT@[0] == 0,
        SPECS_START_SHORT@[20] == 128,
        SPECS_START_SHORT@[36] == 256,
        i + 1 < 36 && i % 4 != 3 ==> SPECS_START_SHORT@[i + 1] == SPECS_START_SHORT@[i] + 32
            && SPECS_PER_BLOCK@[i + 1] == SPECS_PER_BLOCK@[i],
        36 <= i && i + 1 < 52 && i != 43 ==> SPECS_START_SHORT@[i + 1] == SPECS_START_SHORT@[i] + 32
            && SPECS_PER_BLOCK@[i + 1] == SPECS_PER_BLOCK@[i],
        i + 4 < 20 || 20 <= i && i + 4 < 36 ==> SPECS_START_SHORT@[i + 4] == SPECS_START_SHORT@[i]
            + SPECS_PER_BLOCK@[i],
        36 <= i && i + 8 < 52 ==> SPECS_START_SHORT@[i + 8] == SPECS_START_SHORT@[i]
            + SPECS_PER_BLOCK@[i],
{
}

} // verus!
