//! Tables and small data types of ATRAC3.

use vstd::prelude::*;
use crate::dsp::gain::GainPoint;

verus! {

pub const MAX_BFUS: usize = 32;

pub const NUM_QMF: usize = 4;

pub const NUM_SAMPLES: usize = 1024;

pub const NUM_SPECS: usize = NUM_SAMPLES;

pub const MDCT_SZ: usize = 512;

pub const FRAME_SZ: u32 = 152;

pub const MAX_SPECS: usize = NUM_SAMPLES;

pub const MAX_SPECS_PER_BLOCK: usize = 128;

pub const EXPONENT_OFFSET: i32 = 4;

pub const LOC_SCALE: u32 = 3;

pub const LOC_SZ: u32 = 8;

pub const GAIN_INTERPOLATION_POS_SHIFT: i32 = 15;

/// Where the lines of each block start; entry `i + 1` is the end of block `i`.
pub const BLOCK_SIZE_TAB: [u32; 33] = [
    0, 8, 16, 24, 32, 40, 48, 56, 64, 80, 96, 112, 128, 144, 160, 176, 192, 224, 256, 288, 320, 352,
    384, 416, 448, 480, 512, 576, 640, 704, 768, 896, 1024,
];

pub const SPECS_START_SHORT: [u32; 33] = BLOCK_SIZE_TAB;

pub const SPECS_START_LONG: [u32; 33] = BLOCK_SIZE_TAB;

/// Bits of one mantissa (of a pair of them for selector 1) in constant length coding.
pub const CLC_LENGTH_TAB: [u32; 8] = [0, 4, 3, 3, 4, 4, 5, 6];

pub const BLOCKS_PER_BAND: [u32; 5] = [0, 18, 26, 30, 32];

pub const SPECS_PER_BLOCK: [u32; 33] = [
    8, 8, 8, 8, 8, 8, 8, 8, 16, 16, 16, 16, 16, 16, 16, 16, 32, 32, 32, 32, 32, 32, 32, 32, 32, 32,
    64, 64, 64, 64, 128, 128, 128,
];

#[derive(Debug, Clone, Copy, Eq, PartialEq, Structural)]
pub struct ContainerParams {
    pub bitrate: u32,
    pub frame_sz: u16,
    pub joint_stereo: bool,
}

/// Bit rates of the eight stream formats, in ascending order.
pub const CONTAINER_BITRATES: [u32; 8] = [
    66150, 93713, 104738, 132300, 146081, 176400, 264600, 352800,
];

/// Frame sizes of the eight stream formats, in bytes.
pub const CONTAINER_FRAME_SIZES: [u16; 8] = [192, 272, 304, 384, 424, 512, 768, 1024];

/// How many of the formats, from the first on, are joint stereo.
pub const NUM_JOINT_STEREO_FORMATS: usize = 2;

/// Stream format number `i`.
pub open spec fn format_params(i: int) -> ContainerParams {
    ContainerParams {
        bitrate: CONTAINER_BITRATES@[i],
        frame_sz: CONTAINER_FRAME_SIZES@[i],
        joint_stereo: i < NUM_JOINT_STEREO_FORMATS,
    }
}

/// Stream format number `i`.
pub fn container_params(i: usize) -> (p: ContainerParams)
    requires
        i < 8,
    ensures
        p == format_params(i as int),
{
    ContainerParams {
        bitrate: CONTAINER_BITRATES[i],
        frame_sz: CONTAINER_FRAME_SIZES[i],
        joint_stereo: i < NUM_JOINT_STEREO_FORMATS,
    }
}

/// The 66 kbit/s joint stereo format.
pub fn lp4() -> (p: ContainerParams)
    ensures
        p == (ContainerParams { bitrate: 66150, frame_sz: 192, joint_stereo: true }),
{
    container_params(0)
}

/// The 132 kbit/s format.
pub fn lp2() -> (p: ContainerParams)
    ensures
        p == (ContainerParams { bitrate: 132300, frame_sz: 384, joint_stereo: false }),
{
    container_params(3)
}

/// Format `i` is the slowest one that reaches `bitrate`.
pub open spec fn is_slowest_reaching(i: int, bitrate: u32) -> bool {
    &&& 0 <= i < 8
    &&& CONTAINER_BITRATES@[i] >= bitrate
    &&& forall|j: int| 0 <= j < i ==> CONTAINER_BITRATES@[j] < bitrate
}

/// The bit rate that is meant by a request: 0 stands for the 132 kbit/s format.
pub open spec fn requested_bitrate(bitrate: u32) -> u32 {
    if bitrate == 0 {
        132300
    } else {
        bitrate
    }
}

/// The slowest format whose bit rate is at least the requested one.
pub fn params_for_bitrate(bitrate: u32) -> (r: Option<ContainerParams>)
    ensures
        match r {
            Some(p) => exists|i: int| #[trigger]
                is_slowest_reaching(i, requested_bitrate(bitrate)) && p == format_params(i),
            None => requested_bitrate(bitrate) > CONTAINER_BITRATES@[7],
        },
{
    let wanted: u32 = if bitrate == 0 {
        lp2().bitrate
    } else {
        bitrate
    };
    let mut i: usize = 0;
    while i < 8
        invariant
            i <= 8,
            wanted == requested_bitrate(bitrate),
            forall|j: int| 0 <= j < i ==> CONTAINER_BITRATES@[j] < wanted,
        decreases 8 - i,
    {
        if CONTAINER_BITRATES[i] >= wanted {
            assert(is_slowest_reaching(i as int, requested_bitrate(bitrate)));
            return Some(container_params(i));
        }
        i += 1;
    }
    None
}

/// Which window each band uses: ATRAC3 has long windows only.
#[derive(Debug, Clone, Copy, Eq, PartialEq, Structural)]
pub struct BlockSizeMod;

impl BlockSizeMod {
    pub fn short_win(&self, _band: usize) -> (r: bool)
        ensures
            r == false,
    {
        false
    }
}

impl Default for BlockSizeMod {
    fn default() -> (r: Self)
        ensures
            r == BlockSizeMod,
    {
        BlockSizeMod
    }
}

/// Code words for selector 1 (pairs) and 4, each with its length in bits.
pub const HUFF_TABLE_1: [(u8, u8); 9] = [
    (0x0, 1), (0x4, 3), (0x5, 3), (0xC, 4), (0xD, 4), (0x1C, 5), (0x1D, 5), (0x1E, 5), (0x1F, 5),
];

/// Code words for selector 2, each with its length in bits.
pub const HUFF_TABLE_2: [(u8, u8); 5] = [
    (0x0, 1), (0x4, 3), (0x5, 3), (0x6, 3), (0x7, 3),
];

/// Code words for selector 3, each with its length in bits.
pub const HUFF_TABLE_3: [(u8, u8); 7] = [
    (0x0, 1), (0x4, 3), (0x5, 3), (0xC, 4), (0xD, 4), (0xE, 4), (0xF, 4),
];

/// Code words for selector 5, each with its length in bits.
pub const HUFF_TABLE_5: [(u8, u8); 15] = [
    (0x0, 2), (0x2, 3), (0x3, 3), (0x8, 4), (0x9, 4), (0xA, 4), (0xB, 4), (0x1C, 5), (0x1D, 5),
    (0x3C, 6), (0x3D, 6), (0x3E, 6), (0x3F, 6), (0xC, 4), (0xD, 4),
];

/// Code words for selector 6, each with its length in bits.
pub const HUFF_TABLE_6: [(u8, u8); 31] = [
    (0x0, 3), (0x2, 4), (0x3, 4), (0x4, 4), (0x5, 4), (0x6, 4), (0x7, 4), (0x14, 5), (0x15, 5),
    (0x16, 5), (0x17, 5), (0x18, 5), (0x19, 5), (0x34, 6), (0x35, 6), (0x36, 6), (0x37, 6),
    (0x38, 6), (0x39, 6), (0x3A, 6), (0x3B, 6), (0x78, 7), (0x79, 7), (0x7A, 7), (0x7B, 7),
    (0x7C, 7), (0x7D, 7), (0x7E, 7), (0x7F, 7), (0x8, 4), (0x9, 4),
];

/// Code words for selector 7, each with its length in bits.
pub const HUFF_TABLE_7: [(u8, u8); 63] = [
    (0x0, 3), (0x8, 5), (0x9, 5), (0xA, 5), (0xB, 5), (0xC, 5), (0xD, 5), (0xE, 5), (0xF, 5),
    (0x10, 5), (0x11, 5), (0x24, 6), (0x25, 6), (0x26, 6), (0x27, 6), (0x28, 6), (0x29, 6),
    (0x2A, 6), (0x2B, 6), (0x2C, 6), (0x2D, 6), (0x2E, 6), (0x2F, 6), (0x30, 6), (0x31, 6),
    (0x32, 6), (0x33, 6), (0x68, 7), (0x69, 7), (0x6A, 7), (0x6B, 7), (0x6C, 7), (0x6D, 7),
    (0x6E, 7), (0x6F, 7), (0x70, 7), (0x71, 7), (0x72, 7), (0x73, 7), (0x74, 7), (0x75, 7),
    (0xEC, 8), (0xED, 8), (0xEE, 8), (0xEF, 8), (0xF0, 8), (0xF1, 8), (0xF2, 8), (0xF3, 8),
    (0xF4, 8), (0xF5, 8), (0xF6, 8), (0xF7, 8), (0xF8, 8), (0xF9, 8), (0xFA, 8), (0xFB, 8),
    (0xFC, 8), (0xFD, 8), (0xFE, 8), (0xFF, 8), (0x2, 4), (0x3, 4),
];

/// The code tables of selectors 1 to 7.
pub open spec fn huff_table(selector: int) -> Seq<(u8, u8)> {
    if selector == 1 || selector == 4 {
        HUFF_TABLE_1@
    } else if selector == 2 {
        HUFF_TABLE_2@
    } else if selector == 3 {
        HUFF_TABLE_3@
    } else if selector == 5 {
        HUFF_TABLE_5@
    } else if selector == 6 {
        HUFF_TABLE_6@
    } else {
        HUFF_TABLE_7@
    }
}

/// The number of code tables.
pub const NUM_HUFF_TABLES: usize = 7;

/// The code table of a selector.
pub fn huff_table_for(selector: u32) -> (t: &'static [(u8, u8)])
    requires
        1 <= selector <= 7,
    ensures
        t@ == huff_table(selector as int),
{
    if selector == 1 || selector == 4 {
        &HUFF_TABLE_1
    } else if selector == 2 {
        &HUFF_TABLE_2
    } else if selector == 3 {
        &HUFF_TABLE_3
    } else if selector == 5 {
        &HUFF_TABLE_5
    } else if selector == 6 {
        &HUFF_TABLE_6
    } else {
        &HUFF_TABLE_7
    }
}

pub const MANTISSA_CLC_RTAB: [u32; 4] = [2, 3, 0, 1];

pub const MANTISSAS_VLC_RTAB: [u32; 9] = [8, 4, 7, 2, 0, 1, 6, 3, 5];

/// The two-bit constant length code of a mantissa: its low two bits.
pub open spec fn clc_idx(mantissa: int) -> int {
    mantissa % 4
}

pub fn mantissa_to_clc_idx(mantissa: i32) -> (r: u32)
    requires
        -3 < mantissa < 2,
    ensures
        r == clc_idx(mantissa as int),
        r == MANTISSA_CLC_RTAB@[mantissa + 2],
{
    MANTISSA_CLC_RTAB[(mantissa + 2) as usize]
}

/// The position in the pair table of two mantissas.
pub open spec fn vlc_pair_idx(a: int, b: int) -> int {
    MANTISSAS_VLC_RTAB@[3 * (a + 1) + (b + 1)] as int
}

pub fn mantissas_to_vlc_index(a: i32, b: i32) -> (r: u32)
    requires
        -2 < a < 2,
        -2 < b < 2,
    ensures
        r == vlc_pair_idx(a as int, b as int),
        r < 9,
{
    let idx: i32 = 3 * (a + 1) + (b + 1);
    MANTISSAS_VLC_RTAB[idx as usize]
}

/// Distinct pairs of mantissas have distinct codes.
pub proof fn law_vlc_pair_idx_injective(a: int, b: int, c: int, d: int)
    requires
        -2 < a < 2,
        -2 < b < 2,
        -2 < c < 2,
        -2 < d < 2,
        vlc_pair_idx(a, b) == vlc_pair_idx(c, d),
    ensures
        a == c,
        b == d,
{
}

/// The gain curves of the four bands.
#[derive(Debug, Clone, PartialEq)]
pub struct SubbandInfo {
    info: Vec<Vec<GainPoint>>,
}

impl View for SubbandInfo {
    type V = Seq<Seq<GainPoint>>;

    closed spec fn view(&self) -> Seq<Seq<GainPoint>> {
        Seq::new(self.info@.len(), |i: int| self.info@[i]@)
    }
}

impl SubbandInfo {
    /// The most points that a gain curve holds.
    pub const MAX_GAIN_POINTS_NUM: usize = 8;

    pub open spec fn wf(&self) -> bool {
        &&& self@.len() == NUM_QMF
        &&& forall|i: int| 0 <= i < NUM_QMF ==> #[trigger] self@[i].len() <= Self::MAX_GAIN_POINTS_NUM
    }

    pub fn new() -> (s: Self)
        ensures
            s.wf(),
            s@ == Seq::new(NUM_QMF as nat, |i: int| Seq::<GainPoint>::empty()),
    {
        let mut info: Vec<Vec<GainPoint>> = Vec::new();
        let mut i: usize = 0;
        while i < NUM_QMF
            invariant
                i <= NUM_QMF,
                info@.len() == i,
                forall|j: int| 0 <= j < i ==> #[trigger] info@[j]@ == Seq::<GainPoint>::empty(),
            decreases NUM_QMF - i,
        {
            info.push(Vec::new());
            i += 1;
        }
        let s = SubbandInfo { info };
        assert(s@ =~= Seq::new(NUM_QMF as nat, |i: int| Seq::<GainPoint>::empty()));
        s
    }

    pub fn add_subband_curve(&mut self, n: usize, curve: Vec<GainPoint>)
        requires
            old(self).wf(),
            n < NUM_QMF,
            curve@.len() <= Self::MAX_GAIN_POINTS_NUM,
        ensures
            final(self).wf(),
            final(self)@ == old(self)@.update(n as int, curve@),
    {
        let ghost c = curve@;
        self.info[n] = curve;
        assert(self@ =~= old(self)@.update(n as int, c));
    }

    pub fn qmf_num(&self) -> (n: usize)
        ensures
            n == self@.len(),
    {
        self.info.len()
    }

    pub fn gain_points(&self, i: usize) -> (r: &[GainPoint])
        requires
            i < self@.len(),
        ensures
            r@ == self@[i as int],
    {
        self.info[i].as_slice()
    }

    /// Empties the curve of every band.
    pub fn reset(&mut self)
        requires
            old(self).wf(),
        ensures
            final(self).wf(),
            final(self)@ == Seq::new(old(self)@.len(), |i: int| Seq::<GainPoint>::empty()),
    {
        let mut i: usize = 0;
        let n: usize = self.info.len();
        while i < n
            invariant
                i <= n,
                self.info@.len() == n,
                n == NUM_QMF,
                n == old(self)@.len(),
                forall|j: int|
                    0 <= j < i ==> #[trigger] self.info@[j]@ == Seq::<GainPoint>::empty(),
            decreases n - i,
        {
            self.info[i].clear();
            i += 1;
        }
        assert(self@ =~= Seq::new(old(self)@.len(), |i: int| Seq::<GainPoint>::empty()));
    }
}

impl Default for SubbandInfo {
    fn default() -> (s: Self)
        ensures
            s.wf(),
            s@ == Seq::new(NUM_QMF as nat, |i: int| Seq::<GainPoint>::empty()),
    {
        SubbandInfo::new()
    }
}

/// Where a tonal component starts and the block that it lies in.
#[derive(Debug, Clone, Copy, Eq, PartialEq, Structural)]
pub struct TonalVal {
    pub pos: u16,
    pub bfu: u8,
}

pub type TonalComponents = Vec<TonalVal>;

#[derive(Debug, Clone, Copy, Eq, PartialEq, Structural)]
pub enum BfuAllocMode {
    Fast,
    Parity,
}

impl Default for BfuAllocMode {
    fn default() -> (r: Self)
        ensures
            r == BfuAllocMode::Fast,
    {
        BfuAllocMode::Fast
    }
}

#[derive(Debug, Clone, Copy, Eq, PartialEq, Structural)]
pub struct EncodeSettings {
    pub container_params: ContainerParams,
    pub no_gain_control: bool,
    pub no_tonal_components: bool,
    pub source_channels: u8,
    pub bfu_idx_const: u32,
    pub bfu_alloc_mode: BfuAllocMode,
}

impl EncodeSettings {
    pub fn new(
        bitrate: u32,
        no_gain_control: bool,
        no_tonal_components: bool,
        source_channels: u8,
        bfu_idx_const: u32,
    ) -> (r: Option<Self>)
        ensures
            match r {
                Some(s) => {
                    &&& exists|i: int| #[trigger]
                        is_slowest_reaching(i, requested_bitrate(bitrate)) && s.container_params
                            == format_params(i)
                    &&& s.no_gain_control == no_gain_control
                    &&& s.no_tonal_components == no_tonal_components
                    &&& s.source_channels == source_channels
                    &&& s.bfu_idx_const == bfu_idx_const
                    &&& s.bfu_alloc_mode == BfuAllocMode::Fast
                },
                None => requested_bitrate(bitrate) > CONTAINER_BITRATES@[7],
            },
    {
        match params_for_bitrate(bitrate) {
            Some(container_params) => Some(
                EncodeSettings {
                    container_params,
                    no_gain_control,
                    no_tonal_components,
                    source_channels,
                    bfu_idx_const,
                    bfu_alloc_mode: BfuAllocMode::Fast,
                },
            ),
            None => None,
        }
    }
}

impl Default for EncodeSettings {
    fn default() -> (s: Self)
        ensures
            s == (EncodeSettings {
                container_params: ContainerParams {
                    bitrate: 132300,
                    frame_sz: 384,
                    joint_stereo: false,
                },
                no_gain_control: false,
                no_tonal_components: false,
                source_channels: 2,
                bfu_idx_const: 0,
                bfu_alloc_mode: BfuAllocMode::Fast,
            }),
    {
        EncodeSettings {
            container_params: lp2(),
            no_gain_control: false,
            no_tonal_components: false,
            source_channels: 2,
            bfu_idx_const: 0,
            bfu_alloc_mode: BfuAllocMode::Fast,
        }
    }
}

/// The blocks follow each other: each starts where the one before ends, the first at line 0
/// and the last ends with the spectrum; every band has 256 lines.
pub proof fn law_blocks_tile(i: int, band: int)
    requires
        0 <= i < MAX_BFUS,
        0 <= band <= NUM_QMF,
    ensures
        BLOCK_SIZE_TAB@[0] == 0,
        BLOCK_SIZE_TAB@[i + 1] == BLOCK_SIZE_TAB@[i] + SPECS_PER_BLOCK@[i],
        BLOCK_SIZE_TAB@[32] == NUM_SPECS,
        BLOCK_SIZE_TAB@[BLOCKS_PER_BAND@[band] as int] == 256 * band,
{
}

/// The bit rate of a format is that of its frames, one for each 1024 of 44100 samples a
/// second, rounded to the nearest, halves up; faster formats have larger frames; the two
/// slowest are joint stereo.
pub proof fn law_formats(i: int, j: int)
    requires
        0 <= i < j < 8,
    ensures
        -1024 < 2 * (format_params(i).bitrate * 1024 - format_params(i).frame_sz * 8 * 44100) <= 1024,
        -1024 < 2 * (format_params(j).bitrate * 1024 - format_params(j).frame_sz * 8 * 44100) <= 1024,
        format_params(i).bitrate < format_params(j).bitrate,
        format_params(i).frame_sz < format_params(j).frame_sz,
        format_params(i).joint_stereo == (i == 0 || i == 1),
        format_params(j).joint_stereo == (j == 1),
{
}

/// A request is met by a format that reaches it and that no slower one does; no request
/// stands for the format of 384 bytes.
pub proof fn law_requests_met(i: int, bitrate: u32, j: int)
    requires
        is_slowest_reaching(i, requested_bitrate(bitrate)),
    ensures
        bitrate > 0 ==> format_params(i).bitrate >= bitrate,
        bitrate > 0 && 0 <= j < 8 && format_params(j).bitrate >= bitrate ==> i <= j,
        bitrate == 0 ==> format_params(i).frame_sz == 384,
{
    if bitrate == 0 {
        assert(i != 0 ==> CONTAINER_BITRATES@[0] < 132300);
        assert(i == 3) by {
            if i > 3 {
                assert(CONTAINER_BITRATES@[3] < 132300);
            }
        }
    } else if 0 <= j < i {
        assert(CONTAINER_BITRATES@[j] < bitrate);
    }
}

} // verus!
