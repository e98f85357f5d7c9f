//! Bit allocation and sound units of ATRAC3.

use vstd::prelude::*;
use crate::at3::coding;
use crate::at3::data::{BfuAllocMode, BLOCKS_PER_BAND, BLOCK_SIZE_TAB, MAX_BFUS, NUM_QMF};
use crate::at3::tonal;
use crate::bitstream::bits;
use crate::bitstream::BitStream;
use crate::dsp::gain::GainPoint;

pub use crate::at3::coding::{clc_encode, vlc_encode};
pub use crate::at3::tonal::{encode_tonal_components, TonalBlock};

verus! {

pub const FIXED_BIT_ALLOC_TABLE: [u32; 32] = [
    6, 6, 5, 4, 4, 4, 3, 3, 3, 3, 3, 3, 3, 3, 3, 3, 3, 3, 2, 2, 2, 2, 2, 1, 1, 1, 1, 1, 1, 0, 0, 0,
];

/// Blocks above this one are quantised without energy adjustment.
pub const LOSSY_NAQ_START: usize = 18;

/// Blocks from this one on never gain precision for their energy error.
pub const BOOST_NAQ_END: usize = 10;

/// A block of lines quantised at one precision. `boost` says that the energy of
/// the mantissas misses that of the lines by so much that more precision is due.
#[derive(Debug, Clone, PartialEq)]
pub struct QuantLevel {
    pub mantissas: Vec<i32>,
    pub boost: bool,
}

/// A block of lines, quantised at each of the precisions 1 to 7.
#[derive(Debug, Clone, PartialEq)]
pub struct ScaledBlock {
    pub scale_factor_index: u8,
    pub levels: Vec<QuantLevel>,
}

/// The number of lines of block `i`.
pub open spec fn block_size(i: int) -> int {
    BLOCK_SIZE_TAB@[i + 1] - BLOCK_SIZE_TAB@[i]
}

impl ScaledBlock {
    /// The mantissas at precision `p`.
    pub open spec fn at(&self, p: int) -> Seq<i32> {
        self.levels@[p - 1].mantissas@
    }

    /// The block can stand at place `i`.
    pub open spec fn wf(&self, i: int) -> bool {
        &&& self.levels@.len() == 7
        &&& forall|p: int|
            1 <= p <= 7 ==> (#[trigger] self.at(p)).len() == block_size(i) && coding::codable(
                p,
                self.at(p),
            )
    }
}

/// The blocks are valid, each at its place.
pub open spec fn blocks_wf(blocks: Seq<ScaledBlock>) -> bool {
    &&& blocks.len() <= MAX_BFUS
    &&& forall|i: int| 0 <= i < blocks.len() ==> (#[trigger] blocks[i]).wf(i)
}

/// Precisions of the first blocks of a channel.
pub open spec fn precision_wf(precision: Seq<u32>) -> bool {
    &&& precision.len() <= MAX_BFUS
    &&& forall|i: int| 0 <= i < precision.len() ==> #[trigger] precision[i] <= 7
}

/// What one channel puts into a sound unit.
#[derive(Debug, Clone, PartialEq)]
pub struct SingleChannelElement {
    pub subband_info: Vec<Vec<GainPoint>>,
    pub tonal_blocks: Vec<TonalBlock>,
    pub scaled_blocks: Vec<ScaledBlock>,
}

impl SingleChannelElement {
    pub fn new(num_qmf: usize) -> (s: Self)
        requires
            1 <= num_qmf <= NUM_QMF,
        ensures
            s.subband_info@.len() == num_qmf,
            forall|i: int|
                0 <= i < num_qmf ==> (#[trigger] s.subband_info@[i])@ == Seq::<GainPoint>::empty(),
            s.tonal_blocks@ == Seq::<TonalBlock>::empty(),
            s.scaled_blocks@ == Seq::<ScaledBlock>::empty(),
    {
        let mut subband_info: Vec<Vec<GainPoint>> = Vec::new();
        let mut i: usize = 0;
        while i < num_qmf
            invariant
                i <= num_qmf,
                subband_info@.len() == i,
                forall|j: int|
                    0 <= j < i ==> (#[trigger] subband_info@[j])@ == Seq::<GainPoint>::empty(),
            decreases num_qmf - i,
        {
            subband_info.push(Vec::new());
            i += 1;
        }
        SingleChannelElement {
            subband_info,
            tonal_blocks: Vec::new(),
            scaled_blocks: Vec::new(),
        }
    }
}

/// The number of blocks to start with: the fixed number where one is set, else
/// all; a small budget allows one block for each three bits above five.
pub open spec fn initial_num_bfu(bfu_idx_const: int, target_bits: int) -> int {
    let wanted = if bfu_idx_const != 0 {
        bfu_idx_const % 65536
    } else {
        32
    };
    let limit = if target_bits > 5 {
        if (target_bits - 5) / 3 > 1 {
            (target_bits - 5) / 3
        } else {
            1
        }
    } else {
        1
    };
    let n = if target_bits < 101 && limit < wanted {
        limit
    } else {
        wanted
    };
    if n > 1 {
        n
    } else {
        1
    }
}

pub fn calc_initial_num_bfu(bfu_idx_const: u32, target_bits: u16) -> (r: u16)
    ensures
        r == initial_num_bfu(bfu_idx_const as int, target_bits as int),
{
    assert(bfu_idx_const as u16 == bfu_idx_const % 65536) by (bit_vector);
    let mut num_bfu: u16 = if bfu_idx_const != 0 {
        #[verifier::truncate]
        (bfu_idx_const as u16)
    } else {
        MAX_BFUS as u16
    };
    if target_bits < 101 {
        let mut lim: u16 = 1;
        if target_bits > 5 {
            lim = (target_bits - 5) / 3;
        }
        if lim < 1 {
            lim = 1;
        }
        if lim < num_bfu {
            num_bfu = lim;
        }
    }
    if num_bfu < 1 {
        1
    } else {
        num_bfu
    }
}

/// Drops the last block where it has no precision.
pub fn check_bfus(num_bfu: &mut u16, precision_per_block: &[u32]) -> (r: bool)
    requires
        *old(num_bfu) > 0,
        *old(num_bfu) == precision_per_block@.len(),
    ensures
        r == (precision_per_block@.last() == 0),
        *final(num_bfu) == (if r {
            *old(num_bfu) - 1
        } else {
            *old(num_bfu) as int
        }),
{
    let cur_last_bfu: u16 = *num_bfu - 1;
    if precision_per_block[cur_last_bfu as usize] == 0 {
        *num_bfu = cur_last_bfu;
        return true;
    }
    false
}

/// Block `i` gains precision when its energy error asks for it.
pub open spec fn boosted(err: Seq<bool>, precision: Seq<u32>, i: int) -> bool {
    0 <= i < precision.len() && i < BOOST_NAQ_END && err[i] && precision[i] < 7
}

/// The precisions after one pass over the energy errors.
pub open spec fn boost_pass(err: Seq<bool>, precision: Seq<u32>) -> Seq<u32> {
    Seq::new(
        precision.len(),
        |i: int|
            if boosted(err, precision, i) {
                (precision[i] + 1) as u32
            } else {
                precision[i]
            },
    )
}

/// Raises by one the precision of each of the low blocks whose energy error asks
/// for it, and says whether any was raised.
pub fn consider_energy_err(err: &[bool], bits: &mut Vec<u32>) -> (adjusted: bool)
    requires
        err@.len() >= old(bits)@.len(),
    ensures
        final(bits)@ == boost_pass(err@, old(bits)@),
        adjusted == exists|i: int| boosted(err@, old(bits)@, i),
{
    let mut adjusted: bool = false;
    let lim: usize = if BOOST_NAQ_END < bits.len() {
        BOOST_NAQ_END
    } else {
        bits.len()
    };
    let ghost before = bits@;
    let mut i: usize = 0;
    while i < lim
        invariant
            i <= lim,
            lim <= BOOST_NAQ_END,
            lim <= before.len(),
            lim == BOOST_NAQ_END || lim == before.len(),
            before == old(bits)@,
            bits@.len() == before.len(),
            err@.len() >= before.len(),
            forall|j: int| 0 <= j < i ==> #[trigger] bits@[j] == boost_pass(err@, before)[j],
            forall|j: int| i <= j < before.len() ==> #[trigger] bits@[j] == before[j],
            adjusted == exists|j: int| j < i && boosted(err@, before, j),
        decreases lim - i,
    {
        if err[i] && bits[i] < 7 {
            bits[i] = bits[i] + 1;
            adjusted = true;
            assert(boosted(err@, before, i as int));
        }
        i += 1;
    }
    assert(bits@ =~= boost_pass(err@, before));
    adjusted
}

/// The errors of the blocks at the precisions that they have.
pub open spec fn errors_at(blocks: Seq<ScaledBlock>, precision: Seq<u32>) -> Seq<bool> {
    Seq::new(
        precision.len(),
        |i: int| precision[i] != 0 && blocks[i].levels@[precision[i] - 1].boost,
    )
}

/// How much the precisions of the low blocks can still grow.
pub open spec fn headroom(precision: Seq<u32>, n: nat) -> nat
    decreases n,
{
    if n == 0 {
        0
    } else {
        headroom(precision, (n - 1) as nat) + (if precision[n - 1] < 7 {
            (7 - precision[n - 1]) as nat
        } else {
            0
        })
    }
}

pub proof fn lemma_headroom(err: Seq<bool>, precision: Seq<u32>, n: nat)
    requires
        n <= precision.len(),
    ensures
        headroom(boost_pass(err, precision), n) <= headroom(precision, n),
        (exists|i: int| i < n && boosted(err, precision, i)) ==> headroom(
            boost_pass(err, precision),
            n,
        ) < headroom(precision, n),
    decreases n,
{
    if n > 0 {
        lemma_headroom(err, precision, (n - 1) as nat);
        if exists|i: int| i < n && boosted(err, precision, i) {
            let i = choose|i: int| i < n && boosted(err, precision, i);
            if i < n - 1 {
                assert(boosted(err, precision, i));
            }
        }
    }
}

/// The precisions once no low block asks for more.
pub open spec fn settled(blocks: Seq<ScaledBlock>, precision: Seq<u32>) -> Seq<u32>
    decreases headroom(precision, precision.len()),
{
    let err = errors_at(blocks, precision);
    if exists|i: int| boosted(err, precision, i) {
        proof {
            lemma_headroom(err, precision, precision.len());
            let i = choose|i: int| boosted(err, precision, i);
            assert(i < precision.len() && boosted(err, precision, i));
        }
        settled(blocks, boost_pass(err, precision))
    } else {
        precision
    }
}

/// Raises the precision of the low blocks as long as their energy error asks for
/// it.
pub fn settle_precision(blocks: &[ScaledBlock], precision: Vec<u32>) -> (r: Vec<u32>)
    requires
        blocks_wf(blocks@),
        precision@.len() <= blocks@.len(),
        precision_wf(precision@),
    ensures
        r@ == settled(blocks@, precision@),
        r@.len() == precision@.len(),
        precision_wf(r@),
{
    let mut bits: Vec<u32> = precision;
    let ghost goal = settled(blocks@, precision@);
    let mut go_on: bool = true;
    while go_on
        invariant
            blocks_wf(blocks@),
            bits@.len() == precision@.len(),
            bits@.len() <= blocks@.len(),
            precision_wf(bits@),
            settled(blocks@, bits@) == goal,
            !go_on ==> bits@ == goal,
        decreases
                headroom(bits@, bits@.len()) + (if go_on {
                    1nat
                } else {
                    0nat
                }),
    {
        let err: Vec<bool> = energy_errors(blocks, &bits);
        let ghost before = bits@;
        go_on = consider_energy_err(err.as_slice(), &mut bits);
        proof {
            lemma_headroom(err@, before, before.len());
            if go_on {
                let i = choose|i: int| boosted(err@, before, i);
                assert(i < before.len() && boosted(err@, before, i));
            } else {
                assert(bits@ =~= before);
            }
        }
    }
    bits
}

fn energy_errors(blocks: &[ScaledBlock], precision: &Vec<u32>) -> (err: Vec<bool>)
    requires
        blocks_wf(blocks@),
        precision@.len() <= blocks@.len(),
        precision_wf(precision@),
    ensures
        err@ == errors_at(blocks@, precision@),
{
    let mut err: Vec<bool> = Vec::new();
    let mut i: usize = 0;
    while i < precision.len()
        invariant
            i <= precision@.len(),
            blocks_wf(blocks@),
            precision@.len() <= blocks@.len(),
            precision_wf(precision@),
            err@ == errors_at(blocks@, precision@).take(i as int),
        decreases precision@.len() - i,
    {
        let p: u32 = precision[i];
        assert(blocks@[i as int].wf(i as int));
        let e: bool = p != 0 && blocks[i].levels[(p - 1) as usize].boost;
        err.push(e);
        assert(err@ =~= errors_at(blocks@, precision@).take(i + 1));
        i += 1;
    }
    assert(err@ =~= errors_at(blocks@, precision@));
    err
}

/// The code of the mantissas of a block at precision `p`: constant length for
/// coding mode 1, variable length for coding mode 0.
pub open spec fn mantissa_bits(mode: int, block: ScaledBlock, p: int) -> Seq<bool> {
    if mode == 1 {
        coding::clc_bits(p, block.at(p))
    } else {
        coding::vlc_bits(p, block.at(p))
    }
}

/// The bits for scale factors and mantissas of the first `n` blocks.
pub open spec fn blocks_cost(
    blocks: Seq<ScaledBlock>,
    precision: Seq<u32>,
    mode: int,
    n: nat,
) -> nat
    decreases n,
{
    if n == 0 {
        0
    } else {
        blocks_cost(blocks, precision, mode, (n - 1) as nat) + (if precision[n - 1] == 0 {
            0nat
        } else {
            6 + mantissa_bits(mode, blocks[n - 1], precision[n - 1] as int).len()
        })
    }
}

/// Constant length coding is taken when it needs no more bits than the other.
pub open spec fn cheaper_mode(blocks: Seq<ScaledBlock>, precision: Seq<u32>) -> int {
    if blocks_cost(blocks, precision, 1, precision.len()) <= blocks_cost(
        blocks,
        precision,
        0,
        precision.len(),
    ) {
        1
    } else {
        0
    }
}

/// The bits that precisions, scale factors and mantissas take in a coding mode.
pub open spec fn specs_cost(blocks: Seq<ScaledBlock>, precision: Seq<u32>, mode: int) -> nat {
    3 * precision.len() + blocks_cost(blocks, precision, mode, precision.len())
}

proof fn lemma_mantissa_bits_len(mode: int, blocks: Seq<ScaledBlock>, i: int, p: int)
    requires
        blocks_wf(blocks),
        0 <= i < blocks.len(),
        1 <= p <= 7,
    ensures
        mantissa_bits(mode, blocks[i], p).len() <= 8 * 128,
        p > 1 ==> coding::clc_bits(p, blocks[i].at(p)).len()
            == crate::at3::data::CLC_LENGTH_TAB@[p] * block_size(i),
        p == 1 ==> coding::clc_bits(p, blocks[i].at(p)).len() == 2 * block_size(i),
        coding::codable(p, blocks[i].at(p)),
        blocks[i].at(p).len() == block_size(i),
        8 <= block_size(i) <= 128,
        block_size(i) % 2 == 0,
        crate::at3::data::CLC_LENGTH_TAB@[p] * block_size(i) <= 8 * 128,
{
    assert(blocks[i].wf(i));
    let m = blocks[i].at(p);
    coding::lemma_clc_bits_len(p, m);
    coding::lemma_vlc_bits_len(p, m);
    assert(crate::at3::data::CLC_LENGTH_TAB@[p] <= 6);
    let l = crate::at3::data::CLC_LENGTH_TAB@[p] as int;
    let b = block_size(i);
    assert(8 <= b <= 128 && b % 2 == 0);
    assert(l * b <= 8 * 128) by (nonlinear_arith)
        requires
            0 <= l <= 6,
            8 <= b <= 128,
    ;
}

proof fn lemma_blocks_cost_bound(
    blocks: Seq<ScaledBlock>,
    precision: Seq<u32>,
    mode: int,
    n: nat,
)
    requires
        blocks_wf(blocks),
        precision_wf(precision),
        precision.len() <= blocks.len(),
        n <= precision.len(),
    ensures
        blocks_cost(blocks, precision, mode, n) <= 1030 * n,
    decreases n,
{
    if n > 0 {
        lemma_blocks_cost_bound(blocks, precision, mode, (n - 1) as nat);
        if precision[n - 1] != 0 {
            lemma_mantissa_bits_len(mode, blocks, n - 1, precision[n - 1] as int);
        }
    }
}

/// The bits of the first block in a coding mode.
fn count_blocks_cost(blocks: &[ScaledBlock], precision: &[u32], clc: bool) -> (r: u32)
    requires
        blocks_wf(blocks@),
        precision_wf(precision@),
        precision@.len() <= blocks@.len(),
    ensures
        r == blocks_cost(
            blocks@,
            precision@,
            if clc {
                1
            } else {
                0
            },
            precision@.len(),
        ),
{
    let ghost mode: int = if clc {
        1
    } else {
        0
    };
    let mut cost: u32 = 0;
    let mut i: usize = 0;
    while i < precision.len()
        invariant
            i <= precision@.len(),
            blocks_wf(blocks@),
            precision_wf(precision@),
            precision@.len() <= blocks@.len(),
            mode == (if clc {
                1int
            } else {
                0
            }),
            cost == blocks_cost(blocks@, precision@, mode, i as nat),
        decreases precision@.len() - i,
    {
        proof {
            lemma_blocks_cost_bound(blocks@, precision@, mode, i as nat);
        }
        let p: u32 = precision[i];
        if p != 0 {
            proof {
                lemma_mantissa_bits_len(mode, blocks@, i as int, p as int);
                lemma_mantissa_bits_len(1 - mode, blocks@, i as int, p as int);
                assert(blocks@[i as int].wf(i as int));
            }
            let first: u32 = BLOCK_SIZE_TAB[i];
            let last: u32 = BLOCK_SIZE_TAB[i + 1];
            let m: &[i32] = blocks[i].levels[(p - 1) as usize].mantissas.as_slice();
            assert(m@ == blocks@[i as int].at(p as int));
            assert(coding::coded_part(p as int, m@, last - first) =~= m@);
            let used: u32 = if clc {
                clc_encode(p, m, last - first, None)
            } else {
                vlc_encode(p, m, last - first, None)
            };
            cost = cost + 6 + used;
        }
        i += 1;
    }
    cost
}

/// The cheaper coding mode for the precisions, and the bits that it takes.
pub fn calc_specs_bits_consumption(
    scaled_blocks: &[ScaledBlock],
    precision_per_block: &[u32],
) -> (r: (u8, u32))
    requires
        blocks_wf(scaled_blocks@),
        precision_wf(precision_per_block@),
        precision_per_block@.len() <= scaled_blocks@.len(),
    ensures
        r.0 == cheaper_mode(scaled_blocks@, precision_per_block@),
        r.1 == specs_cost(scaled_blocks@, precision_per_block@, r.0 as int),
{
    proof {
        lemma_blocks_cost_bound(
            scaled_blocks@,
            precision_per_block@,
            0,
            precision_per_block@.len(),
        );
        lemma_blocks_cost_bound(
            scaled_blocks@,
            precision_per_block@,
            1,
            precision_per_block@.len(),
        );
    }
    let bits_used: u32 = (precision_per_block.len() * 3) as u32;
    let clc_bits: u32 = count_blocks_cost(scaled_blocks, precision_per_block, true);
    let vlc_bits: u32 = count_blocks_cost(scaled_blocks, precision_per_block, false);
    if clc_bits <= vlc_bits {
        (1, bits_used + clc_bits)
    } else {
        (0, bits_used + vlc_bits)
    }
}

/// Three bits for each of the first `n` precisions.
pub open spec fn precision_bits(precision: Seq<u32>, n: nat) -> Seq<bool>
    decreases n,
{
    if n == 0 {
        Seq::empty()
    } else {
        precision_bits(precision, (n - 1) as nat) + bits::msb_bits(precision[n - 1] as nat, 3)
    }
}

/// Six bits of scale factor for each of the first `n` blocks that have precision.
pub open spec fn scale_factor_bits(
    blocks: Seq<ScaledBlock>,
    precision: Seq<u32>,
    n: nat,
) -> Seq<bool>
    decreases n,
{
    if n == 0 {
        Seq::empty()
    } else {
        scale_factor_bits(blocks, precision, (n - 1) as nat) + (if precision[n - 1] == 0 {
            Seq::empty()
        } else {
            bits::msb_bits(blocks[n - 1].scale_factor_index as nat, 6)
        })
    }
}

/// The mantissas of the first `n` blocks that have precision.
pub open spec fn mantissas_bits(
    blocks: Seq<ScaledBlock>,
    precision: Seq<u32>,
    mode: int,
    n: nat,
) -> Seq<bool>
    decreases n,
{
    if n == 0 {
        Seq::empty()
    } else {
        mantissas_bits(blocks, precision, mode, (n - 1) as nat) + (if precision[n - 1] == 0 {
            Seq::empty()
        } else {
            mantissa_bits(mode, blocks[n - 1], precision[n - 1] as int)
        })
    }
}

/// The spectrum of a channel: tonal components, number of blocks, coding mode,
/// precisions, scale factors and mantissas.
pub open spec fn specs_bits(
    tonal_blocks: Seq<TonalBlock>,
    blocks: Seq<ScaledBlock>,
    precision: Seq<u32>,
    mode: int,
) -> Seq<bool> {
    tonal::tonal_bits(tonal_blocks, precision) + bits::msb_bits((precision.len() - 1) as nat, 5)
        + bits::msb_bits(mode as nat, 1) + precision_bits(precision, precision.len())
        + scale_factor_bits(blocks, precision, precision.len()) + mantissas_bits(
        blocks,
        precision,
        mode,
        precision.len(),
    )
}

/// Precisions that can be written for a channel: none may be set for a block
/// that is not there.
pub open spec fn specs_codable(sce: SingleChannelElement, precision: Seq<u32>) -> bool {
    &&& blocks_wf(sce.scaled_blocks@)
    &&& precision_wf(precision)
    &&& precision.len() >= 1
    &&& precision.len() <= sce.scaled_blocks@.len() || forall|i: int|
        0 <= i < precision.len() ==> #[trigger] precision[i] == 0
    &&& tonal::tonal_codable(sce.tonal_blocks@, precision)
    &&& sce.tonal_blocks@.len() <= u32::MAX
    &&& tonal::num_subgroups(sce.tonal_blocks@, precision, 64) > 0 ==> sce.subband_info@.len()
        == NUM_QMF
}

/// The parts of a spectrum have the lengths that `specs_cost` counts.
proof fn lemma_specs_parts_len(
    blocks: Seq<ScaledBlock>,
    precision: Seq<u32>,
    mode: int,
    n: nat,
)
    ensures
        precision_bits(precision, n).len() == 3 * n,
        scale_factor_bits(blocks, precision, n).len() + mantissas_bits(
            blocks,
            precision,
            mode,
            n,
        ).len() == blocks_cost(blocks, precision, mode, n),
    decreases n,
{
    if n > 0 {
        lemma_specs_parts_len(blocks, precision, mode, (n - 1) as nat);
    }
}

/// The bits that are counted for a spectrum are those that are written: six
/// more for the number of blocks and the coding mode, and those of the tonal
/// components.
pub proof fn law_specs_bit_count(
    tonal_blocks: Seq<TonalBlock>,
    blocks: Seq<ScaledBlock>,
    precision: Seq<u32>,
    mode: int,
)
    ensures
        specs_bits(tonal_blocks, blocks, precision, mode).len() == tonal::tonal_bits(
            tonal_blocks,
            precision,
        ).len() + 6 + specs_cost(blocks, precision, mode),
{
    lemma_specs_parts_len(blocks, precision, mode, precision.len());
}

proof fn lemma_parts_prefix(
    blocks: Seq<ScaledBlock>,
    precision: Seq<u32>,
    mode: int,
    k: nat,
    n: nat,
)
    requires
        k <= n,
    ensures
        scale_factor_bits(blocks, precision, k).len() <= scale_factor_bits(
            blocks,
            precision,
            n,
        ).len(),
        mantissas_bits(blocks, precision, mode, k).len() <= mantissas_bits(
            blocks,
            precision,
            mode,
            n,
        ).len(),
    decreases n,
{
    if k < n {
        lemma_parts_prefix(blocks, precision, mode, k, (n - 1) as nat);
    }
}

fn write_precisions(precision: &[u32], bs: &mut BitStream)
    requires
        precision_wf(precision@),
        old(bs).wf(),
        old(bs).bits().len() + 3 * precision@.len() + 7 <= usize::MAX,
    ensures
        final(bs).wf(),
        final(bs).read_pos() == old(bs).read_pos(),
        final(bs).bits() == old(bs).bits() + precision_bits(precision@, precision@.len()),
{
    let ghost start = bs.bits();
    let mut i: usize = 0;
    assert(start + Seq::<bool>::empty() =~= start);
    while i < precision.len()
        invariant
            i <= precision@.len(),
            bs.wf(),
            bs.read_pos() == old(bs).read_pos(),
            bs.bits() == start + precision_bits(precision@, i as nat),
            bs.bits().len() == start.len() + 3 * i,
            start.len() + 3 * precision@.len() + 7 <= usize::MAX,
        decreases precision@.len() - i,
    {
        bs.write(precision[i], 3);
        assert(bs.bits() =~= start + precision_bits(precision@, (i + 1) as nat));
        i += 1;
    }
}

fn write_scale_factors(blocks: &[ScaledBlock], precision: &[u32], bs: &mut BitStream)
    requires
        precision_wf(precision@),
        forall|i: int|
            0 <= i < precision@.len() && #[trigger] precision@[i] != 0 ==> i < blocks@.len(),
        old(bs).wf(),
        old(bs).bits().len() + scale_factor_bits(blocks@, precision@, precision@.len()).len() + 7
            <= usize::MAX,
    ensures
        final(bs).wf(),
        final(bs).read_pos() == old(bs).read_pos(),
        final(bs).bits() == old(bs).bits() + scale_factor_bits(
            blocks@,
            precision@,
            precision@.len(),
        ),
{
    let ghost start = bs.bits();
    let mut i: usize = 0;
    assert(start + Seq::<bool>::empty() =~= start);
    while i < precision.len()
        invariant
            i <= precision@.len(),
            forall|j: int|
                0 <= j < precision@.len() && #[trigger] precision@[j] != 0 ==> j < blocks@.len(),
            bs.wf(),
            bs.read_pos() == old(bs).read_pos(),
            bs.bits() == start + scale_factor_bits(blocks@, precision@, i as nat),
            start.len() + scale_factor_bits(blocks@, precision@, precision@.len()).len() + 7
                <= usize::MAX,
        decreases precision@.len() - i,
    {
        proof {
            lemma_parts_prefix(blocks@, precision@, 0, (i + 1) as nat, precision@.len());
        }
        if precision[i] != 0 {
            bs.write(blocks[i].scale_factor_index as u32, 6);
        }
        assert(bs.bits() =~= start + scale_factor_bits(blocks@, precision@, (i + 1) as nat));
        i += 1;
    }
}

fn write_mantissas(
    blocks: &[ScaledBlock],
    precision: &[u32],
    coding_mode: u8,
    bs: &mut BitStream,
)
    requires
        coding_mode <= 1,
        blocks_wf(blocks@),
        precision_wf(precision@),
        forall|i: int|
            0 <= i < precision@.len() && #[trigger] precision@[i] != 0 ==> i < blocks@.len(),
        old(bs).wf(),
        old(bs).bits().len() + mantissas_bits(
            blocks@,
            precision@,
            coding_mode as int,
            precision@.len(),
        ).len() + 7 <= usize::MAX,
    ensures
        final(bs).wf(),
        final(bs).read_pos() == old(bs).read_pos(),
        final(bs).bits() == old(bs).bits() + mantissas_bits(
            blocks@,
            precision@,
            coding_mode as int,
            precision@.len(),
        ),
{
    let ghost mode = coding_mode as int;
    let ghost start = bs.bits();
    let mut i: usize = 0;
    assert(start + Seq::<bool>::empty() =~= start);
    while i < precision.len()
        invariant
            i <= precision@.len(),
            coding_mode <= 1,
            mode == coding_mode,
            blocks_wf(blocks@),
            precision_wf(precision@),
            forall|j: int|
                0 <= j < precision@.len() && #[trigger] precision@[j] != 0 ==> j < blocks@.len(),
            bs.wf(),
            bs.read_pos() == old(bs).read_pos(),
            bs.bits() == start + mantissas_bits(blocks@, precision@, mode, i as nat),
            start.len() + mantissas_bits(blocks@, precision@, mode, precision@.len()).len() + 7
                <= usize::MAX,
        decreases precision@.len() - i,
    {
        proof {
            lemma_parts_prefix(blocks@, precision@, mode, (i + 1) as nat, precision@.len());
        }
        let p: u32 = precision[i];
        if p != 0 {
            proof {
                lemma_mantissa_bits_len(mode, blocks@, i as int, p as int);
                lemma_mantissa_bits_len(1 - mode, blocks@, i as int, p as int);
                assert(blocks@[i as int].wf(i as int));
            }
            let first: u32 = BLOCK_SIZE_TAB[i];
            let last: u32 = BLOCK_SIZE_TAB[i + 1];
            let m: &[i32] = blocks[i].levels[(p - 1) as usize].mantissas.as_slice();
            assert(m@ == blocks@[i as int].at(p as int));
            assert(coding::coded_part(p as int, m@, last - first) =~= m@);
            if coding_mode == 1 {
                clc_encode(p, m, last - first, Some(bs));
            } else {
                vlc_encode(p, m, last - first, Some(bs));
            }
        }
        assert(bs.bits() =~= start + mantissas_bits(blocks@, precision@, mode, (i + 1) as nat));
        i += 1;
    }
}

/// Writes the spectrum of a channel.
pub fn encode_specs(
    sce: &SingleChannelElement,
    bitstream: &mut BitStream,
    precision_per_block: &[u32],
    coding_mode: u8,
)
    requires
        specs_codable(*sce, precision_per_block@),
        coding_mode <= 1,
        old(bitstream).wf(),
        old(bitstream).bits().len() + specs_bits(
            sce.tonal_blocks@,
            sce.scaled_blocks@,
            precision_per_block@,
            coding_mode as int,
        ).len() + 7 <= usize::MAX,
    ensures
        final(bitstream).wf(),
        final(bitstream).read_pos() == old(bitstream).read_pos(),
        final(bitstream).bits() == old(bitstream).bits() + specs_bits(
            sce.tonal_blocks@,
            sce.scaled_blocks@,
            precision_per_block@,
            coding_mode as int,
        ),
{
    let ghost precision = precision_per_block@;
    let ghost mode = coding_mode as int;
    proof {
        lemma_specs_parts_len(sce.scaled_blocks@, precision, mode, precision.len());
    }
    encode_tonal_components(sce.tonal_blocks.as_slice(), precision_per_block, bitstream);
    bitstream.write((precision_per_block.len() - 1) as u32, 5);
    bitstream.write(coding_mode as u32, 1);
    write_precisions(precision_per_block, bitstream);
    write_scale_factors(sce.scaled_blocks.as_slice(), precision_per_block, bitstream);
    write_mantissas(sce.scaled_blocks.as_slice(), precision_per_block, coding_mode, bitstream);
    assert(bitstream.bits() =~= old(bitstream).bits() + specs_bits(
        sce.tonal_blocks@,
        sce.scaled_blocks@,
        precision,
        mode,
    ));
}

pub proof fn lemma_specs_cost_bound(blocks: Seq<ScaledBlock>, precision: Seq<u32>, mode: int)
    requires
        blocks_wf(blocks),
        precision_wf(precision),
        precision.len() <= blocks.len() || forall|i: int|
            0 <= i < precision.len() ==> #[trigger] precision[i] == 0,
    ensures
        specs_cost(blocks, precision, mode) <= 33056,
{
    if precision.len() <= blocks.len() {
        lemma_blocks_cost_bound(blocks, precision, mode, precision.len());
    } else {
        lemma_zero_cost(blocks, precision, mode, precision.len());
    }
}

proof fn lemma_zero_cost(blocks: Seq<ScaledBlock>, precision: Seq<u32>, mode: int, n: nat)
    requires
        n <= precision.len(),
        forall|i: int| 0 <= i < precision.len() ==> #[trigger] precision[i] == 0,
    ensures
        blocks_cost(blocks, precision, mode, n) == 0,
    decreases n,
{
    if n > 0 {
        lemma_zero_cost(blocks, precision, mode, (n - 1) as nat);
    }
}

/// The precision that an allocation level stands for: at most 7, none below
/// level 0, and at least 1 from there on.
pub open spec fn level_precision(level: int) -> int {
    if level > 7 {
        7
    } else if level < 0 {
        0
    } else if level == 0 {
        1
    } else {
        level
    }
}

/// The precisions before tonal components are taken into account. A block
/// without a level lies below the threshold of hearing.
pub open spec fn plain_allocation(levels: Seq<Option<i32>>) -> Seq<u32> {
    Seq::new(
        levels.len(),
        |i: int|
            match levels[i] {
                Some(l) => level_precision(l as int) as u32,
                None => 0,
            },
    )
}

/// Each of the first `n` tonal components takes one from the precision of its
/// block, down to 2.
pub open spec fn less_tonal(precision: Seq<u32>, tcs: Seq<TonalBlock>, n: nat) -> Seq<u32>
    decreases n,
{
    if n == 0 {
        precision
    } else {
        let p = less_tonal(precision, tcs, (n - 1) as nat);
        let bfu = tcs[n - 1].val.bfu as int;
        if bfu < p.len() && p[bfu] > 2 {
            p.update(bfu, (p[bfu] - 1) as u32)
        } else {
            p
        }
    }
}

/// The precisions of the blocks from their allocation levels.
pub fn calc_bits_allocation(levels: &[Option<i32>], tonal_blocks: &[TonalBlock]) -> (r: Vec<u32>)
    ensures
        r@ == less_tonal(plain_allocation(levels@), tonal_blocks@, tonal_blocks@.len()),
        r@.len() == levels@.len(),
        forall|i: int| 0 <= i < r@.len() ==> #[trigger] r@[i] <= 7,
{
    let ghost plain = plain_allocation(levels@);
    let mut bits: Vec<u32> = Vec::new();
    let mut i: usize = 0;
    while i < levels.len()
        invariant
            i <= levels@.len(),
            plain == plain_allocation(levels@),
            bits@ == plain.take(i as int),
            forall|j: int| 0 <= j < bits@.len() ==> #[trigger] bits@[j] <= 7,
        decreases levels@.len() - i,
    {
        let b: u32 = match levels[i] {
            Some(level) => if level > 7 {
                7
            } else if level < 0 {
                0
            } else if level == 0 {
                1
            } else {
                level as u32
            },
            None => 0,
        };
        bits.push(b);
        assert(bits@ =~= plain.take(i + 1));
        i += 1;
    }
    assert(bits@ =~= plain);
    let mut k: usize = 0;
    while k < tonal_blocks.len()
        invariant
            k <= tonal_blocks@.len(),
            bits@.len() == levels@.len(),
            bits@ == less_tonal(plain, tonal_blocks@, k as nat),
            forall|j: int| 0 <= j < bits@.len() ==> #[trigger] bits@[j] <= 7,
        decreases tonal_blocks@.len() - k,
    {
        let bfu: usize = tonal_blocks[k].val.bfu as usize;
        if bfu < bits.len() && bits[bfu] > 2 {
            bits[bfu] = bits[bfu] - 1;
        }
        k += 1;
    }
    bits
}

/// Precisions of a channel and the coding mode of its mantissas.
#[derive(Debug, Clone, PartialEq)]
pub struct Allocation {
    pub precision: Vec<u32>,
    pub coding_mode: u8,
}

/// What is written for a channel without blocks.
pub fn silent_allocation() -> (a: Allocation)
    ensures
        a.precision@ == seq![0u32],
        a.coding_mode == 1,
{
    let mut precision: Vec<u32> = Vec::new();
    precision.push(0);
    assert(precision@ =~= seq![0u32]);
    Allocation { precision, coding_mode: 1 }
}

/// The bits that count against the budget of a channel.
pub open spec fn total_cost(sce: SingleChannelElement, precision: Seq<u32>) -> nat {
    specs_cost(sce.scaled_blocks@, precision, cheaper_mode(sce.scaled_blocks@, precision))
        + tonal::tonal_bits(sce.tonal_blocks@, precision).len()
}

/// Without its trailing blocks of precision 0; one block always stays.
pub open spec fn trimmed(precision: Seq<u32>) -> Seq<u32>
    decreases precision.len(),
{
    if precision.len() > 1 && precision.last() == 0 {
        trimmed(precision.drop_last())
    } else {
        precision
    }
}

/// The search for the finest allocation that fits the budget of a channel. The
/// caller proposes allocations, finer ones after one that fits and coarser ones
/// after one that does not.
pub struct AllocationSearch {
    pub target_bits: u16,
    pub bfu_idx_const: u32,
    pub bfu_alloc_mode: BfuAllocMode,
    pub num_bfu: u16,
    pub best: Option<Allocation>,
}

impl AllocationSearch {
    pub fn new(
        sce: &SingleChannelElement,
        target_bits: u16,
        bfu_idx_const: u32,
        bfu_alloc_mode: BfuAllocMode,
    ) -> (s: Self)
        requires
            1 <= sce.scaled_blocks@.len() <= MAX_BFUS,
        ensures
            s.target_bits == target_bits,
            s.bfu_idx_const == bfu_idx_const,
            s.bfu_alloc_mode == bfu_alloc_mode,
            s.best is None,
            ({
                let n = initial_num_bfu(bfu_idx_const as int, target_bits as int);
                s.num_bfu == (if n < sce.scaled_blocks@.len() {
                    n
                } else {
                    sce.scaled_blocks@.len() as int
                })
            }),
            1 <= s.num_bfu <= sce.scaled_blocks@.len(),
    {
        let wanted: u16 = calc_initial_num_bfu(bfu_idx_const, target_bits);
        let num_bfu: u16 = if (wanted as usize) < sce.scaled_blocks.len() {
            wanted
        } else {
            sce.scaled_blocks.len() as u16
        };
        AllocationSearch { target_bits, bfu_idx_const, bfu_alloc_mode, num_bfu, best: None }
    }

    /// Weighs a settled allocation: one that fits becomes the best so far.
    pub fn submit(&mut self, sce: &SingleChannelElement, precision: Vec<u32>) -> (fits: bool)
        requires
            precision@.len() == old(self).num_bfu,
            precision@.len() <= sce.scaled_blocks@.len(),
            specs_codable(*sce, precision@),
        ensures
            fits == (total_cost(*sce, precision@) <= old(self).target_bits),
            match final(self).best {
                Some(a) => if fits {
                    a.precision@ == precision@ && a.coding_mode == cheaper_mode(
                        sce.scaled_blocks@,
                        precision@,
                    )
                } else {
                    old(self).best == Some(a)
                },
                None => !fits && old(self).best is None,
            },
            final(self).target_bits == old(self).target_bits,
            final(self).bfu_idx_const == old(self).bfu_idx_const,
            final(self).bfu_alloc_mode == old(self).bfu_alloc_mode,
            final(self).num_bfu == old(self).num_bfu,
    {
        let (mode, specs): (u8, u32) = calc_specs_bits_consumption(
            sce.scaled_blocks.as_slice(),
            precision.as_slice(),
        );
        proof {
            lemma_blocks_cost_bound(sce.scaled_blocks@, precision@, mode as int, precision@.len());
        }
        let mut scratch = BitStream::new();
        let tonal: u16 = encode_tonal_components(
            sce.tonal_blocks.as_slice(),
            precision.as_slice(),
            &mut scratch,
        );
        if specs + tonal as u32 <= self.target_bits as u32 {
            self.best = Some(Allocation { precision, coding_mode: mode });
            true
        } else {
            false
        }
    }

    /// The allocation that a round of proposals has found: the best that fitted,
    /// or no precision at all.
    pub open spec fn found(&self) -> Seq<u32> {
        match self.best {
            Some(a) => a.precision@,
            None => Seq::new(self.num_bfu as nat, |i: int| 0u32),
        }
    }

    /// A further round with one block less is due: the last block has no
    /// precision, it may be dropped, and precision is to be shared out anew.
    pub open spec fn needs_round(&self) -> bool {
        &&& self.bfu_alloc_mode == BfuAllocMode::Parity
        &&& self.bfu_idx_const == 0
        &&& self.found().len() > 1
        &&& self.found().last() == 0
    }

    /// Ends a round of proposals: gives the allocation, or `None` where another
    /// round with one block less is due.
    pub fn end_round(&mut self) -> (r: Option<Allocation>)
        requires
            1 <= old(self).num_bfu,
            old(self).best matches Some(a) ==> a.precision@.len() == old(self).num_bfu,
        ensures
            r is None <==> old(self).needs_round(),
            r is None ==> final(self).num_bfu == old(self).num_bfu - 1,
            r is Some ==> final(self).num_bfu == old(self).num_bfu,
            r matches Some(a) ==> a.precision@ == (if old(self).bfu_alloc_mode == BfuAllocMode::Fast
                && old(self).bfu_idx_const == 0 {
                trimmed(old(self).found())
            } else {
                old(self).found()
            }) && a.coding_mode == (match old(self).best {
                Some(b) => b.coding_mode,
                None => 1,
            }),
            final(self).best is None,
            final(self).target_bits == old(self).target_bits,
            final(self).bfu_idx_const == old(self).bfu_idx_const,
            final(self).bfu_alloc_mode == old(self).bfu_alloc_mode,
    {
        let ghost found = self.found();
        let mut taken: Option<Allocation> = None;
        core::mem::swap(&mut taken, &mut self.best);
        let mut result: Allocation = match taken {
            Some(a) => a,
            None => {
                let precision: Vec<u32> = vec![0; self.num_bfu as usize];
                assert(precision@ =~= found);
                Allocation { precision, coding_mode: 1 }
            },
        };
        let ghost mode = result.coding_mode;
        if self.bfu_idx_const == 0 {
            match self.bfu_alloc_mode {
                BfuAllocMode::Parity => {
                    if result.precision.len() > 1 {
                        let mut num_bfu: u16 = self.num_bfu;
                        if check_bfus(&mut num_bfu, result.precision.as_slice()) {
                            self.num_bfu = num_bfu;
                            return None;
                        }
                    }
                },
                BfuAllocMode::Fast => {
                    while result.precision.len() > 1 && result.precision[result.precision.len() - 1]
                        == 0
                        invariant
                            result.precision@.len() >= 1,
                            result.coding_mode == mode,
                            trimmed(result.precision@) == trimmed(found),
                        decreases result.precision@.len(),
                    {
                        let ghost before = result.precision@;
                        let n: usize = result.precision.len() - 1;
                        result.precision.truncate(n);
                        assert(result.precision@ =~= before.drop_last());
                    }
                },
            }
        }
        Some(result)
    }
}

/// The band that a block lies in.
pub open spec fn band_of_block(block: int) -> int {
    if block >= BLOCKS_PER_BAND@[3] {
        3
    } else if block >= BLOCKS_PER_BAND@[2] {
        2
    } else if block >= BLOCKS_PER_BAND@[1] {
        1
    } else {
        0
    }
}

pub fn block_band(block: usize) -> (band: usize)
    ensures
        band == band_of_block(block as int),
        band < NUM_QMF,
{
    let mut bfu_band: usize = 0;
    let mut band: usize = 1;
    while band < NUM_QMF
        invariant
            1 <= band <= NUM_QMF,
            bfu_band < NUM_QMF,
            band == 1 ==> bfu_band == 0,
            band == 2 ==> bfu_band == (if block >= 18 {
                1int
            } else {
                0
            }),
            band == 3 ==> bfu_band == (if block >= 26 {
                2int
            } else if block >= 18 {
                1
            } else {
                0
            }),
            band == 4 ==> bfu_band == band_of_block(block as int),
        decreases NUM_QMF - band,
    {
        if block >= BLOCKS_PER_BAND[band] as usize {
            bfu_band = band;
        }
        band += 1;
    }
    bfu_band
}

pub fn max_specs_per_block() -> (n: usize)
    ensures
        n == 128,
{
    crate::at3::data::MAX_SPECS_PER_BLOCK
}

/// How many blocks a search starts with: all 32, or the fixed number where one is set, and
/// at least one. Only under 101 bits they may be fewer: as many as find three bits each
/// beside five.
pub proof fn law_initial_blocks(bfu_idx_const: int, target_bits: int)
    requires
        0 <= bfu_idx_const < 65536,
        0 <= target_bits,
    ensures
        ({
            let n = initial_num_bfu(bfu_idx_const, target_bits);
            let wanted = if bfu_idx_const == 0 {
                32
            } else {
                bfu_idx_const
            };
            &&& 1 <= n <= wanted
            &&& target_bits >= 101 ==> n == wanted
            &&& target_bits < 101 ==> n == 1 || 5 + 3 * n <= target_bits
            &&& n < wanted ==> target_bits < 5 + 3 * (n + 1)
        }),
{
}

/// One pass raises by one just the precisions under 7 of those of the first ten blocks whose
/// error asks for it.
pub proof fn law_boost_pass(err: Seq<bool>, precision: Seq<u32>, i: int)
    requires
        0 <= i < precision.len(),
        precision[i] <= 7,
    ensures
        boost_pass(err, precision).len() == precision.len(),
        i < 10 && err[i] && precision[i] < 7 ==> boost_pass(err, precision)[i] == precision[i] + 1,
        i >= 10 || !err[i] || precision[i] == 7 ==> boost_pass(err, precision)[i] == precision[i],
{
}

/// Where precisions settle: each block of the first ten climbs one by one from its own
/// precision as long as its error at the precision that it has asks for more, up to 7, and
/// stops there; the other blocks, and those without precision, stay.
pub proof fn law_precisions_settle(blocks: Seq<ScaledBlock>, precision: Seq<u32>, i: int, q: int)
    requires
        precision_wf(precision),
        0 <= i < precision.len(),
    ensures
        ({
            let r = settled(blocks, precision);
            &&& r.len() == precision.len()
            &&& precision[i] <= r[i] <= 7
            &&& i >= 10 || precision[i] == 0 ==> r[i] == precision[i]
            &&& i < 10 && 0 < r[i] < 7 ==> !blocks[i].levels@[r[i] - 1].boost
            &&& precision[i] <= q < r[i] ==> blocks[i].levels@[q - 1].boost
        }),
    decreases headroom(precision, precision.len()),
{
    let err = errors_at(blocks, precision);
    if exists|k: int| boosted(err, precision, k) {
        lemma_headroom(err, precision, precision.len());
        let k = choose|k: int| boosted(err, precision, k);
        assert(k < precision.len() && boosted(err, precision, k));
        let next = boost_pass(err, precision);
        assert(precision_wf(next)) by {
            assert forall|j: int| 0 <= j < next.len() implies #[trigger] next[j] <= 7 by {
                assert(precision[j] <= 7);
            }
        }
        assert(precision[i] <= 7);
        law_precisions_settle(blocks, next, i, q);
    } else {
        assert(!boosted(err, precision, i));
        assert(precision[i] <= 7);
    }
}

/// Levels from 1 to 7 are precisions themselves; 0 stands for 1, lower ones for none, higher
/// ones for 7; a block without a level gets none.
pub proof fn law_levels_are_precisions(levels: Seq<Option<i32>>, i: int)
    requires
        0 <= i < levels.len(),
    ensures
        ({
            let r = plain_allocation(levels);
            &&& r.len() == levels.len()
            &&& levels[i] is None ==> r[i] == 0
            &&& levels[i] matches Some(l) ==> {
                &&& 1 <= l <= 7 ==> r[i] == l
                &&& l == 0 ==> r[i] == 1
                &&& l < 0 ==> r[i] == 0
                &&& l > 7 ==> r[i] == 7
            }
        }),
{
}

/// How many of the first `n` components lie in block `i`.
pub open spec fn components_in(tcs: Seq<TonalBlock>, i: int, n: nat) -> nat
    decreases n,
{
    if n == 0 {
        0
    } else {
        components_in(tcs, i, (n - 1) as nat) + (if tcs[n - 1].val.bfu == i {
            1nat
        } else {
            0
        })
    }
}

/// Tonal components lower the precision of just their own blocks: by one each, but not
/// under 2; precisions of 2 and less stay.
pub proof fn law_components_lower_precision(
    precision: Seq<u32>,
    tcs: Seq<TonalBlock>,
    n: nat,
    i: int,
)
    requires
        0 <= i < precision.len(),
    ensures
        ({
            let r = less_tonal(precision, tcs, n);
            let c = components_in(tcs, i, n);
            &&& r.len() == precision.len()
            &&& precision[i] <= 2 ==> r[i] == precision[i]
            &&& precision[i] > 2 && precision[i] - c >= 2 ==> r[i] == precision[i] - c
            &&& precision[i] > 2 && precision[i] - c < 2 ==> r[i] == 2
        }),
    decreases n,
{
    if n > 0 {
        law_components_lower_precision(precision, tcs, (n - 1) as nat, i);
    }
}

/// The mode that is taken is the cheaper one, constant length where both cost the same.
pub proof fn law_cheaper_mode(blocks: Seq<ScaledBlock>, precision: Seq<u32>)
    ensures
        cheaper_mode(blocks, precision) == 0 || cheaper_mode(blocks, precision) == 1,
        specs_cost(blocks, precision, 0) == specs_cost(blocks, precision, 1) ==> cheaper_mode(
            blocks,
            precision,
        ) == 1,
        specs_cost(blocks, precision, cheaper_mode(blocks, precision)) <= specs_cost(
            blocks,
            precision,
            0,
        ),
        specs_cost(blocks, precision, cheaper_mode(blocks, precision)) <= specs_cost(
            blocks,
            precision,
            1,
        ),
{
}

/// Trimming takes away blocks without precision from the end, all of them, but leaves one
/// block.
pub proof fn law_trimmed(precision: Seq<u32>, i: int)
    requires
        precision.len() >= 1,
    ensures
        ({
            let t = trimmed(precision);
            &&& 1 <= t.len() <= precision.len()
            &&& t == precision.take(t.len() as int)
            &&& t.len() <= i < precision.len() ==> precision[i] == 0
            &&& t.len() == 1 || t.last() != 0
        }),
    decreases precision.len(),
{
    if precision.len() > 1 && precision.last() == 0 {
        law_trimmed(precision.drop_last(), i);
        let t = trimmed(precision);
        assert(precision.take(t.len() as int) =~= precision.drop_last().take(t.len() as int));
    } else {
        assert(precision.take(precision.len() as int) =~= precision);
    }
}

/// A block lies in the band whose blocks it is among.
pub proof fn law_band_of_block(block: int)
    requires
        0 <= block < MAX_BFUS,
    ensures
        0 <= band_of_block(block) < NUM_QMF,
        BLOCKS_PER_BAND@[band_of_block(block)] <= block < BLOCKS_PER_BAND@[band_of_block(block) + 1],
{
}

/// What a round has found is the best allocation that fitted, else no precision for any of
/// its blocks. A further round is due just with free choice of blocks in the mode that
/// shares out anew, where the last of several blocks has no precision.
pub proof fn law_round_found(s: AllocationSearch, i: int)
    ensures
        s.best matches Some(a) ==> s.found() == a.precision@,
        s.best is None ==> s.found().len() == s.num_bfu,
        s.best is None && 0 <= i < s.num_bfu ==> s.found()[i] == 0,
        s.bfu_idx_const != 0 ==> !s.needs_round(),
        s.bfu_alloc_mode == BfuAllocMode::Fast ==> !s.needs_round(),
        s.bfu_idx_const == 0 && s.bfu_alloc_mode == BfuAllocMode::Parity ==> (s.needs_round()
            <==> s.found().len() > 1 && s.found().last() == 0),
{
}

} // verus!
