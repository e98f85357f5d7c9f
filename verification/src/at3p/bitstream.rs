//! ATRAC3plus frames.

use vstd::prelude::*;
use crate::at3::sound_unit;
use crate::at3::sound_unit::resize_bytes;
use crate::at3p::fields;
use crate::at3p::fields::{BitField, Dumper};
use crate::at3p::frame;
use crate::at3p::frame::{
    At3pPart, FrameModel, PartModel, SingleChannelElement, SpecFrame,
};
use crate::at3p::gha::At3PGhaData;
use crate::at3p::spectra;
use crate::at3p::tables::{CodeBooks, HuffTables};
use crate::bitstream::bits;
use crate::bitstream::encode;
use crate::bitstream::encode::{
    BitAllocHandler, BitStreamEncodeError, BitStreamEncoder, PassOutcome,
};
use crate::bitstream::BitStream;
use crate::container::CompressedOutput;
use crate::error::AtracdencError;

pub use crate::at3p::freq_pack::{
    create_freq_bit_pack, TonePackEntry, TonePackOrder, TonePackResult,
};

verus! {

/// The frame with `n` units.
pub open spec fn with_units(f: FrameModel, n: u32) -> FrameModel {
    FrameModel { num_quant_units: n, ..f }
}

/// The fields before the tail for `n` units.
pub open spec fn main_fields(f: FrameModel, n: u32) -> Seq<BitField> {
    let start = with_units(f, n);
    let g = frame::configured(start);
    frame::configure_fields(start) + frame::word_len_fields(g) + frame::sf_idx_fields(g)
        + frame::quant_fields(g)
}

/// The bits before the tail for `n` units.
pub open spec fn main_len(f: FrameModel, n: u32) -> nat {
    fields::fields_bits(main_fields(f, n)).len()
}

/// The parts before the tail can be encoded with `n` units.
pub open spec fn main_ready(f: FrameModel, n: u32) -> bool {
    let start = with_units(f, n);
    let g = frame::configured(start);
    frame::configure_ready(start) && frame::word_len_ready(g) && frame::quant_ready(g)
}

/// The number of tone bands, 0 without tonal components.
pub open spec fn tone_bands(f: FrameModel) -> u8 {
    match f.tonal_block {
        Some(t) => t.num_tone_bands,
        None => 0,
    }
}

/// The number of units that a frame ends up with: from `n` on downwards the first
/// that leaves room for the tail. After the first try it is an error if there
/// are more tone bands than units.
pub open spec fn chosen_units(f: FrameModel, n: u32, first: bool, tail_len: nat) -> Result<
    u32,
    BitStreamEncodeError,
>
    decreases n,
{
    if !first && tone_bands(f) > n {
        Err(
            BitStreamEncodeError::TonalBandsExceedQuantUnits {
                tone_bands: tone_bands(f),
                quant_units: n,
            },
        )
    } else if main_len(f, n) + tail_len <= f.size_bits || n <= 1 {
        Ok(n)
    } else {
        chosen_units(f, frame::fewer_units(n), false, tail_len)
    }
}

/// Every number of units that is tried can be encoded, and the last one fits.
pub open spec fn units_ready(f: FrameModel, n: u32, first: bool, tail_len: nat) -> bool
    decreases n,
{
    &&& main_ready(f, n)
    &&& main_len(f, n) + tail_len <= u32::MAX
    &&& {
        ||| !first && tone_bands(f) > n
        ||| main_len(f, n) + tail_len <= f.size_bits
        ||| n > 1 && units_ready(f, frame::fewer_units(n), false, tail_len)
    }
}

/// The parts at the start of a pass.
spec fn chain(tail: Seq<BitField>, used: nat) -> Seq<PartModel> {
    seq![
        PartModel::Configure(Seq::empty()),
        PartModel::WordLen(Seq::empty()),
        PartModel::SfIdx(Seq::empty()),
        PartModel::QuantUnits(Seq::empty()),
        PartModel::Tail(tail, used),
    ]
}

/// Two frames agree but for what the parts have filled in.
spec fn same_input(f: FrameModel, g: FrameModel) -> bool {
    g == (FrameModel {
        num_quant_units: g.num_quant_units,
        word_len: g.word_len,
        sf_idx: g.sf_idx,
        spec_tab_idx: g.spec_tab_idx,
        ..f
    })
}

proof fn lemma_code_tab_same(
    channels: nat,
    a: Seq<(u8, u8)>,
    b: Seq<(u8, u8)>,
    n: nat,
)
    requires
        n <= a.len(),
        n <= b.len(),
        channels <= 2,
        forall|i: int| 0 <= i < n ==> (#[trigger] a[i]).0 == b[i].0,
        channels == 2 ==> forall|i: int| 0 <= i < n ==> (#[trigger] a[i]).1 == b[i].1,
    ensures
        spectra::code_tab_fields(channels, a, n) == spectra::code_tab_fields(channels, b, n),
    decreases channels,
{
    if channels > 0 {
        lemma_code_tab_same((channels - 1) as nat, a, b, n);
        assert(spectra::tab_idx_fields(a, channels - 1, n) =~= spectra::tab_idx_fields(
            b,
            channels - 1,
            n,
        ));
    }
}

proof fn lemma_qus_same(f: FrameModel, g: FrameModel, ch: int, n: nat)
    requires
        g == (FrameModel { spec_tab_idx: g.spec_tab_idx, ..f }),
    ensures
        frame::qus_fields(f, ch, n) == frame::qus_fields(g, ch, n),
    decreases n,
{
    if n > 0 {
        lemma_qus_same(f, g, ch, (n - 1) as nat);
    }
}

proof fn lemma_spectra_same(f: FrameModel, g: FrameModel, channels: nat)
    requires
        g == (FrameModel { spec_tab_idx: g.spec_tab_idx, ..f }),
    ensures
        frame::spectra_fields(f, channels) == frame::spectra_fields(g, channels),
    decreases channels,
{
    if channels > 0 {
        lemma_spectra_same(f, g, (channels - 1) as nat);
        lemma_qus_same(f, g, channels - 1, f.num_quant_units as nat);
    }
}

/// Whether units can be coded does not depend on earlier table choices.
proof fn lemma_quant_ready_same(f: FrameModel, g: FrameModel)
    requires
        frame::quant_ready(f),
        g == (FrameModel { spec_tab_idx: g.spec_tab_idx, ..f }),
        g.spec_tab_idx.len() >= f.num_quant_units,
    ensures
        frame::quant_ready(g),
{
    assert forall|ch: int, qu: int|
        0 <= ch < g.channels && 0 <= qu < g.num_quant_units implies #[trigger] frame::unit_ready(
        g,
        ch,
        qu,
    ) by {
        assert(frame::unit_ready(f, ch, qu));
        assert(frame::unit_lines(f, ch, qu) == frame::unit_lines(g, ch, qu));
        assert(frame::unit_word_len(f, ch, qu) == frame::unit_word_len(g, ch, qu));
    }
}

/// What is coded does not depend on the table choices of an earlier pass.
proof fn lemma_quant_same(f: FrameModel, g: FrameModel)
    requires
        frame::quant_ready(f),
        g == (FrameModel { spec_tab_idx: g.spec_tab_idx, ..f }),
        g.spec_tab_idx.len() >= f.num_quant_units,
    ensures
        frame::quant_fields(f) == frame::quant_fields(g),
        frame::quant_ready(g),
{
    lemma_spectra_same(f, g, f.channels as nat);
    lemma_code_tab_same(
        f.channels as nat,
        frame::chosen_tabs(f),
        frame::chosen_tabs(g),
        f.num_quant_units as nat,
    );
    lemma_quant_ready_same(f, g);
}

/// The parts after a pass over those before the tail.
spec fn filled_chain(f: FrameModel, tail: Seq<BitField>, used: nat) -> Seq<PartModel> {
    let g = frame::configured(f);
    seq![
        PartModel::Configure(frame::configure_fields(f)),
        PartModel::WordLen(frame::word_len_fields(g)),
        PartModel::SfIdx(frame::sf_idx_fields(g)),
        PartModel::QuantUnits(frame::quant_fields(g)),
        PartModel::Tail(tail, used),
    ]
}

/// The bits of the parts before the tail.
spec fn filled_len(f: FrameModel) -> nat {
    let g = frame::configured(f);
    fields::fields_bits(frame::configure_fields(f)).len() + fields::fields_bits(
        frame::word_len_fields(g),
    ).len() + fields::fields_bits(frame::sf_idx_fields(g)).len() + fields::fields_bits(
        frame::quant_fields(g),
    ).len()
}

/// The fields of a pass are those of the number of units that it is made with.
proof fn lemma_main_fields(base: FrameModel, f: FrameModel)
    requires
        same_input(base, f),
        main_ready(base, f.num_quant_units),
    ensures
        ({
            let g = frame::configured(f);
            &&& frame::configure_ready(f)
            &&& frame::word_len_ready(g)
            &&& frame::sf_idx_ready(g)
            &&& frame::quant_ready(g)
            &&& frame::configure_fields(f) + frame::word_len_fields(g) + frame::sf_idx_fields(g)
                + frame::quant_fields(g) == main_fields(base, f.num_quant_units)
            &&& filled_len(f) == main_len(base, f.num_quant_units)
            &&& same_input(base, frame::quant_done(g))
        }),
{
    let n = f.num_quant_units;
    let start = with_units(base, n);
    let g0 = frame::configured(start);
    let g = frame::configured(f);
    assert(g =~= (FrameModel { spec_tab_idx: g.spec_tab_idx, ..g0 }));
    lemma_quant_same(g0, g);
    frame::lemma_sf_same(g0, g, g.channels as nat);
    let c = frame::configure_fields(f);
    let w = frame::word_len_fields(g);
    let s = frame::sf_idx_fields(g);
    let q = frame::quant_fields(g);
    fields::lemma_fields_bits_concat(c, w);
    fields::lemma_fields_bits_concat(c + w, s);
    fields::lemma_fields_bits_concat(c + w + s, q);
}

/// The parts before the tail, one after the other.
proof fn lemma_main_steps(
    f: FrameModel,
    g: FrameModel,
    tail: Seq<BitField>,
    used: nat,
    ba: BitAllocHandler<i32>,
) -> (ba4: BitAllocHandler<i32>)
    requires
        g == frame::configured(f),
        frame::configure_ready(f),
        frame::word_len_ready(g),
        frame::sf_idx_ready(g),
        frame::quant_ready(g),
        !ba.need_repeat,
        filled_len(f) <= u32::MAX,
    ensures
        ba4 == (BitAllocHandler {
            cur_enc_pos: ba4.cur_enc_pos,
            previous_consumption: ba4.previous_consumption,
            ..ba
        }),
        encode::pass::<SpecFrame, i32, At3pPart>(chain(tail, used), f, ba, 0) == encode::pass::<
            SpecFrame,
            i32,
            At3pPart,
        >(filled_chain(f, tail, used), frame::quant_done(g), ba4, 4),
        encode::pass_ready::<SpecFrame, i32, At3pPart>(
            filled_chain(f, tail, used),
            frame::quant_done(g),
            ba4,
            4,
        ) ==> encode::pass_ready::<SpecFrame, i32, At3pPart>(chain(tail, used), f, ba, 0),
{
    let c = frame::configure_fields(f);
    let w = frame::word_len_fields(g);
    let s = frame::sf_idx_fields(g);
    let q = frame::quant_fields(g);
    let h = frame::quant_done(g);
    assert(Seq::<BitField>::empty() + c =~= c);
    assert(Seq::<BitField>::empty() + w =~= w);
    assert(Seq::<BitField>::empty() + s =~= s);
    assert(Seq::<BitField>::empty() + q =~= q);
    let p0 = chain(tail, used);
    let p1 = p0.update(0, PartModel::Configure(c));
    let p2 = p1.update(1, PartModel::WordLen(w));
    let p3 = p2.update(2, PartModel::SfIdx(s));
    let p4 = p3.update(3, PartModel::QuantUnits(q));
    assert(p4 =~= filled_chain(f, tail, used));
    lemma_held(p0, c, w, s, q, tail, used);
    let ba0 = encode::ba_at::<SpecFrame, i32, At3pPart>(p0, ba, 0);
    let ba1 = encode::ba_at::<SpecFrame, i32, At3pPart>(p1, ba0, 1);
    let ba2 = encode::ba_at::<SpecFrame, i32, At3pPart>(p2, ba1, 2);
    let ba3 = encode::ba_at::<SpecFrame, i32, At3pPart>(p3, ba2, 3);
    encode::lemma_pass_step::<SpecFrame, i32, At3pPart>(
        p0,
        f,
        ba,
        0,
        frame::part_step(p0[0], f, ba0),
    );
    encode::lemma_pass_step::<SpecFrame, i32, At3pPart>(
        p1,
        g,
        ba0,
        1,
        frame::part_step(p1[1], g, ba1),
    );
    encode::lemma_pass_step::<SpecFrame, i32, At3pPart>(
        p2,
        g,
        ba1,
        2,
        frame::part_step(p2[2], g, ba2),
    );
    encode::lemma_pass_step::<SpecFrame, i32, At3pPart>(
        p3,
        g,
        ba2,
        3,
        frame::part_step(p3[3], g, ba3),
    );
    ba3
}

/// The bits held by the first parts, whichever of them are filled.
proof fn lemma_held(
    p0: Seq<PartModel>,
    c: Seq<BitField>,
    w: Seq<BitField>,
    s: Seq<BitField>,
    q: Seq<BitField>,
    tail: Seq<BitField>,
    used: nat,
)
    requires
        p0 == chain(tail, used),
    ensures
        ({
            let p1 = p0.update(0, PartModel::Configure(c));
            let p2 = p1.update(1, PartModel::WordLen(w));
            let p3 = p2.update(2, PartModel::SfIdx(s));
            let p4 = p3.update(3, PartModel::QuantUnits(q));
            let lc = fields::fields_bits(c).len();
            let lw = fields::fields_bits(w).len();
            let ls = fields::fields_bits(s).len();
            let lq = fields::fields_bits(q).len();
            &&& encode::held_len::<SpecFrame, i32, At3pPart>(p0, 0) == 0
            &&& encode::held_len::<SpecFrame, i32, At3pPart>(p1, 1) == lc
            &&& encode::held_len::<SpecFrame, i32, At3pPart>(p2, 2) == lc + lw
            &&& encode::held_len::<SpecFrame, i32, At3pPart>(p3, 3) == lc + lw + ls
            &&& encode::held_len::<SpecFrame, i32, At3pPart>(p4, 4) == lc + lw + ls + lq
        }),
{
    reveal_with_fuel(encode::held_len, 5);
}

proof fn lemma_windows_same(f: FrameModel, g: FrameModel, channels: nat)
    requires
        g.sces == f.sces,
        g.books == f.books,
        g.num_quant_units == f.num_quant_units,
    ensures
        frame::windows_fields(f, channels) == frame::windows_fields(g, channels),
    decreases channels,
{
    if channels > 0 {
        lemma_windows_same(f, g, (channels - 1) as nat);
    }
}

/// The tail does not depend on what the parts before it have filled in.
proof fn lemma_tail_same(f: FrameModel, g: FrameModel)
    requires
        same_input(f, g),
        g.num_quant_units == f.num_quant_units,
        frame::tail_ready(f),
    ensures
        frame::tail_fields(f) == frame::tail_fields(g),
        frame::tail_ready(g),
{
    lemma_windows_same(f, g, f.channels as nat);
}

/// The chain at the start of a run, or of a later pass of it.
spec fn chain_at(base: FrameModel, f: FrameModel, first: bool, t: Seq<BitField>) -> Seq<PartModel> {
    if first {
        chain(Seq::empty(), 0)
    } else {
        chain(t, fields::fields_bits(t).len())
    }
}

/// What holds at the start of every pass.
spec fn pass_state(
    base: FrameModel,
    f: FrameModel,
    first: bool,
    t: Seq<BitField>,
    ba: BitAllocHandler<i32>,
) -> bool {
    &&& same_input(base, f)
    &&& main_ready(base, f.num_quant_units)
    &&& main_len(base, f.num_quant_units) + fields::fields_bits(t).len() <= u32::MAX
    &&& ba.repeat_enc_pos == 0
    &&& !ba.need_repeat
    &&& fields::fields_wf(t)
    &&& fields::fields_bits(t).len() >= 3
    &&& first ==> frame::tail_ready(with_units(base, f.num_quant_units)) && t
        == frame::tail_fields(with_units(base, f.num_quant_units))
}

/// How a pass with `n` units ends.
spec fn round_end(
    base: FrameModel,
    n: u32,
    first: bool,
    t: Seq<BitField>,
    filled: Seq<PartModel>,
    p: encode::Pass<PartModel, FrameModel, i32>,
) -> bool {
    let tail_len = fields::fields_bits(t).len();
    if !first && tone_bands(base) > n {
        p.outcome == PassOutcome::Failed(
            BitStreamEncodeError::TonalBandsExceedQuantUnits {
                tone_bands: tone_bands(base),
                quant_units: n,
            },
        ) && p.parts.len() == 5
    } else if main_len(base, n) + tail_len <= base.size_bits {
        p.outcome == PassOutcome::Done && p.parts == filled.update(4, PartModel::Tail(t, tail_len))
    } else {
        &&& p.outcome == PassOutcome::Again
        &&& p.parts == chain(t, tail_len)
        &&& same_input(base, p.frame)
        &&& p.frame.num_quant_units == frame::fewer_units(n)
        &&& p.ba.repeat_enc_pos == 0
        &&& !p.ba.need_repeat
    }
}

/// The last step of a pass, whatever the parts before it hold.
proof fn lemma_round_end(
    base: FrameModel,
    h: FrameModel,
    first: bool,
    t: Seq<BitField>,
    filled: Seq<PartModel>,
    ba4: BitAllocHandler<i32>,
    d: Seq<BitField>,
    used: nat,
)
    requires
        same_input(base, h),
        h.num_quant_units >= 1,
        !ba4.need_repeat,
        filled.len() == 5,
        filled[0] is Configure,
        filled[1] is WordLen,
        filled[2] is SfIdx,
        filled[3] is QuantUnits,
        filled[4] == PartModel::Tail(d, used),
        encode::held_len::<SpecFrame, i32, At3pPart>(filled, 4) == main_len(
            base,
            h.num_quant_units,
        ),
        main_len(base, h.num_quant_units) + fields::fields_bits(t).len() <= u32::MAX,
        fields::fields_bits(t).len() >= 3,
        first ==> d == Seq::<BitField>::empty() && used == 0 && frame::tail_ready(h) && t
            == frame::tail_fields(h),
        !first ==> d == t && used == fields::fields_bits(t).len(),
    ensures
        encode::pass_ready::<SpecFrame, i32, At3pPart>(filled, h, ba4, 4),
        round_end(
            base,
            h.num_quant_units,
            first,
            t,
            filled,
            encode::pass::<SpecFrame, i32, At3pPart>(filled, h, ba4, 4),
        ),
{
    let at = encode::ba_at::<SpecFrame, i32, At3pPart>(filled, ba4, 4);
    let step = frame::part_step(filled[4], h, at);
    let tail_len = fields::fields_bits(t).len();
    lemma_tail_step(base, h, first, t, d, used, at);
    encode::lemma_pass_last::<SpecFrame, i32, At3pPart>(filled, h, ba4, 4, step);
    let next = filled.update(4, step.part);
    assert(encode::reset_below::<SpecFrame, i32, At3pPart>(next, 4) =~= chain(t, tail_len));
}

/// One pass: an error, a frame that fits, or the start of a pass with fewer units.
proof fn lemma_round(
    base: FrameModel,
    f: FrameModel,
    first: bool,
    t: Seq<BitField>,
    ba: BitAllocHandler<i32>,
)
    requires
        pass_state(base, f, first, t, ba),
    ensures
        encode::pass_ready::<SpecFrame, i32, At3pPart>(chain_at(base, f, first, t), f, ba, 0),
        round_end(
            base,
            f.num_quant_units,
            first,
            t,
            filled_chain(f, Seq::empty(), 0),
            encode::pass::<SpecFrame, i32, At3pPart>(chain_at(base, f, first, t), f, ba, 0),
        ),
{
    let n = f.num_quant_units;
    let tail_len = fields::fields_bits(t).len();
    let (d, used): (Seq<BitField>, nat) = if first {
        (Seq::empty(), 0nat)
    } else {
        (t, tail_len)
    };
    lemma_main_fields(base, f);
    let g = frame::configured(f);
    let h = frame::quant_done(g);
    let ba4 = lemma_main_steps(f, g, d, used, ba);
    let filled = filled_chain(f, d, used);
    lemma_filled_len(f, d, used);
    if first {
        lemma_tail_same(with_units(base, n), h);
    }
    lemma_round_end(base, h, first, t, filled, ba4, d, used);
    assert(filled.update(4, PartModel::Tail(t, tail_len)) =~= filled_chain(
        f,
        Seq::empty(),
        0,
    ).update(4, PartModel::Tail(t, tail_len)));
}

proof fn lemma_filled_len(f: FrameModel, d: Seq<BitField>, used: nat)
    ensures
        encode::held_len::<SpecFrame, i32, At3pPart>(filled_chain(f, d, used), 4) == filled_len(f),
{
    let g = frame::configured(f);
    let c = frame::configure_fields(f);
    let w = frame::word_len_fields(g);
    let s = frame::sf_idx_fields(g);
    let q = frame::quant_fields(g);
    let parts = chain(d, used);
    lemma_held(parts, c, w, s, q, d, used);
    assert(parts.update(0, PartModel::Configure(c)).update(1, PartModel::WordLen(w)).update(
        2,
        PartModel::SfIdx(s),
    ).update(3, PartModel::QuantUnits(q)) =~= filled_chain(f, d, used));
}

/// The step of the tail.
proof fn lemma_tail_step(
    base: FrameModel,
    h: FrameModel,
    first: bool,
    t: Seq<BitField>,
    d: Seq<BitField>,
    used: nat,
    at: BitAllocHandler<i32>,
)
    requires
        same_input(base, h),
        h.num_quant_units >= 1,
        !at.need_repeat,
        fields::fields_bits(t).len() >= 3,
        fields::fields_bits(t).len() + at.previous_consumption <= u32::MAX,
        first ==> d == Seq::<BitField>::empty() && used == 0 && frame::tail_ready(h) && t
            == frame::tail_fields(h),
        !first ==> d == t && used == fields::fields_bits(t).len(),
    ensures
        frame::part_ready(PartModel::Tail(d, used), h, at),
        ({
            let n = h.num_quant_units;
            let step = frame::part_step(PartModel::Tail(d, used), h, at);
            let tail_len = fields::fields_bits(t).len();
            &&& step.part == PartModel::Tail(t, tail_len)
            &&& step.ba == at
            &&& if !first && tone_bands(base) > n {
                step.status == Err::<encode::EncodeStatus, BitStreamEncodeError>(
                    BitStreamEncodeError::TonalBandsExceedQuantUnits {
                        tone_bands: tone_bands(base),
                        quant_units: n,
                    },
                )
            } else if at.previous_consumption + tail_len <= base.size_bits {
                step.status == Ok::<encode::EncodeStatus, BitStreamEncodeError>(
                    encode::EncodeStatus::Done,
                )
            } else {
                &&& step.status == Ok::<encode::EncodeStatus, BitStreamEncodeError>(
                    encode::EncodeStatus::Repeat,
                )
                &&& same_input(base, step.frame)
                &&& step.frame.num_quant_units == frame::fewer_units(n)
            }
        }),
{
    if first {
        assert(Seq::<BitField>::empty() + t =~= t);
    }
}

/// Every repeat leaves a frame with fewer quant units.
proof fn lemma_searches_end()
    ensures
        encode::searches_end::<SpecFrame, i32, At3pPart>(),
{
    reveal(encode::searches_end);
    assert forall|part: PartModel, f: FrameModel, ba: BitAllocHandler<i32>|
        fields::fields_wf(part.gathered()) && frame::part_ready(part, f, ba) implies {
        let step = #[trigger] frame::part_step(part, f, ba);
        &&& fields::fields_wf(step.part.gathered())
        &&& step.frame.num_quant_units <= f.num_quant_units
        &&& step.repeats() ==> step.frame.num_quant_units < f.num_quant_units
    } by {
        frame::lemma_part_valid(part, f, ba);
    }
}

/// A whole run: the number of units that it ends with, and what it holds then.
proof fn lemma_run(
    base: FrameModel,
    f: FrameModel,
    first: bool,
    t: Seq<BitField>,
    ba: BitAllocHandler<i32>,
)
    requires
        pass_state(base, f, first, t, ba),
        units_ready(base, f.num_quant_units, first, fields::fields_bits(t).len()),
    ensures
        ({
            let parts = chain_at(base, f, first, t);
            let end = encode::run_result::<SpecFrame, i32, At3pPart>(parts, f, ba);
            &&& encode::run_ready::<SpecFrame, i32, At3pPart>(parts, f, ba)
            &&& end.parts.len() == 5
            &&& match chosen_units(
                base,
                f.num_quant_units,
                first,
                fields::fields_bits(t).len(),
            ) {
                Err(e) => end.outcome == PassOutcome::Failed(e),
                Ok(n) => {
                    &&& end.outcome == PassOutcome::Done
                    &&& encode::all_held_bits::<SpecFrame, i32, At3pPart>(end.parts, 5)
                        == fields::fields_bits(main_fields(base, n)) + fields::fields_bits(t)
                },
            }
        }),
    decreases f.num_quant_units,
{
    let n = f.num_quant_units;
    let parts = chain_at(base, f, first, t);
    let tail_len = fields::fields_bits(t).len();
    lemma_round(base, f, first, t, ba);
    lemma_searches_end();
    assert(encode::all_valid::<SpecFrame, i32, At3pPart>(parts));
    let p = encode::pass::<SpecFrame, i32, At3pPart>(parts, f, ba, 0);
    encode::lemma_run_step::<SpecFrame, i32, At3pPart>(parts, f, ba, p);
    if !first && tone_bands(base) > n {
    } else if main_len(base, n) + tail_len <= base.size_bits {
        lemma_done_bits(base, f, t);
    } else {
        assert(units_ready(base, frame::fewer_units(n), false, tail_len));
        lemma_run(base, p.frame, false, t, p.ba);
    }
}

/// What the parts of a frame that fits hold.
proof fn lemma_done_bits(base: FrameModel, f: FrameModel, t: Seq<BitField>)
    requires
        same_input(base, f),
        main_ready(base, f.num_quant_units),
    ensures
        encode::all_held_bits::<SpecFrame, i32, At3pPart>(
            filled_chain(f, Seq::empty(), 0).update(
                4,
                PartModel::Tail(t, fields::fields_bits(t).len()),
            ),
            5,
        ) == fields::fields_bits(main_fields(base, f.num_quant_units)) + fields::fields_bits(t),
{
    lemma_main_fields(base, f);
    let g = frame::configured(f);
    let c = frame::configure_fields(f);
    let w = frame::word_len_fields(g);
    let s = frame::sf_idx_fields(g);
    let q = frame::quant_fields(g);
    fields::lemma_fields_bits_concat(c, w);
    fields::lemma_fields_bits_concat(c + w, s);
    fields::lemma_fields_bits_concat(c + w + s, q);
    let parts = filled_chain(f, Seq::empty(), 0).update(
        4,
        PartModel::Tail(t, fields::fields_bits(t).len()),
    );
    assert(parts =~= seq![
        PartModel::Configure(c),
        PartModel::WordLen(w),
        PartModel::SfIdx(s),
        PartModel::QuantUnits(q),
        PartModel::Tail(t, fields::fields_bits(t).len()),
    ]);
    lemma_all_held(parts, c, w, s, q, t, fields::fields_bits(t).len());
}

proof fn lemma_all_held(
    parts: Seq<PartModel>,
    c: Seq<BitField>,
    w: Seq<BitField>,
    s: Seq<BitField>,
    q: Seq<BitField>,
    t: Seq<BitField>,
    used: nat,
)
    requires
        parts == seq![
            PartModel::Configure(c),
            PartModel::WordLen(w),
            PartModel::SfIdx(s),
            PartModel::QuantUnits(q),
            PartModel::Tail(t, used),
        ],
    ensures
        encode::all_held_bits::<SpecFrame, i32, At3pPart>(parts, 5) == fields::fields_bits(c)
            + fields::fields_bits(w) + fields::fields_bits(s) + fields::fields_bits(q)
            + fields::fields_bits(t),
{
    reveal_with_fuel(encode::all_held_bits, 6);
    assert(Seq::<bool>::empty() + fields::fields_bits(c) =~= fields::fields_bits(c));
}

/// The number of units that a frame is first tried with.
pub const FIRST_UNITS: u32 = 32;

/// A frame before it is encoded.
pub open spec fn fresh_frame(
    size_bits: u32,
    channels: usize,
    tonal: Option<At3PGhaData>,
    sces: Seq<SingleChannelElement>,
    huff: HuffTables,
    books: CodeBooks,
) -> FrameModel {
    FrameModel {
        size_bits,
        num_quant_units: FIRST_UNITS,
        tonal_block: tonal,
        word_len: Seq::empty(),
        sf_idx: Seq::empty(),
        spec_tab_idx: Seq::empty(),
        channels,
        sces,
        huff,
        books,
    }
}

/// The bits of the tail of a frame.
pub open spec fn tail_bits(f: FrameModel) -> Seq<bool> {
    fields::fields_bits(frame::tail_fields(f))
}

/// The bits of a frame with `n` units: the opening, the parts and the tail.
pub open spec fn frame_bits(f: FrameModel, n: u32) -> Seq<bool> {
    bits::msb_bits(0, 1) + bits::msb_bits((f.channels - 1) as nat, 2) + fields::fields_bits(
        main_fields(f, n),
    ) + tail_bits(f)
}

/// A frame can be encoded.
pub open spec fn frame_ready(f: FrameModel) -> bool {
    frame::tail_ready(f) && units_ready(f, FIRST_UNITS, true, tail_bits(f).len())
}

/// The number of units of a frame, or the error that it ends with.
pub open spec fn frame_units(f: FrameModel) -> Result<u32, BitStreamEncodeError> {
    chosen_units(f, FIRST_UNITS, true, tail_bits(f).len())
}

/// The bytes of a frame with `n` units.
pub open spec fn frame_bytes(f: FrameModel, n: u32, frame_sz: int) -> Seq<u8> {
    sound_unit::resized(bits::pack(frame_bits(f, n)), frame_sz)
}

/// What an output got of a frame: its bytes, once, or nothing where it ends with an
/// error before that.
pub open spec fn frame_written<O: CompressedOutput>(
    f: FrameModel,
    frame_sz: int,
    out: O,
    after: O,
    r: Result<(), AtracdencError>,
) -> bool {
    match frame_units(f) {
        Ok(n) => match r {
            Ok(u) => out.wrote(frame_bytes(f, n, frame_sz), &after, Ok(u)),
            Err(e) => e matches AtracdencError::Container(c) && out.wrote(
                frame_bytes(f, n, frame_sz),
                &after,
                Err(c),
            ),
        },
        Err(e) => r matches Err(x) && x == AtracdencError::BitStreamEncode(e) && after == out,
    }
}

fn create_enc_parts() -> (parts: Vec<At3pPart>)
    ensures
        encode::models::<SpecFrame, i32, At3pPart>(parts@) == chain(Seq::empty(), 0),
{
    let mut parts: Vec<At3pPart> = Vec::new();
    parts.push(At3pPart::Configure(Dumper::new()));
    parts.push(At3pPart::WordLen(Dumper::new()));
    parts.push(At3pPart::SfIdx(Dumper::new()));
    parts.push(At3pPart::QuantUnits(Dumper::new()));
    parts.push(At3pPart::Tail(Dumper::new(), 0));
    assert(encode::models::<SpecFrame, i32, At3pPart>(parts@) =~= chain(Seq::empty(), 0));
    parts
}

/// Builds ATRAC3plus frames of a fixed size.
pub struct At3PBitStream {
    frame_sz_to_alloc_bits: u32,
    frame_sz: u16,
}

impl At3PBitStream {
    /// The size of a frame in bytes.
    pub closed spec fn frame_size(&self) -> int {
        self.frame_sz as int
    }

    /// The bits of a frame behind its opening.
    pub closed spec fn wf(&self) -> bool {
        self.frame_sz >= 1 && self.frame_sz_to_alloc_bits == self.frame_sz * 8 - 3
    }

    pub fn new(frame_sz: u16) -> (s: Self)
        requires
            frame_sz >= 1,
        ensures
            s.wf(),
            s.frame_size() == frame_sz,
    {
        At3PBitStream { frame_sz_to_alloc_bits: frame_sz as u32 * 8 - 3, frame_sz }
    }

    /// The frame for the channels with their delayed tonal components.
    pub fn encode_frame(
        &self,
        channels: usize,
        tonal: Option<&At3PGhaData>,
        sces: &[SingleChannelElement],
        huff: &HuffTables,
        books: &CodeBooks,
    ) -> (r: Result<Vec<u8>, BitStreamEncodeError>)
        requires
            self.wf(),
            frame_ready(
                fresh_frame(
                    (self.frame_size() * 8 - 3) as u32,
                    channels,
                    match tonal {
                        Some(t) => Some(*t),
                        None => None,
                    },
                    sces@,
                    *huff,
                    *books,
                ),
            ),
        ensures
            ({
                let f = fresh_frame(
                    (self.frame_size() * 8 - 3) as u32,
                    channels,
                    match tonal {
                        Some(t) => Some(*t),
                        None => None,
                    },
                    sces@,
                    *huff,
                    *books,
                );
                match frame_units(f) {
                    Ok(n) => r matches Ok(bytes) && bytes@ == frame_bytes(f, n, self.frame_size()),
                    Err(e) => r == Err::<Vec<u8>, BitStreamEncodeError>(e),
                }
            }),
    {
        let mut bs = BitStream::new();
        bs.write(0, 1);
        bs.write((channels - 1) as u32, 2);
        let mut frame = SpecFrame::new(
            self.frame_sz_to_alloc_bits,
            FIRST_UNITS,
            channels,
            tonal,
            sces,
            huff,
            books,
        );
        let ghost f = frame.model();
        let ghost t = frame::tail_fields(f);
        let mut encoder: BitStreamEncoder<At3pPart> = BitStreamEncoder::new(create_enc_parts());
        proof {
            assert(with_units(f, FIRST_UNITS) =~= f);
            frame::lemma_tail_fields_wf(f);
            lemma_run(f, f, true, t, BitAllocHandler::fresh(0i32));
            lemma_units_bound(f, FIRST_UNITS, true, fields::fields_bits(t).len());
        }
        let ghost parts = encode::models::<SpecFrame, i32, At3pPart>(encoder.parts());
        assert(parts.len() == 5 && encoder.parts().len() == 5);
        let ghost end = encode::run_result::<SpecFrame, i32, At3pPart>(
            parts,
            f,
            BitAllocHandler::fresh(0i32),
        );
        proof {
            match frame_units(f) {
                Ok(n) => {
                    let held = encode::all_held_bits::<SpecFrame, i32, At3pPart>(end.parts, 5);
                    assert(held.len() == main_len(f, n) + fields::fields_bits(t).len());
                    assert(bs.bits() + held =~= frame_bits(f, n));
                },
                Err(e) => {},
            }
        }
        let run: Result<(), BitStreamEncodeError> = encoder.run(&mut frame, &mut bs, 0i32);
        match run {
            Err(e) => Err(e),
            Ok(()) => {
                let mut buf: Vec<u8> = vstd::slice::slice_to_vec(bs.bytes());
                resize_bytes(&mut buf, self.frame_sz as usize);
                Ok(buf)
            },
        }
    }

    /// Builds the frame for the channels and hands it to an output.
    pub fn write_frame<O: CompressedOutput>(
        &self,
        out: &mut O,
        channels: usize,
        tonal: Option<&At3PGhaData>,
        sces: &[SingleChannelElement],
        huff: &HuffTables,
        books: &CodeBooks,
    ) -> (r: Result<(), AtracdencError>)
        requires
            self.wf(),
            frame_ready(
                fresh_frame(
                    (self.frame_size() * 8 - 3) as u32,
                    channels,
                    match tonal {
                        Some(t) => Some(*t),
                        None => None,
                    },
                    sces@,
                    *huff,
                    *books,
                ),
            ),
            old(out).ready(),
            old(out).has_room(self.frame_size() as nat),
        ensures
            final(out).ready(),
            frame_written(
                fresh_frame(
                    (self.frame_size() * 8 - 3) as u32,
                    channels,
                    match tonal {
                        Some(t) => Some(*t),
                        None => None,
                    },
                    sces@,
                    *huff,
                    *books,
                ),
                self.frame_size(),
                *old(out),
                *final(out),
                r,
            ),
    {
        match self.encode_frame(channels, tonal, sces, huff, books) {
            Ok(buf) => match out.write_frame(buf.as_slice()) {
                Ok(u) => Ok(u),
                Err(e) => Err(AtracdencError::Container(e)),
            },
            Err(e) => Err(AtracdencError::BitStreamEncode(e)),
        }
    }
}

proof fn lemma_units_bound(f: FrameModel, n: u32, first: bool, tail_len: nat)
    requires
        units_ready(f, n, first, tail_len),
    ensures
        chosen_units(f, n, first, tail_len) matches Ok(m) ==> main_len(f, m) + tail_len
            <= f.size_bits,
    decreases n,
{
    if !(!first && tone_bands(f) > n) && main_len(f, n) + tail_len > f.size_bits && n > 1 {
        lemma_units_bound(f, frame::fewer_units(n), false, tail_len);
    }
}

/// A frame is never cut: its bits fit the bytes that it gets.
pub proof fn law_frame_fits(f: FrameModel, frame_sz: int)
    requires
        frame_ready(f),
        f.size_bits == frame_sz * 8 - 3,
    ensures
        frame_units(f) matches Ok(n) ==> frame_bits(f, n).len() <= 8 * frame_sz,
{
    lemma_units_bound(f, FIRST_UNITS, true, tail_bits(f).len());
}

/// A frame never ends up with more units than it was tried with first, and with
/// none of 29, 30 and 31.
pub proof fn law_units_tried(f: FrameModel, n: u32, first: bool, tail_len: nat)
    requires
        units_ready(f, n, first, tail_len),
        n == FIRST_UNITS || n <= 28,
    ensures
        chosen_units(f, n, first, tail_len) matches Ok(m) ==> 1 <= m <= n && (m == FIRST_UNITS || m
            <= 28),
    decreases n,
{
    if !(!first && tone_bands(f) > n) && main_len(f, n) + tail_len > f.size_bits && n > 1 {
        law_units_tried(f, frame::fewer_units(n), false, tail_len);
    }
}

/// A frame keeps as many units as it can: those that it ends up with leave room for the
/// tail, and none of the larger numbers that are tried does, 32 and from 28 on downwards.
pub proof fn law_most_units(f: FrameModel, n: u32, first: bool, tail_len: nat, c: u32)
    requires
        n == FIRST_UNITS || n <= 28,
        1 <= n,
    ensures
        chosen_units(f, n, first, tail_len) matches Ok(m) ==> {
            &&& m <= n
            &&& m > 1 ==> main_len(f, m) + tail_len <= f.size_bits
            &&& m < c <= n && (c == 32 || c <= 28) ==> main_len(f, c) + tail_len > f.size_bits
        },
    decreases n,
{
    if !(!first && tone_bands(f) > n) && main_len(f, n) + tail_len > f.size_bits && n > 1 {
        law_most_units(f, frame::fewer_units(n), false, tail_len, c);
    }
}

/// A frame is refused just for tones in more bands than it has units left, and the error
/// tells both numbers.
pub proof fn law_refused_units(f: FrameModel, n: u32, first: bool, tail_len: nat)
    ensures
        chosen_units(f, n, first, tail_len) matches Err(e) ==> {
            &&& e matches BitStreamEncodeError::TonalBandsExceedQuantUnits {
                tone_bands: t,
                quant_units: q,
            }
            &&& t == tone_bands(f)
            &&& t > q
            &&& q <= n
        },
    decreases n,
{
    if !(!first && tone_bands(f) > n) && main_len(f, n) + tail_len > f.size_bits && n > 1 {
        law_refused_units(f, frame::fewer_units(n), false, tail_len);
    }
}

} // verus!
