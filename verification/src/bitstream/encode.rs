//! Multi-pass encoding of a frame by a chain of part encoders.

use vstd::prelude::*;
use crate::bitstream::BitStream;
use crate::util;

verus! {

/// The search for the multiplier at which an encoder meets its bit budget, and
/// the place in the chain of encoders to which a further pass goes back. The
/// multiplier type `L` is opaque: whoever drives the search does its arithmetic.
#[derive(Debug, Clone, Copy, Eq, PartialEq, Structural)]
pub struct BitAllocHandler<L> {
    pub target_bits: usize,
    pub min_lambda: L,
    pub max_lambda: L,
    pub cur_lambda: L,
    pub last_lambda: L,
    pub need_repeat: bool,
    pub cur_enc_pos: usize,
    pub repeat_enc_pos: usize,
    pub previous_consumption: u32,
}

impl<L: Copy> BitAllocHandler<L> {
    /// The state of a search before it starts.
    pub open spec fn fresh(zero: L) -> Self {
        BitAllocHandler {
            target_bits: 0,
            min_lambda: zero,
            max_lambda: zero,
            cur_lambda: zero,
            last_lambda: zero,
            need_repeat: false,
            cur_enc_pos: 0,
            repeat_enc_pos: 0,
            previous_consumption: 0,
        }
    }

    pub fn new(zero: L) -> (s: Self)
        ensures
            s == Self::fresh(zero),
    {
        BitAllocHandler {
            target_bits: 0,
            min_lambda: zero,
            max_lambda: zero,
            cur_lambda: zero,
            last_lambda: zero,
            need_repeat: false,
            cur_enc_pos: 0,
            repeat_enc_pos: 0,
            previous_consumption: 0,
        }
    }

    /// Opens a search between two multipliers.
    pub fn start(&mut self, target_bits: usize, min_lambda: L, max_lambda: L)
        ensures
            *final(self) == (BitAllocHandler {
                target_bits,
                min_lambda,
                max_lambda,
                last_lambda: max_lambda,
                ..*old(self)
            }),
    {
        self.target_bits = target_bits;
        self.min_lambda = min_lambda;
        self.max_lambda = max_lambda;
        self.last_lambda = max_lambda;
    }

    /// The multiplier to try next. `exhausted` says that the upper end of the
    /// search lies at or below its lower end; `mid` is the middle between them.
    pub fn cont(&mut self, exhausted: bool, mid: L) -> (lambda: L)
        ensures
            exhausted ==> lambda == old(self).last_lambda && *final(self) == *old(self),
            !exhausted ==> lambda == mid && *final(self) == (BitAllocHandler {
                cur_lambda: mid,
                repeat_enc_pos: old(self).cur_enc_pos,
                ..*old(self)
            }),
    {
        if exhausted {
            return self.last_lambda;
        }
        self.cur_lambda = mid;
        self.repeat_enc_pos = self.cur_enc_pos;
        self.cur_lambda
    }

    /// Whether `got_bits` leave bits unused.
    pub fn check(&self, got_bits: usize) -> (r: bool)
        ensures
            r == (got_bits < self.target_bits),
    {
        got_bits < self.target_bits
    }

    /// Takes the outcome of the current multiplier and says whether the search
    /// is over. `below` and `above` are the multipliers next to the current one.
    pub fn submit(&mut self, got_bits: usize, exhausted: bool, below: L, above: L) -> (done: bool)
        ensures
            done == (exhausted || got_bits == old(self).target_bits),
            *final(self) == (if done {
                BitAllocHandler { need_repeat: false, ..*old(self) }
            } else if got_bits < old(self).target_bits {
                BitAllocHandler {
                    last_lambda: old(self).cur_lambda,
                    max_lambda: below,
                    need_repeat: true,
                    ..*old(self)
                }
            } else {
                BitAllocHandler { min_lambda: above, need_repeat: true, ..*old(self) }
            }),
    {
        if exhausted {
            self.need_repeat = false;
        } else if got_bits < self.target_bits {
            self.last_lambda = self.cur_lambda;
            self.max_lambda = below;
            self.need_repeat = true;
        } else if got_bits > self.target_bits {
            self.min_lambda = above;
            self.need_repeat = true;
        } else {
            self.need_repeat = false;
        }
        !self.need_repeat
    }

    /// The bits that the encoders before the current one have taken.
    pub fn cur_global_consumption(&self) -> (n: u32)
        ensures
            n == self.previous_consumption,
    {
        self.previous_consumption
    }
}

#[derive(Debug, Clone, Copy, Eq, PartialEq, Structural)]
pub enum EncodeStatus {
    Done,
    Repeat,
}

/// Errors of a part encoder.
#[derive(Debug, Clone, Copy, Eq, PartialEq, Structural)]
pub enum BitStreamEncodeError {
    TonalBandsExceedQuantUnits { tone_bands: u8, quant_units: u32 },
}

impl BitStreamEncodeError {
    /// The error in words.
    pub open spec fn words(&self) -> Seq<char> {
        match *self {
            BitStreamEncodeError::TonalBandsExceedQuantUnits { tone_bands, quant_units } =>
                "tonal bands ("@ + util::decimal_text(tone_bands as nat)
                + ") exceed quant units ("@ + util::decimal_text(quant_units as nat) + ")"@,
        }
    }

    pub fn message(&self) -> (m: String)
        ensures
            m@ == self.words(),
    {
        match *self {
            BitStreamEncodeError::TonalBandsExceedQuantUnits { tone_bands, quant_units } => {
                let bands: String = util::decimal(tone_bands as u32);
                let units: String = util::decimal(quant_units);
                "tonal bands (".to_owned().concat(bands.as_str()).concat(
                    ") exceed quant units (",
                ).concat(units.as_str()).concat(")")
            },
        }
    }
}

/// What a part encoder leaves behind after it has encoded its part.
pub struct PartStep<M, F, L> {
    pub part: M,
    pub frame: F,
    pub ba: BitAllocHandler<L>,
    pub status: Result<EncodeStatus, BitStreamEncodeError>,
}

impl<M, F, L> PartStep<M, F, L> {
    /// The step asks for another pass.
    pub open spec fn repeats(self) -> bool {
        self.status is Ok && (self.ba.need_repeat || self.status == Ok::<
            EncodeStatus,
            BitStreamEncodeError,
        >(EncodeStatus::Repeat))
    }
}

/// An encoder of one part of a frame. `Model` and `FrameModel` are what contracts
/// know of an encoder and of a frame.
pub trait BitStreamPartEncoder<TFrame, L: Copy>: Sized {
    type Model;

    type FrameModel;

    open spec fn model(&self) -> Self::Model {
        arbitrary()
    }

    open spec fn frame_model(frame: TFrame) -> Self::FrameModel {
        arbitrary()
    }

    /// The bits that the encoder holds can be written.
    open spec fn valid(part: Self::Model) -> bool {
        true
    }

    /// The encoder can encode its part of the frame.
    open spec fn ready(
        part: Self::Model,
        frame: Self::FrameModel,
        ba: BitAllocHandler<L>,
    ) -> bool {
        true
    }

    /// What encoding does.
    open spec fn encoded(
        part: Self::Model,
        frame: Self::FrameModel,
        ba: BitAllocHandler<L>,
    ) -> PartStep<Self::Model, Self::FrameModel, L> {
        arbitrary()
    }

    /// The bits that the encoder holds.
    open spec fn held_bits(part: Self::Model) -> Seq<bool> {
        Seq::empty()
    }

    open spec fn after_dump(part: Self::Model) -> Self::Model {
        part
    }

    open spec fn after_reset(part: Self::Model) -> Self::Model {
        part
    }

    /// How many further passes a frame and a search interval can still ask for.
    open spec fn rounds_left(frame: Self::FrameModel, min_lambda: L, max_lambda: L) -> nat {
        0
    }

    fn encode(&mut self, frame: &mut TFrame, ba: &mut BitAllocHandler<L>) -> (r: Result<
        EncodeStatus,
        BitStreamEncodeError,
    >)
        requires
            Self::valid(old(self).model()),
            Self::ready(old(self).model(), Self::frame_model(*old(frame)), *old(ba)),
        ensures
            ({
                let step = Self::encoded(
                    old(self).model(),
                    Self::frame_model(*old(frame)),
                    *old(ba),
                );
                &&& final(self).model() == step.part
                &&& Self::frame_model(*final(frame)) == step.frame
                &&& *final(ba) == step.ba
                &&& r == step.status
            }),
    ;

    fn dump(&mut self, bs: &mut BitStream)
        requires
            Self::valid(old(self).model()),
            old(bs).wf(),
            old(bs).bits().len() + Self::held_bits(old(self).model()).len() + 7 <= usize::MAX,
        ensures
            final(bs).wf(),
            final(bs).read_pos() == old(bs).read_pos(),
            final(bs).bits() == old(bs).bits() + Self::held_bits(old(self).model()),
            final(self).model() == Self::after_dump(old(self).model()),
    ;

    fn reset(&mut self)
        ensures
            final(self).model() == Self::after_reset(old(self).model()),
    ;

    fn consumption(&self) -> (n: u32)
        requires
            Self::held_bits(self.model()).len() <= u32::MAX,
        ensures
            n == Self::held_bits(self.model()).len(),
    ;
}

/// What every encoder of a chain holds can be written.
pub open spec fn all_valid<F, L: Copy, P: BitStreamPartEncoder<F, L>>(
    parts: Seq<P::Model>,
) -> bool {
    forall|i: int| 0 <= i < parts.len() ==> P::valid(#[trigger] parts[i])
}

/// Encoders leave what can be written behind, and every search comes to an end: a
/// step that asks for another pass leaves fewer of them.
#[verifier::opaque]
pub open spec fn searches_end<F, L: Copy, P: BitStreamPartEncoder<F, L>>() -> bool {
    &&& forall|part: P::Model, frame: P::FrameModel, ba: BitAllocHandler<L>|
        P::valid(part) && P::ready(part, frame, ba) ==> {
            let step = #[trigger] P::encoded(part, frame, ba);
            let before = P::rounds_left(frame, ba.min_lambda, ba.max_lambda);
            let after = P::rounds_left(step.frame, step.ba.min_lambda, step.ba.max_lambda);
            P::valid(step.part) && after <= before && (step.repeats() ==> after < before)
        }
    &&& forall|part: P::Model| P::valid(part) ==> P::valid(#[trigger] P::after_reset(part))
}

/// How a pass over the chain ends.
pub enum PassOutcome {
    Done,
    Again,
    Failed(BitStreamEncodeError),
}

/// The state in which a pass ends.
pub struct Pass<M, F, L> {
    pub parts: Seq<M>,
    pub frame: F,
    pub ba: BitAllocHandler<L>,
    pub outcome: PassOutcome,
}

/// The bits that the first `n` encoders hold.
pub open spec fn held_len<F, L: Copy, P: BitStreamPartEncoder<F, L>>(
    parts: Seq<P::Model>,
    n: nat,
) -> nat
    decreases n,
{
    if n == 0 {
        0
    } else {
        held_len::<F, L, P>(parts, (n - 1) as nat) + P::held_bits(parts[n - 1]).len()
    }
}

/// The bits of the first `n` encoders, in order.
pub open spec fn all_held_bits<F, L: Copy, P: BitStreamPartEncoder<F, L>>(
    parts: Seq<P::Model>,
    n: nat,
) -> Seq<bool>
    decreases n,
{
    if n == 0 {
        Seq::empty()
    } else {
        all_held_bits::<F, L, P>(parts, (n - 1) as nat) + P::held_bits(parts[n - 1])
    }
}

/// The handler as encoder `pos` sees it.
pub open spec fn ba_at<F, L: Copy, P: BitStreamPartEncoder<F, L>>(
    parts: Seq<P::Model>,
    ba: BitAllocHandler<L>,
    pos: nat,
) -> BitAllocHandler<L> {
    BitAllocHandler {
        cur_enc_pos: pos as usize,
        previous_consumption: held_len::<F, L, P>(parts, pos) as u32,
        ..ba
    }
}

/// The encoders below `pos` reset.
pub open spec fn reset_below<F, L: Copy, P: BitStreamPartEncoder<F, L>>(
    parts: Seq<P::Model>,
    pos: nat,
) -> Seq<P::Model> {
    Seq::new(
        parts.len(),
        |i: int|
            if i < pos {
                P::after_reset(parts[i])
            } else {
                parts[i]
            },
    )
}

/// A pass over the chain from encoder `pos` on. An encoder whose search goes on
/// ends it; one that asks for a repeat sends the chain back to its start and
/// resets the encoders before it.
#[verifier::opaque]
pub open spec fn pass<F, L: Copy, P: BitStreamPartEncoder<F, L>>(
    parts: Seq<P::Model>,
    frame: P::FrameModel,
    ba: BitAllocHandler<L>,
    pos: nat,
) -> Pass<P::Model, P::FrameModel, L>
    decreases parts.len() - pos,
{
    if pos >= parts.len() {
        Pass { parts, frame, ba, outcome: PassOutcome::Done }
    } else {
        let step = P::encoded(parts[pos as int], frame, ba_at::<F, L, P>(parts, ba, pos));
        let next = parts.update(pos as int, step.part);
        match step.status {
            Err(e) => Pass {
                parts: next,
                frame: step.frame,
                ba: step.ba,
                outcome: PassOutcome::Failed(e),
            },
            Ok(status) => if step.ba.need_repeat {
                Pass {
                    parts: next,
                    frame: step.frame,
                    ba: BitAllocHandler { need_repeat: false, ..step.ba },
                    outcome: PassOutcome::Again,
                }
            } else if status == EncodeStatus::Repeat {
                Pass {
                    parts: reset_below::<F, L, P>(next, pos),
                    frame: step.frame,
                    ba: BitAllocHandler { repeat_enc_pos: 0, ..step.ba },
                    outcome: PassOutcome::Again,
                }
            } else {
                pass::<F, L, P>(next, step.frame, step.ba, pos + 1)
            },
        }
    }
}

/// Every encoder that a pass reaches is ready.
#[verifier::opaque]
pub open spec fn pass_ready<F, L: Copy, P: BitStreamPartEncoder<F, L>>(
    parts: Seq<P::Model>,
    frame: P::FrameModel,
    ba: BitAllocHandler<L>,
    pos: nat,
) -> bool
    decreases parts.len() - pos,
{
    pos >= parts.len() || {
        let step = P::encoded(parts[pos as int], frame, ba_at::<F, L, P>(parts, ba, pos));
        &&& held_len::<F, L, P>(parts, pos) <= u32::MAX
        &&& P::ready(parts[pos as int], frame, ba_at::<F, L, P>(parts, ba, pos))
        &&& (step.status is Ok && !step.repeats()) ==> pass_ready::<F, L, P>(
            parts.update(pos as int, step.part),
            step.frame,
            step.ba,
            pos + 1,
        )
    }
}

pub proof fn lemma_pass_progress<F, L: Copy, P: BitStreamPartEncoder<F, L>>(
    parts: Seq<P::Model>,
    frame: P::FrameModel,
    ba: BitAllocHandler<L>,
    pos: nat,
)
    requires
        searches_end::<F, L, P>(),
        all_valid::<F, L, P>(parts),
        pass_ready::<F, L, P>(parts, frame, ba, pos),
    ensures
        all_valid::<F, L, P>(pass::<F, L, P>(parts, frame, ba, pos).parts),
        ({
            let p = pass::<F, L, P>(parts, frame, ba, pos);
            let before = P::rounds_left(frame, ba.min_lambda, ba.max_lambda);
            let after = P::rounds_left(p.frame, p.ba.min_lambda, p.ba.max_lambda);
            &&& p.parts.len() == parts.len()
            &&& after <= before
            &&& p.outcome is Again ==> after < before
        }),
    decreases parts.len() - pos,
{
    reveal_with_fuel(pass, 1);
    reveal_with_fuel(pass_ready, 1);
    if pos < parts.len() {
        let at = ba_at::<F, L, P>(parts, ba, pos);
        let step = P::encoded(parts[pos as int], frame, at);
        reveal(searches_end);
        let next = parts.update(pos as int, step.part);
        assert(forall|i: int| 0 <= i < next.len() ==> P::valid(P::after_reset(next[i])));
        if step.status is Ok && !step.repeats() {
            lemma_pass_progress::<F, L, P>(
                parts.update(pos as int, step.part),
                step.frame,
                step.ba,
                pos + 1,
            );
        }
    }
}

/// A step that asks for nothing hands the pass on to the next encoder.
pub proof fn lemma_pass_step<F, L: Copy, P: BitStreamPartEncoder<F, L>>(
    parts: Seq<P::Model>,
    frame: P::FrameModel,
    ba: BitAllocHandler<L>,
    pos: nat,
    step: PartStep<P::Model, P::FrameModel, L>,
)
    requires
        pos < parts.len(),
        step == P::encoded(parts[pos as int], frame, ba_at::<F, L, P>(parts, ba, pos)),
        step.status == Ok::<EncodeStatus, BitStreamEncodeError>(EncodeStatus::Done),
        !step.ba.need_repeat,
        held_len::<F, L, P>(parts, pos) <= u32::MAX,
        P::ready(parts[pos as int], frame, ba_at::<F, L, P>(parts, ba, pos)),
    ensures
        pass::<F, L, P>(parts, frame, ba, pos) == pass::<F, L, P>(
            parts.update(pos as int, step.part),
            step.frame,
            step.ba,
            pos + 1,
        ),
        pass_ready::<F, L, P>(
            parts.update(pos as int, step.part),
            step.frame,
            step.ba,
            pos + 1,
        ) ==> pass_ready::<F, L, P>(parts, frame, ba, pos),
{
    reveal_with_fuel(pass, 1);
    reveal_with_fuel(pass_ready, 1);
}

/// How the last step of a pass ends it.
pub proof fn lemma_pass_last<F, L: Copy, P: BitStreamPartEncoder<F, L>>(
    parts: Seq<P::Model>,
    frame: P::FrameModel,
    ba: BitAllocHandler<L>,
    pos: nat,
    step: PartStep<P::Model, P::FrameModel, L>,
)
    requires
        pos + 1 == parts.len(),
        step == P::encoded(parts[pos as int], frame, ba_at::<F, L, P>(parts, ba, pos)),
        !step.ba.need_repeat,
        held_len::<F, L, P>(parts, pos) <= u32::MAX,
        P::ready(parts[pos as int], frame, ba_at::<F, L, P>(parts, ba, pos)),
    ensures
        pass_ready::<F, L, P>(parts, frame, ba, pos),
        ({
            let next = parts.update(pos as int, step.part);
            pass::<F, L, P>(parts, frame, ba, pos) == (match step.status {
                Err(e) => Pass {
                    parts: next,
                    frame: step.frame,
                    ba: step.ba,
                    outcome: PassOutcome::Failed(e),
                },
                Ok(EncodeStatus::Repeat) => Pass {
                    parts: reset_below::<F, L, P>(next, pos),
                    frame: step.frame,
                    ba: BitAllocHandler { repeat_enc_pos: 0, ..step.ba },
                    outcome: PassOutcome::Again,
                },
                Ok(EncodeStatus::Done) => Pass {
                    parts: next,
                    frame: step.frame,
                    ba: step.ba,
                    outcome: PassOutcome::Done,
                },
            })
        }),
{
    reveal_with_fuel(pass, 2);
    reveal_with_fuel(pass_ready, 2);
}

/// Every pass that a run makes is ready.
pub open spec fn run_ready<F, L: Copy, P: BitStreamPartEncoder<F, L>>(
    parts: Seq<P::Model>,
    frame: P::FrameModel,
    ba: BitAllocHandler<L>,
) -> bool
    decreases P::rounds_left(frame, ba.min_lambda, ba.max_lambda),
{
    let pos = ba.repeat_enc_pos as nat;
    if searches_end::<F, L, P>() && all_valid::<F, L, P>(parts) && pass_ready::<F, L, P>(
        parts,
        frame,
        ba,
        pos,
    ) {
        let p = pass::<F, L, P>(parts, frame, ba, pos);
        if p.outcome is Again {
            proof {
                lemma_pass_progress::<F, L, P>(parts, frame, ba, pos);
            }
            run_ready::<F, L, P>(p.parts, p.frame, p.ba)
        } else {
            true
        }
    } else {
        false
    }
}

/// The end of the last pass of a run: passes are made until none is asked for.
pub open spec fn run_result<F, L: Copy, P: BitStreamPartEncoder<F, L>>(
    parts: Seq<P::Model>,
    frame: P::FrameModel,
    ba: BitAllocHandler<L>,
) -> Pass<P::Model, P::FrameModel, L>
    decreases P::rounds_left(frame, ba.min_lambda, ba.max_lambda),
{
    let pos = ba.repeat_enc_pos as nat;
    let p = pass::<F, L, P>(parts, frame, ba, pos);
    if p.outcome is Again && searches_end::<F, L, P>() && all_valid::<F, L, P>(parts)
        && pass_ready::<F, L, P>(parts, frame, ba, pos) {
        proof {
            lemma_pass_progress::<F, L, P>(parts, frame, ba, pos);
        }
        run_result::<F, L, P>(p.parts, p.frame, p.ba)
    } else {
        p
    }
}

/// A run makes one pass, and more while they are asked for.
pub proof fn lemma_run_step<F, L: Copy, P: BitStreamPartEncoder<F, L>>(
    parts: Seq<P::Model>,
    frame: P::FrameModel,
    ba: BitAllocHandler<L>,
    p: Pass<P::Model, P::FrameModel, L>,
)
    requires
        searches_end::<F, L, P>(),
        all_valid::<F, L, P>(parts),
        pass_ready::<F, L, P>(parts, frame, ba, ba.repeat_enc_pos as nat),
        p == pass::<F, L, P>(parts, frame, ba, ba.repeat_enc_pos as nat),
    ensures
        p.outcome is Again ==> run_ready::<F, L, P>(parts, frame, ba) == run_ready::<F, L, P>(
            p.parts,
            p.frame,
            p.ba,
        ) && run_result::<F, L, P>(parts, frame, ba) == run_result::<F, L, P>(
            p.parts,
            p.frame,
            p.ba,
        ),
        !(p.outcome is Again) ==> run_ready::<F, L, P>(parts, frame, ba) && run_result::<F, L, P>(
            parts,
            frame,
            ba,
        ) == p,
{
}

/// The models of a chain of encoders.
pub open spec fn models<F, L: Copy, P: BitStreamPartEncoder<F, L>>(parts: Seq<P>) -> Seq<
    P::Model,
> {
    Seq::new(parts.len(), |i: int| parts[i].model())
}

/// A chain of part encoders.
pub struct BitStreamEncoder<P> {
    parts: Vec<P>,
}

impl<P> BitStreamEncoder<P> {
    pub closed spec fn parts(&self) -> Seq<P> {
        self.parts@
    }

    pub fn new(parts: Vec<P>) -> (s: Self)
        ensures
            s.parts() == parts@,
    {
        BitStreamEncoder { parts }
    }

    /// Encodes a frame in as many passes as its parts ask for, then writes the
    /// parts in order. On an error nothing is written.
    pub fn run<TFrame, L: Copy>(&mut self, frame: &mut TFrame, bs: &mut BitStream, zero: L) -> (r:
        Result<(), BitStreamEncodeError>) where P: BitStreamPartEncoder<TFrame, L>
        requires
            run_ready::<TFrame, L, P>(
                models::<TFrame, L, P>(old(self).parts()),
                P::frame_model(*old(frame)),
                BitAllocHandler::fresh(zero),
            ),
            old(bs).wf(),
            ({
                let end = run_result::<TFrame, L, P>(
                    models::<TFrame, L, P>(old(self).parts()),
                    P::frame_model(*old(frame)),
                    BitAllocHandler::fresh(zero),
                );
                end.outcome is Failed || old(bs).bits().len() + all_held_bits::<TFrame, L, P>(
                    end.parts,
                    old(self).parts().len(),
                ).len() + 7 <= usize::MAX
            }),
        ensures
            ({
                let end = run_result::<TFrame, L, P>(
                    models::<TFrame, L, P>(old(self).parts()),
                    P::frame_model(*old(frame)),
                    BitAllocHandler::fresh(zero),
                );
                &&& final(bs).wf()
                &&& final(bs).read_pos() == old(bs).read_pos()
                &&& P::frame_model(*final(frame)) == end.frame
                &&& match end.outcome {
                    PassOutcome::Failed(e) => {
                        &&& r == Err::<(), BitStreamEncodeError>(e)
                        &&& final(bs).bits() == old(bs).bits()
                        &&& models::<TFrame, L, P>(final(self).parts()) == end.parts
                    },
                    _ => {
                        &&& r is Ok
                        &&& final(bs).bits() == old(bs).bits() + all_held_bits::<TFrame, L, P>(
                            end.parts,
                            old(self).parts().len(),
                        )
                        &&& models::<TFrame, L, P>(final(self).parts()) == Seq::new(
                            end.parts.len(),
                            |i: int| P::after_dump(end.parts[i]),
                        )
                    },
                }
            }),
    {
        let ghost goal = run_result::<TFrame, L, P>(
            models::<TFrame, L, P>(self.parts@),
            P::frame_model(*frame),
            BitAllocHandler::fresh(zero),
        );
        let mut ba: BitAllocHandler<L> = BitAllocHandler::new(zero);
        let n: usize = self.parts.len();
        let mut again: bool = true;
        while again
            invariant
                n == self.parts@.len(),
                n == old(self).parts().len(),
                goal == run_result::<TFrame, L, P>(
                    models::<TFrame, L, P>(old(self).parts()),
                    P::frame_model(*old(frame)),
                    BitAllocHandler::fresh(zero),
                ),
                *bs == *old(bs),
                old(bs).wf(),
                goal.outcome is Failed || old(bs).bits().len() + all_held_bits::<TFrame, L, P>(
                    goal.parts,
                    n as nat,
                ).len() + 7 <= usize::MAX,
                again ==> run_ready::<TFrame, L, P>(
                    models::<TFrame, L, P>(self.parts@),
                    P::frame_model(*frame),
                    ba,
                ),
                again ==> run_result::<TFrame, L, P>(
                    models::<TFrame, L, P>(self.parts@),
                    P::frame_model(*frame),
                    ba,
                ) == goal,
                !again ==> all_valid::<TFrame, L, P>(goal.parts) && goal.outcome is Done && models::<TFrame, L, P>(self.parts@)
                    == goal.parts && P::frame_model(*frame) == goal.frame,
            decreases
                P::rounds_left(P::frame_model(*frame), ba.min_lambda, ba.max_lambda) + (if again {
                    1nat
                } else {
                    0nat
                }),
        {
            let ghost start_parts = models::<TFrame, L, P>(self.parts@);
            let ghost start_frame = P::frame_model(*frame);
            let ghost start_ba = ba;
            let ghost whole = pass::<TFrame, L, P>(
                start_parts,
                start_frame,
                start_ba,
                start_ba.repeat_enc_pos as nat,
            );
            proof {
                lemma_pass_progress::<TFrame, L, P>(
                    start_parts,
                    start_frame,
                    start_ba,
                    start_ba.repeat_enc_pos as nat,
                );
            }
            again = false;
            let mut cur_enc_pos: usize = ba.repeat_enc_pos;
            while cur_enc_pos < n && !again
                invariant
                    n == self.parts@.len(),
                    n == old(self).parts().len(),
                    *bs == *old(bs),
                    searches_end::<TFrame, L, P>(),
                    all_valid::<TFrame, L, P>(models::<TFrame, L, P>(self.parts@)),
                    !again ==> pass_ready::<TFrame, L, P>(
                        models::<TFrame, L, P>(self.parts@),
                        P::frame_model(*frame),
                        ba,
                        cur_enc_pos as nat,
                    ),
                    !again ==> whole == pass::<TFrame, L, P>(
                        models::<TFrame, L, P>(self.parts@),
                        P::frame_model(*frame),
                        ba,
                        cur_enc_pos as nat,
                    ),
                    again ==> whole.outcome is Again && whole.parts == models::<TFrame, L, P>(
                        self.parts@,
                    ) && whole.frame == P::frame_model(*frame) && whole.ba == ba,
                    whole.outcome is Failed ==> goal == whole,
                    old(bs).wf(),
                    goal == run_result::<TFrame, L, P>(
                        models::<TFrame, L, P>(old(self).parts()),
                        P::frame_model(*old(frame)),
                        BitAllocHandler::fresh(zero),
                    ),
                decreases
                    n - cur_enc_pos + (if again {
                        0nat
                    } else {
                        1nat
                    }),
            {
                proof {
                    reveal_with_fuel(pass, 1);
                    reveal_with_fuel(pass_ready, 1);
                }
                let ghost before = models::<TFrame, L, P>(self.parts@);
                ba.cur_enc_pos = cur_enc_pos;
                let consumed: u32 = consumption_below(&self.parts, cur_enc_pos);
                ba.previous_consumption = consumed;
                let ghost at = ba;
                assert(before[cur_enc_pos as int] == self.parts@[cur_enc_pos as int].model());
                let ghost frame_before = P::frame_model(*frame);
                let ghost step = P::encoded(before[cur_enc_pos as int], frame_before, at);
                let status: Result<EncodeStatus, BitStreamEncodeError> =
                    self.parts[cur_enc_pos].encode(frame, &mut ba);
                let ghost next = before.update(cur_enc_pos as int, step.part);
                assert(models::<TFrame, L, P>(self.parts@) =~= next);
                proof {
                    reveal(searches_end);
                    assert(forall|i: int|
                        0 <= i < next.len() ==> P::valid(P::after_reset(next[i])));
                }
                match status {
                    Err(e) => {
                        return Err(e);
                    },
                    Ok(s) => {
                        if ba.need_repeat {
                            ba.need_repeat = false;
                            again = true;
                        } else {
                            match s {
                                EncodeStatus::Repeat => {
                                    reset_parts_below(&mut self.parts, cur_enc_pos);
                                    ba.repeat_enc_pos = 0;
                                    again = true;
                                },
                                EncodeStatus::Done => {
                                    cur_enc_pos += 1;
                                },
                            }
                        }
                    },
                }
            }
            proof {
                reveal_with_fuel(pass, 1);
            }
        }
        dump_parts(&mut self.parts, bs);
        Ok(())
    }
}

proof fn lemma_held_len<F, L: Copy, P: BitStreamPartEncoder<F, L>>(
    parts: Seq<P::Model>,
    k: nat,
    n: nat,
)
    requires
        k <= n,
    ensures
        held_len::<F, L, P>(parts, k) <= held_len::<F, L, P>(parts, n),
        all_held_bits::<F, L, P>(parts, n).len() == held_len::<F, L, P>(parts, n),
    decreases n,
{
    if n > 0 {
        if k < n {
            lemma_held_len::<F, L, P>(parts, k, (n - 1) as nat);
        } else {
            lemma_held_len::<F, L, P>(parts, (k - 1) as nat, (n - 1) as nat);
        }
    }
}

fn consumption_below<F, L: Copy, P: BitStreamPartEncoder<F, L>>(parts: &Vec<P>, n: usize) -> (r:
    u32)
    requires
        n <= parts@.len(),
        held_len::<F, L, P>(models::<F, L, P>(parts@), n as nat) <= u32::MAX,
    ensures
        r == held_len::<F, L, P>(models::<F, L, P>(parts@), n as nat),
{
    let ghost m = models::<F, L, P>(parts@);
    let mut sum: u32 = 0;
    let mut i: usize = 0;
    while i < n
        invariant
            i <= n,
            n <= parts@.len(),
            m == models::<F, L, P>(parts@),
            held_len::<F, L, P>(m, n as nat) <= u32::MAX,
            sum == held_len::<F, L, P>(m, i as nat),
        decreases n - i,
    {
        proof {
            lemma_held_len::<F, L, P>(m, (i + 1) as nat, n as nat);
            assert(m[i as int] == parts@[i as int].model());
        }
        sum = sum + parts[i].consumption();
        i += 1;
    }
    sum
}

fn reset_parts_below<F, L: Copy, P: BitStreamPartEncoder<F, L>>(parts: &mut Vec<P>, n: usize)
    requires
        n <= old(parts)@.len(),
    ensures
        final(parts)@.len() == old(parts)@.len(),
        models::<F, L, P>(final(parts)@) == reset_below::<F, L, P>(
            models::<F, L, P>(old(parts)@),
            n as nat,
        ),
{
    let ghost m = models::<F, L, P>(parts@);
    let mut i: usize = 0;
    while i < n
        invariant
            i <= n,
            n <= parts@.len(),
            parts@.len() == old(parts)@.len(),
            m == models::<F, L, P>(old(parts)@),
            forall|j: int| 0 <= j < i ==> (#[trigger] parts@[j]).model() == P::after_reset(m[j]),
            forall|j: int| i <= j < parts@.len() ==> (#[trigger] parts@[j]).model() == m[j],
        decreases n - i,
    {
        parts[i].reset();
        i += 1;
    }
    assert(models::<F, L, P>(parts@) =~= reset_below::<F, L, P>(m, n as nat));
}

fn dump_parts<F, L: Copy, P: BitStreamPartEncoder<F, L>>(parts: &mut Vec<P>, bs: &mut BitStream)
    requires
        all_valid::<F, L, P>(models::<F, L, P>(old(parts)@)),
        old(bs).wf(),
        old(bs).bits().len() + all_held_bits::<F, L, P>(
            models::<F, L, P>(old(parts)@),
            old(parts)@.len(),
        ).len() + 7 <= usize::MAX,
    ensures
        final(bs).wf(),
        final(bs).read_pos() == old(bs).read_pos(),
        final(bs).bits() == old(bs).bits() + all_held_bits::<F, L, P>(
            models::<F, L, P>(old(parts)@),
            old(parts)@.len(),
        ),
        models::<F, L, P>(final(parts)@) == Seq::new(
            old(parts)@.len(),
            |i: int| P::after_dump(models::<F, L, P>(old(parts)@)[i]),
        ),
{
    let ghost m = models::<F, L, P>(parts@);
    let ghost start = bs.bits();
    let n: usize = parts.len();
    let mut i: usize = 0;
    assert(start + Seq::<bool>::empty() =~= start);
    while i < n
        invariant
            i <= n,
            n == parts@.len(),
            n == old(parts)@.len(),
            m == models::<F, L, P>(old(parts)@),
            all_valid::<F, L, P>(m),
            forall|j: int| 0 <= j < i ==> (#[trigger] parts@[j]).model() == P::after_dump(m[j]),
            forall|j: int| i <= j < n ==> (#[trigger] parts@[j]).model() == m[j],
            bs.wf(),
            bs.read_pos() == old(bs).read_pos(),
            bs.bits() == start + all_held_bits::<F, L, P>(m, i as nat),
            start.len() + all_held_bits::<F, L, P>(m, n as nat).len() + 7 <= usize::MAX,
        decreases n - i,
    {
        proof {
            lemma_held_len::<F, L, P>(m, (i + 1) as nat, n as nat);
            lemma_held_len::<F, L, P>(m, i as nat, i as nat);
            assert(parts@[i as int].model() == m[i as int]);
        }
        parts[i].dump(bs);
        assert(bs.bits() =~= start + all_held_bits::<F, L, P>(m, (i + 1) as nat));
        i += 1;
    }
    assert(models::<F, L, P>(parts@) =~= Seq::new(n as nat, |i: int| P::after_dump(m[i])));
}

/// The error tells the number of tonal bands first and then that of the units.
pub proof fn law_error_tells_numbers(tone_bands: u8, quant_units: u32)
    ensures
        ({
            let w = (BitStreamEncodeError::TonalBandsExceedQuantUnits {
                tone_bands,
                quant_units,
            }).words();
            let t = util::decimal_text(tone_bands as nat);
            let q = util::decimal_text(quant_units as nat);
            let head = "tonal bands ("@;
            let mid = ") exceed quant units ("@;
            &&& w.take(head.len() as int) == head
            &&& w.subrange(head.len() as int, (head.len() + t.len()) as int) == t
            &&& w == head + t + mid + q + ")"@
        }),
{
    let w = (BitStreamEncodeError::TonalBandsExceedQuantUnits { tone_bands, quant_units }).words();
    let t = util::decimal_text(tone_bands as nat);
    let head = "tonal bands ("@;
    assert(w.take(head.len() as int) =~= head);
    assert(w.subrange(head.len() as int, (head.len() + t.len()) as int) =~= t);
}

} // verus!
