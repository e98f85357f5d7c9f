//! The decisions that steer an ATRAC3plus encoder, and its options.

use vstd::prelude::*;
use crate::at3p::bitstream::At3PBitStream;
use crate::at3p::frame::{FrameModel, SingleChannelElement};
use crate::at3p::gha::At3PGhaData;
use crate::at3p::gha_track::MAX_TONES;
use crate::at3p::tables::{
    CodeBooks, HuffTables, BLOCKS_PER_BAND, BLOCK_SIZE_TAB, SPECS_PER_BLOCK,
};
use crate::container::CompressedOutput;
use crate::error::AtracdencError;
use crate::pcm::engine::ProcessResult;
use crate::text;
use crate::util;
use crate::text::{chars_of, find, parse_i32, same_text};

verus! {

/// Samples of a channel in a frame.
pub const NUM_SAMPLES: usize = 2048;

/// The residual of a frame starts from the input of the frame before.
pub const GHA_PASS_INPUT: u8 = 1;

/// Tonal components are written.
pub const GHA_WRITE_TONAL: u8 = 2;

/// What remains beside the tonal components is written.
pub const GHA_WRITE_RESIDUAL: u8 = 4;

pub const GHA_ENABLED: u8 = 7;

#[derive(Debug, Clone, Copy, Eq, PartialEq, Structural)]
pub struct At3pSettings {
    pub use_gha: u8,
}

impl Default for At3pSettings {
    fn default() -> (s: Self)
        ensures
            s.use_gha == GHA_ENABLED,
    {
        At3pSettings { use_gha: GHA_ENABLED }
    }
}

/// What a value of the mask option sets, or why it is refused.
pub open spec fn mask_of(val: Seq<char>) -> Result<u8, Seq<char>> {
    match text::parsed_i32(val) {
        None => Err("invalid value of GHA processing mask"@),
        Some(v) => if 0 <= v <= 7 {
            Ok(v as u8)
        } else {
            Err("invalud value of GHA processing mask"@)
        },
    }
}

/// Sets the mask of the tonal analysis.
fn set_gha(val: &[char], settings: &mut At3pSettings) -> (r: Result<(), AtracdencError>)
    ensures
        match (r, mask_of(val@)) {
            (Ok(_), Ok(m)) => final(settings).use_gha == m,
            (Err(e), Err(why)) => e.is_invalid_input(why) && *final(settings) == *old(settings),
            _ => false,
        },
{
    match parse_i32(val) {
        None => Err(
            AtracdencError::InvalidInput("invalid value of GHA processing mask".to_owned()),
        ),
        Some(v) => {
            if v < 0 || v > 7 {
                return Err(
                    AtracdencError::InvalidInput("invalud value of GHA processing mask".to_owned()),
                );
            }
            settings.use_gha = v as u8;
            Ok(())
        },
    }
}

/// What the options from position `from` on come to: the mask that is set in the
/// end, and why an option is refused, if one is. Options are separated by commas
/// and each is a key, an equals sign and a value.
pub open spec fn parse_from(s: Seq<char>, from: int, mask: u8) -> (u8, Option<Seq<char>>)
    decreases s.len() - from,
{
    let end = text::find_from(s, ',', from);
    let eq = text::find_from(s, '=', from);
    if from < 0 || end > s.len() || end <= from {
        (mask, Some("unexpected \",\" just after key."@))
    } else if eq >= end {
        (mask, Some("unexpected end of key token"@))
    } else if s.subrange(from, eq) != "ghadbg"@ {
        (mask, Some("unexpected advanced option \""@ + s.subrange(from, eq)))
    } else {
        match mask_of(s.subrange(eq + 1, end)) {
            Err(why) => (mask, Some(why)),
            Ok(m) => if end == s.len() {
                (m, None)
            } else {
                parse_from(s, end + 1, m)
            },
        }
    }
}

/// Reads the options of the encoder. The settings keep what was set before an
/// option was refused.
pub fn parse_advanced_opt(opt: Option<&str>, settings: &mut At3pSettings) -> (r: Result<
    (),
    AtracdencError,
>)
    ensures
        match opt {
            Some(o) => if o@.len() == 0 {
                r is Ok && *final(settings) == *old(settings)
            } else {
                let (mask, refused) = parse_from(o@, 0, old(settings).use_gha);
                &&& final(settings).use_gha == mask
                &&& match refused {
                    None => r is Ok,
                    Some(why) => r matches Err(e) && e.is_invalid_input(why),
                }
            },
            None => r is Ok && *final(settings) == *old(settings),
        },
{
    let o: &str = match opt {
        Some(o) => o,
        None => {
            return Ok(());
        },
    };
    let chars: Vec<char> = chars_of(o);
    if chars.len() == 0 {
        return Ok(());
    }
    let ghost goal = parse_from(o@, 0, settings.use_gha);
    let mut from: usize = 0;
    loop
        invariant
            chars@ == o@,
            from <= chars@.len(),
            goal == parse_from(o@, from as int, settings.use_gha),
            opt == Some(o),
            o@.len() > 0,
            goal == parse_from(o@, 0, old(settings).use_gha),
        decreases chars@.len() - from,
    {
        let end: usize = find(chars.as_slice(), ',', from);
        if end == from {
            return Err(
                AtracdencError::InvalidInput("unexpected \",\" just after key.".to_owned()),
            );
        }
        let eq: usize = find(chars.as_slice(), '=', from);
        if eq >= end {
            return Err(AtracdencError::InvalidInput("unexpected end of key token".to_owned()));
        }
        let key: &[char] = vstd::slice::slice_subrange(chars.as_slice(), from, eq);
        if !same_text(key, "ghadbg") {
            return Err(
                AtracdencError::InvalidInput(
                    "unexpected advanced option \"".to_owned().concat(o.substring_char(from, eq)),
                ),
            );
        }
        let val: &[char] = vstd::slice::slice_subrange(chars.as_slice(), eq + 1, end);
        match set_gha(val, settings) {
            Ok(()) => {},
            Err(e) => {
                return Err(e);
            },
        }
        if end == chars.len() {
            return Ok(());
        }
        from = end + 1;
    }
}

/// The layout of the spectrum: blocks before each band, and start and number of the
/// lines of each block; no band has short transforms.
pub fn block_layout() -> (r: (Vec<u8>, Vec<u16>, Vec<u16>, Vec<bool>))
    ensures
        r.0@ == Seq::new(17, |i: int| BLOCKS_PER_BAND@[i] as u8),
        r.1@ == Seq::new(33, |i: int| BLOCK_SIZE_TAB@[i] as u16),
        r.2@ == Seq::new(32, |i: int| SPECS_PER_BLOCK@[i] as u16),
        r.3@ == Seq::new(16, |i: int| false),
{
    let mut per_band: Vec<u8> = Vec::new();
    let mut i: usize = 0;
    while i < 17
        invariant
            i <= 17,
            per_band@ == Seq::new(i as nat, |k: int| BLOCKS_PER_BAND@[k] as u8),
        decreases 17 - i,
    {
        per_band.push(
            #[verifier::truncate]
            (BLOCKS_PER_BAND[i] as u8),
        );
        i += 1;
        assert(per_band@ =~= Seq::new(i as nat, |k: int| BLOCKS_PER_BAND@[k] as u8));
    }
    let mut starts: Vec<u16> = Vec::new();
    i = 0;
    while i < 33
        invariant
            i <= 33,
            starts@ == Seq::new(i as nat, |k: int| BLOCK_SIZE_TAB@[k] as u16),
        decreases 33 - i,
    {
        starts.push(
            #[verifier::truncate]
            (BLOCK_SIZE_TAB[i] as u16),
        );
        i += 1;
        assert(starts@ =~= Seq::new(i as nat, |k: int| BLOCK_SIZE_TAB@[k] as u16));
    }
    let mut lens: Vec<u16> = Vec::new();
    i = 0;
    while i < 32
        invariant
            i <= 32,
            lens@ == Seq::new(i as nat, |k: int| SPECS_PER_BLOCK@[k] as u16),
        decreases 32 - i,
    {
        lens.push(
            #[verifier::truncate]
            (SPECS_PER_BLOCK[i] as u16),
        );
        i += 1;
        assert(lens@ =~= Seq::new(i as nat, |k: int| SPECS_PER_BLOCK@[k] as u16));
    }
    let short: Vec<bool> = vec![false; 16];
    assert(short@ =~= Seq::new(16, |i: int| false));
    (per_band, starts, lens, short)
}

/// Whether the search for tonal components goes on after a round: a channel found
/// one, and there is room for more.
pub fn search_goes_on(progress: [bool; 2], total_tones: usize) -> (r: bool)
    ensures
        r == ((progress@[0] || progress@[1]) && total_tones < MAX_TONES),
{
    (progress[0] || progress[1]) && total_tones < MAX_TONES
}

/// Where an encoder stands: which of the two band buffers of a channel holds the
/// frame and which the block after it, and the tonal components that wait for the
/// frame that they are written with.
#[derive(Debug, Clone)]
pub struct EncoderState {
    next_idx: usize,
    cur_idx: Option<usize>,
    delay: Option<At3PGhaData>,
    settings: At3pSettings,
}

impl EncoderState {
    /// The buffer that the next block goes to.
    pub closed spec fn next_buf(&self) -> usize {
        self.next_idx
    }

    /// The buffer of the frame; none before the first block.
    pub closed spec fn cur_buf(&self) -> Option<usize> {
        self.cur_idx
    }

    /// The tonal components to write with the frame.
    pub closed spec fn waiting(&self) -> Option<At3PGhaData> {
        self.delay
    }

    pub closed spec fn spec_settings(&self) -> At3pSettings {
        self.settings
    }

    /// Frame and next block are in different buffers.
    pub open spec fn wf(&self) -> bool {
        match self.cur_buf() {
            Some(c) => c < 2 && self.next_buf() == 1 - c,
            None => self.next_buf() == 0,
        }
    }

    /// The tonal components that wait where `tones` were found: those that are wanted.
    pub open spec fn kept(&self, tones: Option<At3PGhaData>) -> Option<At3PGhaData> {
        match tones {
            Some(t) => if self.spec_settings().use_gha & GHA_WRITE_TONAL != 0 && t.num_tone_bands
                != 0 {
                Some(t)
            } else {
                None
            },
            None => None,
        }
    }

    /// A block was split into bands, with this result.
    pub open spec fn took_block(before: Self, after: Self, r: ProcessResult) -> bool {
        &&& after.wf()
        &&& after.waiting() == before.waiting()
        &&& after.spec_settings() == before.spec_settings()
        &&& match before.cur_buf() {
            None => r == ProcessResult::LookAhead && after.cur_buf() == Some(0usize),
            Some(c) => r == ProcessResult::Processed && after.cur_buf() == Some(c),
        }
    }

    /// A frame was ended, in whose block `tones` were found.
    pub open spec fn ended_frame(before: Self, after: Self, tones: Option<At3PGhaData>) -> bool {
        &&& after.wf()
        &&& after.cur_buf() == Some(before.next_buf())
        &&& after.spec_settings() == before.spec_settings()
        &&& after.waiting() == before.kept(tones)
    }

    /// Block number `k` was taken in: from one state to the next by way of the state in
    /// which its frame, if it completes one, is written.
    pub open spec fn block_done(
        states: Seq<Self>,
        mids: Seq<Self>,
        results: Seq<ProcessResult>,
        tones: Seq<Option<At3PGhaData>>,
        k: int,
    ) -> bool {
        &&& Self::took_block(states[k], mids[k], results[k])
        &&& if results[k] == ProcessResult::Processed {
            Self::ended_frame(mids[k], states[k + 1], tones[k])
        } else {
            states[k + 1] == mids[k]
        }
    }

    /// The first block is only looked at. Every later one completes a frame, written
    /// with the tones that were found with the block before, and the first frame
    /// without any.
    pub proof fn law_tones_wait_one_frame(
        states: Seq<Self>,
        mids: Seq<Self>,
        results: Seq<ProcessResult>,
        tones: Seq<Option<At3PGhaData>>,
        k: int,
    )
        requires
            states[0].cur_buf() is None,
            states[0].waiting() is None,
            forall|j: int|
                0 <= j <= k ==> #[trigger] Self::block_done(states, mids, results, tones, j),
            0 <= k,
        ensures
            results[k] == (if k == 0 {
                ProcessResult::LookAhead
            } else {
                ProcessResult::Processed
            }),
            k <= 1 ==> mids[k].waiting() is None,
            k > 1 ==> mids[k].waiting() == states[0].kept(tones[k - 1]),
            mids[k].spec_settings() == states[0].spec_settings(),
            states[k + 1].cur_buf() is Some,
        decreases k,
    {
        assert(Self::block_done(states, mids, results, tones, k));
        if k > 0 {
            Self::law_tones_wait_one_frame(states, mids, results, tones, k - 1);
            assert(Self::block_done(states, mids, results, tones, k - 1));
        }
    }

    pub fn new(settings: At3pSettings) -> (s: Self)
        ensures
            s.wf(),
            s.cur_buf() is None,
            s.waiting() is None,
            s.spec_settings() == settings,
    {
        EncoderState { next_idx: 0, cur_idx: None, delay: None, settings }
    }

    pub fn next_index(&self) -> (i: usize)
        ensures
            i == self.next_buf(),
    {
        self.next_idx
    }

    pub fn cur_index(&self) -> (i: Option<usize>)
        ensures
            i == self.cur_buf(),
    {
        self.cur_idx
    }

    pub fn delayed_tones(&self) -> (t: Option<&At3PGhaData>)
        ensures
            match t {
                Some(d) => self.waiting() == Some(*d),
                None => self.waiting() is None,
            },
    {
        self.delay.as_ref()
    }

    /// The residual is written.
    pub fn writes_residual(&self) -> (r: bool)
        ensures
            r == (self.spec_settings().use_gha & GHA_WRITE_RESIDUAL != 0),
    {
        self.settings.use_gha & GHA_WRITE_RESIDUAL != 0
    }

    /// The input of a frame is kept for the frame after it.
    pub fn passes_input(&self) -> (r: bool)
        ensures
            r == (self.spec_settings().use_gha & GHA_PASS_INPUT != 0),
    {
        self.settings.use_gha & GHA_PASS_INPUT != 0
    }

    /// Takes note that a block was split into bands. The first block is only
    /// looked at.
    pub fn block_analysed(&mut self) -> (r: ProcessResult)
        requires
            old(self).wf(),
        ensures
            Self::took_block(*old(self), *final(self), r),
    {
        if self.cur_idx.is_none() {
            self.cur_idx = Some(0);
            self.next_idx = 1;
            ProcessResult::LookAhead
        } else {
            ProcessResult::Processed
        }
    }

    /// Ends a frame: the next block becomes the frame, and the tonal components
    /// that were found wait for it, where there are any and they are wanted.
    pub fn frame_done(&mut self, tones: Option<At3PGhaData>)
        requires
            old(self).wf(),
            old(self).cur_buf() is Some,
        ensures
            Self::ended_frame(*old(self), *final(self), tones),
    {
        let cur: usize = match self.cur_idx {
            Some(c) => c,
            None => 0,
        };
        self.cur_idx = Some(self.next_idx);
        self.next_idx = cur;
        self.delay = match tones {
            Some(t) => {
                if self.settings.use_gha & GHA_WRITE_TONAL != 0 && t.num_tone_bands != 0 {
                    Some(t)
                } else {
                    None
                }
            },
            None => None,
        };
    }
}

/// What one block brings to the writer of frames.
pub struct BlockInput {
    pub channels: usize,
    pub sces: Seq<SingleChannelElement>,
    pub huff: HuffTables,
    pub books: CodeBooks,
}

/// The frame of a block that is written with these tonal components.
pub open spec fn block_frame(
    frame_sz: int,
    input: BlockInput,
    tones: Option<At3PGhaData>,
) -> FrameModel {
    crate::at3p::bitstream::fresh_frame(
        (frame_sz * 8 - 3) as u32,
        input.channels,
        tones,
        input.sces,
        input.huff,
        input.books,
    )
}

/// How the writing went that a block passes on.
pub open spec fn answer_of(r: Result<ProcessResult, AtracdencError>) -> Result<(), AtracdencError> {
    match r {
        Ok(_) => Ok(()),
        Err(e) => Err(e),
    }
}

/// What an output got of a block, in the state in which its frame is written: nothing of
/// one that is only looked at, else its frame with the tonal components that waited.
pub open spec fn block_written<O: CompressedOutput>(
    frame_sz: int,
    state: EncoderState,
    result: ProcessResult,
    input: BlockInput,
    out: O,
    after: O,
    r: Result<ProcessResult, AtracdencError>,
) -> bool {
    if result == ProcessResult::LookAhead {
        r == Ok::<ProcessResult, AtracdencError>(ProcessResult::LookAhead) && after == out
    } else {
        &&& crate::at3p::bitstream::frame_written(
            block_frame(frame_sz, input, state.waiting()),
            frame_sz,
            out,
            after,
            answer_of(r),
        )
        &&& r is Ok ==> r == Ok::<ProcessResult, AtracdencError>(ProcessResult::Processed)
    }
}

/// Hands an output what a block gives whose analysis had this result: nothing where it
/// is only looked at, else the frame with the tonal components that wait for it.
pub fn write_block<O: CompressedOutput>(
    bitstream: &At3PBitStream,
    out: &mut O,
    state: &EncoderState,
    result: ProcessResult,
    channels: usize,
    sces: &[SingleChannelElement],
    huff: &HuffTables,
    books: &CodeBooks,
) -> (r: Result<ProcessResult, AtracdencError>)
    requires
        bitstream.wf(),
        old(out).ready(),
        result == ProcessResult::Processed ==> {
            &&& crate::at3p::bitstream::frame_ready(
                block_frame(
                    bitstream.frame_size(),
                    BlockInput { channels, sces: sces@, huff: *huff, books: *books },
                    state.waiting(),
                ),
            )
            &&& old(out).has_room(bitstream.frame_size() as nat)
        },
    ensures
        final(out).ready(),
        block_written(
            bitstream.frame_size(),
            *state,
            result,
            (BlockInput { channels, sces: sces@, huff: *huff, books: *books }),
            *old(out),
            *final(out),
            r,
        ),
{
    match result {
        ProcessResult::LookAhead => Ok(ProcessResult::LookAhead),
        ProcessResult::Processed => {
            match bitstream.write_frame(out, channels, state.delayed_tones(), sces, huff, books) {
                Ok(done) => {
                    assert(done == ());
                    Ok(ProcessResult::Processed)
                },
                Err(e) => Err(e),
            }
        },
    }
}

/// The first block is only looked at, and the output gets nothing. Then the output gets
/// one frame of the configured size for every block whose frame can be encoded, with
/// the tones that were found with the block before, and the first frame without any.
pub proof fn law_one_frame_per_block<O: CompressedOutput>(
    frame_sz: int,
    states: Seq<EncoderState>,
    mids: Seq<EncoderState>,
    steps: Seq<ProcessResult>,
    tones: Seq<Option<At3PGhaData>>,
    inputs: Seq<BlockInput>,
    outs: Seq<O>,
    results: Seq<Result<ProcessResult, AtracdencError>>,
    k: int,
)
    requires
        0 <= k,
        frame_sz >= 0,
        states[0].cur_buf() is None,
        states[0].waiting() is None,
        forall|j: int|
            0 <= j <= k ==> #[trigger] EncoderState::block_done(states, mids, steps, tones, j),
        block_written(
            frame_sz,
            mids[k],
            steps[k],
            inputs[k],
            outs[k],
            outs[k + 1],
            results[k],
        ),
    ensures
        k == 0 ==> results[k] == Ok::<ProcessResult, AtracdencError>(ProcessResult::LookAhead)
            && outs[k + 1] == outs[k],
        k > 0 ==> {
            let f = block_frame(
                frame_sz,
                inputs[k],
                if k == 1 {
                    None
                } else {
                    states[0].kept(tones[k - 1])
                },
            );
            &&& crate::at3p::bitstream::frame_written(
                f,
                frame_sz,
                outs[k],
                outs[k + 1],
                answer_of(results[k]),
            )
            &&& forall|n: u32|
                (#[trigger] crate::at3p::bitstream::frame_bytes(f, n, frame_sz)).len() == frame_sz
            &&& results[k] is Ok ==> results[k] == Ok::<ProcessResult, AtracdencError>(
                ProcessResult::Processed,
            )
        },
{
    EncoderState::law_tones_wait_one_frame(states, mids, steps, tones, k);
}

/// The option that sets a mask.
pub open spec fn mask_option(n: nat) -> Seq<char> {
    "ghadbg="@ + util::decimal_text(n)
}

proof fn lemma_option_parts(n: nat, rest: Seq<char>)
    requires
        rest.len() == 0 || rest[0] == ',',
    ensures
        ({
            let a = mask_option(n);
            let s = a + rest;
            &&& text::find_from(s, ',', 0) == a.len()
            &&& text::find_from(s, '=', 0) == 6
            &&& s.subrange(0, 6) == "ghadbg"@
            &&& s.subrange(7, a.len() as int) == util::decimal_text(n)
            &&& a.len() > 7
        }),
{
    reveal_strlit("ghadbg=");
    reveal_strlit("ghadbg");
    let d = util::decimal_text(n);
    let a = mask_option(n);
    let s = a + rest;
    text::lemma_decimal_digits(n);
    assert(a.len() == 7 + d.len());
    assert forall|i: int| 0 <= i < a.len() implies a[i] != ',' && (a[i] == '=' ==> i == 6) by {
        if i >= 7 {
            assert(a[i] == d[i - 7]);
            assert(text::is_digit(d[i - 7]));
        }
    }
    let c = text::find_from(s, ',', 0);
    text::law_found_is_first(s, ',', 0, a.len() as int);
    if c < a.len() {
        assert(s[c] == a[c]);
    }
    let e = text::find_from(s, '=', 0);
    text::law_found_is_first(s, '=', 0, 6);
    assert(s[6] == '=');
    if e < 6 {
        assert(s[e] == a[e]);
    }
    assert(s.subrange(0, 6) =~= "ghadbg"@);
    assert(s.subrange(7, a.len() as int) =~= d);
}

/// The option that sets a mask of 0 to 7 sets just that, whatever was set before; a larger
/// one is refused and sets nothing.
pub proof fn law_option_sets_mask(n: nat, mask: u8)
    ensures
        n <= 7 ==> parse_from(mask_option(n), 0, mask) == (n as u8, None::<Seq<char>>),
        n > 7 ==> parse_from(mask_option(n), 0, mask).0 == mask && parse_from(
            mask_option(n),
            0,
            mask,
        ).1 is Some,
{
    let none = Seq::<char>::empty();
    lemma_option_parts(n, none);
    assert(mask_option(n) + none =~= mask_option(n));
    text::law_decimal_reads_back(n);
}

/// Options are taken in turn: behind a comma parsing goes on with the mask that was set.
pub proof fn law_options_in_turn(n: nat, rest: Seq<char>, mask: u8)
    requires
        n <= 7,
    ensures
        ({
            let s = mask_option(n) + seq![','] + rest;
            parse_from(s, 0, mask) == parse_from(s, (mask_option(n).len() + 1) as int, n as u8)
        }),
{
    let tail = seq![','] + rest;
    lemma_option_parts(n, tail);
    assert(mask_option(n) + tail =~= mask_option(n) + seq![','] + rest);
    text::law_decimal_reads_back(n);
}

/// What waits for the next frame are tones that were found, in any band at all, where tones
/// are to be written.
pub proof fn law_wanted_tones_wait(state: EncoderState, t: At3PGhaData)
    ensures
        state.kept(None) is None,
        t.num_tone_bands == 0 ==> state.kept(Some(t)) is None,
        state.spec_settings().use_gha & GHA_WRITE_TONAL == 0 ==> state.kept(Some(t)) is None,
        t.num_tone_bands > 0 && state.spec_settings().use_gha & GHA_WRITE_TONAL != 0 ==> state.kept(
            Some(t),
        ) == Some(t),
{
}

} // verus!
