//! The parts of an ATRAC3plus frame.

use vstd::prelude::*;
use crate::at3p::fields;
use crate::at3p::fields::{BitField, Dumper};
use crate::at3p::gha::At3PGhaData;
use crate::at3p::mdct::At3pMdctWin;
use crate::at3p::spectra;
use crate::at3p::spectra::{encode_code_tab, encode_unit};
use crate::at3p::tables::{CodeBooks, HuffTables, VlcElement};
use crate::at3p::tonal;
use crate::at3p::tonal::write_tonal_block;
use crate::bitstream::encode::{
    BitAllocHandler, BitStreamEncodeError, BitStreamPartEncoder, EncodeStatus, PartStep,
};
use crate::bitstream::BitStream;

verus! {

/// The word length of each quantisation unit.
pub const ALLOC_TABLE: [u8; 32] = [
    7, 7, 7, 7, 7, 7, 7, 7, 7, 7, 7, 7, 7, 7, 7, 7, 7, 6, 6, 6, 6, 6, 6, 6, 6, 6, 5, 5, 4, 3, 2, 1,
];

/// A quantisation unit: its scale factor and its lines quantised at its word
/// length.
#[derive(Debug, Clone)]
pub struct ScaledBlock {
    pub scale_factor_index: u8,
    pub mantissas: Vec<i32>,
}

#[derive(Debug, Clone, Copy)]
pub struct SubbandInfos {
    pub win: At3pMdctWin,
}

impl Default for SubbandInfos {
    fn default() -> (s: Self)
        ensures
            s.win.all_sine(),
    {
        SubbandInfos { win: At3pMdctWin::new() }
    }
}

/// What one channel puts into a frame.
#[derive(Debug, Clone)]
pub struct SingleChannelElement {
    pub subband_info: SubbandInfos,
    pub scaled_blocks: Vec<ScaledBlock>,
}

impl Default for SingleChannelElement {
    fn default() -> (s: Self)
        ensures
            s.subband_info.win.all_sine(),
            s.scaled_blocks@ == Seq::<ScaledBlock>::empty(),
    {
        SingleChannelElement { subband_info: SubbandInfos::default(), scaled_blocks: Vec::new() }
    }
}

/// A frame while it is encoded.
pub struct SpecFrame<'a> {
    pub size_bits: u32,
    pub num_quant_units: u32,
    pub tonal_block: Option<&'a At3PGhaData>,
    pub word_len: Vec<(u8, u8)>,
    pub sf_idx: Vec<(u8, u8)>,
    pub spec_tab_idx: Vec<(u8, u8)>,
    pub channels: usize,
    pub sces: &'a [SingleChannelElement],
    pub huff: &'a HuffTables,
    pub books: &'a CodeBooks,
}

/// What contracts know of a frame.
#[verifier::ext_equal]
pub struct FrameModel {
    pub size_bits: u32,
    pub num_quant_units: u32,
    pub tonal_block: Option<At3PGhaData>,
    pub word_len: Seq<(u8, u8)>,
    pub sf_idx: Seq<(u8, u8)>,
    pub spec_tab_idx: Seq<(u8, u8)>,
    pub channels: usize,
    pub sces: Seq<SingleChannelElement>,
    pub huff: HuffTables,
    pub books: CodeBooks,
}

impl<'a> SpecFrame<'a> {
    pub open spec fn model(&self) -> FrameModel {
        FrameModel {
            size_bits: self.size_bits,
            num_quant_units: self.num_quant_units,
            tonal_block: match self.tonal_block {
                Some(t) => Some(*t),
                None => None,
            },
            word_len: self.word_len@,
            sf_idx: self.sf_idx@,
            spec_tab_idx: self.spec_tab_idx@,
            channels: self.channels,
            sces: self.sces@,
            huff: *self.huff,
            books: *self.books,
        }
    }

    pub fn new(
        size_bits: u32,
        num_quant_units: u32,
        channels: usize,
        tonal_block: Option<&'a At3PGhaData>,
        sces: &'a [SingleChannelElement],
        huff: &'a HuffTables,
        books: &'a CodeBooks,
    ) -> (f: Self)
        ensures
            f.model() == (FrameModel {
                size_bits,
                num_quant_units,
                tonal_block: match tonal_block {
                    Some(t) => Some(*t),
                    None => None,
                },
                word_len: Seq::empty(),
                sf_idx: Seq::empty(),
                spec_tab_idx: Seq::empty(),
                channels,
                sces: sces@,
                huff: *huff,
                books: *books,
            }),
    {
        SpecFrame {
            size_bits,
            num_quant_units,
            tonal_block,
            word_len: Vec::new(),
            sf_idx: Vec::new(),
            spec_tab_idx: Vec::new(),
            channels,
            sces,
            huff,
            books,
        }
    }
}

/// `s` cut or filled up with zeros to `n`.
pub open spec fn resized_pairs(s: Seq<(u8, u8)>, n: nat) -> Seq<(u8, u8)> {
    Seq::new(
        n,
        |i: int|
            if i < s.len() {
                s[i]
            } else {
                (0u8, 0u8)
            },
    )
}

fn resize_pairs(v: &mut Vec<(u8, u8)>, n: usize)
    ensures
        final(v)@ == resized_pairs(old(v)@, n as nat),
{
    let ghost before = v@;
    v.truncate(n);
    while v.len() < n
        invariant
            v@.len() <= n,
            forall|i: int|
                0 <= i < v@.len() ==> #[trigger] v@[i] == resized_pairs(before, n as nat)[i],
            v@.len() >= before.len() || v@.len() == n,
        decreases n - v@.len(),
    {
        v.push((0, 0));
    }
    assert(v@ =~= resized_pairs(before, n as nat));
}

/// Every unit gets its word length and its scale factors.
pub open spec fn configured(f: FrameModel) -> FrameModel {
    let n = f.num_quant_units as nat;
    FrameModel {
        word_len: Seq::new(n, |i: int| (ALLOC_TABLE@[i], ALLOC_TABLE@[i])),
        sf_idx: Seq::new(
            n,
            |i: int|
                (
                    f.sces[0].scaled_blocks@[i].scale_factor_index,
                    if f.channels > 1 {
                        f.sces[1].scaled_blocks@[i].scale_factor_index
                    } else {
                        0
                    },
                ),
        ),
        spec_tab_idx: resized_pairs(f.spec_tab_idx, n),
        ..f
    }
}

/// The number of units and the mute flag.
pub open spec fn configure_fields(f: FrameModel) -> Seq<BitField> {
    seq![((f.num_quant_units - 1) as u16, 5u8), (0u16, 1u8)]
}

pub open spec fn configure_ready(f: FrameModel) -> bool {
    let n = f.num_quant_units;
    &&& 1 <= n <= 32
    &&& 1 <= f.channels <= 2
    &&& f.sces.len() >= f.channels
    &&& forall|ch: int| 0 <= ch < f.channels ==> (#[trigger] f.sces[ch]).scaled_blocks@.len() >= n
}

fn encode_configure(d: &mut Dumper, frame: &mut SpecFrame)
    requires
        configure_ready(old(frame).model()),
    ensures
        final(d)@ == old(d)@ + configure_fields(old(frame).model()),
        final(frame).model() == configured(old(frame).model()),
{
    let ghost f = frame.model();
    let nqu: usize = frame.num_quant_units as usize;
    let mut word_len: Vec<(u8, u8)> = Vec::new();
    let mut sf_idx: Vec<(u8, u8)> = Vec::new();
    let mut i: usize = 0;
    while i < nqu
        invariant
            i <= nqu <= 32,
            nqu == f.num_quant_units,
            frame.model() == f,
            configure_ready(f),
            word_len@ == configured(f).word_len.take(i as int),
            sf_idx@ == configured(f).sf_idx.take(i as int),
        decreases nqu - i,
    {
        word_len.push((ALLOC_TABLE[i], ALLOC_TABLE[i]));
        assert(f.sces[0].scaled_blocks@.len() >= nqu);
        let first: u8 = frame.sces[0].scaled_blocks[i].scale_factor_index;
        let second: u8 = if frame.channels > 1 {
            assert(f.sces[1].scaled_blocks@.len() >= nqu);
            frame.sces[1].scaled_blocks[i].scale_factor_index
        } else {
            0
        };
        sf_idx.push((first, second));
        assert(word_len@ =~= configured(f).word_len.take(i + 1));
        assert(sf_idx@ =~= configured(f).sf_idx.take(i + 1));
        i += 1;
    }
    assert(word_len@ =~= configured(f).word_len);
    assert(sf_idx@ =~= configured(f).sf_idx);
    frame.word_len = word_len;
    frame.sf_idx = sf_idx;
    resize_pairs(&mut frame.spec_tab_idx, nqu);
    let ghost start = d@;
    d.insert((frame.num_quant_units - 1) as u16, 5);
    d.insert(0, 1);
    assert(d@ =~= start + configure_fields(f));
}

/// The low three bits of a difference.
pub open spec fn delta_code(d: int) -> u8 {
    (d % 8) as u8
}

/// The first word length of the first channel, then the change from unit to unit.
pub open spec fn wl_deltas(wl: Seq<(u8, u8)>, n: nat) -> Seq<u8> {
    Seq::new(
        n,
        |i: int|
            if i == 0 {
                wl[0].0
            } else {
                delta_code(wl[i].0 - wl[i - 1].0)
            },
    )
}

/// The difference from the first channel to the second.
pub open spec fn wl_inter_deltas(wl: Seq<(u8, u8)>, n: nat) -> Seq<u8> {
    Seq::new(n, |i: int| delta_code(wl[i].1 - wl[i].0))
}

pub open spec fn abs_diff(a: int, b: int) -> u8 {
    if a >= b {
        (a - b) as u8
    } else {
        (b - a) as u8
    }
}

/// The bits that any change from unit to unit has set.
pub open spec fn wl_spread(wl: Seq<(u8, u8)>, n: nat) -> u8
    decreases n,
{
    if n <= 1 {
        0
    } else {
        wl_spread(wl, (n - 1) as nat) | abs_diff(wl[n - 1].0 as int, wl[n - 2].0 as int)
    }
}

/// The bits that any difference between the channels has set.
pub open spec fn wl_inter_spread(wl: Seq<(u8, u8)>, n: nat) -> u8
    decreases n,
{
    if n <= 1 {
        abs_diff(wl[0].1 as int, wl[0].0 as int)
    } else {
        wl_inter_spread(wl, (n - 1) as nat) | abs_diff(wl[n - 1].1 as int, wl[n - 1].0 as int)
    }
}

/// The bits of differences 1 to `n - 1` under a code table.
pub open spec fn wl_cost(tab: Seq<VlcElement>, deltas: Seq<u8>, n: nat) -> nat
    decreases n,
{
    if n <= 1 {
        0
    } else {
        wl_cost(tab, deltas, (n - 1) as nat) + tab[deltas[n - 1] as int].len as nat
    }
}

/// The word length table for differences of a spread: the small tables for small
/// ones, else the cheaper of the two large ones.
pub open spec fn wl_table(
    word_lens: Seq<Vec<VlcElement>>,
    deltas: Seq<u8>,
    spread: u8,
    n: nat,
) -> int {
    if spread >= 3 {
        if wl_cost(word_lens[3]@, deltas, n) < wl_cost(word_lens[2]@, deltas, n) {
            3
        } else {
            2
        }
    } else if spread == 2 {
        1
    } else {
        0
    }
}

/// The code words of differences `from` to `n - 1`.
pub open spec fn wl_words(tab: Seq<VlcElement>, deltas: Seq<u8>, from: int, n: int) -> Seq<
    BitField,
> {
    Seq::new((n - from) as nat, |i: int| tonal::word_field(tab[deltas[from + i] as int]))
}

/// The word lengths of the channels.
pub open spec fn word_len_fields(f: FrameModel) -> Seq<BitField> {
    let n = f.num_quant_units as nat;
    let wl = f.word_len;
    let d = wl_deltas(wl, n);
    let idx = wl_table(f.huff.word_lens@, d, wl_spread(wl, n), n);
    let first = seq![
        (3u16, 2u8),
        (0u16, 2u8),
        (0u16, 2u8),
        (idx as u16, 2u8),
        (d[0] as u16, 3u8),
    ] + wl_words(f.huff.word_lens@[idx]@, d, 1, n as int);
    if f.channels == 2 {
        let e = wl_inter_deltas(wl, n);
        let idx2 = wl_table(f.huff.word_lens@, e, wl_inter_spread(wl, n), n);
        first + seq![(1u16, 2u8), (0u16, 2u8), (idx2 as u16, 2u8)] + wl_words(
            f.huff.word_lens@[idx2]@,
            e,
            0,
            n as int,
        )
    } else {
        first
    }
}

pub open spec fn word_len_ready(f: FrameModel) -> bool {
    let n = f.num_quant_units;
    &&& 1 <= n <= 32
    &&& f.huff.wf()
    &&& f.word_len.len() >= n
    &&& forall|i: int|
        0 <= i < n ==> (#[trigger] f.word_len[i]).0 <= 127 && f.word_len[i].1 <= 127
}

fn code_of(d: i16) -> (r: u8)
    requires
        -128 < d < 128,
    ensures
        r == delta_code(d as int),
        r < 8,
{
    ((d + 128) % 8) as u8
}

fn distance(a: u8, b: u8) -> (r: u8)
    ensures
        r == abs_diff(a as int, b as int),
{
    if a >= b {
        a - b
    } else {
        b - a
    }
}

fn cost_of(tab: &Vec<VlcElement>, deltas: &Vec<u8>, n: usize) -> (r: usize)
    requires
        n <= deltas@.len(),
        1 <= n <= 32,
        tab@.len() == 8,
        crate::at3p::tables::lens_wf(tab@),
        forall|i: int| 1 <= i < deltas@.len() ==> #[trigger] deltas@[i] < 8,
    ensures
        r == wl_cost(tab@, deltas@, n as nat),
        r <= 12 * 32,
{
    let mut t: usize = 0;
    let mut j: usize = 1;
    while j < n
        invariant
            1 <= j <= n,
            n <= deltas@.len(),
            n <= 32,
            tab@.len() == 8,
            crate::at3p::tables::lens_wf(tab@),
            forall|i: int| 1 <= i < deltas@.len() ==> #[trigger] deltas@[i] < 8,
            t == wl_cost(tab@, deltas@, j as nat),
            t <= 12 * j,
        decreases n - j,
    {
        assert(deltas@[j as int] < 8);
        let e: VlcElement = tab[deltas[j] as usize];
        assert(0 <= e.len <= 12);
        t += e.len as usize;
        j += 1;
    }
    t
}

fn choose_wl_table(word_lens: &Vec<Vec<VlcElement>>, deltas: &Vec<u8>, spread: u8, n: usize) -> (r:
    usize)
    requires
        n <= deltas@.len(),
        1 <= n <= 32,
        word_lens@.len() == 4,
        forall|i: int|
            0 <= i < 4 ==> (#[trigger] word_lens@[i])@.len() == 8 && crate::at3p::tables::lens_wf(
                word_lens@[i]@,
            ),
        forall|i: int| 1 <= i < deltas@.len() ==> #[trigger] deltas@[i] < 8,
    ensures
        r == wl_table(word_lens@, deltas@, spread, n as nat),
        r < 4,
{
    if spread >= 3 {
        let two: usize = cost_of(&word_lens[2], deltas, n);
        let three: usize = cost_of(&word_lens[3], deltas, n);
        if three < two {
            3
        } else {
            2
        }
    } else if spread == 2 {
        1
    } else {
        0
    }
}

fn push_wl_words(d: &mut Dumper, tab: &Vec<VlcElement>, deltas: &Vec<u8>, from: usize)
    requires
        from <= deltas@.len(),
        tab@.len() == 8,
        forall|i: int| from <= i < deltas@.len() ==> #[trigger] deltas@[i] < 8,
    ensures
        final(d)@ == old(d)@ + wl_words(tab@, deltas@, from as int, deltas@.len() as int),
{
    let ghost start = d@;
    let mut i: usize = from;
    assert(start + wl_words(tab@, deltas@, from as int, from as int) =~= start);
    while i < deltas.len()
        invariant
            from <= i <= deltas@.len(),
            tab@.len() == 8,
            forall|i: int| from <= i < deltas@.len() ==> #[trigger] deltas@[i] < 8,
            d@ == start + wl_words(tab@, deltas@, from as int, i as int),
        decreases deltas@.len() - i,
    {
        let el: VlcElement = tab[deltas[i] as usize];
        d.insert(
            #[verifier::truncate]
            (el.code as u16),
            #[verifier::truncate]
            (el.len as u8),
        );
        assert(d@ =~= start + wl_words(tab@, deltas@, from as int, i + 1));
        i += 1;
    }
}

fn encode_word_len(d: &mut Dumper, frame: &SpecFrame)
    requires
        word_len_ready(frame.model()),
    ensures
        final(d)@ == old(d)@ + word_len_fields(frame.model()),
{
    let ghost f = frame.model();
    let ghost start = d@;
    let n: usize = frame.num_quant_units as usize;
    let ghost wl = f.word_len;
    let mut deltas: Vec<u8> = Vec::new();
    let mut inter: Vec<u8> = Vec::new();
    let first: (u8, u8) = frame.word_len[0];
    assert(f.word_len[0].0 <= 127 && f.word_len[0].1 <= 127);
    deltas.push(first.0);
    inter.push(code_of(first.1 as i16 - first.0 as i16));
    let mut spread: u8 = 0;
    let mut inter_spread: u8 = distance(first.1, first.0);
    let mut i: usize = 1;
    assert(deltas@ =~= wl_deltas(wl, 1));
    assert(inter@ =~= wl_inter_deltas(wl, 1));
    while i < n
        invariant
            1 <= i <= n,
            n == f.num_quant_units,
            frame.model() == f,
            wl == f.word_len,
            word_len_ready(f),
            deltas@ == wl_deltas(wl, i as nat),
            inter@ == wl_inter_deltas(wl, i as nat),
            forall|j: int| 1 <= j < i ==> #[trigger] deltas@[j] < 8,
            forall|j: int| 0 <= j < i ==> #[trigger] inter@[j] < 8,
            spread == wl_spread(wl, i as nat),
            inter_spread == wl_inter_spread(wl, i as nat),
        decreases n - i,
    {
        let cur: (u8, u8) = frame.word_len[i];
        let prev: (u8, u8) = frame.word_len[i - 1];
        assert(f.word_len[i as int].0 <= 127 && f.word_len[i as int].1 <= 127);
        assert(f.word_len[i - 1].0 <= 127 && f.word_len[i - 1].1 <= 127);
        deltas.push(code_of(cur.0 as i16 - prev.0 as i16));
        inter.push(code_of(cur.1 as i16 - cur.0 as i16));
        spread = spread | distance(cur.0, prev.0);
        inter_spread = inter_spread | distance(cur.1, cur.0);
        assert(deltas@ =~= wl_deltas(wl, (i + 1) as nat));
        assert(inter@ =~= wl_inter_deltas(wl, (i + 1) as nat));
        i += 1;
    }
    let idx: usize = choose_wl_table(&frame.huff.word_lens, &deltas, spread, n);
    d.insert(3, 2);
    d.insert(0, 2);
    d.insert(0, 2);
    d.insert(idx as u16, 2);
    d.insert(deltas[0] as u16, 3);
    push_wl_words(d, &frame.huff.word_lens[idx], &deltas, 1);
    if frame.channels == 2 {
        let idx2: usize = choose_wl_table(&frame.huff.word_lens, &inter, inter_spread, n);
        d.insert(1, 2);
        d.insert(0, 2);
        d.insert(idx2 as u16, 2);
        push_wl_words(d, &frame.huff.word_lens[idx2], &inter, 0);
    }
    assert(d@ =~= start + word_len_fields(f));
}

/// The scale factors of one channel.
pub open spec fn sf_channel_fields(f: FrameModel, ch: int, n: nat) -> Seq<BitField> {
    seq![(0u16, 2u8)] + Seq::new(
        n,
        |i: int|
            (
                if ch == 0 {
                    f.sf_idx[i].0 as u16
                } else {
                    f.sf_idx[i].1 as u16
                },
                6u8,
            ),
    )
}

/// The scale factors of the first channels.
pub open spec fn sf_fields(f: FrameModel, channels: nat) -> Seq<BitField>
    decreases channels,
{
    if channels == 0 {
        Seq::empty()
    } else {
        sf_fields(f, (channels - 1) as nat) + sf_channel_fields(
            f,
            channels - 1,
            f.num_quant_units as nat,
        )
    }
}

/// The scale factors, where there are any.
pub open spec fn sf_idx_fields(f: FrameModel) -> Seq<BitField> {
    if f.sf_idx.len() == 0 {
        Seq::empty()
    } else {
        sf_fields(f, f.channels as nat)
    }
}

pub open spec fn sf_idx_ready(f: FrameModel) -> bool {
    f.sf_idx.len() == 0 || f.sf_idx.len() >= f.num_quant_units
}

fn encode_sf_idx(d: &mut Dumper, frame: &SpecFrame)
    requires
        sf_idx_ready(frame.model()),
    ensures
        final(d)@ == old(d)@ + sf_idx_fields(frame.model()),
{
    let ghost f = frame.model();
    let ghost start = d@;
    if frame.sf_idx.len() == 0 {
        assert(d@ =~= start + sf_idx_fields(f));
        return ;
    }
    let n: usize = frame.num_quant_units as usize;
    let mut ch: usize = 0;
    assert(start + sf_fields(f, 0) =~= start);
    while ch < frame.channels
        invariant
            ch <= f.channels,
            n == f.num_quant_units,
            frame.model() == f,
            f.sf_idx.len() >= n,
            d@ == start + sf_fields(f, ch as nat),
        decreases f.channels - ch,
    {
        let ghost head = d@;
        d.insert(0, 2);
        let mut i: usize = 0;
        assert(d@ =~= head + sf_channel_fields(f, ch as int, 0));
        while i < n
            invariant
                i <= n,
                n == f.num_quant_units,
                frame.model() == f,
                f.sf_idx.len() >= n,
                d@ == head + sf_channel_fields(f, ch as int, i as nat),
            decreases n - i,
        {
            let v: u8 = if ch == 0 {
                frame.sf_idx[i].0
            } else {
                frame.sf_idx[i].1
            };
            d.insert(v as u16, 6);
            assert(d@ =~= head + sf_channel_fields(f, ch as int, (i + 1) as nat));
            i += 1;
        }
        assert(d@ =~= start + sf_fields(f, (ch + 1) as nat));
        ch += 1;
    }
}

/// What is coded of the scale factors does not depend on the table choices.
pub proof fn lemma_sf_same(f: FrameModel, g: FrameModel, channels: nat)
    requires
        g == (FrameModel { spec_tab_idx: g.spec_tab_idx, ..f }),
    ensures
        sf_fields(f, channels) == sf_fields(g, channels),
    decreases channels,
{
    if channels > 0 {
        lemma_sf_same(f, g, (channels - 1) as nat);
        assert(sf_channel_fields(f, channels - 1, f.num_quant_units as nat) =~= sf_channel_fields(
            g,
            channels - 1,
            g.num_quant_units as nat,
        ));
    }
}

/// The word length of unit `qu` in channel `ch`.
pub open spec fn unit_word_len(f: FrameModel, ch: int, qu: int) -> int {
    if ch == 0 {
        f.word_len[qu].0 as int
    } else {
        f.word_len[qu].1 as int
    }
}

/// The lines of unit `qu` in channel `ch`.
pub open spec fn unit_lines(f: FrameModel, ch: int, qu: int) -> Seq<i32> {
    f.sces[ch].scaled_blocks@[qu].mantissas@
}

/// The code table that unit `qu` of channel `ch` takes among its choices.
pub open spec fn unit_choice(f: FrameModel, ch: int, qu: int) -> int {
    spectra::best_choice(
        unit_lines(f, ch, qu),
        unit_word_len(f, ch, qu),
        f.books.spectra_tabs@,
        f.huff.vlc_specs@,
        8,
    )
}

/// The spectrum of unit `qu` in channel `ch`.
pub open spec fn qu_fields(f: FrameModel, ch: int, qu: int) -> Seq<BitField> {
    let i = spectra::table_index(unit_word_len(f, ch, qu), unit_choice(f, ch, qu));
    spectra::unit_fields(unit_lines(f, ch, qu), f.books.spectra_tabs@[i], f.huff.vlc_specs@[i]@)
}

/// The spectrum of the first `n` units of a channel.
pub open spec fn qus_fields(f: FrameModel, ch: int, n: nat) -> Seq<BitField>
    decreases n,
{
    if n == 0 {
        Seq::empty()
    } else {
        qus_fields(f, ch, (n - 1) as nat) + qu_fields(f, ch, n - 1)
    }
}

/// The number of power compensation groups.
pub open spec fn num_powgrps(f: FrameModel) -> nat {
    f.books.subband_to_num_powgrps@[f.books.qu_to_subband@[f.num_quant_units - 1] as int] as nat
}

/// Power compensation groups that are left at their neutral value.
pub open spec fn powgrp_fields(n: nat) -> Seq<BitField> {
    Seq::new(n, |i: int| (15u16, 4u8))
}

/// The spectra of the first channels.
pub open spec fn spectra_fields(f: FrameModel, channels: nat) -> Seq<BitField>
    decreases channels,
{
    if channels == 0 {
        Seq::empty()
    } else {
        spectra_fields(f, (channels - 1) as nat) + qus_fields(
            f,
            channels - 1,
            f.num_quant_units as nat,
        ) + powgrp_fields(num_powgrps(f))
    }
}

/// The choices of code tables.
pub open spec fn chosen_tabs(f: FrameModel) -> Seq<(u8, u8)> {
    Seq::new(
        f.spec_tab_idx.len(),
        |i: int|
            if i < f.num_quant_units {
                (
                    unit_choice(f, 0, i) as u8,
                    if f.channels > 1 {
                        unit_choice(f, 1, i) as u8
                    } else {
                        f.spec_tab_idx[i].1
                    },
                )
            } else {
                f.spec_tab_idx[i]
            },
    )
}

/// The choices of code tables and the spectra.
pub open spec fn quant_fields(f: FrameModel) -> Seq<BitField> {
    spectra::code_tab_fields(f.channels as nat, chosen_tabs(f), f.num_quant_units as nat)
        + spectra_fields(f, f.channels as nat)
}

pub open spec fn quant_done(f: FrameModel) -> FrameModel {
    FrameModel { spec_tab_idx: chosen_tabs(f), ..f }
}

/// A unit of a channel is there with all its lines and can be coded.
pub open spec fn unit_ready(f: FrameModel, ch: int, qu: int) -> bool {
    &&& qu < f.sces[ch].scaled_blocks@.len()
    &&& unit_lines(f, ch, qu).len() == crate::at3p::tables::SPECS_PER_BLOCK@[qu]
    &&& spectra::unit_wf(
        unit_lines(f, ch, qu),
        unit_word_len(f, ch, qu),
        f.books.spectra_tabs@,
        f.huff.vlc_specs@,
    )
}

pub open spec fn quant_ready(f: FrameModel) -> bool {
    let n = f.num_quant_units;
    &&& 1 <= n <= 32
    &&& 1 <= f.channels <= 2
    &&& f.sces.len() >= f.channels
    &&& f.word_len.len() >= n
    &&& f.spec_tab_idx.len() >= n
    &&& f.books.qu_to_subband@[n - 1] < 16
    &&& forall|ch: int, qu: int|
        0 <= ch < f.channels && 0 <= qu < n ==> #[trigger] unit_ready(f, ch, qu)
}

fn encode_quant_units(d: &mut Dumper, frame: &mut SpecFrame)
    requires
        quant_ready(old(frame).model()),
    ensures
        final(d)@ == old(d)@ + quant_fields(old(frame).model()),
        final(frame).model() == quant_done(old(frame).model()),
{
    let ghost f = frame.model();
    let ghost start = d@;
    let n: usize = frame.num_quant_units as usize;
    let channels: usize = frame.channels;
    let mut data = Dumper::new();
    let mut ch: usize = 0;
    assert(data@ =~= spectra_fields(f, 0));
    while ch < channels
        invariant
            ch <= channels,
            channels == f.channels,
            n == f.num_quant_units,
            quant_ready(f),
            frame.spec_tab_idx@.len() == f.spec_tab_idx.len(),
            frame.model() == (FrameModel { spec_tab_idx: frame.spec_tab_idx@, ..f }),
            forall|i: int|
                0 <= i < f.spec_tab_idx.len() ==> (#[trigger] frame.spec_tab_idx@[i]).0 == (if i < n
                    && ch > 0 {
                    unit_choice(f, 0, i) as u8
                } else {
                    f.spec_tab_idx[i].0
                }) && frame.spec_tab_idx@[i].1 == (if i < n && ch > 1 {
                    unit_choice(f, 1, i) as u8
                } else {
                    f.spec_tab_idx[i].1
                }),
            data@ == spectra_fields(f, ch as nat),
        decreases channels - ch,
    {
        let ghost head = data@;
        let ghost idx_before = frame.spec_tab_idx@;
        let mut qu: usize = 0;
        assert(head + qus_fields(f, ch as int, 0) =~= head);
        while qu < n
            invariant
                qu <= n,
                ch < channels,
                channels == f.channels,
                n == f.num_quant_units,
                quant_ready(f),
                frame.spec_tab_idx@.len() == f.spec_tab_idx.len(),
                idx_before.len() == f.spec_tab_idx.len(),
                frame.model() == (FrameModel { spec_tab_idx: frame.spec_tab_idx@, ..f }),
                forall|i: int|
                    0 <= i < f.spec_tab_idx.len() ==> #[trigger] frame.spec_tab_idx@[i] == (if i
                        < qu {
                        if ch == 0 {
                            (unit_choice(f, 0, i) as u8, idx_before[i].1)
                        } else {
                            (idx_before[i].0, unit_choice(f, 1, i) as u8)
                        }
                    } else {
                        idx_before[i]
                    }),
                data@ == head + qus_fields(f, ch as int, qu as nat),
            decreases n - qu,
        {
            let wl: u8 = if ch == 0 {
                frame.word_len[qu].0
            } else {
                frame.word_len[qu].1
            };
            assert(unit_ready(f, ch as int, qu as int));
            let ghost q = unit_lines(f, ch as int, qu as int);
            assert(spectra::unit_wf(
                q,
                unit_word_len(f, ch as int, qu as int),
                f.books.spectra_tabs@,
                f.huff.vlc_specs@,
            ));
            let m: &[i32] = frame.sces[ch].scaled_blocks[qu].mantissas.as_slice();
            assert(m@ == q);
            let (tab_idx, res): (usize, Vec<BitField>) = encode_unit(
                m,
                wl as usize,
                &frame.books.spectra_tabs,
                &frame.huff.vlc_specs,
            );
            let old_pair: (u8, u8) = frame.spec_tab_idx[qu];
            if ch == 0 {
                frame.spec_tab_idx[qu] = (tab_idx as u8, old_pair.1);
            } else {
                frame.spec_tab_idx[qu] = (old_pair.0, tab_idx as u8);
            }
            data.insert_all(&res);
            assert(data@ =~= head + qus_fields(f, ch as int, (qu + 1) as nat));
            qu += 1;
        }
        let num_pwr_spec: u8 = frame.books.subband_to_num_powgrps[frame.books.qu_to_subband[n
            - 1] as usize];
        let ghost units = data@;
        let mut k: u8 = 0;
        assert(units + powgrp_fields(0) =~= units);
        while k < num_pwr_spec
            invariant
                k <= num_pwr_spec,
                data@ == units + powgrp_fields(k as nat),
            decreases num_pwr_spec - k,
        {
            data.insert(15, 4);
            assert(data@ =~= units + powgrp_fields((k + 1) as nat));
            k += 1;
        }
        assert(data@ =~= spectra_fields(f, (ch + 1) as nat));
        ch += 1;
    }
    assert(frame.spec_tab_idx@ =~= chosen_tabs(f));
    let tab_idx_data: Vec<BitField> = encode_code_tab(channels, n, &frame.spec_tab_idx);
    d.insert_all(&tab_idx_data);
    d.insert_all(&data.buf);
    assert(d@ =~= start + quant_fields(f));
}

/// The window shapes of the first `n` subbands.
pub open spec fn window_list(win: At3pMdctWin, n: nat) -> Seq<BitField> {
    Seq::new(
        n,
        |i: int|
            if win.steep(i) {
                (1u16, 1u8)
            } else {
                (0u16, 1u8)
            },
    )
}

/// The window shapes of a channel: all sine, all steep, or one by one.
pub open spec fn window_fields(win: At3pMdctWin, n: nat) -> Seq<BitField> {
    if win.all_sine() {
        seq![(0u16, 1u8)]
    } else if forall|sb: int| 0 <= sb < n ==> #[trigger] win.steep(sb) {
        seq![(1u16, 1u8), (0u16, 1u8)]
    } else {
        seq![(1u16, 1u8), (1u16, 1u8)] + window_list(win, n)
    }
}

/// The number of subbands that the units of a frame reach.
pub open spec fn num_subbands(f: FrameModel) -> nat {
    (f.books.qu_to_subband@[f.num_quant_units - 1] + 1) as nat
}

/// The window shapes of the first channels.
pub open spec fn windows_fields(f: FrameModel, channels: nat) -> Seq<BitField>
    decreases channels,
{
    if channels == 0 {
        Seq::empty()
    } else {
        windows_fields(f, (channels - 1) as nat) + window_fields(
            f.sces[channels - 1].subband_info.win,
            num_subbands(f),
        )
    }
}

/// One unset gain compensation flag for each channel.
pub open spec fn gain_fields(channels: nat) -> Seq<BitField> {
    Seq::new(channels, |i: int| (0u16, 1u8))
}

/// A frame has tonal components.
pub open spec fn has_tones(f: FrameModel) -> bool {
    f.tonal_block matches Some(t) && t.num_tone_bands != 0
}

/// A flag, and the tonal block where the frame has one.
pub open spec fn tones_fields(f: FrameModel) -> Seq<BitField> {
    if has_tones(f) {
        seq![(1u16, 1u8)] + tonal::tonal_block_fields(
            f.tonal_block->0,
            f.huff.num_tone_bands@,
            f.channels as int,
        )
    } else {
        seq![(0u16, 1u8)]
    }
}

/// Everything that follows the spectra: window shapes, gain compensation, tonal
/// components, no noise, and the terminator.
pub open spec fn tail_fields(f: FrameModel) -> Seq<BitField> {
    (if f.channels == 2 {
        seq![(0u16, 2u8)]
    } else {
        Seq::empty()
    }) + windows_fields(f, f.channels as nat) + gain_fields(f.channels as nat) + tones_fields(f)
        + seq![(0u16, 1u8), (3u16, 2u8)]
}

pub open spec fn tail_ready(f: FrameModel) -> bool {
    &&& 1 <= f.num_quant_units <= 32
    &&& 1 <= f.channels <= 2
    &&& f.sces.len() >= f.channels
    &&& num_subbands(f) <= 16
    &&& f.huff.num_tone_bands@.len() == 16
    &&& crate::at3p::tables::lens_wf(f.huff.num_tone_bands@)
    &&& has_tones(f) ==> tonal::gha_wf(f.tonal_block->0, f.channels as int)
}

fn write_windows(d: &mut Dumper, win: At3pMdctWin, sb_num: u8)
    requires
        sb_num <= 16,
    ensures
        final(d)@ == old(d)@ + window_fields(win, sb_num as nat),
{
    let ghost start = d@;
    if win.is_all_sine() {
        d.insert(0, 1);
    } else if win.is_all_steep(sb_num) {
        d.insert(1, 1);
        d.insert(0, 1);
    } else {
        d.insert(1, 1);
        d.insert(1, 1);
        let ghost head = d@;
        let mut i: u8 = 0;
        assert(head + window_list(win, 0) =~= head);
        while i < sb_num
            invariant
                i <= sb_num <= 16,
                d@ == head + window_list(win, i as nat),
            decreases sb_num - i,
        {
            d.insert(if win.is_sb_steep(i) {
                1
            } else {
                0
            }, 1);
            assert(d@ =~= head + window_list(win, (i + 1) as nat));
            i += 1;
        }
    }
    assert(d@ =~= start + window_fields(win, sb_num as nat));
}

fn write_tones(d: &mut Dumper, frame: &SpecFrame)
    requires
        tail_ready(frame.model()),
    ensures
        final(d)@ == old(d)@ + tones_fields(frame.model()),
{
    let ghost start = d@;
    let ch_num: usize = frame.channels;
    match frame.tonal_block {
        Some(tb) => {
            if tb.num_tone_bands != 0 {
                d.insert(1, 1);
                write_tonal_block(d, ch_num, tb, &frame.huff.num_tone_bands);
            } else {
                d.insert(0, 1);
            }
        },
        None => {
            d.insert(0, 1);
        },
    }
    assert(d@ =~= start + tones_fields(frame.model()));
}

fn encode_tail(d: &mut Dumper, frame: &SpecFrame)
    requires
        tail_ready(frame.model()),
    ensures
        final(d)@ == old(d)@ + tail_fields(frame.model()),
{
    let ghost f = frame.model();
    let ghost start = d@;
    let ch_num: usize = frame.channels;
    if ch_num == 2 {
        d.insert(0, 2);
    }
    let ghost stereo = if f.channels == 2 {
        seq![(0u16, 2u8)]
    } else {
        Seq::empty()
    };
    assert(d@ =~= start + stereo);
    let sb_num: u8 = frame.books.qu_to_subband[frame.num_quant_units as usize - 1] + 1;
    let ghost head = d@;
    let mut ch: usize = 0;
    assert(head + windows_fields(f, 0) =~= head);
    while ch < ch_num
        invariant
            ch <= ch_num,
            ch_num == f.channels,
            frame.model() == f,
            tail_ready(f),
            sb_num == num_subbands(f),
            d@ == head + windows_fields(f, ch as nat),
        decreases ch_num - ch,
    {
        write_windows(d, frame.sces[ch].subband_info.win, sb_num);
        assert(d@ =~= head + windows_fields(f, (ch + 1) as nat));
        ch += 1;
    }
    let ghost mid = d@;
    let ghost windows = stereo + windows_fields(f, f.channels as nat);
    assert(mid =~= start + windows);
    let mut ch: usize = 0;
    assert(mid + gain_fields(0) =~= mid);
    while ch < ch_num
        invariant
            ch <= ch_num,
            d@ == mid + gain_fields(ch as nat),
        decreases ch_num - ch,
    {
        d.insert(0, 1);
        assert(d@ =~= mid + gain_fields((ch + 1) as nat));
        ch += 1;
    }
    let ghost gains = windows + gain_fields(f.channels as nat);
    assert(d@ =~= start + gains);
    write_tones(d, frame);
    let ghost tones = tones_fields(f);
    assert(d@ =~= start + (gains + tones));
    d.insert(0, 1);
    d.insert(3, 2);
    assert(d@ =~= start + (gains + tones + seq![(0u16, 1u8), (3u16, 2u8)]));
}
/// A part of a frame with the fields that it has gathered. The tail also keeps the
/// number of its bits once they are known.
pub enum At3pPart {
    Configure(Dumper),
    WordLen(Dumper),
    SfIdx(Dumper),
    QuantUnits(Dumper),
    Tail(Dumper, usize),
}

/// What contracts know of a part.
pub enum PartModel {
    Configure(Seq<BitField>),
    WordLen(Seq<BitField>),
    SfIdx(Seq<BitField>),
    QuantUnits(Seq<BitField>),
    Tail(Seq<BitField>, nat),
}

impl PartModel {
    /// The fields gathered so far.
    pub open spec fn gathered(self) -> Seq<BitField> {
        match self {
            PartModel::Configure(d) => d,
            PartModel::WordLen(d) => d,
            PartModel::SfIdx(d) => d,
            PartModel::QuantUnits(d) => d,
            PartModel::Tail(d, _) => d,
        }
    }

    /// The part without its fields.
    pub open spec fn cleared(self) -> PartModel {
        match self {
            PartModel::Configure(_) => PartModel::Configure(Seq::empty()),
            PartModel::WordLen(_) => PartModel::WordLen(Seq::empty()),
            PartModel::SfIdx(_) => PartModel::SfIdx(Seq::empty()),
            PartModel::QuantUnits(_) => PartModel::QuantUnits(Seq::empty()),
            PartModel::Tail(_, n) => PartModel::Tail(Seq::empty(), n),
        }
    }
}

/// The next smaller number of units to try.
pub open spec fn fewer_units(n: u32) -> u32 {
    if n == 32 {
        28
    } else {
        (n - 1) as u32
    }
}

/// The tail fits behind the parts before it, or the frame is tried again with
/// fewer units.
pub open spec fn checked_step(
    d: Seq<BitField>,
    used: nat,
    f: FrameModel,
    ba: BitAllocHandler<i32>,
) -> PartStep<PartModel, FrameModel, i32> {
    if used + ba.previous_consumption > f.size_bits {
        PartStep {
            part: PartModel::Tail(d, used),
            frame: FrameModel { num_quant_units: fewer_units(f.num_quant_units), ..f },
            ba,
            status: Ok(EncodeStatus::Repeat),
        }
    } else {
        PartStep { part: PartModel::Tail(d, used), frame: f, ba, status: Ok(EncodeStatus::Done) }
    }
}

/// What encoding does to a part and to the frame.
pub open spec fn part_step(
    part: PartModel,
    f: FrameModel,
    ba: BitAllocHandler<i32>,
) -> PartStep<PartModel, FrameModel, i32> {
    match part {
        PartModel::Configure(d) => PartStep {
            part: PartModel::Configure(d + configure_fields(f)),
            frame: configured(f),
            ba,
            status: Ok(EncodeStatus::Done),
        },
        PartModel::WordLen(d) => PartStep {
            part: PartModel::WordLen(d + word_len_fields(f)),
            frame: f,
            ba,
            status: Ok(EncodeStatus::Done),
        },
        PartModel::SfIdx(d) => PartStep {
            part: PartModel::SfIdx(d + sf_idx_fields(f)),
            frame: f,
            ba,
            status: Ok(EncodeStatus::Done),
        },
        PartModel::QuantUnits(d) => PartStep {
            part: PartModel::QuantUnits(d + quant_fields(f)),
            frame: quant_done(f),
            ba,
            status: Ok(EncodeStatus::Done),
        },
        PartModel::Tail(d, used) => if used != 0 {
            match f.tonal_block {
                Some(t) => if t.num_tone_bands > f.num_quant_units {
                    PartStep {
                        part,
                        frame: f,
                        ba,
                        status: Err(
                            BitStreamEncodeError::TonalBandsExceedQuantUnits {
                                tone_bands: t.num_tone_bands,
                                quant_units: f.num_quant_units,
                            },
                        ),
                    }
                } else {
                    checked_step(d, used, f, ba)
                },
                None => checked_step(d, used, f, ba),
            }
        } else {
            checked_step(
                d + tail_fields(f),
                fields::fields_bits(d + tail_fields(f)).len(),
                f,
                ba,
            )
        },
    }
}

/// A part can be encoded.
pub open spec fn part_ready(part: PartModel, f: FrameModel, ba: BitAllocHandler<i32>) -> bool {
    &&& !ba.need_repeat
    &&& match part {
        PartModel::Configure(d) => configure_ready(f),
        PartModel::WordLen(d) => word_len_ready(f),
        PartModel::SfIdx(d) => sf_idx_ready(f),
        PartModel::QuantUnits(d) => quant_ready(f),
        PartModel::Tail(d, used) => {
            &&& f.num_quant_units >= 1
            &&& if used != 0 {
                used + ba.previous_consumption <= u32::MAX
            } else {
                tail_ready(f) && fields::fields_bits(d + tail_fields(f)).len()
                    + ba.previous_consumption <= u32::MAX
            }
        },
    }
}

/// Every code word of at most 12 bits is a field of at most 23.
proof fn lemma_word_field(tab: Seq<VlcElement>, i: int)
    requires
        crate::at3p::tables::lens_wf(tab),
        0 <= i < tab.len(),
    ensures
        tonal::word_field(tab[i]).1 <= 12,
{
    assert(0 <= tab[i].len <= 12);
}

proof fn lemma_wl_words_wf(tab: Seq<VlcElement>, deltas: Seq<u8>, from: int, n: int)
    requires
        crate::at3p::tables::lens_wf(tab),
        tab.len() == 8,
        0 <= from <= n <= deltas.len(),
        forall|i: int| from <= i < n ==> #[trigger] deltas[i] < 8,
    ensures
        fields::fields_wf(wl_words(tab, deltas, from, n)),
{
    assert forall|i: int| 0 <= i < n - from implies (#[trigger] wl_words(
        tab,
        deltas,
        from,
        n,
    )[i]).1 <= 23 by {
        assert(deltas[from + i] < 8);
        lemma_word_field(tab, deltas[from + i] as int);
    }
}

pub proof fn lemma_word_len_fields_wf(f: FrameModel)
    requires
        word_len_ready(f),
    ensures
        fields::fields_wf(word_len_fields(f)),
        word_len_fields(f).len() <= 72,
{
    let n = f.num_quant_units as nat;
    let wl = f.word_len;
    let d = wl_deltas(wl, n);
    let idx = wl_table(f.huff.word_lens@, d, wl_spread(wl, n), n);
    assert(f.huff.word_lens@[idx]@.len() == 8);
    lemma_wl_words_wf(f.huff.word_lens@[idx]@, d, 1, n as int);
    let e = wl_inter_deltas(wl, n);
    let idx2 = wl_table(f.huff.word_lens@, e, wl_inter_spread(wl, n), n);
    assert(f.huff.word_lens@[idx2]@.len() == 8);
    lemma_wl_words_wf(f.huff.word_lens@[idx2]@, e, 0, n as int);
}

proof fn lemma_sf_fields_wf(f: FrameModel, channels: nat)
    ensures
        fields::fields_wf(sf_fields(f, channels)),
        sf_fields(f, channels).len() == channels * (1 + f.num_quant_units),
    decreases channels,
{
    if channels > 0 {
        lemma_sf_fields_wf(f, (channels - 1) as nat);
        let n = f.num_quant_units;
        assert((channels - 1) * (1 + n) + (1 + n) == channels * (1 + n)) by (nonlinear_arith);
    } else {
        assert(0 * (1 + f.num_quant_units) == 0);
    }
}

proof fn lemma_code_tab_wf(channels: nat, idx: Seq<(u8, u8)>, n: nat)
    ensures
        fields::fields_wf(spectra::code_tab_fields(channels, idx, n)),
        spectra::code_tab_fields(channels, idx, n).len() == 1 + channels * (3 + n),
    decreases channels,
{
    if channels > 0 {
        lemma_code_tab_wf((channels - 1) as nat, idx, n);
        assert((channels - 1) * (3 + n) + (3 + n) == channels * (3 + n)) by (nonlinear_arith);
    } else {
        assert(0 * (3 + n) == 0);
    }
}

proof fn lemma_qus_wf(f: FrameModel, ch: int, n: nat)
    requires
        quant_ready(f),
        0 <= ch < f.channels,
        n <= f.num_quant_units,
    ensures
        fields::fields_wf(qus_fields(f, ch, n)),
        qus_fields(f, ch, n).len() <= 768 * n,
    decreases n,
{
    if n > 0 {
        lemma_qus_wf(f, ch, (n - 1) as nat);
        let q = unit_lines(f, ch, n - 1);
        let wl = unit_word_len(f, ch, n - 1);
        assert(unit_ready(f, ch, n - 1));
        assert(spectra::unit_wf(q, wl, f.books.spectra_tabs@, f.huff.vlc_specs@));
        spectra::lemma_best_choice(q, wl, f.books.spectra_tabs@, f.huff.vlc_specs@, 8);
        spectra::lemma_unit_cost(
            q,
            wl,
            f.books.spectra_tabs@,
            f.huff.vlc_specs@,
            unit_choice(f, ch, n - 1),
        );
        fields::lemma_fields_wf_concat(qus_fields(f, ch, (n - 1) as nat), qu_fields(f, ch, n - 1));
    }
}

proof fn lemma_spectra_wf(f: FrameModel, channels: nat)
    requires
        quant_ready(f),
        channels <= f.channels,
    ensures
        fields::fields_wf(spectra_fields(f, channels)),
        spectra_fields(f, channels).len() <= channels * 24831,
    decreases channels,
{
    if channels > 0 {
        lemma_spectra_wf(f, (channels - 1) as nat);
        lemma_qus_wf(f, channels - 1, f.num_quant_units as nat);
    }
}

pub proof fn lemma_quant_fields_wf(f: FrameModel)
    requires
        quant_ready(f),
    ensures
        fields::fields_wf(quant_fields(f)),
        quant_fields(f).len() <= 50000,
{
    lemma_code_tab_wf(f.channels as nat, chosen_tabs(f), f.num_quant_units as nat);
    lemma_spectra_wf(f, f.channels as nat);
    let c = f.channels as int;
    let n = f.num_quant_units as int;
    assert(c * (3 + n) <= 70) by (nonlinear_arith)
        requires
            1 <= c <= 2,
            1 <= n <= 32,
    ;
}

pub proof fn lemma_part_valid(part: PartModel, f: FrameModel, ba: BitAllocHandler<i32>)
    requires
        fields::fields_wf(part.gathered()),
        part_ready(part, f, ba),
    ensures
        fields::fields_wf(part_step(part, f, ba).part.gathered()),
{
    match part {
        PartModel::Configure(d) => {
            fields::lemma_fields_wf_concat(d, configure_fields(f));
        },
        PartModel::WordLen(d) => {
            lemma_word_len_fields_wf(f);
            fields::lemma_fields_wf_concat(d, word_len_fields(f));
        },
        PartModel::SfIdx(d) => {
            lemma_sf_fields_wf(f, f.channels as nat);
            fields::lemma_fields_wf_concat(d, sf_idx_fields(f));
        },
        PartModel::QuantUnits(d) => {
            lemma_quant_fields_wf(f);
            fields::lemma_fields_wf_concat(d, quant_fields(f));
        },
        PartModel::Tail(d, used) => {
            if used == 0 {
                lemma_tail_fields_wf(f);
                fields::lemma_fields_wf_concat(d, tail_fields(f));
            }
        },
    }
}

proof fn lemma_windows_wf(f: FrameModel, channels: nat)
    ensures
        fields::fields_wf(windows_fields(f, channels)),
    decreases channels,
{
    if channels > 0 {
        lemma_windows_wf(f, (channels - 1) as nat);
    }
}

/// The fields of the tail can be written, and there are some.
pub proof fn lemma_tail_fields_wf(f: FrameModel)
    requires
        tail_ready(f),
    ensures
        fields::fields_wf(tail_fields(f)),
        fields::fields_bits(tail_fields(f)).len() >= 3,
{
    lemma_windows_wf(f, f.channels as nat);
    if has_tones(f) {
        tonal::lemma_tonal_block_wf(
            f.tonal_block->0,
            f.huff.num_tone_bands@,
            f.channels as int,
        );
    }
    let all = tail_fields(f);
    let head = all.take(all.len() - 2);
    assert(all =~= head.push((0u16, 1u8)).push((3u16, 2u8)));
    fields::lemma_fields_bits_push(head, (0u16, 1u8));
    fields::lemma_fields_bits_push(head.push((0u16, 1u8)), (3u16, 2u8));
}

/// Whether the tail fits; else the number of units shrinks.
fn check_frame_done(bits_used: usize, frame: &mut SpecFrame, ba: &BitAllocHandler<i32>) -> (r:
    EncodeStatus)
    requires
        old(frame).num_quant_units >= 1,
        bits_used + ba.previous_consumption <= u32::MAX,
    ensures
        r == (if bits_used + ba.previous_consumption > old(frame).size_bits {
            EncodeStatus::Repeat
        } else {
            EncodeStatus::Done
        }),
        final(frame).model() == (if r == EncodeStatus::Repeat {
            FrameModel {
                num_quant_units: fewer_units(old(frame).num_quant_units),
                ..old(frame).model()
            }
        } else {
            old(frame).model()
        }),
{
    let total: u32 = bits_used as u32 + ba.cur_global_consumption();
    if total > frame.size_bits {
        if frame.num_quant_units == 32 {
            frame.num_quant_units = 28;
        } else {
            frame.num_quant_units = frame.num_quant_units - 1;
        }
        EncodeStatus::Repeat
    } else {
        EncodeStatus::Done
    }
}

impl<'a> BitStreamPartEncoder<SpecFrame<'a>, i32> for At3pPart {
    type Model = PartModel;

    type FrameModel = FrameModel;

    open spec fn model(&self) -> PartModel {
        match self {
            At3pPart::Configure(d) => PartModel::Configure(d@),
            At3pPart::WordLen(d) => PartModel::WordLen(d@),
            At3pPart::SfIdx(d) => PartModel::SfIdx(d@),
            At3pPart::QuantUnits(d) => PartModel::QuantUnits(d@),
            At3pPart::Tail(d, used) => PartModel::Tail(d@, *used as nat),
        }
    }

    open spec fn frame_model(frame: SpecFrame<'a>) -> FrameModel {
        frame.model()
    }

    open spec fn valid(part: PartModel) -> bool {
        fields::fields_wf(part.gathered())
    }

    open spec fn ready(part: PartModel, frame: FrameModel, ba: BitAllocHandler<i32>) -> bool {
        part_ready(part, frame, ba)
    }

    open spec fn encoded(part: PartModel, frame: FrameModel, ba: BitAllocHandler<i32>) -> PartStep<
        PartModel,
        FrameModel,
        i32,
    > {
        part_step(part, frame, ba)
    }

    open spec fn held_bits(part: PartModel) -> Seq<bool> {
        fields::fields_bits(part.gathered())
    }

    open spec fn after_dump(part: PartModel) -> PartModel {
        match part {
            PartModel::Tail(_, _) => PartModel::Tail(Seq::empty(), 0),
            _ => part.cleared(),
        }
    }

    open spec fn after_reset(part: PartModel) -> PartModel {
        part.cleared()
    }

    open spec fn rounds_left(frame: FrameModel, min_lambda: i32, max_lambda: i32) -> nat {
        frame.num_quant_units as nat
    }

    fn encode(&mut self, frame: &mut SpecFrame<'a>, ba: &mut BitAllocHandler<i32>) -> (r: Result<
        EncodeStatus,
        BitStreamEncodeError,
    >) {
        match self {
            At3pPart::Configure(d) => {
                encode_configure(d, frame);
                Ok(EncodeStatus::Done)
            },
            At3pPart::WordLen(d) => {
                encode_word_len(d, frame);
                Ok(EncodeStatus::Done)
            },
            At3pPart::SfIdx(d) => {
                encode_sf_idx(d, frame);
                Ok(EncodeStatus::Done)
            },
            At3pPart::QuantUnits(d) => {
                encode_quant_units(d, frame);
                Ok(EncodeStatus::Done)
            },
            At3pPart::Tail(d, bits_used) => {
                if *bits_used != 0 {
                    match frame.tonal_block {
                        Some(tb) => {
                            if tb.num_tone_bands as u32 > frame.num_quant_units {
                                return Err(
                                    BitStreamEncodeError::TonalBandsExceedQuantUnits {
                                        tone_bands: tb.num_tone_bands,
                                        quant_units: frame.num_quant_units,
                                    },
                                );
                            }
                        },
                        None => {},
                    }
                    let used: usize = *bits_used;
                    return Ok(check_frame_done(used, frame, ba));
                }
                encode_tail(d, frame);
                let used: usize = d.consumption() as usize;
                *bits_used = used;
                Ok(check_frame_done(used, frame, ba))
            },
        }
    }

    fn dump(&mut self, bs: &mut BitStream) {
        match self {
            At3pPart::Configure(d) => d.dump(bs),
            At3pPart::WordLen(d) => d.dump(bs),
            At3pPart::SfIdx(d) => d.dump(bs),
            At3pPart::QuantUnits(d) => d.dump(bs),
            At3pPart::Tail(d, bits_used) => {
                d.dump(bs);
                *bits_used = 0;
            },
        }
    }

    fn reset(&mut self) {
        match self {
            At3pPart::Configure(d) => d.reset(),
            At3pPart::WordLen(d) => d.reset(),
            At3pPart::SfIdx(d) => d.reset(),
            At3pPart::QuantUnits(d) => d.reset(),
            At3pPart::Tail(d, _) => d.reset(),
        }
    }

    fn consumption(&self) -> (n: u32) {
        match self {
            At3pPart::Configure(d) => d.consumption(),
            At3pPart::WordLen(d) => d.consumption(),
            At3pPart::SfIdx(d) => d.consumption(),
            At3pPart::QuantUnits(d) => d.consumption(),
            At3pPart::Tail(d, _) => d.consumption(),
        }
    }
}

/// What a frame with `n` units is set up with: every unit has the word length of its place,
/// the same in both channels, and the scale factors of its own block in each channel. Word
/// lengths go down from 7 to 1 over the last units and never up.
pub proof fn law_units_configured(f: FrameModel, i: int)
    requires
        f.num_quant_units <= 32,
        0 <= i < f.num_quant_units,
    ensures
        ({
            let g = configured(f);
            let w = g.word_len[i].0;
            &&& g.num_quant_units == f.num_quant_units
            &&& g.channels == f.channels
            &&& g.sces == f.sces
            &&& g.word_len.len() == f.num_quant_units
            &&& g.word_len[i].1 == w
            &&& i <= 16 ==> w == 7
            &&& 17 <= i <= 25 ==> w == 6
            &&& 26 <= i <= 27 ==> w == 5
            &&& i >= 28 ==> w == 32 - i
            &&& g.sf_idx.len() == f.num_quant_units
            &&& g.sf_idx[i].0 == f.sces[0].scaled_blocks@[i].scale_factor_index
            &&& f.channels > 1 ==> g.sf_idx[i].1 == f.sces[1].scaled_blocks@[i].scale_factor_index
        }),
{
}

/// The numbers of units that are tried in turn: 32, then from 28 on each lower one.
pub proof fn law_fewer_units(n: u32)
    requires
        n >= 1,
    ensures
        fewer_units(n) < n,
        n == 32 ==> fewer_units(n) == 28,
        n <= 28 ==> fewer_units(n) == n - 1,
{
}

} // verus!
