//! Coding of the tonal components of an ATRAC3plus frame.

use vstd::prelude::*;
use crate::at3p::fields;
use crate::at3p::fields::{BitField, Dumper};
use crate::at3p::freq_pack;
use crate::at3p::freq_pack::{create_freq_bit_pack, TonePackEntry, TonePackOrder, TonePackResult};
use crate::at3p::gha::{At3PGhaData, WaveParam};
use crate::at3p::tables;
use crate::at3p::tables::VlcElement;

verus! {

/// The field of a code word.
pub open spec fn word_field(e: VlcElement) -> BitField {
    (e.code as u16, e.len as u8)
}

/// How many of the flags are set.
pub open spec fn count_set(flags: Seq<bool>) -> nat
    decreases flags.len(),
{
    if flags.len() == 0 {
        0
    } else {
        count_set(flags.drop_last()) + (if flags.last() {
            1nat
        } else {
            0nat
        })
    }
}

/// One field for each of the first `n` flags.
pub open spec fn flag_list(flags: Seq<bool>, n: nat) -> Seq<BitField> {
    Seq::new(
        n,
        |i: int|
            if flags[i] {
                (1u16, 1u8)
            } else {
                (0u16, 1u8)
            },
    )
}

/// Flags of subbands: none set, all set, or one by one.
pub open spec fn flags_fields(flags: Seq<bool>) -> Seq<BitField> {
    if count_set(flags) == 0 {
        seq![(0u16, 1u8)]
    } else if count_set(flags) == flags.len() {
        seq![(1u16, 1u8), (0u16, 1u8)]
    } else {
        seq![(1u16, 1u8), (1u16, 1u8)] + flag_list(flags, flags.len())
    }
}

/// One end of an envelope.
pub open spec fn point_fields(point: u32) -> Seq<BitField> {
    if point != At3PGhaData::EMPTY_POINT {
        seq![(1u16, 1u8), (point as u16, 5u8)]
    } else {
        seq![(0u16, 1u8)]
    }
}

/// Band `i` of channel `ch` has waves of its own.
pub open spec fn own_band(t: At3PGhaData, ch: int, i: int) -> bool {
    !(ch != 0 && t.tone_sharing@[i])
}

/// The envelopes of the first `n` bands.
pub open spec fn envelope_fields(t: At3PGhaData, ch: int, n: nat) -> Seq<BitField>
    decreases n,
{
    if n == 0 {
        Seq::empty()
    } else {
        envelope_fields(t, ch, (n - 1) as nat) + (if own_band(t, ch, n - 1) {
            point_fields(t.sb_info(ch, n - 1).envelope.0) + point_fields(
                t.sb_info(ch, n - 1).envelope.1,
            )
        } else {
            Seq::empty()
        })
    }
}

/// The numbers of waves of the first `n` bands.
pub open spec fn wave_num_fields(t: At3PGhaData, ch: int, n: nat) -> Seq<BitField>
    decreases n,
{
    if n == 0 {
        Seq::empty()
    } else {
        wave_num_fields(t, ch, (n - 1) as nat) + (if own_band(t, ch, n - 1) {
            seq![(t.sb_info(ch, n - 1).wave_nums as u16, 4u8)]
        } else {
            Seq::empty()
        })
    }
}

/// The packed frequencies of the waves of a band; the order is given for more
/// than one wave.
pub open spec fn band_freq_fields(waves: Seq<WaveParam>) -> Seq<BitField> {
    let packed = freq_pack::packed(waves);
    (if waves.len() > 1 {
        seq![
            (
                if freq_pack::pack_order(waves) == TonePackOrder::Desc {
                    1u16
                } else {
                    0u16
                },
                1u8,
            ),
        ]
    } else {
        Seq::empty()
    }) + Seq::new(packed.len(), |i: int| (packed[i].code, packed[i].bits as u8))
}

/// Band `i` of channel `ch` has waves, and they are its own.
pub open spec fn has_waves(t: At3PGhaData, ch: int, i: int) -> bool {
    own_band(t, ch, i) && t.sb_info(ch, i).wave_nums != 0
}

/// The frequencies of the first `n` bands.
pub open spec fn freq_fields(t: At3PGhaData, ch: int, n: nat) -> Seq<BitField>
    decreases n,
{
    if n == 0 {
        Seq::empty()
    } else {
        freq_fields(t, ch, (n - 1) as nat) + (if has_waves(t, ch, n - 1) {
            band_freq_fields(t.sb_waves(ch, n - 1))
        } else {
            Seq::empty()
        })
    }
}

/// The amplitudes of the first `n` bands.
pub open spec fn amp_fields(t: At3PGhaData, ch: int, n: nat) -> Seq<BitField>
    decreases n,
{
    if n == 0 {
        Seq::empty()
    } else {
        amp_fields(t, ch, (n - 1) as nat) + (if has_waves(t, ch, n - 1) {
            Seq::new(
                t.sb_waves(ch, n - 1).len(),
                |j: int| (t.sb_waves(ch, n - 1)[j].amp_sf as u16, 6u8),
            )
        } else {
            Seq::empty()
        })
    }
}

/// The phases of the first `n` bands.
pub open spec fn phase_fields(t: At3PGhaData, ch: int, n: nat) -> Seq<BitField>
    decreases n,
{
    if n == 0 {
        Seq::empty()
    } else {
        phase_fields(t, ch, (n - 1) as nat) + (if has_waves(t, ch, n - 1) {
            Seq::new(
                t.sb_waves(ch, n - 1).len(),
                |j: int| (t.sb_waves(ch, n - 1)[j].phase_index as u16, 5u8),
            )
        } else {
            Seq::empty()
        })
    }
}

/// The tonal components of one channel.
pub open spec fn channel_fields(t: At3PGhaData, ch: int) -> Seq<BitField> {
    let n = t.num_tone_bands as nat;
    let own = if ch != 0 {
        seq![(0u16, 1u8)]
    } else {
        Seq::empty()
    };
    let mode = seq![(0u16, (ch + 1) as u8)];
    own + envelope_fields(t, ch, n) + mode + wave_num_fields(t, ch, n) + own + freq_fields(t, ch, n)
        + mode + amp_fields(t, ch, n) + phase_fields(t, ch, n)
}

/// The tonal block of a frame.
pub open spec fn tonal_block_fields(
    t: At3PGhaData,
    num_tone_bands: Seq<VlcElement>,
    channels: int,
) -> Seq<BitField> {
    let n = t.num_tone_bands as int;
    let head = seq![(1u16, 1u8), word_field(num_tone_bands[n - 1])];
    if channels == 2 {
        head + flags_fields(t.tone_sharing@.take(n)) + flags_fields(seq![t.second_is_leader])
            + seq![(0u16, 1u8)] + channel_fields(t, 0) + channel_fields(t, 1)
    } else {
        head + channel_fields(t, 0)
    }
}

/// The tonal components can be written for a number of channels.
pub open spec fn gha_wf(t: At3PGhaData, channels: int) -> bool {
    &&& 1 <= t.num_tone_bands <= 16
    &&& forall|ch: int, i: int|
        0 <= ch < channels && 0 <= i < t.num_tone_bands && #[trigger] own_band(t, ch, i) ==> {
            &&& i < t.waves@[ch].wave_sb_infos@.len()
            &&& t.sb_info(ch, i).wave_nums <= 0x0CCC_CCCC
            &&& t.sb_info(ch, i).wave_nums > 0 ==> t.sb_info(ch, i).wave_index + t.sb_info(
                ch,
                i,
            ).wave_nums <= t.waves@[ch].wave_params@.len()
        }
}

/// Writes flags of subbands.
pub fn write_subband_flags(d: &mut Dumper, flags: &[bool])
    ensures
        final(d)@ == old(d)@ + flags_fields(flags@),
{
    let ghost start = d@;
    let mut sum: usize = 0;
    let mut i: usize = 0;
    assert(flags@.take(0) =~= Seq::<bool>::empty());
    while i < flags.len()
        invariant
            i <= flags@.len(),
            sum <= i,
            sum == count_set(flags@.take(i as int)),
        decreases flags@.len() - i,
    {
        assert(flags@.take(i + 1).drop_last() =~= flags@.take(i as int));
        assert(flags@.len() == flags.len());
        if flags[i] {
            sum += 1;
        }
        i += 1;
    }
    assert(flags@.take(flags@.len() as int) =~= flags@);
    if sum == 0 {
        d.insert(0, 1);
    } else if sum == flags.len() {
        d.insert(1, 1);
        d.insert(0, 1);
    } else {
        d.insert(1, 1);
        d.insert(1, 1);
        let ghost head = d@;
        let mut i: usize = 0;
        assert(head + flag_list(flags@, 0) =~= head);
        while i < flags.len()
            invariant
                i <= flags@.len(),
                d@ == head + flag_list(flags@, i as nat),
            decreases flags@.len() - i,
        {
            d.insert(if flags[i] {
                1
            } else {
                0
            }, 1);
            assert(d@ =~= head + flag_list(flags@, (i + 1) as nat));
            i += 1;
        }
    }
    assert(d@ =~= start + flags_fields(flags@));
}

fn write_point(d: &mut Dumper, point: u32)
    ensures
        final(d)@ == old(d)@ + point_fields(point),
{
    let ghost start = d@;
    if point != At3PGhaData::EMPTY_POINT {
        d.insert(1, 1);
        d.insert(
            #[verifier::truncate]
            (point as u16),
            5,
        );
    } else {
        d.insert(0, 1);
    }
    assert(d@ =~= start + point_fields(point));
}

fn write_envelopes(d: &mut Dumper, t: &At3PGhaData, ch: usize)
    requires
        ch < 2,
        gha_wf(*t, ch + 1),
    ensures
        final(d)@ == old(d)@ + envelope_fields(*t, ch as int, t.num_tone_bands as nat),
{
    let ghost start = d@;
    let n: usize = t.num_tone_bands as usize;
    let mut i: usize = 0;
    assert(start + Seq::<BitField>::empty() =~= start);
    while i < n
        invariant
            i <= n,
            n == t.num_tone_bands,
            ch < 2,
            gha_wf(*t, ch + 1),
            d@ == start + envelope_fields(*t, ch as int, i as nat),
        decreases n - i,
    {
        if !(ch != 0 && t.tone_sharing[i]) {
            assert(own_band(*t, ch as int, i as int));
            let env: (u32, u32) = t.envelope(ch, i);
            write_point(d, env.0);
            write_point(d, env.1);
        }
        assert(d@ =~= start + envelope_fields(*t, ch as int, (i + 1) as nat));
        i += 1;
    }
}

fn write_wave_nums(d: &mut Dumper, t: &At3PGhaData, ch: usize)
    requires
        ch < 2,
        gha_wf(*t, ch + 1),
    ensures
        final(d)@ == old(d)@ + wave_num_fields(*t, ch as int, t.num_tone_bands as nat),
{
    let ghost start = d@;
    let n: usize = t.num_tone_bands as usize;
    let mut i: usize = 0;
    assert(start + Seq::<BitField>::empty() =~= start);
    while i < n
        invariant
            i <= n,
            n == t.num_tone_bands,
            ch < 2,
            gha_wf(*t, ch + 1),
            d@ == start + wave_num_fields(*t, ch as int, i as nat),
        decreases n - i,
    {
        if !(ch != 0 && t.tone_sharing[i]) {
            assert(own_band(*t, ch as int, i as int));
            d.insert(
                #[verifier::truncate]
                (t.num_waves(ch, i) as u16),
                4,
            );
        }
        assert(d@ =~= start + wave_num_fields(*t, ch as int, (i + 1) as nat));
        i += 1;
    }
}

/// The waves of a band that has some.
fn band_waves<'a>(t: &'a At3PGhaData, ch: usize, i: usize) -> (w: &'a [WaveParam])
    requires
        ch < 2,
        gha_wf(*t, ch + 1),
        i < t.num_tone_bands,
        has_waves(*t, ch as int, i as int),
    ensures
        w@ == t.sb_waves(ch as int, i as int),
        1 <= w@.len() <= 0x0CCC_CCCC,
{
    assert(own_band(*t, ch as int, i as int));
    let (rest, n): (&[WaveParam], usize) = t.waves(ch, i);
    let w: &[WaveParam] = vstd::slice::slice_subrange(rest, 0, n);
    assert(w@ =~= t.sb_waves(ch as int, i as int));
    w
}

fn write_band_freqs(d: &mut Dumper, w: &[WaveParam])
    requires
        1 <= w@.len() <= 0x0CCC_CCCC,
    ensures
        final(d)@ == old(d)@ + band_freq_fields(w@),
{
    let ghost start = d@;
    let pkt: TonePackResult = create_freq_bit_pack(w);
    if w.len() > 1 {
        d.insert(
            match pkt.order {
                TonePackOrder::Desc => 1,
                TonePackOrder::Asc => 0,
            },
            1,
        );
    }
    let ghost head = d@;
    let ghost list = Seq::new(
        pkt.data@.len(),
        |i: int| (pkt.data@[i].code, pkt.data@[i].bits as u8),
    );
    let mut i: usize = 0;
    assert(head + list.take(0) =~= head);
    while i < pkt.data.len()
        invariant
            i <= pkt.data@.len(),
            list == Seq::new(
                pkt.data@.len(),
                |i: int| (pkt.data@[i].code, pkt.data@[i].bits as u8),
            ),
            d@ == head + list.take(i as int),
        decreases pkt.data@.len() - i,
    {
        let e: TonePackEntry = pkt.data[i];
        d.insert(
            e.code,
            #[verifier::truncate]
            (e.bits as u8),
        );
        assert(d@ =~= head + list.take(i + 1));
        i += 1;
    }
    assert(list.take(list.len() as int) =~= list);
    assert(d@ =~= start + band_freq_fields(w@));
}

fn write_freqs(d: &mut Dumper, t: &At3PGhaData, ch: usize)
    requires
        ch < 2,
        gha_wf(*t, ch + 1),
    ensures
        final(d)@ == old(d)@ + freq_fields(*t, ch as int, t.num_tone_bands as nat),
{
    let ghost start = d@;
    let n: usize = t.num_tone_bands as usize;
    let mut i: usize = 0;
    assert(start + Seq::<BitField>::empty() =~= start);
    while i < n
        invariant
            i <= n,
            n == t.num_tone_bands,
            ch < 2,
            gha_wf(*t, ch + 1),
            d@ == start + freq_fields(*t, ch as int, i as nat),
        decreases n - i,
    {
        if !(ch != 0 && t.tone_sharing[i]) {
            assert(own_band(*t, ch as int, i as int));
            if t.num_waves(ch, i) != 0 {
                write_band_freqs(d, band_waves(t, ch, i));
            }
        }
        assert(d@ =~= start + freq_fields(*t, ch as int, (i + 1) as nat));
        i += 1;
    }
}

fn write_amps(d: &mut Dumper, t: &At3PGhaData, ch: usize)
    requires
        ch < 2,
        gha_wf(*t, ch + 1),
    ensures
        final(d)@ == old(d)@ + amp_fields(*t, ch as int, t.num_tone_bands as nat),
{
    let ghost start = d@;
    let n: usize = t.num_tone_bands as usize;
    let mut i: usize = 0;
    assert(start + Seq::<BitField>::empty() =~= start);
    while i < n
        invariant
            i <= n,
            n == t.num_tone_bands,
            ch < 2,
            gha_wf(*t, ch + 1),
            d@ == start + amp_fields(*t, ch as int, i as nat),
        decreases n - i,
    {
        if !(ch != 0 && t.tone_sharing[i]) {
            assert(own_band(*t, ch as int, i as int));
            if t.num_waves(ch, i) != 0 {
                let w: &[WaveParam] = band_waves(t, ch, i);
                let ghost head = d@;
                let ghost list = Seq::new(w@.len(), |j: int| (w@[j].amp_sf as u16, 6u8));
                let mut j: usize = 0;
                assert(head + list.take(0) =~= head);
                while j < w.len()
                    invariant
                        j <= w@.len(),
                        list == Seq::new(w@.len(), |j: int| (w@[j].amp_sf as u16, 6u8)),
                        d@ == head + list.take(j as int),
                    decreases w@.len() - j,
                {
                    d.insert(
                        #[verifier::truncate]
                        (w[j].amp_sf as u16),
                        6,
                    );
                    assert(d@ =~= head + list.take(j + 1));
                    j += 1;
                }
                assert(list.take(list.len() as int) =~= list);
            }
        }
        assert(d@ =~= start + amp_fields(*t, ch as int, (i + 1) as nat));
        i += 1;
    }
}

fn write_phases(d: &mut Dumper, t: &At3PGhaData, ch: usize)
    requires
        ch < 2,
        gha_wf(*t, ch + 1),
    ensures
        final(d)@ == old(d)@ + phase_fields(*t, ch as int, t.num_tone_bands as nat),
{
    let ghost start = d@;
    let n: usize = t.num_tone_bands as usize;
    let mut i: usize = 0;
    assert(start + Seq::<BitField>::empty() =~= start);
    while i < n
        invariant
            i <= n,
            n == t.num_tone_bands,
            ch < 2,
            gha_wf(*t, ch + 1),
            d@ == start + phase_fields(*t, ch as int, i as nat),
        decreases n - i,
    {
        if !(ch != 0 && t.tone_sharing[i]) {
            assert(own_band(*t, ch as int, i as int));
            if t.num_waves(ch, i) != 0 {
                let w: &[WaveParam] = band_waves(t, ch, i);
                let ghost head = d@;
                let ghost list = Seq::new(w@.len(), |j: int| (w@[j].phase_index as u16, 5u8));
                let mut j: usize = 0;
                assert(head + list.take(0) =~= head);
                while j < w.len()
                    invariant
                        j <= w@.len(),
                        list == Seq::new(w@.len(), |j: int| (w@[j].phase_index as u16, 5u8)),
                        d@ == head + list.take(j as int),
                    decreases w@.len() - j,
                {
                    d.insert(
                        #[verifier::truncate]
                        (w[j].phase_index as u16),
                        5,
                    );
                    assert(d@ =~= head + list.take(j + 1));
                    j += 1;
                }
                assert(list.take(list.len() as int) =~= list);
            }
        }
        assert(d@ =~= start + phase_fields(*t, ch as int, (i + 1) as nat));
        i += 1;
    }
}

fn write_channel(d: &mut Dumper, t: &At3PGhaData, ch: usize)
    requires
        ch < 2,
        gha_wf(*t, ch + 1),
    ensures
        final(d)@ == old(d)@ + channel_fields(*t, ch as int),
{
    let ghost start = d@;
    let ghost c = ch as int;
    let ghost n = t.num_tone_bands as nat;
    let ghost own = if c != 0 {
        seq![(0u16, 1u8)]
    } else {
        Seq::empty()
    };
    let ghost mode = seq![(0u16, (c + 1) as u8)];
    if ch != 0 {
        d.insert(0, 1);
    }
    assert(d@ == start + own) by {
        assert(d@ =~= start + own);
    }
    write_envelopes(d, t, ch);
    let ghost envelopes = own + envelope_fields(*t, c, n);
    d.insert(0, (ch + 1) as u8);
    write_wave_nums(d, t, ch);
    let ghost nums = envelopes + mode + wave_num_fields(*t, c, n);
    proof {
        fields::lemma_after(start, own, envelope_fields(*t, c, n));
        fields::lemma_after_one(start, envelopes, (0u16, (c + 1) as u8));
        fields::lemma_after(start, envelopes + mode, wave_num_fields(*t, c, n));
    }
    if ch != 0 {
        d.insert(0, 1);
    }
    assert(d@ == start + nums + own) by {
        assert(d@ =~= start + nums + own);
    }
    write_freqs(d, t, ch);
    let ghost freqs = nums + own + freq_fields(*t, c, n);
    d.insert(0, (ch + 1) as u8);
    write_amps(d, t, ch);
    let ghost amps = freqs + mode + amp_fields(*t, c, n);
    write_phases(d, t, ch);
    proof {
        fields::lemma_after(start, nums, own);
        fields::lemma_after(start, nums + own, freq_fields(*t, c, n));
        fields::lemma_after_one(start, freqs, (0u16, (c + 1) as u8));
        fields::lemma_after(start, freqs + mode, amp_fields(*t, c, n));
        fields::lemma_after(start, amps, phase_fields(*t, c, n));
    }
}

/// Writes the tonal block of a frame.
pub fn write_tonal_block(
    d: &mut Dumper,
    channels: usize,
    tonal: &At3PGhaData,
    num_tone_bands: &Vec<VlcElement>,
)
    requires
        1 <= channels <= 2,
        gha_wf(*tonal, channels as int),
        num_tone_bands@.len() == 16,
    ensures
        final(d)@ == old(d)@ + tonal_block_fields(*tonal, num_tone_bands@, channels as int),
{
    let ghost start = d@;
    d.insert(1, 1);
    let num_bands: usize = tonal.num_tone_bands as usize;
    let tb_huff: VlcElement = num_tone_bands[num_bands - 1];
    d.insert(
        #[verifier::truncate]
        (tb_huff.code as u16),
        #[verifier::truncate]
        (tb_huff.len as u8),
    );
    if channels == 2 {
        let sharing: &[bool] = vstd::slice::slice_subrange(
            tonal.tone_sharing.as_slice(),
            0,
            num_bands,
        );
        assert(sharing@ =~= tonal.tone_sharing@.take(num_bands as int));
        write_subband_flags(d, sharing);
        let leader: [bool; 1] = [tonal.second_is_leader];
        assert(leader@ =~= seq![tonal.second_is_leader]);
        write_subband_flags(d, leader.as_slice());
        d.insert(0, 1);
    }
    assert(gha_wf(*tonal, 1)) by {
        assert forall|ch: int, i: int|
            0 <= ch < 1 && 0 <= i < tonal.num_tone_bands && #[trigger] own_band(
                *tonal,
                ch,
                i,
            ) implies i < tonal.waves@[ch].wave_sb_infos@.len() by {}
    }
    write_channel(d, tonal, 0);
    if channels == 2 {
        write_channel(d, tonal, 1);
    }
    assert(d@ =~= start + tonal_block_fields(*tonal, num_tone_bands@, channels as int));
}

proof fn lemma_band_lists_wf(t: At3PGhaData, ch: int, n: nat)
    ensures
        fields::fields_wf(envelope_fields(t, ch, n)),
        fields::fields_wf(wave_num_fields(t, ch, n)),
        fields::fields_wf(freq_fields(t, ch, n)),
        fields::fields_wf(amp_fields(t, ch, n)),
        fields::fields_wf(phase_fields(t, ch, n)),
    decreases n,
{
    if n > 0 {
        lemma_band_lists_wf(t, ch, (n - 1) as nat);
        let waves = t.sb_waves(ch, n - 1);
        freq_pack::lemma_entries_width(waves);
        assert(fields::fields_wf(band_freq_fields(waves))) by {
            let packed = freq_pack::packed(waves);
            let f = band_freq_fields(waves);
            let k = if waves.len() > 1 {
                1int
            } else {
                0int
            };
            assert forall|i: int| 0 <= i < f.len() implies (#[trigger] f[i]).1 <= 23 by {
                if i >= k {
                    assert(f[i] == (packed[i - k].code, packed[i - k].bits as u8));
                    if freq_pack::pack_order(waves) == TonePackOrder::Asc {
                        assert(freq_pack::asc_entries(waves)[i - k].bits <= 10);
                    } else {
                        assert(freq_pack::desc_entries(waves)[i - k].bits <= 10);
                    }
                }
            }
        }
    }
}

/// The fields of a tonal block can be written.
pub proof fn lemma_tonal_block_wf(
    t: At3PGhaData,
    num_tone_bands: Seq<VlcElement>,
    channels: int,
)
    requires
        1 <= channels <= 2,
        1 <= t.num_tone_bands <= 16,
        num_tone_bands.len() == 16,
        tables::lens_wf(num_tone_bands),
    ensures
        fields::fields_wf(tonal_block_fields(t, num_tone_bands, channels)),
{
    let n = t.num_tone_bands as int;
    assert(0 <= num_tone_bands[n - 1].len <= 12);
    lemma_band_lists_wf(t, 0, n as nat);
    lemma_band_lists_wf(t, 1, n as nat);
    assert(fields::fields_wf(channel_fields(t, 0)));
    assert(fields::fields_wf(channel_fields(t, 1)));
    assert(fields::fields_wf(flags_fields(t.tone_sharing@.take(n))));
    assert(fields::fields_wf(flags_fields(seq![t.second_is_leader])));
}

} // verus!
