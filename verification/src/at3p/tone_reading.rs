//! What a reader gets out of the bits that follow the spectra of an ATRAC3plus frame.

use vstd::prelude::*;
use vstd::arithmetic::power2::*;
use crate::at3p::bitstream;
use crate::at3p::fields;
use crate::at3p::fields::BitField;
use crate::at3p::frame;
use crate::at3p::frame::FrameModel;
use crate::at3p::gha::{At3PGhaData, WaveParam};
use crate::at3p::tables::VlcElement;
use crate::at3p::tonal;
use crate::bitstream::bits;

verus! {

/// The window shapes of channel `ch`.
pub open spec fn channel_windows(f: FrameModel, ch: int) -> Seq<bool> {
    fields::fields_bits(
        frame::window_fields(f.sces[ch].subband_info.win, frame::num_subbands(f)),
    )
}

/// The end of a frame: for two channels two unset bits; the window shapes of each channel
/// in turn; an unset bit for each channel; a bit that tells of tonal components, and these
/// if it is set; an unset and two set bits.
pub proof fn law_tail_reads_back(f: FrameModel)
    requires
        1 <= f.channels <= 2,
    ensures
        ({
            let tones = if frame::has_tones(f) {
                seq![true] + fields::fields_bits(
                    tonal::tonal_block_fields(
                        f.tonal_block->0,
                        f.huff.num_tone_bands@,
                        f.channels as int,
                    ),
                )
            } else {
                seq![false]
            };
            let end = tones + seq![false, true, true];
            &&& f.channels == 1 ==> bitstream::tail_bits(f) == channel_windows(f, 0) + seq![false]
                + end
            &&& f.channels == 2 ==> bitstream::tail_bits(f) == seq![false, false] + channel_windows(
                f,
                0,
            ) + channel_windows(f, 1) + seq![false, false] + end
        }),
{
    let (hb, gb, tb) = lemma_tail_parts(f);
    let a0 = channel_windows(f, 0);
    let lb = seq![false, true, true];
    let b = bitstream::tail_bits(f);
    if f.channels == 2 {
        let a1 = channel_windows(f, 1);
        assert(hb + (a0 + a1) + gb + tb + lb =~= hb + a0 + a1 + gb + (tb + lb));
    } else {
        assert(hb + a0 + gb + tb + lb =~= a0 + gb + (tb + lb));
    }
}

proof fn lemma_tail_parts(f: FrameModel) -> (r: (Seq<bool>, Seq<bool>, Seq<bool>))
    requires
        1 <= f.channels <= 2,
    ensures
        f.channels == 2 ==> r.0 == seq![false, false] && r.1 == seq![false, false],
        f.channels == 1 ==> r.0 == Seq::<bool>::empty() && r.1 == seq![false],
        r.2 == (if frame::has_tones(f) {
            seq![true] + fields::fields_bits(
                tonal::tonal_block_fields(
                    f.tonal_block->0,
                    f.huff.num_tone_bands@,
                    f.channels as int,
                ),
            )
        } else {
            seq![false]
        }),
        f.channels == 1 ==> bitstream::tail_bits(f) == r.0 + channel_windows(f, 0) + r.1 + r.2 + seq![
            false,
            true,
            true,
        ],
        f.channels == 2 ==> bitstream::tail_bits(f) == r.0 + (channel_windows(f, 0)
            + channel_windows(f, 1)) + r.1 + r.2 + seq![false, true, true],
{
    let none = Seq::<BitField>::empty();
    let two = f.channels == 2;
    let head = if two {
        seq![(0u16, 2u8)]
    } else {
        none
    };
    let gains = frame::gain_fields(f.channels as nat);
    let tones = frame::tones_fields(f);
    let last = seq![(0u16, 1u8), (3u16, 2u8)];
    let ws = frame::windows_fields(f, f.channels as nat);
    lemma_windows(f);
    fields::lemma_fields_bits_concat(head, ws);
    fields::lemma_fields_bits_concat(head + ws, gains);
    fields::lemma_fields_bits_concat(head + ws + gains, tones);
    fields::lemma_fields_bits_concat(head + ws + gains + tones, last);
    assert(frame::tail_fields(f) == head + ws + gains + tones + last);
    lemma_few_bits();
    if two {
        assert(gains =~= seq![(0u16, 1u8), (0u16, 1u8)]);
    } else {
        assert(gains =~= seq![(0u16, 1u8)]);
        assert(fields::fields_bits(head) =~= Seq::<bool>::empty());
    }
    if frame::has_tones(f) {
        fields::lemma_fields_bits_concat(
            seq![(1u16, 1u8)],
            tonal::tonal_block_fields(
                f.tonal_block->0,
                f.huff.num_tone_bands@,
                f.channels as int,
            ),
        );
    }
    (fields::fields_bits(head), fields::fields_bits(gains), fields::fields_bits(tones))
}

proof fn lemma_windows(f: FrameModel)
    requires
        1 <= f.channels <= 2,
    ensures
        f.channels == 1 ==> fields::fields_bits(frame::windows_fields(f, 1)) == channel_windows(f, 0),
        f.channels == 2 ==> fields::fields_bits(frame::windows_fields(f, 2)) == channel_windows(f, 0)
            + channel_windows(f, 1),
{
    reveal_with_fuel(frame::windows_fields, 3);
    let none = Seq::<BitField>::empty();
    let w0 = frame::window_fields(f.sces[0].subband_info.win, frame::num_subbands(f));
    let w1 = frame::window_fields(f.sces[1].subband_info.win, frame::num_subbands(f));
    assert(none + w0 =~= w0);
    fields::lemma_fields_bits_concat(w0, w1);
}

proof fn lemma_few_bits()
    ensures
        fields::fields_bits(seq![(0u16, 1u8)]) == seq![false],
        fields::fields_bits(seq![(1u16, 1u8)]) == seq![true],
        fields::fields_bits(seq![(0u16, 2u8)]) == seq![false, false],
        fields::fields_bits(seq![(0u16, 1u8), (0u16, 1u8)]) == seq![false, false],
        fields::fields_bits(seq![(0u16, 1u8), (3u16, 2u8)]) == seq![false, true, true],
        fields::fields_bits(seq![(1u16, 1u8), (0u16, 1u8)]) == seq![true, false],
        fields::fields_bits(seq![(1u16, 1u8), (1u16, 1u8)]) == seq![true, true],
{
    lemma2_to64();
    let none = Seq::<BitField>::empty();
    let z = (0u16, 1u8);
    let o = (1u16, 1u8);
    assert(fields::fields_bits(none) =~= Seq::<bool>::empty());
    assert(bits::msb_bits(0, 1) =~= seq![false]);
    assert(bits::msb_bits(1, 1) =~= seq![true]);
    assert(bits::msb_bits(0, 2) =~= seq![false, false]);
    assert(3nat / 2 % 2 == 1 && 3nat / 1 % 2 == 1);
    assert(bits::msb_bits(3, 2) =~= seq![true, true]);
    fields::lemma_fields_bits_push(none, z);
    fields::lemma_fields_bits_push(none, o);
    fields::lemma_fields_bits_push(none, (0u16, 2u8));
    assert(none.push(z) =~= seq![z]);
    assert(none.push(o) =~= seq![o]);
    assert(none.push((0u16, 2u8)) =~= seq![(0u16, 2u8)]);
    fields::lemma_fields_bits_push(seq![z], z);
    fields::lemma_fields_bits_push(seq![z], (3u16, 2u8));
    fields::lemma_fields_bits_push(seq![o], z);
    fields::lemma_fields_bits_push(seq![o], o);
    assert(seq![z].push(z) =~= seq![z, z]);
    assert(seq![z].push((3u16, 2u8)) =~= seq![z, (3u16, 2u8)]);
    assert(seq![o].push(z) =~= seq![o, z]);
    assert(seq![o].push(o) =~= seq![o, o]);
    assert(fields::fields_bits(seq![z]) =~= seq![false]);
    assert(fields::fields_bits(seq![o]) =~= seq![true]);
    assert(fields::fields_bits(seq![(0u16, 2u8)]) =~= seq![false, false]);
    assert(fields::fields_bits(seq![z, z]) =~= seq![false, false]);
    assert(fields::fields_bits(seq![z, (3u16, 2u8)]) =~= seq![false, true, true]);
    assert(fields::fields_bits(seq![o, z]) =~= seq![true, false]);
    assert(fields::fields_bits(seq![o, o]) =~= seq![true, true]);
}

/// One end of an envelope: an unset bit without one, else a set bit and five bits.
pub open spec fn point_bits(point: u32) -> Seq<bool> {
    if point == 0xFFFF_FFFF {
        seq![false]
    } else {
        seq![true] + bits::msb_bits(point as u16 as nat, 5)
    }
}

/// Numbers of one width in a row.
pub open spec fn number_bits(values: Seq<nat>, w: nat) -> Seq<bool>
    decreases values.len(),
{
    if values.len() == 0 {
        Seq::empty()
    } else {
        number_bits(values.drop_last(), w) + bits::msb_bits(values.last(), w)
    }
}

/// The amplitudes of waves.
pub open spec fn amps_of(waves: Seq<WaveParam>) -> Seq<nat> {
    waves.map_values(|w: WaveParam| w.amp_sf as u16 as nat)
}

/// The phases of waves.
pub open spec fn phases_of(waves: Seq<WaveParam>) -> Seq<nat> {
    waves.map_values(|w: WaveParam| w.phase_index as u16 as nat)
}

/// The envelopes of the first `n` bands that have waves of their own: the start of each,
/// then its end.
pub open spec fn envelopes(t: At3PGhaData, ch: int, n: nat) -> Seq<bool>
    decreases n,
{
    if n == 0 {
        Seq::empty()
    } else {
        envelopes(t, ch, (n - 1) as nat) + (if ch == 0 || !t.tone_sharing@[n - 1] {
            point_bits(t.sb_info(ch, n - 1).envelope.0) + point_bits(t.sb_info(ch, n - 1).envelope.1)
        } else {
            Seq::empty()
        })
    }
}

/// The numbers of waves of the first `n` bands that have waves of their own, in four bits
/// each.
pub open spec fn wave_counts(t: At3PGhaData, ch: int, n: nat) -> Seq<bool>
    decreases n,
{
    if n == 0 {
        Seq::empty()
    } else {
        wave_counts(t, ch, (n - 1) as nat) + (if ch == 0 || !t.tone_sharing@[n - 1] {
            bits::msb_bits(t.sb_info(ch, n - 1).wave_nums as u16 as nat, 4)
        } else {
            Seq::empty()
        })
    }
}

/// The packed frequencies of the waves of the first `n` bands.
pub open spec fn frequencies(t: At3PGhaData, ch: int, n: nat) -> Seq<bool>
    decreases n,
{
    if n == 0 {
        Seq::empty()
    } else {
        frequencies(t, ch, (n - 1) as nat) + (if (ch == 0 || !t.tone_sharing@[n - 1]) && t.sb_info(ch, n - 1).wave_nums > 0 {
            fields::fields_bits(tonal::band_freq_fields(t.sb_waves(ch, n - 1)))
        } else {
            Seq::empty()
        })
    }
}

/// The amplitudes of the waves of the first `n` bands, in six bits each.
pub open spec fn amplitudes(t: At3PGhaData, ch: int, n: nat) -> Seq<bool>
    decreases n,
{
    if n == 0 {
        Seq::empty()
    } else {
        amplitudes(t, ch, (n - 1) as nat) + (if (ch == 0 || !t.tone_sharing@[n - 1]) && t.sb_info(ch, n - 1).wave_nums > 0 {
            number_bits(amps_of(t.sb_waves(ch, n - 1)), 6)
        } else {
            Seq::empty()
        })
    }
}

/// The phases of the waves of the first `n` bands, in five bits each.
pub open spec fn phases(t: At3PGhaData, ch: int, n: nat) -> Seq<bool>
    decreases n,
{
    if n == 0 {
        Seq::empty()
    } else {
        phases(t, ch, (n - 1) as nat) + (if (ch == 0 || !t.tone_sharing@[n - 1]) && t.sb_info(ch, n - 1).wave_nums > 0 {
            number_bits(phases_of(t.sb_waves(ch, n - 1)), 5)
        } else {
            Seq::empty()
        })
    }
}

proof fn lemma_point_bits(point: u32)
    ensures
        fields::fields_bits(tonal::point_fields(point)) == point_bits(point),
{
    lemma_few_bits();
    if point != 0xFFFF_FFFF {
        let o = seq![(1u16, 1u8)];
        let x = (point as u16, 5u8);
        fields::lemma_fields_bits_push(o, x);
        assert(o.push(x) =~= seq![(1u16, 1u8), x]);
    }
}

proof fn lemma_number_bits(f: Seq<BitField>, values: Seq<nat>, w: u8)
    requires
        f.len() == values.len(),
        forall|i: int| 0 <= i < f.len() ==> (#[trigger] f[i]).0 as nat == values[i] && f[i].1 == w,
    ensures
        fields::fields_bits(f) == number_bits(values, w as nat),
    decreases f.len(),
{
    if f.len() > 0 {
        assert(f.last() == f[f.len() - 1]);
        lemma_number_bits(f.drop_last(), values.drop_last(), w);
    }
}

proof fn lemma_envelopes(t: At3PGhaData, ch: int, n: nat)
    ensures
        fields::fields_bits(tonal::envelope_fields(t, ch, n)) == envelopes(t, ch, n),
    decreases n,
{
    if n > 0 {
        lemma_envelopes(t, ch, (n - 1) as nat);
        let r = tonal::envelope_fields(t, ch, (n - 1) as nat);
        let e = t.sb_info(ch, n - 1).envelope;
        lemma_point_bits(e.0);
        lemma_point_bits(e.1);
        let a = tonal::point_fields(e.0);
        let b = tonal::point_fields(e.1);
        fields::lemma_fields_bits_concat(a, b);
        fields::lemma_fields_bits_concat(r, a + b);
        fields::lemma_fields_bits_concat(r, Seq::<BitField>::empty());
    }
}

proof fn lemma_wave_counts(t: At3PGhaData, ch: int, n: nat)
    ensures
        fields::fields_bits(tonal::wave_num_fields(t, ch, n)) == wave_counts(t, ch, n),
    decreases n,
{
    if n > 0 {
        lemma_wave_counts(t, ch, (n - 1) as nat);
        let r = tonal::wave_num_fields(t, ch, (n - 1) as nat);
        let x = (t.sb_info(ch, n - 1).wave_nums as u16, 4u8);
        fields::lemma_fields_bits_push(r, x);
        assert(r + seq![x] =~= r.push(x));
        fields::lemma_fields_bits_concat(r, Seq::<BitField>::empty());
    }
}

proof fn lemma_frequencies(t: At3PGhaData, ch: int, n: nat)
    ensures
        fields::fields_bits(tonal::freq_fields(t, ch, n)) == frequencies(t, ch, n),
    decreases n,
{
    if n > 0 {
        lemma_frequencies(t, ch, (n - 1) as nat);
        let r = tonal::freq_fields(t, ch, (n - 1) as nat);
        fields::lemma_fields_bits_concat(r, tonal::band_freq_fields(t.sb_waves(ch, n - 1)));
        fields::lemma_fields_bits_concat(r, Seq::<BitField>::empty());
    }
}

proof fn lemma_amplitudes(t: At3PGhaData, ch: int, n: nat)
    ensures
        fields::fields_bits(tonal::amp_fields(t, ch, n)) == amplitudes(t, ch, n),
    decreases n,
{
    if n > 0 {
        lemma_amplitudes(t, ch, (n - 1) as nat);
        let r = tonal::amp_fields(t, ch, (n - 1) as nat);
        let w = t.sb_waves(ch, n - 1);
        let x = Seq::new(w.len(), |j: int| (w[j].amp_sf as u16, 6u8));
        lemma_number_bits(x, amps_of(w), 6);
        fields::lemma_fields_bits_concat(r, x);
        fields::lemma_fields_bits_concat(r, Seq::<BitField>::empty());
        if tonal::has_waves(t, ch, n - 1) {
            assert(tonal::amp_fields(t, ch, n) =~= r + x);
        }
    }
}

proof fn lemma_phases(t: At3PGhaData, ch: int, n: nat)
    ensures
        fields::fields_bits(tonal::phase_fields(t, ch, n)) == phases(t, ch, n),
    decreases n,
{
    if n > 0 {
        lemma_phases(t, ch, (n - 1) as nat);
        let r = tonal::phase_fields(t, ch, (n - 1) as nat);
        let w = t.sb_waves(ch, n - 1);
        let x = Seq::new(w.len(), |j: int| (w[j].phase_index as u16, 5u8));
        lemma_number_bits(x, phases_of(w), 5);
        fields::lemma_fields_bits_concat(r, x);
        fields::lemma_fields_bits_concat(r, Seq::<BitField>::empty());
        if tonal::has_waves(t, ch, n - 1) {
            assert(tonal::phase_fields(t, ch, n) =~= r + x);
        }
    }
}

/// A number in a row of numbers of one width is read at its place.
pub proof fn law_row_reads_back(values: Seq<nat>, w: nat, i: int)
    requires
        0 <= i < values.len(),
    ensures
        number_bits(values, w).len() == w * values.len(),
        bits::number_at(number_bits(values, w), w * i, w as int) == values[i] % pow2(w),
    decreases values.len(),
{
    let r = values.drop_last();
    let m = bits::msb_bits(values.last(), w);
    assert(w * values.len() == w * r.len() + w) by (nonlinear_arith)
        requires
            values.len() == r.len() + 1,
    ;
    if r.len() > 0 {
        law_row_reads_back(r, w, if i < r.len() {
            i
        } else {
            0
        });
    } else {
        assert(w * r.len() == 0) by (nonlinear_arith)
            requires
                r.len() == 0,
        ;
    }
    let rb = number_bits(r, w);
    if i == r.len() {
        bits::lemma_number_between(rb, values.last(), w, Seq::empty());
        assert(rb + m + Seq::<bool>::empty() =~= rb + m);
    } else {
        assert(0 <= w * i && w * i + w <= w * r.len()) by (nonlinear_arith)
            requires
                0 <= i,
                i + 1 <= r.len(),
        ;
        bits::lemma_number_before(rb, m, w * i, w as int);
    }
}

/// The tonal components of the first channel: envelopes, an unset bit, the numbers of
/// waves, frequencies, an unset bit, amplitudes and phases.
pub proof fn law_first_tones_read_back(t: At3PGhaData)
    ensures
        ({
            let n = t.num_tone_bands as nat;
            fields::fields_bits(tonal::channel_fields(t, 0)) == envelopes(t, 0, n) + seq![false]
                + wave_counts(t, 0, n) + frequencies(t, 0, n) + seq![false] + amplitudes(t, 0, n)
                + phases(t, 0, n)
        }),
{
    let n = t.num_tone_bands as nat;
    let none = Seq::<BitField>::empty();
    let e = tonal::envelope_fields(t, 0, n);
    let mode = seq![(0u16, 1u8)];
    let c = tonal::wave_num_fields(t, 0, n);
    let q = tonal::freq_fields(t, 0, n);
    let a = tonal::amp_fields(t, 0, n);
    let h = tonal::phase_fields(t, 0, n);
    lemma_envelopes(t, 0, n);
    lemma_wave_counts(t, 0, n);
    lemma_frequencies(t, 0, n);
    lemma_amplitudes(t, 0, n);
    lemma_phases(t, 0, n);
    lemma_few_bits();
    assert(tonal::channel_fields(t, 0) =~= e + mode + c + q + mode + a + h);
    fields::lemma_fields_bits_concat(e, mode);
    fields::lemma_fields_bits_concat(e + mode, c);
    fields::lemma_fields_bits_concat(e + mode + c, q);
    fields::lemma_fields_bits_concat(e + mode + c + q, mode);
    fields::lemma_fields_bits_concat(e + mode + c + q + mode, a);
    fields::lemma_fields_bits_concat(e + mode + c + q + mode + a, h);
}

/// The tonal components of the second channel, which may share bands with the first: an
/// unset bit, envelopes, two unset bits, the numbers of waves, an unset bit, frequencies,
/// two unset bits, amplitudes and phases.
pub proof fn law_second_tones_read_back(t: At3PGhaData)
    ensures
        ({
            let n = t.num_tone_bands as nat;
            fields::fields_bits(tonal::channel_fields(t, 1)) == seq![false] + envelopes(t, 1, n)
                + seq![false, false] + wave_counts(t, 1, n) + seq![false] + frequencies(t, 1, n)
                + seq![false, false] + amplitudes(t, 1, n) + phases(t, 1, n)
        }),
{
    let n = t.num_tone_bands as nat;
    let own = seq![(0u16, 1u8)];
    let e = tonal::envelope_fields(t, 1, n);
    let mode = seq![(0u16, 2u8)];
    let c = tonal::wave_num_fields(t, 1, n);
    let q = tonal::freq_fields(t, 1, n);
    let a = tonal::amp_fields(t, 1, n);
    let h = tonal::phase_fields(t, 1, n);
    lemma_envelopes(t, 1, n);
    lemma_wave_counts(t, 1, n);
    lemma_frequencies(t, 1, n);
    lemma_amplitudes(t, 1, n);
    lemma_phases(t, 1, n);
    lemma_few_bits();
    assert(tonal::channel_fields(t, 1) == own + e + mode + c + own + q + mode + a + h);
    fields::lemma_fields_bits_concat(own, e);
    fields::lemma_fields_bits_concat(own + e, mode);
    fields::lemma_fields_bits_concat(own + e + mode, c);
    fields::lemma_fields_bits_concat(own + e + mode + c, own);
    fields::lemma_fields_bits_concat(own + e + mode + c + own, q);
    fields::lemma_fields_bits_concat(own + e + mode + c + own + q, mode);
    fields::lemma_fields_bits_concat(own + e + mode + c + own + q + mode, a);
    fields::lemma_fields_bits_concat(own + e + mode + c + own + q + mode + a, h);
}

/// Flags of bands are read back: an unset bit where none is set; a set and an unset bit
/// where all are; else two set bits and then one bit for each band.
pub proof fn law_flags_read_back(flags: Seq<bool>)
    requires
        flags.len() > 0,
    ensures
        ({
            let b = fields::fields_bits(tonal::flags_fields(flags));
            &&& (forall|i: int| 0 <= i < flags.len() ==> !flags[i]) ==> b == seq![false]
            &&& (forall|i: int| 0 <= i < flags.len() ==> flags[i]) ==> b == seq![true, false]
            &&& (exists|i: int| 0 <= i < flags.len() && flags[i]) && (exists|i: int|
                0 <= i < flags.len() && !flags[i]) ==> b == seq![true, true] + flags
        }),
{
    lemma_few_bits();
    lemma_count_set(flags);
    if tonal::count_set(flags) != 0 && tonal::count_set(flags) != flags.len() {
        let head = seq![(1u16, 1u8), (1u16, 1u8)];
        let list = tonal::flag_list(flags, flags.len());
        fields::lemma_fields_bits_concat(head, list);
        lemma_flag_list(flags, flags.len());
        assert(flags.take(flags.len() as int) =~= flags);
    }
}

proof fn lemma_flag_list(flags: Seq<bool>, n: nat)
    requires
        n <= flags.len(),
    ensures
        fields::fields_bits(tonal::flag_list(flags, n)) == flags.take(n as int),
    decreases n,
{
    let list = tonal::flag_list(flags, n);
    if n > 0 {
        lemma_flag_list(flags, (n - 1) as nat);
        lemma_few_bits();
        lemma2_to64();
        assert(list.drop_last() =~= tonal::flag_list(flags, (n - 1) as nat));
        assert(bits::msb_bits(0, 1) =~= seq![false]);
        assert(bits::msb_bits(1, 1) =~= seq![true]);
        assert(flags.take(n as int) =~= flags.take(n - 1) + seq![flags[n - 1]]);
    } else {
        assert(flags.take(0) =~= Seq::<bool>::empty());
    }
}

proof fn lemma_count_set(flags: Seq<bool>)
    ensures
        tonal::count_set(flags) <= flags.len(),
        tonal::count_set(flags) == 0 <==> (forall|i: int| 0 <= i < flags.len() ==> !flags[i]),
        tonal::count_set(flags) == flags.len() <==> (forall|i: int|
            0 <= i < flags.len() ==> flags[i]),
    decreases flags.len(),
{
    if flags.len() > 0 {
        let r = flags.drop_last();
        lemma_count_set(r);
        assert(forall|i: int| 0 <= i < r.len() ==> r[i] == flags[i]);
        assert(flags[flags.len() - 1] == flags.last());
        if forall|i: int| 0 <= i < flags.len() ==> !flags[i] {
            assert(!flags[flags.len() - 1]);
        }
        if forall|i: int| 0 <= i < flags.len() ==> flags[i] {
            assert(flags[flags.len() - 1]);
        }
    }
}

/// The tonal block: a set bit and the code word of the number of bands less one; for two
/// channels the flags of shared bands, the flag of the leading channel and an unset bit;
/// then the channels, the first before the second.
pub proof fn law_tonal_block_reads_back(t: At3PGhaData, tab: Seq<VlcElement>, channels: int)
    requires
        1 <= channels <= 2,
        1 <= t.num_tone_bands <= 16,
    ensures
        ({
            let n = t.num_tone_bands as int;
            let e = tab[n - 1];
            let head = seq![true] + bits::msb_bits(e.code as u16 as nat, e.len as u8 as nat);
            let b = fields::fields_bits(tonal::tonal_block_fields(t, tab, channels));
            &&& channels == 1 ==> b == head + fields::fields_bits(tonal::channel_fields(t, 0))
            &&& channels == 2 ==> b == head + fields::fields_bits(
                tonal::flags_fields(t.tone_sharing@.take(n)),
            ) + (if t.second_is_leader {
                seq![true, false]
            } else {
                seq![false]
            }) + seq![false] + fields::fields_bits(tonal::channel_fields(t, 0))
                + fields::fields_bits(tonal::channel_fields(t, 1))
        }),
{
    let n = t.num_tone_bands as int;
    let e = tab[n - 1];
    let o = seq![(1u16, 1u8)];
    let x = (e.code as u16, e.len as u8);
    let head = seq![(1u16, 1u8), x];
    lemma_few_bits();
    fields::lemma_fields_bits_push(o, x);
    assert(o.push(x) =~= head);
    let c0 = tonal::channel_fields(t, 0);
    let c1 = tonal::channel_fields(t, 1);
    let s = tonal::flags_fields(t.tone_sharing@.take(n));
    let l = tonal::flags_fields(seq![t.second_is_leader]);
    let z = seq![(0u16, 1u8)];
    law_flags_read_back(seq![t.second_is_leader]);
    assert(t.second_is_leader ==> fields::fields_bits(l) == seq![true, false]);
    assert(!t.second_is_leader ==> fields::fields_bits(l) == seq![false]);
    fields::lemma_fields_bits_concat(head, c0);
    fields::lemma_fields_bits_concat(head, s);
    fields::lemma_fields_bits_concat(head + s, l);
    fields::lemma_fields_bits_concat(head + s + l, z);
    fields::lemma_fields_bits_concat(head + s + l + z, c0);
    fields::lemma_fields_bits_concat(head + s + l + z + c0, c1);
}

} // verus!
