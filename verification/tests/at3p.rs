use atracdenc_core::at3p::bitstream::{create_freq_bit_pack, At3PBitStream, TonePackOrder};
use atracdenc_core::at3p::ff_dsp::{offset_end, onset, wave_start, ChanUnitCtx, WaveEnvelope};
use atracdenc_core::at3p::encoder::{
    block_layout, parse_advanced_opt, search_goes_on, write_block, At3pSettings, EncoderState,
    GHA_ENABLED, GHA_PASS_INPUT, GHA_WRITE_TONAL,
};
use atracdenc_core::at3p::fields::{count_bits, Dumper};
use atracdenc_core::at3p::frame::{
    At3pPart, ScaledBlock, SingleChannelElement, SpecFrame, SubbandInfos,
};
use atracdenc_core::at3p::gha::{At3PGhaData, WaveParam, WaveSbInfo};
use atracdenc_core::at3p::gha_result::{
    adjust_envelope, envelopes_fit, fill_result_buf, ChannelTones, ToneEntry,
};
use atracdenc_core::at3p::gha_track::{
    amplitude_to_sf, before_analysis, check_residual, gha_freq_to_index, gha_phase_to_index,
    AdjustStatus, RoundAction, RoundState, SubbandEvent, ToneMap, ToneTracker, BAND_DONE,
};
use atracdenc_core::at3p::mdct::At3pMdctWin;
use atracdenc_core::at3p::tables::{
    gen_huffman_enc_table, CodeBooks, HuffTables, SpectraTab, VlcElement, SPECS_PER_BLOCK,
};
use atracdenc_core::at3p::tonal::write_subband_flags;
use atracdenc_core::bitstream::encode::{BitStreamEncodeError, BitStreamEncoder};
use atracdenc_core::bitstream::BitStream;
use atracdenc_core::container::raw::RawOutput;
use atracdenc_core::pcm::engine::ProcessResult;

fn wp(freq: u32) -> WaveParam {
    WaveParam {
        freq_index: freq,
        amp_sf: 0,
        amp_index: 0,
        phase_index: 0,
    }
}

#[test]
fn tone_freq_bit_pack_1() {
    let r = create_freq_bit_pack(&[wp(1)]);
    assert_eq!(r.used_bits, 10);
    assert_eq!(r.order, TonePackOrder::Asc);
    assert_eq!(r.data.len(), 1);
    assert_eq!(r.data[0].code, 1);
    assert_eq!(r.data[0].bits, 10);
}

#[test]
fn tone_freq_bit_pack_512_1020_1023() {
    let r = create_freq_bit_pack(&[wp(512), wp(1020), wp(1023)]);
    assert_eq!(r.used_bits, 21);
    assert_eq!(r.order, TonePackOrder::Asc);
    assert_eq!(r.data.len(), 3);
    assert_eq!((r.data[0].code, r.data[0].bits), (512, 10));
    assert_eq!((r.data[1].code, r.data[1].bits), (508, 9));
    assert_eq!((r.data[2].code, r.data[2].bits), (3, 2));
}

#[test]
fn tone_freq_bit_pack_1_2_3() {
    let r = create_freq_bit_pack(&[wp(1), wp(2), wp(3)]);
    assert_eq!(r.used_bits, 14);
    assert_eq!(r.order, TonePackOrder::Desc);
    assert_eq!(r.data.len(), 3);
    assert_eq!((r.data[0].code, r.data[0].bits), (3, 10));
    assert_eq!((r.data[1].code, r.data[1].bits), (2, 2));
    assert_eq!((r.data[2].code, r.data[2].bits), (1, 2));
}

#[test]
fn tone_freq_bit_pack_1_2_3_1020_1021_1022() {
    let r = create_freq_bit_pack(&[wp(1), wp(2), wp(3), wp(1020), wp(1021), wp(1022)]);
    assert_eq!(r.used_bits, 44);
    assert_eq!(r.order, TonePackOrder::Desc);
    assert_eq!(r.data.len(), 6);
    assert_eq!((r.data[0].code, r.data[0].bits), (1022, 10));
    assert_eq!((r.data[1].code, r.data[1].bits), (1021, 10));
    assert_eq!((r.data[2].code, r.data[2].bits), (1020, 10));
    assert_eq!((r.data[3].code, r.data[3].bits), (3, 10));
    assert_eq!((r.data[4].code, r.data[4].bits), (2, 2));
    assert_eq!((r.data[5].code, r.data[5].bits), (1, 2));
}

#[test]
fn tone_freq_bit_pack_1_2_1020_1021_1022() {
    let r = create_freq_bit_pack(&[wp(1), wp(2), wp(1020), wp(1021), wp(1022)]);
    assert_eq!(r.used_bits, 34);
    assert_eq!(r.order, TonePackOrder::Asc);
    assert_eq!(r.data.len(), 5);
    assert_eq!((r.data[0].code, r.data[0].bits), (1, 10));
    assert_eq!((r.data[1].code, r.data[1].bits), (2, 10));
    assert_eq!((r.data[2].code, r.data[2].bits), (1020, 10));
    assert_eq!((r.data[3].code, r.data[3].bits), (1, 2));
    assert_eq!((r.data[4].code, r.data[4].bits), (2, 2));
}

#[test]
fn parse_advanced_ghadbg() {
    let mut s = At3pSettings::default();
    parse_advanced_opt(Some("ghadbg=5"), &mut s).unwrap();
    assert_eq!(s.use_gha, 5);
    assert!(parse_advanced_opt(Some("ghadbg=8"), &mut s).is_err());
    assert!(parse_advanced_opt(Some("unknown=1"), &mut s).is_err());
    let mut s2 = At3pSettings::default();
    parse_advanced_opt(None, &mut s2).unwrap();
    assert_eq!(s2.use_gha, GHA_ENABLED);
}

#[test]
fn advanced_options_say_what_is_wrong() {
    for (opt, mask, why) in [
        ("ghadbg=1,", 1, "unexpected \",\" just after key."),
        (",ghadbg=1", 7, "unexpected \",\" just after key."),
        ("ghadbg", 7, "unexpected end of key token"),
        ("ghadbg=2,x", 2, "unexpected end of key token"),
        ("ghadbg=x", 7, "invalid value of GHA processing mask"),
        ("ghadbg=", 7, "invalid value of GHA processing mask"),
        ("ghadbg=-1", 7, "invalud value of GHA processing mask"),
        ("key=3", 7, "unexpected advanced option \"key"),
        ("=3", 7, "unexpected advanced option \""),
    ] {
        let mut s = At3pSettings::default();
        let e = parse_advanced_opt(Some(opt), &mut s).unwrap_err();
        assert_eq!(format!("invalid input: {why}"), e.message());
        assert_eq!(mask, s.use_gha);
    }
    let mut s = At3pSettings::default();
    parse_advanced_opt(Some(""), &mut s).unwrap();
    parse_advanced_opt(Some("ghadbg=1,ghadbg=+3"), &mut s).unwrap();
    assert_eq!(3, s.use_gha);
}

fn small_book(len: usize, words: u8) -> [u8; 12] {
    let mut cb = [0; 12];
    cb[len - 1] = words;
    cb
}

/// Sixteen tone words of four bits; word lengths with one bit for no change; in
/// the spectra 256 words of 9 to 11 bits.
fn books() -> CodeBooks {
    let mut wl = small_book(1, 1);
    wl[3] = 7;
    let mut long_row = [0_i8; 12];
    long_row[8] = 127;
    long_row[9] = 127;
    long_row[10] = 2;
    let mut alias = [0_i8; 12];
    alias[0] = -1;
    let mut spectra_cbs = vec![long_row, long_row];
    spectra_cbs.resize(112, alias);
    CodeBooks {
        tone_cbs: small_book(4, 16),
        tone_xlats: (0..16).collect(),
        wl_cbs: [wl; 4],
        ct_cbs: [small_book(3, 8); 4],
        wl_ct_xlats: (0..64).map(|i| i % 8).collect(),
        spectra_cbs,
        spectra_xlats: (0..512).map(|i| (i % 256) as u8).collect(),
        spectra_tabs: vec![
            SpectraTab {
                group_size: 1,
                num_coeffs: 2,
                bits: 4,
                is_signed: true,
            };
            112
        ],
        qu_to_subband: [
            0, 0, 0, 0, 0, 0, 0, 0, 1, 1, 1, 1, 2, 2, 2, 2, 3, 3, 4, 4, 5, 5, 6, 7, 8, 9, 10, 11,
            12, 13, 14, 15,
        ],
        subband_to_num_powgrps: [1, 2, 2, 3, 3, 3, 3, 4, 4, 4, 4, 4, 5, 5, 5, 5],
    }
}

#[test]
fn huff_tables_build() {
    let t = HuffTables::new(&books());
    assert_eq!(t.vlc_specs.len(), 112);
    for e in &t.num_tone_bands {
        assert!(e.len > 0);
    }
}

#[test]
fn alias_rows_are_copies() {
    let t = HuffTables::new(&books());
    assert_eq!(t.vlc_specs[1], t.vlc_specs[111]);
    assert_eq!((0, 9), (t.vlc_specs[0][0].code, t.vlc_specs[0][0].len));
    assert_eq!((254, 10), (t.vlc_specs[0][127].code, t.vlc_specs[0][127].len));
    assert_eq!((1, 3), (t.code_tables[0][1].code, t.code_tables[0][1].len));
}

#[test]
fn canonical_codes_count_up() {
    let mut cb = [0; 12];
    cb[0] = 1;
    cb[1] = 1;
    cb[2] = 2;
    let mut out = vec![VlcElement { code: 0, len: 0 }; 4];
    assert_eq!(4, gen_huffman_enc_table(&cb, &[2, 0, 3, 1], &mut out));
    let got: Vec<(i16, i16)> = out.iter().map(|e| (e.code, e.len)).collect();
    assert_eq!(vec![(0b10, 2), (0b111, 3), (0, 1), (0b110, 3)], got);

    let mut longer = vec![VlcElement { code: 0, len: 0 }; 4];
    let counts = [&cb[..], &[9, 9]].concat();
    assert_eq!(4, gen_huffman_enc_table(&counts, &[2, 0, 3, 1], &mut longer));
    assert!(out.iter().zip(&longer).all(|(a, b)| (a.code, a.len) == (b.code, b.len)));
}

#[test]
fn wordlen() {
    let books = books();
    let huff = HuffTables::new(&books);
    let sce: Vec<SingleChannelElement> = Vec::new();
    let mut frame = SpecFrame::new(444, 28, 2, None, &sce, &huff, &books);
    frame.num_quant_units = 6;
    for _ in 0..6 {
        frame.word_len.push((6, 6));
    }

    let mut bs = BitStream::new();
    let mut encoder: BitStreamEncoder<At3pPart> =
        BitStreamEncoder::new(vec![At3pPart::WordLen(Dumper::new())]);
    encoder.run(&mut frame, &mut bs, 0_i32).unwrap();

    assert_eq!(bs.size_in_bits(), 28);
}

fn silent_channel() -> SingleChannelElement {
    SingleChannelElement {
        subband_info: SubbandInfos {
            win: At3pMdctWin::new(),
        },
        scaled_blocks: SPECS_PER_BLOCK
            .iter()
            .map(|n| ScaledBlock {
                scale_factor_index: 0,
                mantissas: vec![0; *n as usize],
            })
            .collect(),
    }
}

#[test]
fn frames_drop_units_until_they_fit() {
    let books = books();
    let huff = HuffTables::new(&books);
    let sces = [silent_channel(), silent_channel()];
    let roomy = At3PBitStream::new(4096).encode_frame(2, None, &sces, &huff, &books).unwrap();
    assert_eq!(4096, roomy.len());
    let mut bs = BitStream::from_bytes(&roomy);
    assert_eq!(0, bs.read(1));
    assert_eq!(1, bs.read(2));
    assert_eq!(31, bs.read(5));
    let tight = At3PBitStream::new(256).encode_frame(2, None, &sces, &huff, &books).unwrap();
    assert_eq!(256, tight.len());
    let mut bs = BitStream::from_bytes(&tight);
    bs.read(3);
    assert!(bs.read(5) < 28);
    let mut out = RawOutput::new(2, None);
    At3PBitStream::new(256)
        .write_frame(&mut out, 2, None, &sces, &huff, &books)
        .unwrap();
    assert_eq!(tight, out.into_inner());
}

#[test]
fn blocks_are_written_one_behind_with_the_tones_before() {
    let books = books();
    let huff = HuffTables::new(&books);
    let sces = [silent_channel()];
    let bitstream = At3PBitStream::new(2048);
    let mut state = EncoderState::new(At3pSettings::default());
    let mut tones = At3PGhaData::default();
    tones.num_tone_bands = 1;
    tones.waves[0].wave_sb_infos.push(WaveSbInfo {
        wave_index: 0,
        wave_nums: 1,
        envelope: (At3PGhaData::EMPTY_POINT, At3PGhaData::EMPTY_POINT),
    });
    tones.waves[0].wave_params.push(wp(7));
    let plain = bitstream.encode_frame(1, None, &sces, &huff, &books).unwrap();
    let tonal = bitstream.encode_frame(1, Some(&tones), &sces, &huff, &books).unwrap();
    assert_ne!(plain, tonal);

    let mut frames = Vec::new();
    for _ in 0..3 {
        let mut out = RawOutput::new(1, None);
        let result = state.block_analysed();
        let r = write_block(&bitstream, &mut out, &state, result, 1, &sces, &huff, &books);
        assert_eq!(Ok(result), r);
        if result == ProcessResult::Processed {
            state.frame_done(Some(tones.clone()));
        }
        frames.push(out.into_inner());
    }
    assert_eq!(vec![Vec::new(), plain, tonal], frames);
    assert_eq!(2048, frames[2].len());
}

#[test]
fn rounds_end_when_the_frame_is_full() {
    let fold = |events: &[SubbandEvent]| {
        events.iter().fold(RoundState::new(), |s, e| s.step(*e))
    };
    let s = fold(&[SubbandEvent::Skipped, SubbandEvent::Added, SubbandEvent::GivenUp]);
    assert_eq!((true, false), (s.progress, s.ended));
    let s = fold(&[SubbandEvent::Added, SubbandEvent::Full]);
    assert_eq!((false, true), (s.progress, s.ended));
    let s = fold(&[SubbandEvent::NothingAdded, SubbandEvent::GivenUp]);
    assert_eq!((false, false), (s.progress, s.ended));

    assert_eq!(Some(SubbandEvent::Skipped), before_analysis(RoundAction::Skip, true));
    assert_eq!(Some(SubbandEvent::Full), before_analysis(RoundAction::Stop, true));
    assert_eq!(Some(SubbandEvent::GivenUp), before_analysis(RoundAction::Adjust, false));
    assert_eq!(None, before_analysis(RoundAction::Adjust, true));
    assert_eq!(None, before_analysis(RoundAction::Analyse, false));
}

#[test]
fn second_channel_is_silent_in_mono() {
    let mut data = At3PGhaData::default();
    data.num_tone_bands = 1;
    data.waves[0].wave_sb_infos = vec![WaveSbInfo {
        wave_index: 0,
        wave_nums: 1,
        envelope: (At3PGhaData::EMPTY_POINT, At3PGhaData::EMPTY_POINT),
    }];
    data.waves[0].wave_params = vec![wp(7)];
    let mut unit = ChanUnitCtx::default();
    for _ in 0..3 {
        unit.load_tones(Some(&data), false);
        unit.plan_tones(0, 0);
        assert!(unit.band_sounds(0, 0));
        assert!((0..16).all(|sb| !unit.band_sounds(1, sb)));
        unit.swap_history();
    }
}

#[test]
fn frames_refuse_more_tonal_bands_than_units() {
    let books = books();
    let huff = HuffTables::new(&books);
    let sces = [silent_channel()];
    let mut tones = At3PGhaData::default();
    tones.num_tone_bands = 16;
    for _ in 0..16 {
        tones.waves[0].wave_sb_infos.push(WaveSbInfo::default());
    }
    let r = At3PBitStream::new(48).encode_frame(1, Some(&tones), &sces, &huff, &books);
    assert!(matches!(
        r,
        Err(BitStreamEncodeError::TonalBandsExceedQuantUnits { tone_bands: 16, .. })
    ));
}

#[test]
fn windows_are_counted_per_subband() {
    let mut w = At3pMdctWin::new();
    assert!(w.is_all_sine());
    w.set_steep_win(3);
    assert!(w.is_sb_steep(3) && !w.is_sb_steep(2));
    assert!(!w.is_all_sine() && !w.is_all_steep(4));
    assert_eq!(8, w.flags());
    assert!(At3pMdctWin::all_steep_win().is_all_steep(15));
    assert!(At3pMdctWin::all_steep_win().is_all_steep(16));
    assert!(!At3pMdctWin::new().is_all_steep(16));
}

#[test]
fn subband_flags_shorten_to_one_bit() {
    let mut d = Dumper::new();
    write_subband_flags(&mut d, &[false; 4]);
    assert_eq!(1, count_bits(&d.buf));
    let mut mixed = Dumper::new();
    write_subband_flags(&mut mixed, &[true, false, true]);
    let mut bs = BitStream::new();
    mixed.dump(&mut bs);
    assert_eq!(5, bs.size_in_bits());
    assert_eq!(0b11101, bs.read(5));
}

#[test]
fn tone_maps_are_sorted_by_key() {
    let mut m = ToneMap::new();
    m.insert(1030, 'c');
    m.insert(5, 'a');
    m.insert(1024, 'b');
    m.insert(5, 'A');
    assert_eq!(3, m.len());
    assert_eq!([(5, 'A'), (1024, 'b'), (1030, 'c')], [m.get(0), m.get(1), m.get(2)]);
    assert!(m.has_in(1024, 2048) && !m.has_in(6, 1024));
    m.remove(1024);
    m.remove(7);
    assert_eq!(2, m.len());
}

#[test]
fn rounds_skip_what_is_done_and_stop_when_full() {
    let mut t: ToneTracker<u8> = ToneTracker::new();
    assert!(!t.is_subband_done(2));
    assert_eq!(RoundAction::Analyse, t.next_action(2, 0));
    assert_eq!(RoundAction::Stop, t.next_action(2, 48));
    t.mark_subband_done(2);
    assert!(t.is_subband_done(2));
    assert_eq!(RoundAction::Skip, t.next_action(2, 0));
    let mut total = 0;
    assert!(t.add_tone(3, 3 << 10, true, 9, &mut total));
    assert_eq!(RoundAction::Adjust, t.next_action(3, total));
    assert!(search_goes_on([false, true], 47));
    assert!(!search_goes_on([false, true], 48));
    assert!(!search_goes_on([false, false], 0));
}

#[test]
fn found_tones_become_waves() {
    let ch = ChannelTones {
        tones: vec![
            ToneEntry { key: 100, amp_sf: 30, phase_index: 3 },
            ToneEntry { key: 1024 + 7, amp_sf: 31, phase_index: 4 },
        ],
        envelopes: [(0, 128); 8],
    };
    let history = At3PGhaData::default();
    let mut result = At3PGhaData::default();
    assert!(envelopes_fit(&history, std::slice::from_ref(&ch)));
    fill_result_buf(&mut result, &history, &[ch]);
    assert_eq!(2, result.num_tone_bands);
    assert_eq!((1, 1), (result.num_waves(0, 0), result.num_waves(0, 1)));
    let (waves, n) = result.waves(0, 1);
    assert_eq!((1, 7, 31), (n, waves[0].freq_index, waves[0].amp_sf));
}

#[test]
fn envelopes_must_be_known_where_tones_are() {
    let unknown = (At3PGhaData::INIT, At3PGhaData::INIT);
    let tones = |key| vec![ToneEntry { key, amp_sf: 1, phase_index: 0 }];
    let history = At3PGhaData::default();
    let mut known = ChannelTones { tones: tones(3), envelopes: [unknown; 8] };
    known.envelopes[0] = (4, 64);
    assert!(envelopes_fit(&history, std::slice::from_ref(&known)));
    let shared = ChannelTones { tones: tones(3), envelopes: [unknown; 8] };
    let own = ChannelTones { tones: tones(9), envelopes: [unknown; 8] };
    assert!(!envelopes_fit(&history, std::slice::from_ref(&own)));
    let pair = [known, shared];
    assert!(envelopes_fit(&history, &pair));
    let [known, _] = pair;
    assert!(!envelopes_fit(&history, &[known, own]));
}

#[test]
fn envelopes_look_back() {
    let e = At3PGhaData::EMPTY_POINT;
    assert_eq!((e, e), adjust_envelope((0, e), e));
    assert_eq!((0, e), adjust_envelope((0, e), 5));
    assert_eq!((2, 31), adjust_envelope((8, 128), e));
}

#[test]
fn tonal_components_wait_for_the_next_frame() {
    let mut s = EncoderState::new(At3pSettings::default());
    assert_eq!((0, None), (s.next_index(), s.cur_index()));
    assert_eq!(ProcessResult::LookAhead, s.block_analysed());
    assert_eq!((1, Some(0)), (s.next_index(), s.cur_index()));
    assert_eq!(ProcessResult::Processed, s.block_analysed());
    assert!(s.delayed_tones().is_none());
    let mut tones = At3PGhaData::default();
    tones.num_tone_bands = 2;
    s.frame_done(Some(tones.clone()));
    assert_eq!((0, Some(1)), (s.next_index(), s.cur_index()));
    assert_eq!(2, s.delayed_tones().unwrap().num_tone_bands);
    s.frame_done(Some(At3PGhaData::default()));
    assert!(s.delayed_tones().is_none());
    assert!(s.writes_residual() && s.passes_input());

    let mut quiet = EncoderState::new(At3pSettings { use_gha: GHA_PASS_INPUT });
    quiet.block_analysed();
    quiet.frame_done(Some(tones));
    assert!(quiet.delayed_tones().is_none());
    assert!(!quiet.writes_residual());
    assert!(!EncoderState::new(At3pSettings { use_gha: GHA_WRITE_TONAL }).passes_input());
}

#[test]
fn layout_comes_from_the_tables() {
    let (per_band, starts, lens, short) = block_layout();
    assert_eq!((17, 33, 32, 16), (per_band.len(), starts.len(), lens.len(), short.len()));
    assert_eq!((32, 2048, 128), (per_band[16], starts[32], lens[31]));
    assert!(short.iter().all(|s| !s));
}

#[test]
fn rounded_values_become_indices() {
    assert_eq!(3 * 1024 + 5, gha_freq_to_index(5, 3));
    assert_eq!(1023, gha_freq_to_index(-1, 0));
    assert_eq!(1024, gha_freq_to_index(1024, 1));
    assert_eq!([0, 31, 1], [32, -1, 33].map(gha_phase_to_index));
    let table = [10, 20, 20, 30];
    assert_eq!([0, 0, 2, 3], [5, 10, 25, 99].map(|a| amplitude_to_sf(&table, a)));
}

#[test]
fn residuals_are_judged() {
    let init = (At3PGhaData::INIT, At3PGhaData::INIT);
    let mut good = [true; 32];
    let v = check_residual(init, AdjustStatus::Good, 0, &good, false);
    assert_eq!((AdjustStatus::Good, (0, 128)), (v.status, v.envelope));
    assert!(v.keep_energy && v.apply);

    let v = check_residual(init, AdjustStatus::Good, 0, &good, true);
    assert_eq!((AdjustStatus::Error, init), (v.status, v.envelope));
    assert!(!v.keep_energy && !v.apply);

    good[10..].fill(false);
    good[0] = false;
    let v = check_residual(init, AdjustStatus::Good, 0, &good, true);
    assert_eq!((AdjustStatus::Repeat, 40), (v.status, v.frame_sz));
    let v = check_residual(init, AdjustStatus::Repeat, 40, &good, false);
    assert_eq!((AdjustStatus::Good, (4, 40)), (v.status, v.envelope));
    let open = (0, At3PGhaData::EMPTY_POINT);
    let v = check_residual(open, AdjustStatus::Repeat, 40, &good, false);
    assert_eq!((AdjustStatus::Error, (4, open.1)), (v.status, v.envelope));
    assert!(v.keep_energy && !v.apply);

    good[4..].fill(false);
    let v = check_residual(init, AdjustStatus::Good, 0, &good, false);
    assert_eq!(AdjustStatus::Error, v.status);
}

#[test]
fn tones_keep_their_distance() {
    let mut t: ToneTracker<u8> = ToneTracker::new();
    let mut total = 0;
    assert!(t.add_tone(0, 100, true, 1, &mut total));
    assert_eq!((1, 1, 100), (total, t.subband_done[0], t.last_added_freq_idx[0]));
    assert_eq!(RoundAction::Adjust, t.next_action(0, total));
    assert!(t.settle_adjusted(0, true, &[(101, 2)], false, &mut total));
    assert_eq!((1, (101, 2)), (t.tones.len(), t.tones.get(0)));

    assert!(t.add_tone(0, 121, true, 3, &mut total));
    assert_eq!(2, total);
    assert!(!t.settle_adjusted(0, true, &[(110, 2), (110, 3)], false, &mut total));
    assert_eq!((1, 1, BAND_DONE), (total, t.tones.len(), t.subband_done[0]));

    assert!(t.add_tone(3, 3172, true, 5, &mut total));
    assert!(!t.add_tone(3, 3191, true, 6, &mut total));
    assert_eq!((2, BAND_DONE), (total, t.subband_done[3]));
    assert!(!t.add_tone(1, 1024, false, 4, &mut total));
    assert_eq!(BAND_DONE, t.subband_done[1]);
    assert_eq!(total, t.tones.len());
}

#[test]
fn tones_without_a_sequel_are_dropped() {
    let mut t: ToneTracker<u8> = ToneTracker::new();
    let mut total = 0;
    assert!(t.add_tone(2, 2048 + 9, true, 1, &mut total));
    t.envelopes[2] = (0, 128);
    assert!(t.settle_adjusted(2, true, &[(2048 + 9, 1)], true, &mut total));
    assert_eq!((true, At3PGhaData::EMPTY_POINT), (t.gapless[2], t.envelopes[2].1));
    assert!(!t.settle_adjusted(2, true, &[(2048 + 9, 1)], false, &mut total));
    assert_eq!((0, 0, BAND_DONE), (total, t.tones.len(), t.subband_done[2]));
}

fn envelope(start: Option<i32>, stop: Option<i32>) -> WaveEnvelope {
    WaveEnvelope {
        has_start_point: start.is_some(),
        has_stop_point: stop.is_some(),
        start_pos: start.unwrap_or(-1),
        stop_pos: stop.unwrap_or(32),
    }
}

#[test]
fn waves_start_and_end_on_the_grid() {
    assert_eq!(832, wave_start(1, 10, 128));
    assert_eq!(64, wave_start(33, 10, 0));
    assert_eq!(None, onset(envelope(Some(0x1FFF_FFFF), None), 0));
    assert_eq!(None, offset_end(envelope(None, Some(-0x1FFF_0000)), 128));
    assert_eq!(Some((20, true)), onset(envelope(Some(5), None), 0));
    assert_eq!(Some((20, false)), onset(envelope(Some(5), Some(5)), 0));
    assert_eq!(Some((4, true)), onset(envelope(Some(33), Some(40)), 128));
    assert_eq!(None, onset(envelope(Some(0), None), 0));
    assert_eq!(None, onset(envelope(None, None), 0));
    assert_eq!(Some(24), offset_end(envelope(None, Some(5)), 0));
    assert_eq!(Some(128), offset_end(envelope(None, Some(31)), 0));
    assert_eq!(None, offset_end(envelope(None, Some(32)), 0));
    assert_eq!(None, offset_end(envelope(Some(1), None), 0));
}

#[test]
fn tones_fade_from_frame_to_frame() {
    let mut data = At3PGhaData::default();
    data.num_tone_bands = 1;
    data.waves[0].wave_sb_infos = vec![WaveSbInfo {
        wave_index: 0,
        wave_nums: 1,
        envelope: (At3PGhaData::EMPTY_POINT, At3PGhaData::EMPTY_POINT),
    }];
    data.waves[0].wave_params = vec![wp(7)];
    let mut unit = ChanUnitCtx::default();
    unit.load_tones(Some(&data), false);
    assert!(unit.waves_info.tones_present && !unit.waves_info_prev.tones_present);
    assert_eq!((1, 7), (unit.waves_info.tones_index, unit.waves_info.waves[0].freq_index));
    assert!(unit.band_sounds(0, 0) && !unit.band_sounds(0, 1) && !unit.band_sounds(1, 0));
    let plan = unit.plan_tones(0, 0);
    assert!(!plan.synth_now && plan.synth_next && !plan.fade_now && plan.fade_next);
    assert_eq!((0, 64), (plan.next.curr_env.start_pos, plan.next.curr_env.stop_pos));

    unit.swap_history();
    unit.load_tones(None, false);
    assert!(unit.band_sounds(0, 0) && !unit.waves_info.tones_present);
    let plan = unit.plan_tones(0, 0);
    assert!(plan.synth_now && !plan.synth_next && plan.fade_now && !plan.fade_next);

    unit.swap_history();
    unit.load_tones(None, false);
    assert!((0..16).all(|sb| !unit.band_sounds(0, sb) && !unit.band_sounds(1, sb)));
}
