use atracdenc_core::at3::bitstream::{
    block_band, calc_bits_allocation, calc_initial_num_bfu, calc_specs_bits_consumption,
    check_bfus, clc_encode, consider_energy_err, encode_specs, encode_tonal_components,
    max_specs_per_block, settle_precision, silent_allocation, vlc_encode, Allocation,
    AllocationSearch, QuantLevel, ScaledBlock, SingleChannelElement, TonalBlock, BOOST_NAQ_END,
};
use atracdenc_core::at3::data as at3;
use atracdenc_core::at3::data::{
    container_params, huff_table_for, lp2, lp4, mantissa_to_clc_idx, mantissas_to_vlc_index,
    params_for_bitrate, BfuAllocMode, EncodeSettings, SubbandInfo, TonalVal, BLOCK_SIZE_TAB,
    NUM_HUFF_TABLES, NUM_QMF,
};
use atracdenc_core::at3::encoder::{
    complete_elements, encoder_channels, finish_curve, keeps_curve, push_tonal_run, tonal_groups,
    band_curve, tonal_window, with_point_zero, write_block, FrameState, LookAhead,
};
use atracdenc_core::at3::sound_unit::Atrac3BitStreamWriter;
use atracdenc_core::bitstream::{make_sign, BitStream};
use atracdenc_core::pcm::engine::ProcessResult;
use atracdenc_core::container::{CompressedOutput, ContainerError};
use atracdenc_core::dsp::gain::GainPoint;
use atracdenc_core::dsp::transient::GainCurvePoint;

const MAX_QUANT: [f32; 8] = [0.0, 1.5, 2.5, 3.5, 4.5, 7.5, 15.5, 31.5];

fn quantise(values: &[f32], selector: usize) -> Vec<i32> {
    values
        .iter()
        .map(|v| (v * MAX_QUANT[selector]).round_ties_even() as i32)
        .collect()
}

fn scaled_block(scale_factor_index: u8, values: &[f32]) -> ScaledBlock {
    ScaledBlock {
        scale_factor_index,
        levels: (1..8)
            .map(|p| QuantLevel {
                mantissas: quantise(values, p),
                boost: false,
            })
            .collect(),
    }
}

fn tonal_block(pos: u16, bfu: u8, scale_factor_index: u8, values: &[f32]) -> TonalBlock {
    TonalBlock {
        val: TonalVal { pos, bfu },
        scale_factor_index,
        mantissas: (2..8).map(|p| quantise(values, p)).collect(),
    }
}

#[test]
fn data_tables_match_expected_shapes() {
    assert_eq!(at3::MAX_BFUS, at3::BLOCKS_PER_BAND[at3::NUM_QMF] as usize);
    assert_eq!(
        1024,
        at3::SPECS_START_LONG[at3::MAX_BFUS - 1] + at3::SPECS_PER_BLOCK[at3::MAX_BFUS - 1]
    );
    assert_eq!(at3::SPECS_START_SHORT, at3::SPECS_START_LONG);
}

#[test]
fn at3_bfu_mode_defaults_to_fast() {
    assert_eq!(BfuAllocMode::Fast, BfuAllocMode::default());
    assert_eq!(BfuAllocMode::Fast, EncodeSettings::default().bfu_alloc_mode);
}

#[test]
fn initial_bfu_count_matches_budget_limit() {
    assert_eq!(32, calc_initial_num_bfu(0, 101));
    assert_eq!(16, calc_initial_num_bfu(16, 400));
    assert_eq!(1, calc_initial_num_bfu(0, 5));
    assert_eq!(5, calc_initial_num_bfu(0, 20));
    assert_eq!(5, calc_initial_num_bfu(8, 20));
}

#[test]
fn clc_selector_one_packs_mantissa_pairs() {
    let mut bs = BitStream::new();
    let bits = clc_encode(1, &[-2, -1, 0, 1], 4, Some(&mut bs));
    assert_eq!(8, bits);
    assert_eq!(8, bs.size_in_bits());
    assert_eq!(0b1011, bs.read(4));
    assert_eq!(0b0001, bs.read(4));
}

#[test]
fn clc_other_selectors_write_two_complement() {
    let mut bs = BitStream::new();
    assert_eq!(10, clc_encode(6, &[-1, 5], 2, Some(&mut bs)));
    assert_eq!(0b11111, bs.read(5));
    assert_eq!(5, bs.read(5));
    assert_eq!(10, clc_encode(6, &[-1, 5], 2, None));
}

#[test]
fn clc_reads_back_over_its_whole_range() {
    for (selector, w) in [(1, 2), (2, 3), (3, 3), (4, 4), (5, 4), (6, 5), (7, 6)] {
        let half = 1_i32 << (w - 1);
        let mantissas: Vec<i32> = (-half..half).collect();
        let n = mantissas.len() as u32;
        let mut bs = BitStream::new();
        assert_eq!(w * n, clc_encode(selector, &mantissas, n, Some(&mut bs)));
        assert_eq!((w * n) as usize, bs.size_in_bits());
        for m in mantissas {
            assert_eq!(m, make_sign(bs.read(w as usize) as i32, w));
        }
    }
}

#[test]
fn vlc_selector_one_counts_and_writes_huffman_pairs() {
    let mut bs = BitStream::new();
    let bits = vlc_encode(1, &[-1, -1, 0, 0], 4, Some(&mut bs));
    assert_eq!(6, bits);
    assert_eq!(6, bs.size_in_bits());
    assert_eq!(0b1_1111, bs.read(5));
    assert_eq!(0, bs.read(1));
}

#[test]
fn code_words_are_prefix_free() {
    for selector in 1..8 {
        let table = huff_table_for(selector);
        for (i, a) in table.iter().enumerate() {
            for (j, b) in table.iter().enumerate() {
                if i != j && a.1 <= b.1 {
                    assert_ne!(a.0, b.0 >> (b.1 - a.1));
                }
            }
        }
    }
}

#[test]
fn energy_error_boosts_low_blocks_only() {
    let err = vec![true; 12];
    let mut bits = vec![1; 12];
    assert!(consider_energy_err(&err, &mut bits));
    assert!(bits[..BOOST_NAQ_END].iter().all(|x| *x == 2));
    assert!(bits[BOOST_NAQ_END..].iter().all(|x| *x == 1));
}

#[test]
fn check_bfus_trims_one_trailing_zero_bfu() {
    let mut num_bfu = 3;
    assert!(check_bfus(&mut num_bfu, &[4, 2, 0]));
    assert_eq!(2, num_bfu);

    let mut num_bfu = 3;
    assert!(!check_bfus(&mut num_bfu, &[4, 0, 1]));
    assert_eq!(3, num_bfu);
}

#[test]
fn bitstream_writer_defaults_to_fast_bfu_allocation() {
    let writer = Atrac3BitStreamWriter::new(lp2(), 0);
    assert_eq!(BfuAllocMode::Fast, writer.bfu_alloc_mode());
}

#[test]
fn bitstream_writer_keeps_its_parameters() {
    let writer = Atrac3BitStreamWriter::with_alloc_mode(lp4(), 5, BfuAllocMode::Parity);
    assert_eq!(lp4(), writer.params());
    assert_eq!(5, writer.bfu_idx_const());
    assert_eq!(BfuAllocMode::Parity, writer.bfu_alloc_mode());
    assert_eq!(&[0; 192], writer.frame_buffer());
}

#[test]
fn block_band_uses_atrac3_bfu_boundaries() {
    assert_eq!(0, block_band(0));
    assert_eq!(0, block_band(17));
    assert_eq!(1, block_band(18));
    assert_eq!(2, block_band(26));
    assert_eq!(3, block_band(30));
    assert_eq!(128, max_specs_per_block());
}

#[test]
fn bitrate_lookup_matches_cpp_lower_bound_defaulting() {
    assert_eq!(Some(lp2()), params_for_bitrate(0));
    assert_eq!(Some(lp4()), params_for_bitrate(66_150));
    assert_eq!(Some(container_params(1)), params_for_bitrate(66_151));
    assert_eq!(Some(lp2()), params_for_bitrate(132_300));
    assert_eq!(None, params_for_bitrate(352_801));
}

#[test]
fn settings_take_the_slowest_format_that_suffices() {
    let s = EncodeSettings::new(100_000, true, false, 1, 4).unwrap();
    assert_eq!(304, s.container_params.frame_sz);
    assert!(s.no_gain_control && !s.no_tonal_components);
    assert_eq!((1, 4), (s.source_channels, s.bfu_idx_const));
    assert!(EncodeSettings::new(400_000, false, false, 2, 0).is_none());
}

#[test]
fn subband_info_stores_and_resets_gain_points() {
    let mut info = SubbandInfo::new();
    assert_eq!(NUM_QMF, info.qmf_num());

    let points = vec![GainPoint {
        level: 3,
        location: 4,
    }];
    info.add_subband_curve(2, points.clone());
    assert_eq!(&points, info.gain_points(2));

    info.reset();
    assert!(info.gain_points(2).is_empty());
}

#[test]
fn helper_tables_match_expected_reverse_mappings() {
    assert_eq!(2, mantissa_to_clc_idx(-2));
    assert_eq!(0, mantissa_to_clc_idx(0));
    assert_eq!(5, mantissas_to_vlc_index(1, 1));
    assert_eq!(7, NUM_HUFF_TABLES);
    assert_eq!(63, huff_table_for(7).len());
}

#[test]
fn empty_lp2_mono_sound_unit_duplicates_first_channel() {
    let mut writer = Atrac3BitStreamWriter::new(lp2(), 0);
    let frame = writer.build_sound_unit_frame(
        &[SingleChannelElement::new(4)],
        0,
        &[silent_allocation()],
    );
    let half = lp2().frame_sz as usize / 2;

    assert_eq!(lp2().frame_sz as usize, frame.len());
    assert_eq!(&frame[..half], &frame[half..]);
    assert_eq!(0xA3, frame[0]);
    assert_eq!(frame, writer.frame_buffer());
}

#[test]
fn empty_lp4_joint_stereo_reverses_second_channel_region() {
    let mut writer = Atrac3BitStreamWriter::new(lp4(), 0);
    let frame = writer.build_sound_unit_frame(
        &[SingleChannelElement::new(4), SingleChannelElement::new(4)],
        0,
        &[silent_allocation(), silent_allocation()],
    );

    assert_eq!(lp4().frame_sz as usize, frame.len());
    assert_eq!(0xA3, frame[0]);
    assert_eq!(0x7F, *frame.last().unwrap());
}

fn find_allocation(sce: &SingleChannelElement, writer: &Atrac3BitStreamWriter) -> Allocation {
    let plan = writer.plan_sound_unit(std::slice::from_ref(sce), 0);
    let mut search = AllocationSearch::new(
        sce,
        plan.target_bits[0],
        writer.bfu_idx_const(),
        writer.bfu_alloc_mode(),
    );
    loop {
        for p in 1..8 {
            let precision = vec![p; search.num_bfu as usize];
            if !search.submit(sce, precision) {
                break;
            }
        }
        if let Some(a) = search.end_round() {
            return a;
        }
    }
}

#[test]
fn non_empty_scaled_blocks_encode_spectral_payload() {
    let mut writer = Atrac3BitStreamWriter::new(lp2(), 0);
    let mut sce = SingleChannelElement::new(4);
    sce.scaled_blocks.push(scaled_block(32, &[0.5; 8]));

    let allocation = find_allocation(&sce, &writer);
    assert_eq!(vec![7], allocation.precision);
    let frame = writer.build_sound_unit_frame(&[sce], 0, &[allocation]);
    assert_eq!(lp2().frame_sz as usize, frame.len());
}

#[test]
fn parity_bfu_allocation_encodes_valid_spectral_payload() {
    let mut writer = Atrac3BitStreamWriter::with_alloc_mode(lp2(), 0, BfuAllocMode::Parity);
    let mut sce = SingleChannelElement::new(4);
    sce.scaled_blocks.push(scaled_block(32, &[0.5; 8]));

    let allocation = find_allocation(&sce, &writer);
    let frame = writer.build_sound_unit_frame(&[sce], 0, &[allocation]);
    assert_eq!(lp2().frame_sz as usize, frame.len());
}

#[test]
fn search_keeps_what_fits_and_trims_silence() {
    let mut sce = SingleChannelElement::new(4);
    for i in 0..3 {
        let n = (BLOCK_SIZE_TAB[i + 1] - BLOCK_SIZE_TAB[i]) as usize;
        sce.scaled_blocks.push(scaled_block(30, &vec![0.5; n]));
    }
    let mut fast = AllocationSearch::new(&sce, 120, 0, BfuAllocMode::Fast);
    assert_eq!(3, fast.num_bfu);
    assert!(fast.submit(&sce, vec![2, 0, 0]));
    assert!(!fast.submit(&sce, vec![7, 7, 7]));
    assert_eq!(vec![2], fast.end_round().unwrap().precision);

    let mut parity = AllocationSearch::new(&sce, 120, 0, BfuAllocMode::Parity);
    assert!(parity.submit(&sce, vec![2, 0, 0]));
    assert!(parity.end_round().is_none());
    assert_eq!(2, parity.num_bfu);
    assert!(parity.submit(&sce, vec![2, 1]));
    assert_eq!(vec![2, 1], parity.end_round().unwrap().precision);

    let mut none = AllocationSearch::new(&sce, 1, 3, BfuAllocMode::Fast);
    let found = none.end_round().unwrap();
    assert!(found.precision.iter().all(|p| *p == 0));
    assert_eq!(1, found.coding_mode);
}

#[test]
fn specs_bit_count_matches_dumped_bits() {
    let mut sce = SingleChannelElement::new(4);
    sce.scaled_blocks.push(scaled_block(32, &[0.5; 8]));
    let precision = [2];
    let (mode, bits) = calc_specs_bits_consumption(&sce.scaled_blocks, &precision);
    let mut bs = BitStream::new();
    encode_specs(&sce, &mut bs, &precision, mode);

    assert_eq!(11 + bits as usize, bs.size_in_bits());
}

#[test]
fn tonal_blocks_encode_payload() {
    let mut writer = Atrac3BitStreamWriter::new(lp2(), 0);
    let mut sce = SingleChannelElement::new(4);
    sce.tonal_blocks.push(tonal_block(0, 0, 32, &[0.5, -0.25]));

    let frame = writer.build_sound_unit_frame(&[sce], 0, &[silent_allocation()]);
    assert_eq!(lp2().frame_sz as usize, frame.len());
}

#[test]
fn tonal_bit_count_matches_dumped_bits() {
    let blocks = [tonal_block(65, 0, 31, &[0.5, -0.25])];
    let alloc = [2_u32];
    let mut bs = BitStream::new();
    let bits = encode_tonal_components(&blocks, &alloc, &mut bs);
    assert_eq!(bits as usize, bs.size_in_bits());
    assert!(bits > 5);
}

#[test]
fn no_tonal_components_take_five_bits() {
    let mut bs = BitStream::new();
    assert_eq!(5, encode_tonal_components(&[], &[0], &mut bs));
    assert_eq!(0, bs.read(5));
}

#[test]
fn tonal_blocks_take_precision_from_their_block() {
    let tonal = [tonal_block(65, 1, 31, &[0.5])];
    let levels = [Some(9), Some(3), Some(0), Some(-1), None];
    assert_eq!(vec![7, 2, 1, 0, 0], calc_bits_allocation(&levels, &tonal));
    assert_eq!(vec![7, 3, 1, 0, 0], calc_bits_allocation(&levels, &[]));
}

#[derive(Default)]
struct Sink {
    frames: Vec<Vec<u8>>,
}

impl CompressedOutput for Sink {
    fn write_frame(&mut self, data: &[u8]) -> Result<(), ContainerError> {
        self.frames.push(data.to_vec());
        Ok(())
    }

    fn name(&self) -> &str {
        ""
    }

    fn channels(&self) -> usize {
        2
    }
}

#[test]
fn empty_sound_unit_writes_through_compressed_output() {
    let mut writer = Atrac3BitStreamWriter::new(lp2(), 0);
    let mut sink = Sink::default();
    writer
        .write_sound_unit(
            &mut sink,
            &[SingleChannelElement::new(4)],
            0,
            &[silent_allocation()],
        )
        .unwrap();

    assert_eq!(1, sink.frames.len());
    assert_eq!(lp2().frame_sz as usize, sink.frames[0].len());
}

#[test]
fn first_block_writes_nothing_then_each_writes_one_frame() {
    let mut settings = EncodeSettings::default();
    settings.container_params = lp2();
    let mut writer = Atrac3BitStreamWriter::new(lp2(), 0);
    let mut state = FrameState::new();
    let mut sink = Sink::default();
    for block in 0..4 {
        let plan = state.next_block(&settings, 2, 1);
        let r = write_block(
            &mut writer,
            &mut sink,
            &plan,
            &[SingleChannelElement::new(4)],
            0,
            &[silent_allocation()],
        );
        let expected = if block == 0 {
            ProcessResult::LookAhead
        } else {
            ProcessResult::Processed
        };
        assert_eq!(Ok(expected), r);
        assert_eq!(block, sink.frames.len());
    }
    assert!(sink.frames.iter().all(|f| f.len() == lp2().frame_sz as usize));
    assert_eq!(3, state.frame_num);
}

#[test]
fn band_curves_are_kept_started_and_finished() {
    let pairs = |raw: &[GainCurvePoint], band, weak, low, start| -> Vec<(u32, u32)> {
        band_curve(raw, band, weak, low, start)
            .iter()
            .map(|p| (p.level, p.location))
            .collect()
    };
    let raw = [point(2, 5), point(6, 9)];
    assert!(pairs(&[], 0, false, false, Some(3)).is_empty());
    assert_eq!(vec![(2, 5), (6, 9)], pairs(&raw, 0, false, false, None));
    assert_eq!(vec![(3, 0), (2, 5), (6, 9)], pairs(&raw, 2, false, false, Some(3)));
    assert_eq!(vec![(2, 5), (6, 9)], pairs(&raw, 2, false, false, Some(2)));
    assert_eq!(vec![(3, 0)], pairs(&raw, 1, true, false, Some(3)));
    assert_eq!(vec![(3, 0)], pairs(&raw, 1, false, true, Some(3)));
    assert!(pairs(&raw, 1, true, false, Some(4)).is_empty());
    assert!(pairs(&raw, 3, false, false, Some(3)).is_empty());
}

#[test]
fn joint_stereo_shares_bytes_out() {
    let writer = Atrac3BitStreamWriter::new(lp4(), 0);
    let mut left = SingleChannelElement::new(4);
    left.scaled_blocks.push(scaled_block(32, &[0.5; 8]));
    let mut right = SingleChannelElement::new(4);
    right.scaled_blocks.push(scaled_block(32, &[0.5; 8]));
    let plan = writer.plan_sound_unit(&[left.clone(), right], 10);
    assert_eq!(10, plan.ms_bytes_shift);
    let silent = writer.plan_sound_unit(&[left, SingleChannelElement::new(1)], 10);
    assert!(silent.ms_bytes_shift > 80);
    assert!(silent.target_bits[0] > plan.target_bits[0]);
}

#[test]
fn map_tonal_components_groups_contiguous_positions_up_to_seven_values() {
    let tonal: Vec<TonalVal> = (0..8).map(|i| TonalVal { pos: 100 + i, bfu: 10 }).collect();
    let mapped = tonal_groups(&tonal);
    assert_eq!(2, mapped.len());
    assert_eq!(7, mapped[0].1);
    assert_eq!(1, mapped[1].1);
    assert_eq!(100, tonal[mapped[0].0].pos);
    assert_eq!(107, tonal[mapped[1].0].pos);
}

#[test]
fn tonal_groups_end_at_gaps() {
    let at = |pos| TonalVal { pos, bfu: 8 };
    assert_eq!(
        vec![(0, 2), (2, 1), (3, 1)],
        tonal_groups(&[at(5), at(6), at(9), at(8)])
    );
    assert!(tonal_groups(&[]).is_empty());
}

#[test]
fn tonal_runs_are_searched_in_the_middle_blocks() {
    assert!(tonal_window(7, 1024).is_none());
    assert!(tonal_window(29, 1024).is_none());
    assert!(tonal_window(28, 703).is_none());
    let w = tonal_window(8, 1024).unwrap();
    assert_eq!((64, 80, 5), (w.start, w.end, w.max_len));
    let mut found = Vec::new();
    push_tonal_run(&mut found, 8, 66, 2);
    push_tonal_run(&mut found, 9, 81, 1);
    assert_eq!(
        vec![(66, 8), (67, 8), (81, 9)],
        found.iter().map(|t| (t.pos, t.bfu)).collect::<Vec<_>>()
    );
}

fn point(level: u32, location: u32) -> GainCurvePoint {
    GainCurvePoint { level, location }
}

#[test]
fn point_zero_is_set_or_put_in_front() {
    assert_eq!(None, with_point_zero(&[], 4));
    assert_eq!(Some(vec![point(3, 0)]), with_point_zero(&[], 3));
    assert_eq!(
        Some(vec![point(4, 0), point(2, 5)]),
        with_point_zero(&[point(2, 5)], 4)
    );
    assert_eq!(
        Some(vec![point(1, 0), point(2, 5)]),
        with_point_zero(&[point(7, 0), point(2, 5)], 1)
    );
    assert_eq!(None, with_point_zero(&[point(7, 0)], 7));
}

#[test]
fn curves_lose_an_idle_start_and_keep_eight_points() {
    let r = finish_curve(&[point(3, 0), point(3, 4), point(5, 6)]);
    assert_eq!(
        vec![(3, 4), (5, 6)],
        r.iter().map(|p| (p.level, p.location)).collect::<Vec<_>>()
    );
    assert_eq!(2, finish_curve(&[point(3, 0), point(4, 4)]).len());
    let many: Vec<GainCurvePoint> = (1..12).map(|i| point(i, i)).collect();
    assert_eq!(8, finish_curve(&many).len());
    assert!(keeps_curve(2, false, false));
    assert!(!keeps_curve(3, false, false));
    assert!(!keeps_curve(0, true, false));
    assert!(!keeps_curve(0, false, true));
}

#[test]
fn frames_follow_one_block_of_look_ahead() {
    let mut state = FrameState::new();
    let mut settings = EncodeSettings::default();
    settings.source_channels = 1;
    settings.container_params = lp4();
    let first = state.next_block(&settings, 1, 2);
    assert!(first.look_ahead);
    assert_eq!((1, 128), (first.channels, first.qmf_offset));
    let second = state.next_block(&settings, 1, 1);
    assert!(!second.look_ahead && second.silent_second && !second.matrix);
    assert_eq!((384, 1), (second.qmf_offset, state.frame_num));
    let mut elements = vec![SingleChannelElement::new(4)];
    complete_elements(&mut elements, &second);
    assert_eq!(2, elements.len());
    assert_eq!(1, elements[1].subband_info.len());

    let stereo = state.next_block(&settings, 2, 2);
    assert!(stereo.matrix && !stereo.stereo_loudness && !stereo.silent_second);
    assert_eq!((2, 2), (stereo.channels, state.frame_num));
    assert_eq!(1, encoder_channels(0, 0));
    assert_eq!(2, encoder_channels(6, 1));
}

#[test]
fn look_ahead_becomes_the_frame() {
    let mut buf = LookAhead::new(0);
    let first: Vec<i32> = (1..257).collect();
    let second: Vec<i32> = (1001..1257).collect();
    buf.store(128, &first);
    assert_eq!(first, buf.current_slot());
    buf.store(384, &second);
    assert_eq!(512, buf.gain_window().len());
    buf.shift();
    assert_eq!(second, buf.current_slot());
    assert_eq!(&first[128..], &buf.gain_window()[..128]);
}

fn word_of(selector: u32, mantissa: i32) -> String {
    let mut bs = BitStream::new();
    let n = vlc_encode(selector, &[mantissa], 1, Some(&mut bs));
    (0..n).map(|_| if bs.read(1) == 1 { '1' } else { '0' }).collect()
}

#[test]
fn no_code_word_starts_another() {
    for (selector, limit) in [(2, 2), (3, 3), (4, 4), (5, 7), (6, 15), (7, 31)] {
        let words: Vec<String> = (-limit..=limit).map(|m| word_of(selector, m)).collect();
        for (i, a) in words.iter().enumerate() {
            for (j, b) in words.iter().enumerate() {
                assert!(i == j || !b.starts_with(a.as_str()), "{selector}: {a} {b}");
            }
        }
    }
    assert_eq!("0", word_of(2, 0));
    assert_eq!("100", word_of(2, 1));
    assert_eq!("11111111", word_of(7, -30));
}

#[test]
fn constant_length_codes_tell_their_mantissas() {
    let mantissas = [-15, 15, 0, -1, 7];
    let mut bs = BitStream::new();
    assert_eq!(25, clc_encode(6, &mantissas, 5, Some(&mut bs)));
    let back: Vec<i32> = (0..5)
        .map(|_| atracdenc_core::bitstream::make_sign(bs.read(5) as i32, 5))
        .collect();
    assert_eq!(mantissas.to_vec(), back);
}

#[test]
fn energy_errors_raise_low_precisions() {
    let mut low = scaled_block(10, &[0.5; 8]);
    for level in &mut low.levels[..3] {
        level.boost = true;
    }
    let mut always = low.clone();
    for level in &mut always.levels {
        level.boost = true;
    }
    let blocks = [low.clone(), always, low];
    assert_eq!(vec![4, 7, 0], settle_precision(&blocks, vec![1, 2, 0]));
    assert_eq!(vec![5, 7, 4], settle_precision(&blocks, vec![5, 7, 3]));
}

#[test]
fn vlc_blocks_do_not_start_each_other() {
    for (selector, limit) in [(1, 1), (2, 2), (5, 7)] {
        let mut codes: Vec<Vec<u32>> = Vec::new();
        for a in -limit..=limit {
            for b in -limit..=limit {
                let mut bs = BitStream::new();
                let n = vlc_encode(selector, &[a, b], 2, Some(&mut bs));
                assert_eq!(n, vlc_encode(selector, &[a, b], 2, None));
                assert_eq!(n as usize, bs.size_in_bits());
                codes.push((0..n).map(|_| bs.read(1)).collect());
            }
        }
        for (i, x) in codes.iter().enumerate() {
            assert!(codes.iter().enumerate().all(|(j, y)| i == j || !y.starts_with(x)));
        }
    }
}
