use atracdenc_core::at1::bitalloc::{
    calc_available_bits_for_bfus, calc_bits_allocation, calc_bits_used, get_max_used_bfu_id,
    Atrac1BitAllocator, BitsBooster, RoundEnd, SearchStep,
};
use atracdenc_core::at1::codec::{block_size_of, loudness_update, window_mask, LoudnessUpdate};
use atracdenc_core::at1::data as at1;
use atracdenc_core::at1::data::{
    bfu_to_band, BlockSizeMod, EncodeSettings, WindowMode, MAX_BFUS, SOUND_UNIT_SIZE,
    SPECS_PER_BLOCK,
};
use atracdenc_core::at1::dequantiser::Atrac1Dequantiser;
use atracdenc_core::at1::frame::{dump_frame, QuantBlock};
use atracdenc_core::bitstream::BitStream;

#[test]
fn tables_match_expected_shapes() {
    assert_eq!(at1::MAX_BFUS, at1::SPECS_PER_BLOCK.len());
    assert_eq!(
        512,
        at1::SPECS_START_LONG[at1::MAX_BFUS - 1] + at1::SPECS_PER_BLOCK[at1::MAX_BFUS - 1]
    );
    assert_eq!(
        512,
        at1::SPECS_START_SHORT[at1::MAX_BFUS - 1] + at1::SPECS_PER_BLOCK[at1::MAX_BFUS - 1]
    );
}

#[test]
fn block_size_parse_matches_cpp_encoding() {
    let mut bs = BitStream::new();
    bs.write(0, 2);
    bs.write(2, 2);
    bs.write(1, 2);
    bs.write(0, 2);
    let parsed = BlockSizeMod::parse(&mut bs);
    assert_eq!([2, 0, 2], parsed.log_count);
}

#[test]
fn block_sizes_tell_short_windows() {
    let m = BlockSizeMod::new(true, false, true);
    assert_eq!([2, 0, 3], m.log_count);
    assert!(m.short_win(0) && !m.short_win(1) && m.short_win(2));
    assert_eq!([0, 0, 0], BlockSizeMod::default().log_count);
    assert_eq!([0, 1, 1, 2], [bfu_to_band(19), bfu_to_band(20), bfu_to_band(35), bfu_to_band(36)]);
}

#[test]
fn blocks_cover_every_line_once() {
    for starts in [at1::SPECS_START_LONG, at1::SPECS_START_SHORT] {
        let mut seen = [0; at1::NUM_SAMPLES];
        for i in 0..MAX_BFUS {
            for k in 0..SPECS_PER_BLOCK[i] {
                seen[(starts[i] + k) as usize] += 1;
            }
        }
        assert!(seen.iter().all(|x| *x == 1));
    }
}

#[test]
fn available_bits_matches_frame_budget() {
    assert_eq!(1136, calc_available_bits_for_bfus(52));
    assert_eq!(1456, calc_available_bits_for_bfus(20));
}

#[test]
fn bits_booster_spends_surplus_without_exceeding_limits() {
    let booster = BitsBooster::new();
    let mut bits = vec![0; MAX_BFUS];
    let surplus = booster.apply_boost(&mut bits, 0, 100);
    assert!(surplus < 100);
    assert!(bits.iter().all(|x| *x <= 16));
}

#[test]
fn booster_accounts_for_every_bit() {
    let booster = BitsBooster::default();
    let mut bits = vec![0; MAX_BFUS];
    let left = booster.apply_boost(&mut bits, 0, 100);
    assert_eq!(100, left + calc_bits_used(&bits));
    assert_eq!(vec![2; 5], bits[18..23]);
    assert_eq!(vec![2, 2, 0, 0, 0, 0, 0], bits[32..39]);
    assert_eq!(0, left);

    let mut few = vec![3; 20];
    assert_eq!(1, booster.apply_boost(&mut few, 10, 17));
    assert_eq!((4, 3), (few[18], few[19]));
    assert_eq!(5, booster.apply_boost(&mut few, 0, 5));

    let mut full = vec![16; MAX_BFUS];
    assert_eq!(500, booster.apply_boost(&mut full, 0, 500));
    assert_eq!(u32::MAX, booster.apply_boost(&mut full, 0, u32::MAX));
    assert_eq!(vec![16; MAX_BFUS], full);

    let mut long = vec![15; MAX_BFUS + 4];
    let left = booster.apply_boost(&mut long, 0, u32::MAX);
    let grown: u32 = (18..23).chain(32..39).map(|i| SPECS_PER_BLOCK[i]).sum();
    assert_eq!(u32::MAX - grown, left);
    assert_eq!((16, 16, 15, 15), (long[18], long[38], long[39], long[MAX_BFUS]));
}

#[test]
fn booster_stops_where_no_step_fits() {
    let booster = BitsBooster::new();
    for surplus in [0, 5, 6, 11, 12, 47, 101, 5000] {
        let mut bits: Vec<u32> = (0..MAX_BFUS as u32).map(|i| (i % 4) * 5).collect();
        let left = booster.apply_boost(&mut bits, 0, surplus);
        for p in (18..23).chain(32..39) {
            let step = if bits[p] == 0 { 2 } else { 1 };
            assert!(bits[p] == 16 || SPECS_PER_BLOCK[p] * step > left);
        }
    }
}

#[test]
fn words_of_one_bit_have_no_lines() {
    let words = vec![1; 20];
    let with = dump_frame(&test_blocks(&words), &BlockSizeMod::default(), 0, &words);
    let none = vec![0; 20];
    let without = dump_frame(&test_blocks(&none), &BlockSizeMod::default(), 0, &none);
    assert_eq!(without, with);
}

#[test]
fn levels_become_word_lengths() {
    let levels = [Some(-3), Some(1), Some(2), Some(16), Some(17), None];
    assert_eq!(vec![0, 0, 2, 16, 16, 0], calc_bits_allocation(&levels));
}

#[test]
fn bits_used_weighs_lines() {
    assert_eq!(0, calc_bits_used(&[]));
    assert_eq!(8 * 2 + 8 * 3, calc_bits_used(&[2, 3]));
}

#[test]
fn silent_blocks_lower_the_block_number() {
    assert_eq!(0, get_max_used_bfu_id(&[0; 52]));
    let mut words = vec![0; 52];
    words[30] = 2;
    assert_eq!(2, get_max_used_bfu_id(&words));
    words[51] = 2;
    assert_eq!(7, get_max_used_bfu_id(&words));
    assert_eq!(1, get_max_used_bfu_id(&[2; 30]));
    assert_eq!(0, get_max_used_bfu_id(&[0; 20]));
}

#[test]
fn allocator_judges_proposals() {
    let a = Atrac1BitAllocator::new(0);
    assert_eq!(7, a.first_bfu_idx());
    assert_eq!(2, Atrac1BitAllocator::new(3).first_bfu_idx());
    assert_eq!(SearchStep::Loosen, a.judge(&[0; 52], false));
    assert_eq!(SearchStep::Tighten, a.judge(&[16; 52], false));
    assert_eq!(SearchStep::Accept, a.judge(&[16; 52], true));
    // 182 lines of eight bits fill the 1456 bits of a frame of twenty blocks
    let mut exact = vec![0; 20];
    for w in &mut exact[..4] {
        *w = 16;
    }
    for w in &mut exact[8..12] {
        *w = 16;
    }
    exact[4] = 16;
    exact[5] = 16;
    exact[12] = 16;
    exact[13] = 16;
    exact[14] = 4;
    exact[15] = 4;
    assert_eq!(1392, calc_bits_used(&exact));
    exact[16] = 5;
    exact[4] = 15;
    exact[17] = 5;
    exact[18] = 0;
    assert_eq!(1448, calc_bits_used(&exact));
    exact[6] = 2;
    assert_eq!(1456, calc_bits_used(&exact));
    assert_eq!(SearchStep::Accept, a.judge(&exact, false));
}

#[test]
fn allocator_drops_silent_blocks_unless_fixed() {
    let free = Atrac1BitAllocator::new(0);
    let mut words = vec![0; 52];
    words[0] = 2;
    assert_eq!(RoundEnd::Again(6), free.end_round(7, words.clone()));
    let fixed = Atrac1BitAllocator::new(8);
    match fixed.end_round(7, words) {
        RoundEnd::Done(w) => {
            assert_eq!(52, w.len());
            assert_eq!(vec![11; 5], w[18..23]);
            assert_eq!(vec![11, 11, 11, 10, 10, 10, 10], w[32..39]);
            assert_eq!(1136, calc_bits_used(&w));
        }
        other => panic!("{other:?}"),
    }
}

fn test_blocks(words: &[u32]) -> Vec<QuantBlock> {
    words
        .iter()
        .enumerate()
        .map(|(i, w)| {
            let top = if *w == 0 { 0 } else { (1 << (w - 1)) - 1 };
            QuantBlock {
                scale_factor_index: (20 + i % 20) as u8,
                mantissas: (0..SPECS_PER_BLOCK[i] as i32)
                    .map(|k| if k % 2 == 0 { top } else { -top })
                    .collect(),
            }
        })
        .collect()
}

#[test]
fn encode_frame_produces_decodable_header_and_bounded_size() {
    let alloc = Atrac1BitAllocator::new(8);
    let block_size = BlockSizeMod::default();
    let words = match alloc.end_round(7, vec![2; 52]) {
        RoundEnd::Done(w) => w,
        other => panic!("{other:?}"),
    };
    let frame = dump_frame(&test_blocks(&words), &block_size, 7, &words);
    assert!(frame.len() <= SOUND_UNIT_SIZE as usize);

    let mut bs = BitStream::from_bytes(&frame);
    let parsed = BlockSizeMod::parse(&mut bs);
    assert_eq!(block_size, parsed);
    assert_eq!(7, bs.read(3));
}

#[test]
fn encoded_frame_can_be_dequantised() {
    let block_size = BlockSizeMod::new(false, true, false);
    let mut words = vec![0; 52];
    for (i, w) in words.iter_mut().enumerate() {
        *w = [0, 2, 3, 0][i % 4];
    }
    words[51] = 16;
    let blocks = test_blocks(&words);
    let frame = dump_frame(&blocks, &block_size, 7, &words);

    let dequantiser = Atrac1Dequantiser::new();
    assert!(dequantiser.is_decodable(&frame));
    let mut bs = BitStream::from_bytes(&frame);
    let parsed = BlockSizeMod::parse(&mut bs);
    assert_eq!(block_size, parsed);
    let read = dequantiser.dequant(&mut bs, &parsed);
    assert_eq!(52, read.len());
    for i in 0..52 {
        assert_eq!(words[i], read[i].word_len);
        assert_eq!(u32::from(blocks[i].scale_factor_index), read[i].scale_factor_index);
        if words[i] != 0 {
            assert_eq!(blocks[i].mantissas, read[i].mantissas);
        } else {
            assert!(read[i].mantissas.iter().all(|m| *m == 0));
        }
    }
    assert_eq!(128, read[20].start_pos);
    assert_eq!(160, read[21].start_pos);
    assert_eq!(268, read[37].start_pos);
}

#[test]
fn blocks_beyond_the_announced_number_are_silent() {
    let words = vec![2; 20];
    let blocks = test_blocks(&words);
    let frame = dump_frame(&blocks, &BlockSizeMod::default(), 0, &words);
    let mut bs = BitStream::from_bytes(&frame);
    let parsed = BlockSizeMod::parse(&mut bs);
    let read = Atrac1Dequantiser::default().dequant(&mut bs, &parsed);
    assert_eq!(2, read[19].word_len);
    assert_eq!((0, 0), (read[20].word_len, read[20].scale_factor_index));
    assert_eq!(vec![0; 20], read[51].mantissas);
}

#[test]
fn damaged_frames_are_not_decodable() {
    let d = Atrac1Dequantiser::new();
    assert!(!d.is_decodable(&[]));
    assert!(!d.is_decodable(&[0xff; 212]));
    let mut all_long_words = vec![0xff; 212];
    all_long_words[0] = 0;
    assert!(!d.is_decodable(&all_long_words));
    assert!(d.is_decodable(&[0; 212]));
    assert!(!d.is_decodable(&[0; 20]));
}

#[test]
fn transients_choose_the_windows() {
    let auto = EncodeSettings::default();
    assert_eq!(WindowMode::Auto, auto.window_mode);
    assert_eq!(5, window_mask(&auto, true, false, true));
    let fixed = EncodeSettings {
        window_mode: WindowMode::NoTransient,
        window_mask: 2,
        ..auto
    };
    assert_eq!(2, window_mask(&fixed, true, false, true));
    assert_eq!([2, 0, 3], block_size_of(5).log_count);
    assert_eq!([0, 2, 0], block_size_of(0xfffa).log_count);
}

#[test]
fn loudness_counts_frames_without_transients() {
    assert_eq!(LoudnessUpdate::Stereo, loudness_update(&[0, 0]));
    assert_eq!(LoudnessUpdate::Mono, loudness_update(&[0, 1]));
    assert_eq!(LoudnessUpdate::Keep, loudness_update(&[1, 0]));
    assert_eq!(LoudnessUpdate::Mono, loudness_update(&[0]));
}
