use atracdenc_core::atrac::scale::{step_away, step_toward, BlockLayout, Scaler};
use atracdenc_core::dsp::delay_buffer::DelayBuffer;
use atracdenc_core::dsp::gain::{GainGrid, GainPoint};
use atracdenc_core::dsp::order::{
    find_plateau, median_filter, quartiles, releases_at_end, sort_keys, Plateau,
};
use atracdenc_core::dsp::transient::{
    build_curve, find_target_sf, pruned_transitions, relation_to_idx, settle_levels, sticky_level,
    TransientMark,
};

#[test]
fn shift_copies_second_to_first_and_erases_by_default() {
    let mut buf = DelayBuffer::<i32, 2, 3>::new();
    buf.second_mut(0).copy_from_slice(&[1, 2, 3]);
    buf.second_mut(1).copy_from_slice(&[4, 5, 6]);

    buf.shift(true);

    assert_eq!([1, 2, 3], buf.first(0));
    assert_eq!([4, 5, 6], buf.first(1));
    assert_eq!([0, 0, 0], buf.second(0));
    assert_eq!([0, 0, 0], buf.second(1));
}

#[test]
fn shift_can_keep_second_half() {
    let mut buf = DelayBuffer::<i32, 1, 2>::new();
    buf.second_mut(0).copy_from_slice(&[7, 8]);

    buf.shift(false);

    assert_eq!([7, 8], buf.first(0));
    assert_eq!([7, 8], buf.second(0));
}

#[test]
fn delay_buffer_rows_are_apart() {
    let mut buf = DelayBuffer::<i32, 2, 1>::default();
    buf.first_mut(1)[0] = 5;
    assert_eq!([0], buf.first(0));
    assert_eq!([5], buf.first(1));
    assert_eq!([0], buf.second(1));
}

#[test]
fn scale_frame_uses_short_or_long_offsets_per_band() {
    let layout = BlockLayout {
        num_qmf: 2,
        blocks_per_band: &[0, 1, 2],
        specs_start_short: &[2, 8],
        specs_start_long: &[0, 4],
        specs_per_block: &[2, 2],
        short_windows: &[false, true],
    };
    assert_eq!(vec![(0, 2), (8, 2)], layout.block_ranges());
}

const GRID: GainGrid = GainGrid {
    exponent_offset: 4,
    interpolation_pos_shift: 15,
    loc_scale: 3,
    loc_sz: 8,
};

#[test]
fn gain_segments_tile_the_samples() {
    let points = [
        GainPoint { level: 2, location: 1 },
        GainPoint { level: 6, location: 4 },
    ];
    let plan = GRID.plan(&points);
    assert_eq!(2, plan.len());
    assert_eq!((8, 16, 2, 19), (plan[0].flat_end, plan[0].ramp_end, plan[0].level, plan[0].inc_pos));
    assert_eq!((32, 40, 6, 13), (plan[1].flat_end, plan[1].ramp_end, plan[1].level, plan[1].inc_pos));
    assert_eq!(15, GRID.gain_inc_pos(4));
    assert_eq!(11, GRID.gain_inc2_pos(8, 4));
}

#[test]
fn gain_points_out_of_order_do_not_run_backwards() {
    let points = [
        GainPoint { level: 2, location: 4 },
        GainPoint { level: 6, location: 1 },
    ];
    let plan = GRID.plan(&points);
    assert_eq!((40, 40), (plan[1].flat_end, plan[1].ramp_end));
    assert!(GRID.plan(&[]).is_empty());
}

#[test]
fn small_steps_stick() {
    assert_eq!(4, sticky_level(5, 4, 4, 5));
    assert_eq!(4, sticky_level(5, 4, 5, 4));
    assert_eq!(5, sticky_level(5, 4, 5, 6));
    assert_eq!(6, sticky_level(6, 4, 4, 5));
    assert_eq!(5, sticky_level(5, 4, 3, 5));
    assert_eq!(
        vec![5, 5, 7],
        settle_levels(&[5, 4, 7], &[(4, 4), (4, 5), (7, 7)])
    );
}

#[test]
fn target_is_reached_after_the_last_change() {
    assert_eq!(0, find_target_sf(&[4, 4, 4]));
    assert_eq!(0, find_target_sf(&[7]));
    assert_eq!(2, find_target_sf(&[4, 5, 4, 9]));
}

#[test]
fn curve_follows_the_changes_of_level() {
    let levels = [6, 6, 3, 3, 4, 4, 4, 4];
    let curve = build_curve(&levels, &[false; 8]);
    let got: Vec<(u32, u32)> = curve.iter().map(|p| (p.level, p.location)).collect();
    assert_eq!(vec![(6, 2), (3, 4)], got);
    assert!(build_curve(&[4, 4, 4], &[false; 3]).is_empty());
}

#[test]
fn small_changes_need_a_strong_boundary() {
    let levels = [6, 5, 5, 4, 4];
    let weak = build_curve(&levels, &[false; 5]);
    assert_eq!(1, weak.len());
    assert_eq!((5, 3), (weak[0].level, weak[0].location));
    let strong = build_curve(&levels, &[true; 5]);
    assert_eq!(2, strong.len());
    assert_eq!((6, 1), (strong[0].level, strong[0].location));
}

#[test]
fn curve_keeps_the_six_largest_changes_in_order() {
    let levels = [0, 9, 0, 9, 2, 9, 0, 9, 7, 9, 4];
    let curve = build_curve(&levels, &[true; 11]);
    let locs: Vec<u32> = curve.iter().map(|p| p.location).collect();
    assert!(locs.windows(2).all(|w| w[0] < w[1]));
    assert_eq!(vec![1, 2, 3, 5, 6, 7], locs);
}

#[test]
fn keys_are_put_in_order() {
    assert_eq!(vec![-3, 0, 2, 2, 9], sort_keys(&[2, 9, -3, 2, 0]));
    assert!(sort_keys(&[]).is_empty());
    assert_eq!((2, 6), quartiles(&[8, 1, 2, 7, 3, 6, 4, 5].map(|x| x - 1)));
}

#[test]
fn medians_drop_single_peaks() {
    assert_eq!(vec![9, 1, 2, 2, 2, 4], median_filter(&[1, 9, 1, 2, 4, 2], 1));
    assert_eq!(vec![5, 6], median_filter(&[5, 6], 0));
    assert!(median_filter(&[], 3).is_empty());
}

#[test]
fn plateaus_are_the_highest_and_first() {
    let env = [1, 5, 6, 5, 7, 5, 2, 5, 5, 9];
    assert_eq!(
        Some(Plateau { level: 5, start: 1, end: 5 }),
        find_plateau(&env, 3, 0)
    );
    assert_eq!(
        Some(Plateau { level: 9, start: 9, end: 9 }),
        find_plateau(&env, 1, 0)
    );
    assert_eq!(None, find_plateau(&env, 3, 5));
    assert_eq!(None, find_plateau(&env, 11, 0));
}

#[test]
fn plateaus_are_released() {
    assert!(!releases_at_end(3, &[true; 4], true, true));
    assert!(releases_at_end(1, &[true; 4], true, false));
    assert!(releases_at_end(1, &[true, true, false, false], false, true));
    assert!(!releases_at_end(1, &[true, true, true, false], false, true));
    assert!(!releases_at_end(1, &[true, true, false, false], false, false));
}

#[test]
fn doublings_become_levels() {
    assert_eq!([5, 15], [2, 2048].map(|x| relation_to_idx(true, x)));
    assert_eq!([4, 4, 3, 0], [0, 1, 3, 16].map(|x| relation_to_idx(false, x)));
}

#[test]
fn last_transient_is_noted() {
    let mut m = TransientMark::new();
    assert!(m.note(&[false, true, true, false]));
    assert_eq!(3, m.last_transient_pos);
    assert!(!m.note(&[false; 4]));
    assert_eq!(3, m.last_transient_pos);
}

#[test]
fn scales_hold_peaks_tightly() {
    let s = Scaler::new(&[10, 20, 20, 40]);
    assert_eq!([0, 0, 1, 3, 3], [-1, 10, 11, 21, 41].map(|p| s.scale_factor_index(p)));
    assert_eq!(2, Scaler::new(&[7, 7, 7]).scale_factor_index(8));
}

#[test]
fn steps_move_mantissas() {
    assert_eq!([4, -4, 1], [3, -3, 0].map(|m| step_away(m, true)));
    assert_eq!(-1, step_away(0, false));
    assert_eq!([2, -2, 0, 0], [3, -3, 0, 1].map(step_toward));
}

#[test]
fn small_changes_are_left_out() {
    let levels = [4, 5, 6, 5, 7, 4];
    let mut strong = [false; 7];
    let left_out: Vec<(usize, i32)> = pruned_transitions(&levels, &strong)
        .iter()
        .map(|t| (t.loc, t.delta))
        .collect();
    assert_eq!(left_out, vec![(3, 1), (1, 1)]);
    strong.fill(true);
    assert!(pruned_transitions(&levels, &strong).is_empty());
}

/// The level of a ratio to the target: the ratio or its inverse, cut to a whole number.
fn level_of(x: f32) -> u16 {
    if x <= 0.5 {
        relation_to_idx(true, (1.0 / x.max(0.000_488_281_25)).trunc() as u32)
    } else {
        relation_to_idx(false, x.min(16.0).trunc() as u32)
    }
}

#[test]
fn relation_to_idx_matches_cpp_cases() {
    assert_eq!(4, level_of(1.0));
    assert_eq!(4, level_of(1.8));
    assert_eq!(3, level_of(2.0));
    assert_eq!(3, level_of(3.5));
    assert_eq!(2, level_of(4.0));
    assert_eq!(1, level_of(8.0));
    assert_eq!(0, level_of(16.0));
    assert_eq!(0, level_of(9999.0));
    assert_eq!(4, level_of(0.8));
    assert_eq!(5, level_of(0.5));
    assert_eq!(6, level_of(0.25));
    assert_eq!(7, level_of(0.125));
    assert_eq!(8, level_of(0.0625));
    assert_eq!(9, level_of(0.03125));
    assert_eq!(10, level_of(0.015625));
    assert_eq!(13, level_of(0.001_953_125));
    assert_eq!(15, level_of(0.000_488_281_25));
    assert_eq!(15, level_of(0.000_000_488_281_3));
}

/// The order key of a float that is not negative.
fn key(x: f32) -> i32 {
    x.to_bits() as i32
}

#[test]
fn scaler_uses_lower_bound_scale_index() {
    let scaler = Scaler::new(&[key(0.25), key(0.5), key(1.0)]);
    assert_eq!(0, scaler.scale_factor_index(key(0.25)));
    assert_eq!(1, scaler.scale_factor_index(key(0.25001)));
    assert_eq!(2, scaler.scale_factor_index(key(2.0)));
}
