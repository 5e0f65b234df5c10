use drmeter::blocks::{block_size_for_sample_rate, compute_block_stats, BlockStats, DrError};
use drmeter::channel::{channel_loudness, is_quieter_or_equal, loud_block_count, loud_peak_index, sort_by_rms, sorted_peaks};
use drmeter::segment::Segmenter;
use drmeter::summary::{rating_for, round_half_away, split_duration, summarize, Rating};
use drmeter::track::{overall_peak, sample_scale};

fn block(sum_sq: u128, peak: u64, len: u64) -> BlockStats {
    BlockStats { sum_sq, peak, len }
}

/// RMS of a block in raw units, without the normalisation scale.
fn rms(b: &BlockStats) -> f64 {
    (2.0 * b.sum_sq as f64 / b.len as f64).sqrt()
}

fn loud_rms(blocks: &[BlockStats]) -> f64 {
    let sum: f64 = blocks.iter().map(|b| rms(b) * rms(b)).sum();
    (sum / blocks.len() as f64).sqrt()
}

#[test]
fn block_size_is_three_seconds() {
    assert_eq!(block_size_for_sample_rate(44100), 132300);
    assert_eq!(block_size_for_sample_rate(48000), 144000);
    assert_eq!(block_size_for_sample_rate(1), 3);
}

#[test]
fn block_size_for_unknown_rate_is_one() {
    assert_eq!(block_size_for_sample_rate(0), 1);
}

#[test]
fn block_stats_of_samples() {
    let s = compute_block_stats(&vec![3, -4, 0]).unwrap();
    assert_eq!(s, block(25, 4, 3));
}

#[test]
fn block_stats_extreme_samples() {
    let s = compute_block_stats(&vec![i32::MIN, i32::MAX]).unwrap();
    let min = i32::MIN as i128;
    let max = i32::MAX as i128;
    assert_eq!(s.sum_sq, (min * min + max * max) as u128);
    assert_eq!(s.peak, 0x8000_0000);
    assert_eq!(s.len, 2);
}

#[test]
fn block_stats_of_empty_block_is_refused() {
    assert_eq!(compute_block_stats(&vec![]), Err(DrError::InvalidArgument));
}

#[test]
fn peak_index_takes_second_highest() {
    assert_eq!(loud_peak_index(10), 8);
    assert_eq!(loud_peak_index(2), 0);
    assert_eq!(loud_peak_index(1), 0);
    assert_eq!(loud_peak_index(0), 0);
}

#[test]
fn loud_block_count_is_a_fifth_rounded() {
    assert_eq!(loud_block_count(10), 2);
    assert_eq!(loud_block_count(1), 1);
    assert_eq!(loud_block_count(2), 1);
    assert_eq!(loud_block_count(3), 1);
    assert_eq!(loud_block_count(7), 1);
    assert_eq!(loud_block_count(8), 2);
    assert_eq!(loud_block_count(13), 3);
    assert_eq!(loud_block_count(100), 20);
}

#[test]
fn synthetic_channel_ten_blocks() {
    // RMS and peak of block k are proportional to k.
    let blocks: Vec<BlockStats> = (1..=10u64).map(|k| block((k * k) as u128, k, 2)).collect();
    let mut shuffled = blocks.clone();
    shuffled.reverse();
    shuffled.swap(2, 7);
    let l = channel_loudness(&shuffled).unwrap();
    assert_eq!(l.peak_loud, 9);
    assert_eq!(l.loud_blocks, vec![blocks[8], blocks[9]]);
    let r = loud_rms(&l.loud_blocks);
    assert!((r - 90.5f64.sqrt()).abs() < 1e-9);
    assert!((r - 9.5131).abs() < 1e-4);
    let dr = 20.0 * (l.peak_loud as f64 / r).log10();
    assert!((dr - 20.0 * (9.0 / 90.5f64.sqrt()).log10()).abs() < 1e-12);
    assert!((dr - (-0.4816)).abs() < 1e-3);
}

#[test]
fn peaks_and_rms_sorted_independently() {
    // The loudest block by RMS has the lowest peak.
    let blocks = vec![block(400, 1, 1), block(1, 50, 1), block(4, 40, 1)];
    let l = channel_loudness(&blocks).unwrap();
    assert_eq!(l.peak_loud, 40);
    assert_eq!(l.loud_blocks, vec![block(400, 1, 1)]);
}

#[test]
fn channel_with_one_block() {
    let b = block(50, 7, 4);
    let l = channel_loudness(&vec![b]).unwrap();
    assert_eq!(l.peak_loud, 7);
    assert_eq!(l.loud_blocks, vec![b]);
}

#[test]
fn channel_without_blocks_has_no_loudness() {
    assert!(channel_loudness(&vec![]).is_none());
}

#[test]
fn silent_channel_is_silent() {
    let l = channel_loudness(&vec![block(0, 0, 3), block(0, 0, 3)]).unwrap();
    assert!(l.is_silent());
    assert_eq!(l.peak_loud, 0);
}

#[test]
fn quiet_tail_does_not_make_channel_silent() {
    let l = channel_loudness(&vec![block(9, 3, 1), block(0, 0, 1)]).unwrap();
    assert!(!l.is_silent());
}

#[test]
fn rms_order_uses_block_lengths() {
    // Energy per sample: 100 / 4 = 25 against 30 / 2 = 15.
    let a = block(100, 5, 4);
    let b = block(30, 4, 2);
    assert!(is_quieter_or_equal(&b, &a));
    assert!(!is_quieter_or_equal(&a, &b));
    assert!(is_quieter_or_equal(&a, &a));
    assert_eq!(sort_by_rms(&vec![a, b]), vec![b, a]);
}

#[test]
fn rms_order_on_huge_energies() {
    let big = u128::MAX / 4;
    let a = block(big, 1, u64::MAX);
    let b = block(big - 1, 1, u64::MAX - 1);
    // (big - 1) / (MAX - 1) > big / MAX, since big > MAX.
    assert!(is_quieter_or_equal(&a, &b));
    assert!(!is_quieter_or_equal(&b, &a));
}

#[test]
fn peaks_sorted_ascending() {
    let blocks = vec![block(1, 9, 1), block(1, 2, 1), block(1, 5, 1), block(1, 2, 1)];
    assert_eq!(sorted_peaks(&blocks), vec![2, 2, 5, 9]);
}

#[test]
fn segmenter_cuts_blocks_and_flushes_tail() {
    // One sample per second: blocks of three samples.
    let mut seg = Segmenter::new(1, 1);
    for x in [1, -2, 3, 4, 0, 0, 5] {
        seg.push_frame(&vec![x]);
    }
    let blocks = seg.finish();
    assert_eq!(blocks.len(), 1);
    assert_eq!(blocks[0], vec![block(14, 3, 3), block(16, 4, 3), block(25, 5, 1)]);
}

#[test]
fn segmenter_keeps_channels_in_step() {
    let mut seg = Segmenter::new(2, 1);
    for k in 1..=6 {
        seg.push_frame(&vec![k, -10 * k]);
    }
    // A ragged last frame is dropped.
    seg.push_frame(&vec![100]);
    let blocks = seg.finish();
    assert_eq!(blocks[0], vec![block(14, 3, 3), block(77, 6, 3)]);
    assert_eq!(blocks[1], vec![block(1400, 30, 3), block(7700, 60, 3)]);
}

#[test]
fn segmenter_without_samples_has_no_blocks() {
    let seg = Segmenter::new(2, 44100);
    let blocks = seg.finish();
    assert_eq!(blocks, vec![Vec::<BlockStats>::new(), Vec::new()]);
}

#[test]
fn segmenter_with_unknown_rate_makes_one_sample_blocks() {
    let mut seg = Segmenter::new(1, 0);
    seg.push_frame(&vec![2]);
    seg.push_frame(&vec![-3]);
    assert_eq!(seg.finish()[0], vec![block(4, 2, 1), block(9, 3, 1)]);
}

#[test]
fn rounding_halves_away_from_zero() {
    assert_eq!(round_half_away(23, 2), 12);
    assert_eq!(round_half_away(-23, 2), -12);
    assert_eq!(round_half_away(7, 3), 2);
    assert_eq!(round_half_away(8, 3), 3);
    assert_eq!(round_half_away(-7, 3), -2);
    assert_eq!(round_half_away(0, 5), 0);
}

#[test]
fn mean_of_eleven_and_a_half_rounds_to_twelve() {
    let s = summarize(&vec![11, 12]).unwrap();
    assert_eq!(s.album_dr, 12);
    let s = summarize(&vec![-11, -12]).unwrap();
    assert_eq!(s.album_dr, -12);
}

#[test]
fn album_summary_of_tracks() {
    let s = summarize(&vec![12, 8, 9, 14]).unwrap();
    assert_eq!(s.tracks, 4);
    assert_eq!(s.album_dr, 11);
    assert_eq!(s.dr_min, 8);
    assert_eq!(s.dr_max, 14);
}

#[test]
fn album_of_single_track_is_its_dr() {
    let s = summarize(&vec![9]).unwrap();
    assert_eq!(s.tracks, 1);
    assert_eq!(s.album_dr, 9);
    assert_eq!((s.dr_min, s.dr_max), (9, 9));
}

#[test]
fn no_tracks_no_summary() {
    assert!(summarize(&vec![]).is_none());
}

#[test]
fn rating_thresholds() {
    assert_eq!(rating_for(14), Rating::Excellent);
    assert_eq!(rating_for(13), Rating::Good);
    assert_eq!(rating_for(10), Rating::Good);
    assert_eq!(rating_for(9), Rating::Acceptable);
    assert_eq!(rating_for(8), Rating::Acceptable);
    assert_eq!(rating_for(7), Rating::Compressed);
    assert_eq!(rating_for(6), Rating::Compressed);
    assert_eq!(rating_for(5), Rating::BrickWalled);
    assert_eq!(rating_for(-3), Rating::BrickWalled);
}

#[test]
fn duration_split() {
    assert_eq!(split_duration(3725), (1, 2, 5));
    assert_eq!(split_duration(59), (0, 0, 59));
    assert_eq!(split_duration(0), (0, 0, 0));
}

#[test]
fn sample_scale_by_depth() {
    assert_eq!(sample_scale(16), 32768);
    assert_eq!(sample_scale(24), 8388608);
    assert_eq!(sample_scale(1), 1);
    assert_eq!(sample_scale(64), 1u64 << 63);
}

#[test]
fn overall_peak_pools_channels() {
    let rows = vec![vec![block(1, 3, 1), block(1, 8, 1)], vec![block(1, 12, 1)], vec![]];
    assert_eq!(overall_peak(&rows), 12);
    assert_eq!(overall_peak(&vec![]), 0);
}

#[test]
fn analysis_is_repeatable() {
    let mut seg = Segmenter::new(1, 1);
    for x in [5, -7, 2, 9, 1] {
        seg.push_frame(&vec![x]);
    }
    let blocks = seg.finish();
    let a = channel_loudness(&blocks[0]).unwrap();
    let b = channel_loudness(&blocks[0]).unwrap();
    assert_eq!(a.peak_loud, b.peak_loud);
    assert_eq!(a.loud_blocks, b.loud_blocks);
}
