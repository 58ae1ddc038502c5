use picross::blend;
use picross::fill_combine;
use picross::hfill;
use picross::xfill;
use picross::FillError;

#[test]
fn seq_counts_inclusive_range() {
    let mut c = picross::counter::seq(2, 5);
    assert_eq!(c.collect(), vec![2, 3, 4, 5]);
}

#[test]
fn seq_inverted_range_is_empty() {
    let mut c = picross::counter::seq(7, 3);
    assert_eq!(c.collect(), Vec::<u32>::new());
}

#[test]
fn hfill_five_into_three() {
    let mut gen = hfill(5, 3);
    assert_eq!(
        gen.collect(),
        vec![
            vec![1, 1, 3],
            vec![1, 2, 2],
            vec![1, 3, 1],
            vec![2, 1, 2],
            vec![2, 2, 1],
            vec![3, 1, 1],
        ]
    );
}

#[test]
fn hfill_count_matches_stars_and_bars() {
    // C(5, 2) compositions of 6 into 3 positive parts.
    let mut gen = hfill(6, 3);
    let all = gen.collect();
    assert_eq!(all.len(), 10);
    for combination in &all {
        assert_eq!(combination.len(), 3);
        assert_eq!(combination.iter().sum::<u32>(), 6);
        assert!(combination.iter().all(|&part| part >= 1));
    }
}

#[test]
fn xfill_rejects_short_length() {
    assert_eq!(xfill(5, 1).err(), Some(FillError::InvalidArgument));
}

#[test]
fn xfill_rejects_small_sum() {
    assert_eq!(xfill(1, 4).err(), Some(FillError::InvalidArgument));
}

#[test]
fn xfill_five_into_three() {
    let mut gen = xfill(5, 3).unwrap();
    assert_eq!(
        gen.collect(),
        vec![
            vec![0, 5, 0],
            vec![0, 4, 1],
            vec![0, 3, 2],
            vec![0, 2, 3],
            vec![0, 1, 4],
            vec![1, 4, 0],
            vec![1, 3, 1],
            vec![1, 2, 2],
            vec![1, 1, 3],
            vec![2, 3, 0],
            vec![2, 2, 1],
            vec![2, 1, 2],
            vec![3, 2, 0],
            vec![3, 1, 1],
            vec![4, 1, 0],
        ]
    );
}

#[test]
fn blend_truncates_at_second_source() {
    let mut blended = blend(vec![1, 2, 3], vec![4]);
    assert_eq!(blended.collect(), vec![1, 4, 2]);
}

#[test]
fn blend_even_sources_drain_both() {
    let mut blended = blend(vec![1, 2], vec![3, 4]);
    assert_eq!(blended.collect(), vec![1, 3, 2, 4]);
}

#[test]
fn fill_combine_two_runs_on_ten_cells() {
    let mut gen = fill_combine(vec![2, 3], 10).unwrap();
    let all = gen.collect();
    assert_eq!(all.len(), 15);
    assert_eq!(all[0], vec![0, 2, 5, 3, 0]);
    assert_eq!(all[14], vec![4, 2, 1, 3, 0]);
    for layout in &all {
        assert_eq!(layout.len(), 5);
        assert_eq!(layout.iter().sum::<u32>(), 10);
        assert_eq!(layout[1], 2);
        assert_eq!(layout[3], 3);
        assert!(layout[2] >= 1);
    }
    assert_eq!(
        all,
        vec![
            vec![0, 2, 5, 3, 0],
            vec![0, 2, 4, 3, 1],
            vec![0, 2, 3, 3, 2],
            vec![0, 2, 2, 3, 3],
            vec![0, 2, 1, 3, 4],
            vec![1, 2, 4, 3, 0],
            vec![1, 2, 3, 3, 1],
            vec![1, 2, 2, 3, 2],
            vec![1, 2, 1, 3, 3],
            vec![2, 2, 3, 3, 0],
            vec![2, 2, 2, 3, 1],
            vec![2, 2, 1, 3, 2],
            vec![3, 2, 2, 3, 0],
            vec![3, 2, 1, 3, 1],
            vec![4, 2, 1, 3, 0],
        ]
    );
}

#[test]
fn fill_combine_rejects_overfull_line() {
    assert_eq!(fill_combine(vec![5], 3).err(), Some(FillError::InvalidArgument));
}

#[test]
fn fill_combine_rejects_empty_runs() {
    assert_eq!(fill_combine(vec![], 5).err(), Some(FillError::InvalidArgument));
}

#[test]
fn fill_combine_rejects_missing_interior_gap() {
    assert_eq!(fill_combine(vec![1, 1], 2).err(), Some(FillError::InvalidArgument));
}

#[test]
fn fill_combine_exact_fit() {
    // One run covering the whole line: the only layout is gap 0, run, gap 0.
    let mut gen = fill_combine(vec![4], 4).unwrap();
    assert_eq!(gen.collect(), vec![vec![0, 4, 0]]);
}

#[test]
fn fresh_generators_repeat_the_same_output() {
    let mut first = hfill(7, 3);
    let mut second = hfill(7, 3);
    assert_eq!(first.collect(), second.collect());
    let mut third = xfill(6, 4).unwrap();
    let mut fourth = xfill(6, 4).unwrap();
    assert_eq!(third.collect(), fourth.collect());
    let mut fifth = fill_combine(vec![1, 2], 7).unwrap();
    let mut sixth = fill_combine(vec![1, 2], 7).unwrap();
    assert_eq!(fifth.collect(), sixth.collect());
}
