use picross::Blend;
use picross::Counter;
use picross::Hfill;
use picross::Xfill;

fn hfill_check(sum: u32, len: u32, expected: Vec<Vec<u32>>) {
    let mut gen = Hfill::new(sum, len);
    assert_eq!(gen.collect(), expected);
}

#[test]
fn seq0() {
    let mut c = Counter::new(0, 1);
    assert_eq!(c.collect(), vec![0, 1]);
}

#[test]
fn seq1() {
    let mut c = Counter::new(1, 0);
    assert_eq!(c.collect(), Vec::<u32>::new());
}

#[test]
fn seq2() {
    let mut c = Counter::new(u32::MAX, u32::MAX);
    assert_eq!(c.collect(), vec![u32::MAX]);
}

#[test]
fn seq3() {
    let mut c = Counter { counter: u32::MAX, remaining: 2 };
    assert_eq!(c.collect(), vec![u32::MAX, u32::MAX]);
}

#[test]
fn hfill0() {
    hfill_check(0, 0, vec![]);
    hfill_check(0, 1, vec![]);
    hfill_check(1, 0, vec![]);
}

#[test]
fn hfill1() {
    hfill_check(1, 1, vec![vec![1]]);
}

#[test]
fn xfill2() {
    let mut gen = Xfill::new(2, 2).unwrap();
    assert_eq!(gen.collect(), vec![vec![0, 2], vec![1, 1], vec![2, 0]]);
}

#[test]
fn blend0() {
    let mut blended = Blend::new(vec![1, 2, 3], vec![4]);
    assert_eq!(blended.collect(), vec![1, 4, 2]);
}
