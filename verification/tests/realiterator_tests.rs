use flintec_lpp::realiterator::FloatIterator;

fn drain(mut it: FloatIterator) -> Vec<i64> {
    let mut out = Vec::new();
    while let Some(x) = it.next() {
        out.push(x);
    }
    out
}

#[test]
fn the_walk_gives_the_steps_without_the_end() {
    let it = FloatIterator::new(0, 1_000_000, 4);
    assert_eq!(it.length(), 4);
    assert_eq!(drain(it), vec![0, 250_000, 500_000, 750_000]);
}

#[test]
fn the_walk_may_go_down() {
    let it = FloatIterator::new(3_000_000, 1_000_000, 2);
    assert_eq!(drain(it), vec![3_000_000, 2_000_000]);
}

#[test]
fn the_numbers_of_the_walk_are_rounded_down() {
    assert_eq!(drain(FloatIterator::new(0, 10, 3)), vec![0, 3, 6]);
    assert_eq!(drain(FloatIterator::new(0, -10, 3)), vec![0, -4, -7]);
}

#[test]
fn a_walk_of_no_steps_is_empty() {
    let mut it = FloatIterator::new(5, 9, 0);
    assert_eq!(it.length(), 0);
    assert_eq!(it.next(), None);
    assert_eq!(it.next_back(), None);
}

#[test]
fn the_walk_can_be_taken_from_both_ends() {
    let mut it = FloatIterator::new(0, 50, 5);
    assert_eq!(it.next(), Some(0));
    assert_eq!(it.next_back(), Some(40));
    assert_eq!(it.length(), 3);
    assert_eq!(it.len(), 3);
    assert_eq!(it.size_hint(), (3, Some(3)));
    assert_eq!(it.next_back(), Some(30));
    assert_eq!(it.next(), Some(10));
    assert_eq!(it.next(), Some(20));
    assert_eq!(it.next(), None);
    assert_eq!(it.next_back(), None);
    assert_eq!(it.count(), 0);
}

#[test]
fn the_number_of_steps_is_the_distance_over_the_step_rounded() {
    assert_eq!(FloatIterator::new_with_step(0, 10, 2).unwrap().length(), 5);
    assert_eq!(FloatIterator::new_with_step(0, 10, 3).unwrap().length(), 3);
    assert_eq!(FloatIterator::new_with_step(0, 10, 4).unwrap().length(), 3);
    assert_eq!(FloatIterator::new_with_step(0, 9, 6).unwrap().length(), 2);
    assert_eq!(FloatIterator::new_with_step(10, 0, 2).unwrap().length(), 5);
    assert_eq!(FloatIterator::new_with_step(0, 10, -2).unwrap().length(), 5);
    assert_eq!(FloatIterator::new_with_step(0, 10, 100).unwrap().length(), 0);
    assert_eq!(FloatIterator::new_with_step(i64::MIN, i64::MAX, 1).unwrap().length(), u64::MAX);
    assert_eq!(FloatIterator::new_with_step(i64::MIN, i64::MAX, i64::MIN).unwrap().length(), 2);
}

#[test]
fn there_is_no_walk_in_steps_of_zero() {
    assert!(FloatIterator::new_with_step(0, 10, 0).is_none());
}

#[test]
fn the_walk_stays_within_64_bits() {
    let mut it = FloatIterator::new(i64::MIN, i64::MAX, u64::MAX);
    assert_eq!(it.next(), Some(i64::MIN));
    assert_eq!(it.next_back(), Some(i64::MAX - 1));
}
