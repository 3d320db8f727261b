use step_merger::BufferedIterator;

#[test]
fn test_buffered_iterator1() {
    let data = [1, 2, 3, 4, 5];
    let mut iter = BufferedIterator::new(data.iter().cloned());
    assert_eq!(iter.next(), Some(1));
    assert_eq!(iter.next(), Some(2));
    iter.set_buffering_mode();
    assert_eq!(iter.next(), Some(3));
    assert_eq!(iter.next(), Some(4));
    assert_eq!(iter.next(), Some(5));
    iter.reset();
    assert_eq!(iter.next(), Some(3));
    assert_eq!(iter.next(), Some(4));
    assert_eq!(iter.next(), Some(5));
    assert_eq!(iter.next(), None);
}

#[test]
fn test_buffered_iterator2() {
    let data = [1, 2, 3, 4, 5];
    let mut iter = BufferedIterator::new(data.iter().cloned());
    iter.set_buffering_mode();
    assert_eq!(iter.next(), Some(1));
    assert_eq!(iter.next(), Some(2));
    assert_eq!(iter.next(), Some(3));
    iter.reset();
    assert_eq!(iter.next(), Some(1));
    assert_eq!(iter.next(), Some(2));
    assert_eq!(iter.next(), Some(3));
    assert_eq!(iter.next(), Some(4));
    assert_eq!(iter.next(), Some(5));
    assert_eq!(iter.next(), None);
}

#[test]
fn test_buffered_iterator3() {
    let data = [1, 2, 3, 4, 5];
    let mut iter = BufferedIterator::new(data.iter().cloned());
    iter.set_buffering_mode();
    assert_eq!(iter.next(), Some(1));
    assert_eq!(iter.next(), Some(2));
    assert_eq!(iter.next(), Some(3));
    assert_eq!(iter.next(), Some(4));
    assert_eq!(iter.next(), Some(5));
    assert_eq!(iter.next(), None);
}

#[test]
fn reset_without_buffering_changes_nothing() {
    let data = [7, 8, 9];
    let mut iter = BufferedIterator::new(data.iter().cloned());
    assert_eq!(iter.next(), Some(7));
    iter.reset();
    assert_eq!(iter.next(), Some(8));
    assert_eq!(iter.next(), Some(9));
    assert_eq!(iter.next(), None);
}

#[test]
fn set_buffering_mode_forgets_the_earlier_snapshot() {
    let data = [1, 2, 3, 4];
    let mut iter = BufferedIterator::new(data.iter().cloned());
    iter.set_buffering_mode();
    assert_eq!(iter.next(), Some(1));
    iter.set_buffering_mode();
    assert_eq!(iter.next(), Some(2));
    iter.reset();
    assert_eq!(iter.next(), Some(2));
    assert_eq!(iter.next(), Some(3));
    assert_eq!(iter.next(), Some(4));
    assert_eq!(iter.next(), None);
}

#[test]
fn borrowed_iterator_draws_from_its_source() {
    let data = [1, 2, 3];
    let mut iter = BufferedIterator::new(data.iter().cloned());
    iter.set_buffering_mode();
    {
        let mut borrowed = iter.iter();
        assert_eq!(borrowed.next(), Some(1));
        assert_eq!(borrowed.next(), Some(2));
    }
    iter.reset();
    let mut borrowed = iter.iter();
    assert_eq!(borrowed.next(), Some(1));
    assert_eq!(borrowed.next(), Some(2));
    assert_eq!(borrowed.next(), Some(3));
    assert_eq!(borrowed.next(), None);
}
