use calculator::parse::stream::Stream;

#[test]
fn pop_from_empty() {
    let mut stream = Stream::new(vec![1, 2, 3]);
    assert!(!stream.empty());
    assert_eq!(stream.len(), 3);
    assert_eq!(stream.pop(), Some(&1));
    assert_eq!(stream.pop(), Some(&2));
    assert_eq!(stream.pop(), Some(&3));
    assert_eq!(stream.pop(), None);
    assert!(stream.empty());
    assert_eq!(stream.len(), 0);
}

#[test]
fn back() {
    let mut stream = Stream::new(vec![1, 2]);
    assert_eq!(stream.pop(), Some(&1));
    assert_eq!(stream.pop(), Some(&2));
    assert_eq!(stream.pop(), None);
    stream.back();
    assert_eq!(stream.pop(), Some(&2));
}

#[test]
fn pop_after_back_repeats_the_item() {
    let mut stream = Stream::new(vec!['a', 'b', 'c']);
    assert_eq!(stream.pop(), Some(&'a'));
    let second = stream.pop().copied();
    assert_eq!(second, Some('b'));
    stream.back();
    assert_eq!(stream.pop().copied(), second);
    assert_eq!(stream.len(), 1);
}

#[test]
fn back_at_the_start_changes_nothing() {
    let mut stream = Stream::new(vec![7, 8]);
    stream.back();
    assert_eq!(stream.len(), 2);
    assert_eq!(stream.pop(), Some(&7));
    stream.back();
    stream.back();
    assert_eq!(stream.len(), 2);
    assert_eq!(stream.pop(), Some(&7));
}

#[test]
fn pop_at_the_end_stays_at_the_end() {
    let mut stream = Stream::new(vec![5]);
    assert_eq!(stream.pop(), Some(&5));
    assert_eq!(stream.pop(), None);
    assert_eq!(stream.pop(), None);
    assert_eq!(stream.len(), 0);
    stream.back();
    assert_eq!(stream.len(), 1);
    assert_eq!(stream.pop(), Some(&5));
}

#[test]
fn empty_stream_has_nothing_to_pop() {
    let mut stream: Stream<u8> = Stream::new(Vec::new());
    assert!(stream.empty());
    assert_eq!(stream.pop(), None);
    stream.back();
    assert_eq!(stream.pop(), None);
    assert_eq!(stream.len(), 0);
}

#[test]
fn iter_walks_all_items_whatever_the_position() {
    let mut stream = Stream::new(vec![1, 2, 3]);
    stream.pop();
    stream.pop();
    let items: Vec<i32> = stream.iter().copied().collect();
    assert_eq!(items, vec![1, 2, 3]);
    assert_eq!(stream.len(), 1);
}
