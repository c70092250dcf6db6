use segmentmap::{SegmentMap, SEGMENTSIZE};

#[test]
fn list_indices() {
    let mut book = SegmentMap::<bool>::new();
    for _ in 0..1_000_000 {
        let index = book.insert(true);
        println!("{}", index);
    }
}

#[test]
fn basic_ops() {
    let mut book = SegmentMap::<bool>::new();
    let index = book.insert(true);
    assert_eq!(index, 0);
    assert!(book.get(index).unwrap());
    book.remove(index);
    assert!(book.get(index).is_none());
}

#[test]
fn mutate() {
    let mut book = SegmentMap::<bool>::new();
    let index = book.insert(true);
    assert!(*book.get(index).unwrap());
    *book.get_mut(index).unwrap() = false;
    assert!(!*book.get(index).unwrap());
}

#[test]
fn replace() {
    let mut book = SegmentMap::<bool>::new();
    let index = book.insert(true);
    assert!(*book.get(index).unwrap());
    book.replace(index, false);
    assert!(!*book.get(index).unwrap());
}

#[test]
fn return_removed() {
    let mut book = SegmentMap::<bool>::new();
    let index = book.insert(true);
    assert!(*book.get(index).unwrap());
    let value = book.remove(index);
    assert!(value);
}

#[test]
fn indices() {
    let inserts = 1000;
    let mut book = SegmentMap::<bool>::new();
    for i in 0..=inserts {
        let index = book.insert(true);
        assert_eq!(index, i);
    }

    let some_index = 512;
    book.remove(some_index);
    assert!(*book.get(0).unwrap());
    assert!(*book.get(some_index - 1).unwrap());
    assert!(*book.get(some_index + 1).unwrap());
    assert!(*book.get(inserts).unwrap());
}

#[test]
fn reuse_inner() {
    let mut book = SegmentMap::<bool>::new();
    let index = book.insert(true);
    assert_eq!(index, 0);
    book.remove(index);
    let index = book.insert(true);
    assert_eq!(index, 0);
}

#[test]
fn reuse_outer() {
    let mut book = SegmentMap::<bool>::new();
    for _ in 0..SEGMENTSIZE {
        let _ = book.insert(true);
    }
    for index in 0..SEGMENTSIZE {
        book.remove(index);
    }
    let index = book.insert(true);
    assert_eq!(index, 0);
}

#[test]
fn iterator() {
    let mut book = SegmentMap::<bool>::new();
    let _ = book.insert(true);
    let _ = book.insert(false);
    let _ = book.insert(true);
    let _ = book.insert(false);
    let mut iter = book.iter();
    assert_eq!(iter.next(), Some(&true));
    assert_eq!(iter.next(), Some(&false));
    assert_eq!(iter.next(), Some(&true));
    assert_eq!(iter.next(), Some(&false));
    assert_eq!(iter.next(), None);
}

#[test]
fn iterator_empty() {
    let book = SegmentMap::<bool>::new();
    let mut iter = book.iter();
    assert_eq!(iter.next(), None);
}

#[test]
fn index_iterator_empty() {
    let book = SegmentMap::<bool>::new();
    let mut iter = book.iter_with_index();
    assert_eq!(iter.next(), None);
}

#[test]
fn iterator_gapped() {
    let mut book = SegmentMap::<bool>::new();
    let _ = book.insert(true);
    let a = book.insert(false);
    let _ = book.insert(true);
    let b = book.insert(false);
    book.remove(a);
    book.remove(b);
    let mut iter = book.iter();
    assert_eq!(iter.next(), Some(&true));
    assert_eq!(iter.next(), Some(&true));
    assert_eq!(iter.next(), None);
}

#[test]
fn index_iterator() {
    let mut book = SegmentMap::<bool>::new();
    let a = book.insert(true);
    let b = book.insert(false);
    let mut iter = book.iter_with_index();
    assert_eq!(iter.next(), Some((&true, a)));
    assert_eq!(iter.next(), Some((&false, b)));
    assert_eq!(iter.next(), None);
}

#[test]
fn index_iterator_gapped() {
    let mut book = SegmentMap::<bool>::new();
    let a = book.insert(true);
    let b = book.insert(false);
    let c = book.insert(true);
    let d = book.insert(false);
    book.remove(b);
    book.remove(d);
    let mut iter = book.iter_with_index();
    assert_eq!(iter.next(), Some((&true, a)));
    assert_eq!(iter.next(), Some((&true, c)));
    assert_eq!(iter.next(), None);
}

#[test]
fn last_index_is_updated_when_last_segment_removed() {
    let mut map = SegmentMap::<bool>::new();

    for _ in 0..2 * SEGMENTSIZE {
        map.insert(true);
    }

    assert_eq!(map.last_index, 1);

    let i = map.insert(true);
    assert_eq!(map.last_index, 2);

    map.remove(i);
    assert_eq!(map.last_index, 1);
}

#[test]
fn first_last_index_correct_when_segments_cleared() {
    let mut map = SegmentMap::<bool>::new();

    for _ in 0..2 * SEGMENTSIZE + 1 {
        map.insert(true);
    }

    assert_eq!(map.last_index, 2);

    for i in 0..2 * SEGMENTSIZE {
        map.remove(i);
    }

    assert_eq!(map.first_index, 2);
    assert_eq!(map.last_index, 2);

    map.remove(2 * SEGMENTSIZE);

    map.insert(true);

    assert_eq!(map.first_index, 0);
    assert_eq!(map.last_index, 0);
}

#[test]
fn frontier_skips_holes() {
    let mut book = SegmentMap::<u32>::new();
    let a = book.insert(10);
    let b = book.insert(11);
    assert_eq!(a, 0);
    assert_eq!(b, 1);
    book.remove(0);
    let c = book.insert(12);
    assert_eq!(c, 2);
    assert!(book.get(0).is_none());
    assert_eq!(book.get(1), Some(&11));
    assert_eq!(book.get(2), Some(&12));
}

#[test]
fn segment_rollover() {
    let mut book = SegmentMap::<usize>::new();
    for i in 0..=SEGMENTSIZE {
        let index = book.insert(i);
        assert_eq!(index, i);
    }
    assert_eq!(book.last_index, 1);
    assert_eq!(book.get(SEGMENTSIZE), Some(&SEGMENTSIZE));
}

#[test]
fn middle_segment_excised() {
    let mut book = SegmentMap::<usize>::new();
    for i in 0..3 * SEGMENTSIZE {
        book.insert(i);
    }
    for i in SEGMENTSIZE..2 * SEGMENTSIZE {
        book.remove(i);
    }
    assert_eq!(book.first_index, 0);
    assert_eq!(book.last_index, 2);
    let mut iter = book.iter_with_index();
    for i in 0..SEGMENTSIZE {
        assert_eq!(iter.next(), Some((&i, i)));
    }
    for i in 2 * SEGMENTSIZE..3 * SEGMENTSIZE {
        assert_eq!(iter.next(), Some((&i, i)));
    }
    assert_eq!(iter.next(), None);
}

#[test]
fn replace_keeps_position() {
    let mut book = SegmentMap::<u32>::new();
    let a = book.insert(1);
    let b = book.insert(2);
    let c = book.insert(3);
    book.replace(b, 20);
    let mut iter = book.iter_with_index();
    assert_eq!(iter.next(), Some((&1, a)));
    assert_eq!(iter.next(), Some((&20, b)));
    assert_eq!(iter.next(), Some((&3, c)));
    assert_eq!(iter.next(), None);
}

#[test]
fn thousand_inserts_then_remove_middle() {
    let mut book = SegmentMap::<usize>::new();
    for i in 0..1000 {
        let index = book.insert(i);
        assert_eq!(index, i);
    }
    book.remove(512);
    assert_eq!(book.get(511), Some(&511));
    assert!(book.get(512).is_none());
    assert_eq!(book.get(513), Some(&513));
    assert_eq!(book.get(999), Some(&999));
}

#[test]
fn get_on_empty_and_unknown_keys() {
    let mut book = SegmentMap::<u8>::new();
    assert!(book.get(0).is_none());
    assert!(book.get(12345).is_none());
    assert!(book.get_mut(7).is_none());
    let i = book.insert(9);
    assert!(book.get(i + 1).is_none());
    assert!(book.get(SEGMENTSIZE).is_none());
}
