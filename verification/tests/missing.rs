use udpipe::missing::{MissingSegment, MissingSegments, SegmentationFault};

#[test]
fn shlangobidon() {
    let now = 1;
    let mut segs = MissingSegments::new();
    segs.insert(0, 7, now).unwrap();
    let mut iter = segs.missing_iter();
    assert_eq!(
        iter.next().unwrap(),
        &MissingSegment {
            begin: 0,
            end: 7,
            timestamp: now
        }
    );
    assert!(iter.next().is_none());

    let mut iter = segs.missing_iter();
    assert_eq!(
        iter.next().unwrap(),
        &MissingSegment {
            begin: 0,
            end: 7,
            timestamp: now
        }
    );
    iter.cut_range(0, 7, now);
    assert!(iter.next().is_none());

    let mut iter = segs.missing_iter();
    assert!(iter.next().is_none());
}

#[test]
fn insert_iter() {
    let now = 1;
    let mut segs = MissingSegments::new();
    segs.insert(10, 20, now).unwrap();
    segs.insert(30, 40, now).unwrap();

    let mut iter = segs.missing_iter();
    assert_eq!(
        iter.next().unwrap(),
        &MissingSegment {
            begin: 10,
            end: 20,
            timestamp: now
        }
    );
    assert_eq!(
        iter.next().unwrap(),
        &MissingSegment {
            begin: 30,
            end: 40,
            timestamp: now
        }
    );
    assert!(iter.next().is_none());

    assert_eq!(
        segs.insert(23, 27, now).err().unwrap(),
        SegmentationFault::TooOld { head_offset: 40 }
    );
}

#[test]
fn cutlery() {
    let now = 1;
    let mut segs = MissingSegments::new();
    segs.insert(10, 20, now).unwrap();
    segs.insert(30, 40, now).unwrap();
    segs.insert(50, 80, now).unwrap();
    segs.insert(90, 100, now).unwrap();

    let mut iter = segs.missing_iter();
    assert_eq!(
        iter.next().unwrap(),
        &MissingSegment {
            begin: 10,
            end: 20,
            timestamp: now
        }
    );
    let now2 = 2;
    iter.cut_range(10, 15, now2);

    assert_eq!(
        iter.next().unwrap(),
        &MissingSegment {
            begin: 30,
            end: 40,
            timestamp: now
        }
    );

    let mut iter = segs.missing_iter();
    assert_eq!(
        iter.next().unwrap(),
        &MissingSegment {
            begin: 15,
            end: 20,
            timestamp: now
        }
    );
    assert_eq!(
        iter.next().unwrap(),
        &MissingSegment {
            begin: 30,
            end: 40,
            timestamp: now
        }
    );
    let now3 = 3;
    iter.cut_range(37, 40, now3);
    assert_eq!(
        iter.next().unwrap(),
        &MissingSegment {
            begin: 50,
            end: 80,
            timestamp: now
        }
    );

    let mut iter = segs.missing_iter();
    assert_eq!(
        iter.next().unwrap(),
        &MissingSegment {
            begin: 15,
            end: 20,
            timestamp: now
        }
    );
    assert_eq!(
        iter.next().unwrap(),
        &MissingSegment {
            begin: 30,
            end: 37,
            timestamp: now3
        }
    );
    assert_eq!(
        iter.next().unwrap(),
        &MissingSegment {
            begin: 50,
            end: 80,
            timestamp: now
        }
    );
    let now4 = 4;
    iter.cut_range(60, 70, now4);
    assert_eq!(
        iter.next().unwrap(),
        &MissingSegment {
            begin: 90,
            end: 100,
            timestamp: now
        }
    );

    let mut iter = segs.missing_iter();
    assert_eq!(
        iter.next().unwrap(),
        &MissingSegment {
            begin: 15,
            end: 20,
            timestamp: now
        }
    );
    assert_eq!(
        iter.next().unwrap(),
        &MissingSegment {
            begin: 30,
            end: 37,
            timestamp: now3
        }
    );
    assert_eq!(
        iter.next().unwrap(),
        &MissingSegment {
            begin: 50,
            end: 60,
            timestamp: now4
        }
    );
    assert_eq!(
        iter.next().unwrap(),
        &MissingSegment {
            begin: 70,
            end: 80,
            timestamp: now
        }
    );
    assert_eq!(
        iter.next().unwrap(),
        &MissingSegment {
            begin: 90,
            end: 100,
            timestamp: now
        }
    );
    assert!(iter.next().is_none());
}

#[test]
fn first_is_the_earliest_offset() {
    let mut segs = MissingSegments::new();
    assert_eq!(segs.first(), None);
    segs.insert(30, 40, 1).unwrap();
    segs.insert(40, 50, 1).unwrap();
    assert_eq!(segs.first(), Some(30));
    assert_eq!(segs.count(), 2);
    assert_eq!(
        segs.get(1),
        MissingSegment {
            begin: 40,
            end: 50,
            timestamp: 1
        }
    );
    let mut iter = segs.missing_iter();
    iter.next();
    iter.cut_range(30, 35, 2);
    assert_eq!(segs.first(), Some(35));
}

#[test]
fn timestamp_of_the_current_stretch() {
    let mut segs = MissingSegments::new();
    segs.insert(10, 20, 1).unwrap();
    let mut iter = segs.missing_iter();
    assert_eq!(iter.update_timestamp(5), None);
    iter.next();
    assert_eq!(iter.update_timestamp(5), Some(1));
    assert_eq!(iter.update_timestamp(6), Some(5));
    assert_eq!(segs.get(0).timestamp, 6);
}

#[test]
fn stretches_that_touch_are_in_order() {
    let mut segs = MissingSegments::new();
    segs.insert(10, 20, 1).unwrap();
    assert!(segs.insert(20, 25, 2).is_ok());
    assert_eq!(
        segs.insert(24, 30, 3),
        Err(SegmentationFault::TooOld { head_offset: 25 })
    );
    assert_eq!(segs.count(), 2);
}

fn three() -> MissingSegments {
    let mut segs = MissingSegments::new();
    segs.insert(10, 20, 1).unwrap();
    segs.insert(20, 30, 1).unwrap();
    segs.insert(40, 50, 1).unwrap();
    segs
}

#[test]
fn walk_goes_on_behind_the_cut() {
    let cuts = [(20, 30), (20, 25), (25, 30), (23, 27), (25, 25), (20, 20), (30, 30)];
    for (begin, end) in cuts.iter() {
        let mut segs = three();
        let mut iter = segs.missing_iter();
        iter.next();
        assert_eq!(iter.next().unwrap().begin, 20);
        iter.cut_range(*begin, *end, 9);
        assert_eq!(iter.next().unwrap().begin, 40);
        assert!(iter.next().is_none());
    }
}

#[test]
fn one_cut_removes_exactly_the_cut() {
    let cuts = [(20, 30), (20, 25), (25, 30), (23, 27), (25, 25)];
    for (begin, end) in cuts.iter() {
        let mut segs = three();
        let mut iter = segs.missing_iter();
        iter.next();
        iter.next();
        iter.cut_range(*begin, *end, 9);
        let list: Vec<MissingSegment> = (0..segs.count()).map(|i| segs.get(i)).collect();
        for pair in list.windows(2) {
            assert!(pair[0].end <= pair[1].begin);
        }
        for x in 0..60 {
            let before = (10..30).contains(&x) || (40..50).contains(&x);
            let after = list.iter().any(|m| m.begin <= x && x < m.end);
            assert_eq!(after, before && !(*begin <= x && x < *end));
        }
        assert!(list.iter().all(|m| m.begin < m.end));
    }
}
