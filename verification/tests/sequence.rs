use udpipe::sequence::Sequence;

#[test]
fn numbers_count_up_from_zero() {
    let mut sequence = Sequence::new();
    assert_eq!(sequence.next(), 0);
    assert_eq!(sequence.next(), 1);
    assert_eq!(sequence.next(), 2);
    assert_eq!(u32::from(sequence), 3);
}

#[test]
fn age_is_the_distance() {
    let mut sequence = Sequence::new();
    for _ in 0..10 {
        sequence.next();
    }
    assert_eq!(sequence.age(10), Some(0));
    assert_eq!(sequence.age(7), Some(3));
    assert_eq!(sequence.age(15), Some(5));
}

#[test]
fn age_has_a_limit() {
    let sequence = Sequence::new();
    assert_eq!(sequence.age(0x7fff_fffe), Some(0x7fff_fffe));
    assert_eq!(sequence.age(0x7fff_ffff), None);
    assert_eq!(sequence.age(0xffff_ffff), None);
}

#[test]
fn age_is_the_same_both_ways() {
    let mut older = Sequence::new();
    older.next();
    let mut newer = older;
    for _ in 0..1000 {
        newer.next();
    }
    assert_eq!(older.age(u32::from(newer)), newer.age(u32::from(older)));
    assert_eq!(older.age(u32::from(newer)), Some(1000));
}
