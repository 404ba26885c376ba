use udpipe::ochen_circus_buf::OchenCircusBuf;

#[test]
fn basic_write_read() {
    let mut buf = OchenCircusBuf::with_capacity(16);
    let data = &b"KEQUE"[..];
    assert_eq!(buf.write_data_at_read_offset(0, &data), data.len());
    let [buf1, buf2] = buf.get_data();
    assert_eq!(buf1, data);
    assert_eq!(buf2.len(), 0);

    buf.consume(data.len());
    assert_eq!(buf.len(), 0);
    assert_eq!(buf.get_data(), [[], []]);
}

#[test]
fn write_read_at_offset() {
    let mut buf = OchenCircusBuf::with_capacity(16);
    let data = &b"KEQUE"[..];
    assert_eq!(buf.write_data_at_read_offset(10, &data), data.len());
    let [buf1, buf2] = buf.get_data();
    assert_eq!(buf1.len() - 10, data.len());
    assert_eq!(&buf1[10..], data);
    assert_eq!(buf2.len(), 0);

    buf.consume(data.len() + 10);
    assert_eq!(buf.len(), 0);
    assert_eq!(buf.get_data(), [[], []]);
}

#[test]
fn write_read_at_offset_wrapped() {
    let mut buf = OchenCircusBuf::with_capacity(16);
    let data = &b"KEQUE"[..];
    assert_eq!(buf.write_data_at_read_offset(5, &data), data.len());
    // .....KEQUE______

    let [buf1, buf2] = buf.get_data();
    assert_eq!(buf1.len() - 5, data.len());
    assert_eq!(&buf1[5..], data);
    assert_eq!(buf2.len(), 0);

    buf.consume(8);
    // ________UE______
    assert_eq!(buf.len(), 2);
    assert_eq!(buf.get_data(), [&data[3..], &[]]);

    let data2 = &b"P0GGERS"[..];
    assert_eq!(buf.write_data_at_read_offset(4, &data2), data2.len());
    // ERS_____UE..P0GG
    //
    let [buf1, buf2] = buf.get_data();
    assert_eq!(&buf1[..2], &data[3..]);
    assert_eq!(&buf1[4..], &data2[..4]);
    assert_eq!(&buf2[..3], &data2[4..]);

    buf.consume(9);
    // _RS_____________
    assert_eq!(buf.len(), 2);
    assert_eq!(buf.get_data(), [&data2[5..], &[]]);
}

#[test]
fn one_slot_stays_free() {
    let mut buf = OchenCircusBuf::with_capacity(4);
    assert_eq!(buf.capacity(), 4);
    assert_eq!(buf.write_data_at_read_offset(0, b"ABCD"), 3);
    assert_eq!(buf.len(), 3);
    assert_eq!(buf.get_data(), [&b"ABC"[..], &[]]);
    assert_eq!(buf.write_data_at_read_offset(3, b"X"), 0);
    assert_eq!(buf.write_data_at_read_offset(4, b"X"), 0);
    assert_eq!(buf.get_data(), [&b"ABC"[..], &[]]);
}

#[test]
fn writing_inside_keeps_the_readable_part() {
    let mut buf = OchenCircusBuf::with_capacity(16);
    buf.write_data_at_read_offset(7, b"BIDON");
    assert_eq!(buf.len(), 12);
    assert_eq!(buf.write_data_at_read_offset(0, b"SHLANGO"), 7);
    assert_eq!(buf.len(), 12);
    assert_eq!(buf.get_data()[0], b"SHLANGOBIDON");
}

#[test]
fn too_long_write_leaves_the_read_end_alone() {
    let mut buf = OchenCircusBuf::with_capacity(8);
    buf.write_data_at_read_offset(0, b"ABCDEF");
    buf.consume(6);
    assert_eq!(buf.write_data_at_read_offset(0, b"0123456789"), 7);
    let [buf1, buf2] = buf.get_data();
    assert_eq!(buf1, b"01");
    assert_eq!(buf2, b"23456");
}

#[test]
fn consuming_beyond_the_readable_part_wraps() {
    let mut buf = OchenCircusBuf::with_capacity(8);
    buf.write_data_at_read_offset(0, b"AB");
    buf.consume(3);
    assert_eq!(buf.len(), 7);
    buf.consume(8 * 5 + 7);
    assert_eq!(buf.len(), 0);
}

#[test]
fn ring_without_slots_takes_nothing() {
    let mut buf = OchenCircusBuf::with_capacity(0);
    assert_eq!(buf.len(), 0);
    assert_eq!(buf.write_data_at_read_offset(0, b"A"), 0);
    assert_eq!(buf.get_data(), [[], []]);
}

#[test]
fn placed_bytes_are_read_back_after_moving_on() {
    let mut buf = OchenCircusBuf::with_capacity(16);
    buf.write_data_at_read_offset(0, b"0123456789");
    buf.write_data_at_read_offset(4, b"XYZ");
    buf.consume(2);
    buf.consume(1);
    assert_eq!(buf.get_data()[0], b"3XYZ789");
}
