use byteorder::{LittleEndian, ReadBytesExt};
use std::io::Cursor;
use udpipe::error::{ErrorKind, SenderError};
use udpipe::pipe::{PipeEnd, ReadPipe};
use udpipe::range_set::{Edge, StreamRange};
use udpipe::receive::Receiver;
use udpipe::sende::{Segment, Sender};

fn write_data(packetizer: &mut Sender, data: &[u8]) {
    let mut source = ReadPipe::new(data.to_vec());
    assert_eq!(packetizer.write_from(&mut source).unwrap(), data.len());
}

fn check_single_fragment_data(
    packetizer: &mut Sender,
    expect_data: &[u8],
    expect_packet_seq: u32,
    expect_offset: u64,
    sent_so_far: &mut usize,
) {
    let header_size = 4 + 2 + 8;
    let mut buffer = vec![0u8; expect_data.len() + header_size];
    let packet_size = packetizer.generate(&mut buffer).unwrap();
    assert_eq!(packet_size, header_size + expect_data.len());

    println!("{:?}", &buffer);

    let mut r = Cursor::new(&buffer);
    let packet_seq = r.read_u32::<LittleEndian>().unwrap();
    assert_eq!(expect_packet_seq, packet_seq);

    let chunk_header = r.read_u16::<LittleEndian>().unwrap();
    let chunk_type = chunk_header >> 11;
    assert_eq!(0, chunk_type);

    let chunk_size = (chunk_header & 2047) as usize;
    assert_eq!(chunk_size, expect_data.len() + 8);

    let offset = r.read_u64::<LittleEndian>().unwrap();
    assert_eq!(expect_offset, offset);

    assert_eq!(
        expect_data[..],
        buffer[r.position() as usize..r.position() as usize + chunk_size - 8]
    );

    *sent_so_far += expect_data.len();
}

#[test]
fn sende_test_basic_packet_formation() {
    let mut sent_so_far = 0 as usize;
    let mut packetizer = Sender::new(32);

    let data = &b"keque...."[..];
    write_data(&mut packetizer, &data[..]);
    check_single_fragment_data(&mut packetizer, &data, 0, 0, &mut sent_so_far);

    let data = &b"qeqkekek"[..];
    write_data(&mut packetizer, &data[..]);
    check_single_fragment_data(
        &mut packetizer,
        &data,
        1,
        sent_so_far as u64,
        &mut sent_so_far,
    );
}

#[test]
fn test_segmented_packets() {
    let mut sent_so_far = 0 as usize;
    let mut packetizer = Sender::new(64);

    let data = &b"IAmALongStringLOOOOOOOOOOOOOOOOOOOOL"[..];
    write_data(&mut packetizer, &data[..]);
    check_single_fragment_data(&mut packetizer, &data[0..17], 0, 0, &mut sent_so_far);
    check_single_fragment_data(&mut packetizer, &data[17..23], 1, 17, &mut sent_so_far);
    check_single_fragment_data(&mut packetizer, &data[23..], 2, 23, &mut sent_so_far);
}

#[test]
fn exact_bytes_of_a_packet() {
    let mut sender = Sender::new(32);
    write_data(&mut sender, b"abc");
    let mut buf = [0xee; 20];
    assert_eq!(sender.generate(&mut buf), Ok(17));
    assert_eq!(
        buf,
        [
            0, 0, 0, 0, 11, 0, 0, 0, 0, 0, 0, 0, 0, 0, b'a', b'b', b'c', 0xee, 0xee, 0xee
        ]
    );
    assert!(!sender.have_data_to_send());
    assert_eq!(sender.generate(&mut buf), Ok(4));
    assert_eq!(&buf[..4], &[1, 0, 0, 0]);
}

#[test]
fn chunk_is_not_started_where_too_little_is_left() {
    let mut sender = Sender::new(32);
    write_data(&mut sender, b"abcdef");
    let mut buf = [0u8; 16];
    assert_eq!(sender.generate(&mut buf), Ok(4));
    let mut buf = [0u8; 17];
    assert_eq!(sender.generate(&mut buf), Ok(17));
    assert_eq!(&buf[4..6], &[11, 0]);
    assert!(sender.have_data_to_send());
}

#[test]
fn too_small_buffer_is_refused() {
    let mut sender = Sender::new(32);
    write_data(&mut sender, b"abc");
    let mut buf = [0u8; 5];
    assert_eq!(sender.generate(&mut buf), Err(SenderError::BufferTooSmall));
    let mut buf = [0u8; 6];
    assert_eq!(sender.generate(&mut buf), Ok(4));
    assert_eq!(buf[..4], [0, 0, 0, 0]);
}

#[test]
fn capacity_is_rounded_up() {
    let mut sender = Sender::new(5);
    assert_eq!(sender.buffer_free(), 7);
    let mut source = ReadPipe::new(b"0123456789".to_vec());
    source.readable = true;
    assert_eq!(sender.write_from(&mut source), Ok(7));
    assert!(source.readable);
    assert_eq!(sender.len(), 7);
    assert_eq!(sender.buffer_free(), 0);
    assert_eq!(sender.stream_front(), 7);
    assert_eq!(sender.write_from(&mut source), Ok(0));
    assert!(!source.readable);
    assert_eq!(sender.confirm_read(3), Ok(3));
    assert_eq!(sender.write_from(&mut source), Ok(3));
    assert_eq!(sender.stream_front(), 10);
    assert_eq!(sender.write_from(&mut source), Ok(0));
}

#[test]
fn nothing_fits_the_smallest_buffer() {
    let mut sender = Sender::new(1);
    assert_eq!(sender.buffer_free(), 0);
    let mut source = ReadPipe::new(b"a".to_vec());
    source.readable = true;
    assert_eq!(sender.write_from(&mut source), Ok(0));
    assert!(source.readable);
    assert!(!sender.have_data_to_send());
}

#[test]
fn confirmed_bytes_are_dropped() {
    let mut sender = Sender::new(16);
    write_data(&mut sender, b"abcdef");
    assert_eq!(
        sender.confirm_read(7),
        Err(SenderError::InvalidOffset { head: 6 })
    );
    assert_eq!(sender.confirm_read(0), Ok(0));
    assert_eq!(sender.confirm_read(4), Ok(4));
    assert_eq!(sender.confirm_read(2), Ok(0));
    assert_eq!(sender.len(), 2);
    let mut buf = [0u8; 32];
    assert_eq!(sender.generate(&mut buf), Ok(16));
    assert_eq!(
        &buf[4..16],
        &[10, 0, 4, 0, 0, 0, 0, 0, 0, 0, b'e', b'f']
    );
    assert_eq!(sender.confirm_read(6), Ok(2));
    assert_eq!(sender.len(), 0);
}

#[test]
fn requested_bytes_are_sent_again() {
    let mut sender = Sender::new(32);
    write_data(&mut sender, b"abcdefgh");
    let mut buf = [0u8; 64];
    sender.generate(&mut buf).unwrap();
    assert!(!sender.have_data_to_send());
    assert_eq!(sender.resend(1, 2), Ok(()));
    assert_eq!(sender.resend(6, 100), Ok(()));
    assert_eq!(
        sender.resend(9, 1),
        Err(SenderError::InvalidOffset { head: 8 })
    );
    assert_eq!(sender.generate(&mut buf), Ok(4 + 12 + 12));
    assert_eq!(
        &buf[4..28],
        &[
            10, 0, 1, 0, 0, 0, 0, 0, 0, 0, b'b', b'c', 10, 0, 6, 0, 0, 0, 0, 0, 0, 0, b'g', b'h'
        ]
    );
    sender.confirm_read(4).unwrap();
    assert_eq!(sender.resend(0, 4), Ok(()));
    assert!(!sender.have_data_to_send());
    assert_eq!(sender.resend(2, 3), Ok(()));
    assert_eq!(sender.generate(&mut buf), Ok(15));
    assert_eq!(&buf[6..15], &[4, 0, 0, 0, 0, 0, 0, 0, b'e']);
}

#[test]
fn stretches_that_touch_are_sent_as_one() {
    let mut sender = Sender::new(32);
    write_data(&mut sender, b"abcdefgh");
    let mut buf = [0u8; 64];
    sender.generate(&mut buf).unwrap();
    sender.resend(4, 2).unwrap();
    sender.resend(2, 2).unwrap();
    assert_eq!(sender.generate(&mut buf), Ok(18));
    assert_eq!(&buf[4..6], &[12, 0]);
    assert_eq!(&buf[14..18], b"cdef");
}

#[test]
fn feedback_is_acted_on() {
    let mut sender = Sender::new(32);
    write_data(&mut sender, b"abcdefgh");
    let mut buf = [0u8; 64];
    sender.generate(&mut buf).unwrap();
    let mut feedback = vec![3, 0, 0, 0, 0, 0, 0, 0];
    feedback.extend_from_slice(&[5, 0, 0, 0, 0, 0, 0, 0, 2, 0]);
    assert_eq!(sender.read_chunk_feedback(&feedback), Ok(()));
    assert_eq!(sender.len(), 5);
    assert_eq!(sender.generate(&mut buf), Ok(16));
    assert_eq!(&buf[14..16], b"fg");
}

#[test]
fn faulty_feedback_is_refused() {
    let mut sender = Sender::new(32);
    write_data(&mut sender, b"abcdefgh");
    let eof = Err(SenderError::IoError {
        kind: ErrorKind::UnexpectedEof,
    });
    assert_eq!(sender.read_chunk_feedback(&[1, 0, 0]), eof);
    assert_eq!(sender.len(), 8);
    assert_eq!(
        sender.read_chunk_feedback(&[9, 0, 0, 0, 0, 0, 0, 0]),
        Err(SenderError::InvalidOffset { head: 8 })
    );
    assert_eq!(
        sender.read_chunk_feedback(&[1, 0, 0, 0, 0, 0, 0, 0, 7]),
        eof
    );
    assert_eq!(sender.len(), 7);
    assert_eq!(
        sender.read_chunk_feedback(&[2, 0, 0, 0, 0, 0, 0, 0, 9, 0, 0, 0, 0, 0, 0, 0, 1, 0]),
        Err(SenderError::InvalidOffset { head: 8 })
    );
    assert_eq!(sender.len(), 6);
}

#[test]
fn failing_source_adds_nothing() {
    let mut sender = Sender::new(32);
    let mut source = ReadPipe::new(b"ab".to_vec());
    let failed = ErrorKind::Os { code: 5 };
    source.refill(b"cd".to_vec(), PipeEnd::Failed { kind: failed });
    assert_eq!(sender.write_from(&mut source), Ok(4));
    assert_eq!(sender.write_from(&mut source), Err(failed));
    assert_eq!(sender.len(), 4);
    source.refill(b"ef".to_vec(), PipeEnd::WouldBlock);
    assert_eq!(sender.write_from(&mut source), Ok(2));
    source.readable = true;
    assert_eq!(sender.write_from(&mut source), Ok(0));
    assert!(!source.readable);
}

#[test]
fn kept_bytes_wrap_around_the_buffer() {
    let mut sender = Sender::new(8);
    let mut sent: u64 = 0;
    for round in 0..10u8 {
        let data = [round; 5];
        write_data(&mut sender, &data);
        let mut buf = [0u8; 32];
        assert_eq!(sender.generate(&mut buf), Ok(19));
        assert_eq!(&buf[14..19], &data);
        sent += 5;
        assert_eq!(sender.confirm_read(sent), Ok(5));
    }
}

#[test]
fn packets_of_a_sender_are_received() {
    let mut sender = Sender::new(64);
    let mut receiver = Receiver::with_capacity(64);
    write_data(&mut sender, b"over the wire and back again");
    let mut packets: Vec<Vec<u8>> = Vec::new();
    while sender.have_data_to_send() {
        let mut buf = [0u8; 20];
        let size = sender.generate(&mut buf).unwrap();
        packets.push(buf[..size].to_vec());
    }
    assert_eq!(packets.len(), 5);
    for packet in packets.iter().rev() {
        assert!(Receiver::packet_is_safe(packet));
        assert_eq!(receiver.receive_packet(packet, 0), Ok(packet.len()));
    }
    let mut out = [0u8; 64];
    assert_eq!(receiver.read(&mut out), Ok(28));
    assert_eq!(&out[..28], b"over the wire and back again");
}

#[test]
fn segment_of_a_range() {
    let cases = [
        (Edge::Included(3), Edge::Included(7), 3, 5),
        (Edge::Included(3), Edge::Excluded(7), 3, 4),
        (Edge::Excluded(3), Edge::Excluded(7), 4, 3),
        (Edge::Excluded(3), Edge::Included(7), 4, 4),
    ];
    for (start, end, offset, size) in &cases {
        let range = StreamRange {
            start: *start,
            end: *end,
        };
        let expected = Segment {
            offset: *offset,
            size: *size,
        };
        assert_eq!(Segment::from(&range), expected);
    }
}

#[test]
fn payload_sizes_are_foreseen() {
    let mut sender = Sender::new(8192);
    write_data(&mut sender, &[3; 3000]);
    assert!(sender.payload_fits(12));
    assert!(sender.payload_fits(2 + 2047));
    assert!(!sender.payload_fits(2 + 2048));
    assert!(!sender.payload_fits(8192));
}

#[test]
fn packets_carry_each_byte_once_and_in_order() {
    let text: Vec<u8> = (0..200u8).collect();
    let sizes = [17, 18, 40, 2053, 17, 33, 100, 64];
    let mut sender = Sender::new(256);
    let mut carried: Vec<u8> = Vec::new();
    let mut written = 0;
    let mut number: u32 = 0;
    loop {
        let size = sizes[number as usize % sizes.len()];
        if written < text.len() && number % 3 == 0 {
            let end = std::cmp::min(written + 50, text.len());
            write_data(&mut sender, &text[written..end]);
            written = end;
        }
        let mut buf = vec![0u8; size];
        let used = sender.generate(&mut buf).unwrap();
        assert!(used <= size);
        let mut r = Cursor::new(&buf[..used]);
        assert_eq!(r.read_u32::<LittleEndian>().unwrap(), number);
        number += 1;
        while (r.position() as usize) < used {
            let head = r.read_u16::<LittleEndian>().unwrap();
            assert_eq!(head >> 11, 0);
            let offset = r.read_u64::<LittleEndian>().unwrap();
            assert_eq!(offset, carried.len() as u64);
            let begin = r.position() as usize;
            let end = begin + (head & 2047) as usize - 8;
            carried.extend_from_slice(&buf[begin..end]);
            r.set_position(end as u64);
        }
        if used == 4 {
            assert_eq!(carried.len(), written);
            if written == text.len() {
                break;
            }
        }
    }
    assert_eq!(carried, text);
}
