use byteorder::{LittleEndian, WriteBytesExt};
use std::io::{Cursor, Write};
use udpipe::error::{ErrorKind, ReceiveError};
use udpipe::receive::Receiver;

struct Segment<'a> {
    offset: u64,
    data: &'a [u8],
}

struct Packet<'a> {
    seq: u32,
    segments: &'a [Segment<'a>],
}

fn packet_bytes(pkt: &Packet) -> Vec<u8> {
    let mut buf = [0u8; 1500];
    let mut c = Cursor::new(&mut buf[..]);

    c.write_u32::<LittleEndian>(pkt.seq).unwrap();
    for seg in pkt.segments {
        let header: u16 = (0u16 << 11) | (seg.data.len() + 8) as u16;
        c.write_u16::<LittleEndian>(header).unwrap();
        c.write_u64::<LittleEndian>(seg.offset).unwrap();
        assert_eq!(c.write(seg.data).unwrap(), seg.data.len());
    }

    let size = c.position() as usize;
    buf[..size].to_vec()
}

fn push_packet(recv: &mut Receiver, pkt: &Packet) {
    let bytes = packet_bytes(pkt);
    assert!(Receiver::packet_is_safe(&bytes));
    recv.receive_packet(&bytes, 0).unwrap();
}

fn push_piece(recv: &mut Receiver, offset: u64, data: &[u8]) {
    push_packet(
        recv,
        &Packet {
            seq: 0,
            segments: &[Segment { offset, data }],
        },
    );
}

fn read_all(recv: &mut Receiver) -> Vec<u8> {
    let mut buf = [0u8; 256];
    let size = recv.read(&mut buf).unwrap();
    buf[..size].to_vec()
}

#[test]
fn basic_packet_parse() {
    let mut recv = Receiver::new();

    let data = &b"SHLANG"[..];
    push_packet(
        &mut recv,
        &Packet {
            seq: 0,
            segments: &[Segment {
                offset: 0,
                data: &data,
            }],
        },
    );

    let mut buf = [0u8; 32];
    assert_eq!(recv.read(&mut buf).unwrap(), data.len());
    assert_eq!(&buf[..data.len()], data);
}

#[test]
fn basic_packet_parse_2seg() {
    let mut recv = Receiver::new();

    let data = &b"SHLANGOKEFIR"[..];
    push_packet(
        &mut recv,
        &Packet {
            seq: 0,
            segments: &[
                Segment {
                    offset: 0,
                    data: &data[..5],
                },
                Segment {
                    offset: 5,
                    data: &data[5..],
                },
            ],
        },
    );

    let mut buf = [0u8; 32];
    assert_eq!(recv.read(&mut buf).unwrap(), data.len());
    assert_eq!(&buf[..data.len()], data);
}

#[test]
fn packet_out_of_order() {
    let mut recv = Receiver::new();

    let data = &b"SHLANGOBIDON"[..];
    push_packet(
        &mut recv,
        &Packet {
            seq: 1,
            segments: &[Segment {
                offset: 7,
                data: &data[7..],
            }],
        },
    );

    push_packet(
        &mut recv,
        &Packet {
            seq: 0,
            segments: &[Segment {
                offset: 0,
                data: &data[..7],
            }],
        },
    );

    let mut buf = [0u8; 32];
    assert_eq!(recv.read(&mut buf).unwrap(), data.len());
    assert_eq!(&buf[..data.len()], data);
}

#[test]
fn nothing_is_read_before_the_gap_is_filled() {
    let mut recv = Receiver::with_capacity(64);
    push_piece(&mut recv, 4, b"efgh");
    assert_eq!(recv.data_to_read(), 0);
    assert_eq!(read_all(&mut recv), b"");
    push_piece(&mut recv, 1, b"bc");
    assert_eq!(recv.data_to_read(), 0);
    push_piece(&mut recv, 0, b"a");
    assert_eq!(recv.data_to_read(), 3);
    assert_eq!(read_all(&mut recv), b"abc");
    push_piece(&mut recv, 3, b"d");
    assert_eq!(read_all(&mut recv), b"defgh");
}

#[test]
fn piece_that_covers_read_missing_and_received_bytes() {
    let mut recv = Receiver::with_capacity(64);
    push_piece(&mut recv, 0, b"ab");
    assert_eq!(read_all(&mut recv), b"ab");
    push_piece(&mut recv, 4, b"ef");
    push_piece(&mut recv, 8, b"ij");
    push_piece(&mut recv, 0, b"abcdefghijkl");
    assert_eq!(read_all(&mut recv), b"cdefghijkl");
}

#[test]
fn duplicates_and_old_pieces_change_nothing() {
    let mut recv = Receiver::with_capacity(64);
    push_piece(&mut recv, 0, b"abcd");
    push_piece(&mut recv, 0, b"abcd");
    push_piece(&mut recv, 2, b"cd");
    assert_eq!(recv.data_to_read(), 4);
    assert_eq!(read_all(&mut recv), b"abcd");
    push_piece(&mut recv, 1, b"bc");
    assert_eq!(recv.data_to_read(), 0);
}

#[test]
fn order_of_arrival_does_not_matter() {
    let pieces: [(u64, &[u8]); 3] = [(0, b"abc"), (2, b"cdef"), (6, b"gh")];
    let orders = [
        [0, 1, 2],
        [0, 2, 1],
        [1, 0, 2],
        [1, 2, 0],
        [2, 0, 1],
        [2, 1, 0],
    ];
    for order in &orders {
        let mut recv = Receiver::with_capacity(64);
        for i in order {
            push_piece(&mut recv, pieces[*i].0, pieces[*i].1);
        }
        assert_eq!(read_all(&mut recv), b"abcdefgh");
    }
}

#[test]
fn ring_takes_what_it_has_slots_for() {
    let mut recv = Receiver::with_capacity(8);
    push_piece(&mut recv, 0, b"0123456789");
    assert_eq!(read_all(&mut recv), b"0123456");
    push_piece(&mut recv, 0, b"0123456789");
    assert_eq!(read_all(&mut recv), b"789");
    push_piece(&mut recv, 17, b"x");
    assert_eq!(recv.data_to_read(), 0);
    push_piece(&mut recv, 10, b"abcdefg");
    assert_eq!(read_all(&mut recv), b"abcdefg");
}

#[test]
fn short_buffer_gets_the_beginning() {
    let mut recv = Receiver::with_capacity(64);
    push_piece(&mut recv, 0, b"abcdef");
    let mut buf = [0u8; 4];
    assert_eq!(recv.read(&mut buf), Ok(4));
    assert_eq!(&buf, b"abcd");
    let mut buf = [b'.'; 4];
    assert_eq!(recv.read(&mut buf), Ok(2));
    assert_eq!(&buf, b"ef..");
}

#[test]
fn stream_wraps_around_the_ring() {
    let mut recv = Receiver::with_capacity(8);
    let mut offset: u64 = 0;
    for round in 0..10u8 {
        let data = [round; 5];
        push_piece(&mut recv, offset, &data);
        assert_eq!(read_all(&mut recv), data);
        offset += 5;
    }
}

#[test]
fn used_bytes_are_counted_up_to_the_last_whole_chunk() {
    let mut recv = Receiver::new();
    let mut bytes = packet_bytes(&Packet {
        seq: 7,
        segments: &[Segment {
            offset: 0,
            data: b"ab",
        }],
    });
    assert_eq!(recv.receive_packet(&bytes, 0), Ok(16));
    bytes.push(0);
    assert_eq!(recv.receive_packet(&bytes, 0), Ok(16));
}

#[test]
fn packet_without_number_is_refused() {
    let mut recv = Receiver::new();
    let error = recv.receive_packet(&[0, 0, 0], 0).unwrap_err();
    assert_eq!(error, ReceiveError::NoSequence);
    assert_eq!(error.kind(), ErrorKind::UnexpectedEof);
    assert_eq!(recv.receive_packet(&[0, 0, 0, 0], 0), Ok(4));
}

#[test]
fn chunk_that_ends_abruptly_is_refused() {
    let mut recv = Receiver::new();
    let mut bytes = packet_bytes(&Packet {
        seq: 0,
        segments: &[
            Segment {
                offset: 0,
                data: b"ab",
            },
            Segment {
                offset: 2,
                data: b"cd",
            },
        ],
    });
    bytes.pop();
    let error = recv.receive_packet(&bytes, 0).unwrap_err();
    assert_eq!(
        error,
        ReceiveError::ChunkEndsAbruptly {
            chunk_type: 0,
            size: 10,
            offset: 18,
            left: 9
        }
    );
    assert_eq!(error.kind(), ErrorKind::UnexpectedEof);
    assert_eq!(read_all(&mut recv), b"ab");
}

#[test]
fn unknown_chunk_is_refused() {
    let mut recv = Receiver::new();
    let bytes = [0, 0, 0, 0, 3, 8, 1, 2, 3];
    let error = recv.receive_packet(&bytes, 0).unwrap_err();
    assert_eq!(
        error,
        ReceiveError::UnknownChunk {
            chunk_type: 1,
            size: 3
        }
    );
    assert_eq!(error.kind(), ErrorKind::InvalidData);
}

#[test]
fn unsafe_packets_are_told_apart() {
    // A segment chunk without room for its offset.
    assert!(!Receiver::packet_is_safe(&[0, 0, 0, 0, 2, 0, 1, 2]));
    // A segment whose end is beyond the last stream offset.
    let bytes = packet_bytes(&Packet {
        seq: 0,
        segments: &[Segment {
            offset: u64::MAX,
            data: b"a",
        }],
    });
    assert!(!Receiver::packet_is_safe(&bytes));
    // The same behind an unknown chunk is never reached.
    let mut hidden = vec![0, 0, 0, 0, 0, 16];
    hidden.extend_from_slice(&bytes[4..]);
    assert!(Receiver::packet_is_safe(&hidden));
    assert!(Receiver::packet_is_safe(&[0]));
}

#[test]
fn announced_bytes_are_missing_until_they_arrive() {
    let mut recv = Receiver::with_capacity(16);
    recv.update_stream_front(4, 9);
    assert_eq!(recv.data_to_read(), 0);
    let mut buf = [0u8; 32];
    assert_eq!(recv.make_chunk_feedback(&mut buf, 1, 31), 20);
    assert_eq!(
        &buf[1..21],
        &[18, 8, 0, 0, 0, 0, 0, 0, 0, 0, 0, 0, 0, 0, 0, 0, 0, 0, 4, 0]
    );
    push_piece(&mut recv, 0, b"abcd");
    assert_eq!(read_all(&mut recv), b"abcd");
    let mut buf = [0u8; 32];
    assert_eq!(recv.make_chunk_feedback(&mut buf, 0, 32), 10);
    assert_eq!(&buf[..10], &[8, 8, 4, 0, 0, 0, 0, 0, 0, 0]);
}

#[test]
fn feedback_lists_as_much_as_fits() {
    let mut recv = Receiver::with_capacity(64);
    push_piece(&mut recv, 1, b"b");
    push_piece(&mut recv, 3, b"d");
    push_piece(&mut recv, 5, b"f");
    let mut buf = [0u8; 64];
    assert_eq!(recv.make_chunk_feedback(&mut buf, 0, 9), 0);
    assert_eq!(recv.make_chunk_feedback(&mut buf, 0, 10), 10);
    assert_eq!(recv.make_chunk_feedback(&mut buf, 0, 39), 30);
    assert_eq!(recv.make_chunk_feedback(&mut buf, 0, 64), 40);
    assert_eq!(&buf[..2], &[38, 8]);
    assert_eq!(&buf[20..30], &[2, 0, 0, 0, 0, 0, 0, 0, 1, 0]);
}

#[test]
fn feedback_asks_for_no_more_than_it_can_name() {
    let mut recv = Receiver::with_capacity(100_000);
    recv.update_stream_front(80_000, 0);
    let mut buf = [0u8; 20];
    assert_eq!(recv.make_chunk_feedback(&mut buf, 0, 20), 20);
    assert_eq!(&buf[18..20], &[255, 255]);
}

#[test]
fn announcement_reaches_no_further_than_the_ring() {
    let mut recv = Receiver::with_capacity(16);
    recv.update_stream_front(1000, 0);
    let mut buf = [0u8; 20];
    assert_eq!(recv.make_chunk_feedback(&mut buf, 0, 20), 20);
    assert_eq!(&buf[18..20], &[15, 0]);
    recv.update_stream_front(3, 0);
    push_piece(&mut recv, 0, b"0123456789abcdef");
    assert_eq!(read_all(&mut recv), b"0123456789abcde");
}

#[test]
fn feedback_size_is_what_feedback_takes() {
    let mut recv = Receiver::with_capacity(64);
    push_piece(&mut recv, 1, b"b");
    push_piece(&mut recv, 3, b"d");
    for room in 0..50 {
        let mut buf = [0u8; 64];
        assert_eq!(
            recv.feedback_size(room),
            recv.make_chunk_feedback(&mut buf, 0, room)
        );
    }
    assert_eq!(recv.feedback_size(29), 20);
}

#[test]
fn packet_number_does_not_matter() {
    let pieces: [(u64, &[u8]); 3] = [(4, b"ef"), (0, b"ab"), (2, b"cdef")];
    let mut one = Receiver::with_capacity(64);
    let mut two = Receiver::with_capacity(64);
    for (i, (offset, data)) in pieces.iter().enumerate() {
        let segments = [Segment {
            offset: *offset,
            data,
        }];
        let a = packet_bytes(&Packet {
            seq: i as u32,
            segments: &segments,
        });
        let b = packet_bytes(&Packet {
            seq: u32::MAX - 7 * i as u32,
            segments: &segments,
        });
        assert_eq!(one.receive_packet(&a, 1), two.receive_packet(&b, 1));
        assert_eq!(one.data_to_read(), two.data_to_read());
    }
    assert_eq!(read_all(&mut one), b"abcdef");
    assert_eq!(read_all(&mut two), b"abcdef");
}
