use rand::rngs::SmallRng;
use rand::seq::SliceRandom;
use rand::{Rng, RngCore, SeedableRng};
use udpipe::connection::{Connection, ConnectionParams};
use udpipe::error::{ErrorKind, SenderError};
use udpipe::pipe::ReadPipe;

trait NetworkEmulator {
    fn transmit(&mut self, src: &mut Connection, dst: &mut Connection) -> bool;
}

struct IdealNetwork {}

impl NetworkEmulator for IdealNetwork {
    fn transmit(&mut self, src: &mut Connection, dst: &mut Connection) -> bool {
        let now = 0;
        let mut buf = [0u8; 1500];
        let size = src.generate_packet(&mut buf).unwrap();
        assert!(dst.packet_is_safe(&buf[..size]));
        dst.receive_packet(now, &buf[..size]).unwrap();

        src.send_left() != 0
    }
}

struct BufferedReorderNetwork {
    rng: SmallRng,
    packets: Vec<Box<Vec<u8>>>,
    min_size: usize,
    min_size_reached: bool,
}

impl BufferedReorderNetwork {
    fn new(seed: u64, min_size: usize) -> Self {
        BufferedReorderNetwork {
            rng: SmallRng::seed_from_u64(seed),
            packets: Vec::new(),
            min_size,
            min_size_reached: false,
        }
    }
}

impl NetworkEmulator for BufferedReorderNetwork {
    fn transmit(&mut self, src: &mut Connection, dst: &mut Connection) -> bool {
        loop {
            let now = 0;
            let mut buf = [0u8; 1500];
            let size = src.generate_packet(&mut buf).unwrap();
            self.packets.push(Box::new(buf[..size].to_vec()));

            if self.min_size_reached {
                self.packets.shuffle(&mut self.rng);
                let packet = match self.packets.pop() {
                    Some(packet) => packet,
                    None => break,
                };
                assert!(dst.packet_is_safe(&packet));
                dst.receive_packet(now, &packet).unwrap();
                break;
            }
            if self.packets.len() >= self.min_size {
                self.min_size_reached = true;
                break;
            }
        }

        src.send_left() != 0
    }
}

struct LosingPacketsNetwork {
    rng: SmallRng,
    percent: u8,
}

impl LosingPacketsNetwork {
    fn new(seed: u64, percent: u8) -> Self {
        Self {
            rng: SmallRng::seed_from_u64(seed),
            percent,
        }
    }
}

impl NetworkEmulator for LosingPacketsNetwork {
    fn transmit(&mut self, src: &mut Connection, dst: &mut Connection) -> bool {
        let now = 0;
        let mut buf = [0u8; 1500];
        let size = src.generate_packet(&mut buf).unwrap();
        if self.rng.gen_range(0, 100) > self.percent {
            assert!(dst.packet_is_safe(&buf[..size]));
            dst.receive_packet(now, &buf[..size]).unwrap();
        }

        src.send_left() != 0
    }
}

fn params(buffer_size: usize) -> ConnectionParams {
    ConnectionParams {
        send_delay: 1_000_000,
        retransmit_delay: 1_000_000_000,
        send_buffer_size: buffer_size,
        recv_buffer_size: buffer_size,
    }
}

fn run_single_transfer_test(
    seed: u64,
    size: usize,
    buffer_size: usize,
    src_dst: &mut dyn NetworkEmulator,
    dst_src: &mut dyn NetworkEmulator,
) {
    let mut rng = SmallRng::seed_from_u64(seed);
    let mut data = vec![0u8; size];
    rng.fill_bytes(&mut data);
    let data = &data;

    let mut sender = Connection::new(params(buffer_size), 0);
    let mut receiver = Connection::new(params(buffer_size), 0);

    let mut read_pipe = ReadPipe::new(data.to_vec());

    let mut offset = 0;
    loop {
        sender.write_from(&mut read_pipe).unwrap();

        if !src_dst.transmit(&mut sender, &mut receiver) {
            break;
        }

        dst_src.transmit(&mut receiver, &mut sender);

        let mut buf = [0u8; 1500];
        let read = receiver.read(&mut buf).unwrap();
        assert_eq!(&data[offset..offset + read], &buf[..read]);
        offset += read;
    }
    assert_eq!(offset, data.len());
}

#[test]
fn send_receive_ideal_ordered() {
    run_single_transfer_test(
        1,
        1024 * 1024,
        8 * 1024,
        &mut IdealNetwork {},
        &mut IdealNetwork {},
    );
}

#[test]
fn send_receive_reordered() {
    run_single_transfer_test(
        1,
        1024 * 1024,
        32 * 1024,
        &mut BufferedReorderNetwork::new(2, 16),
        &mut IdealNetwork {},
    );
}

#[test]
fn send_receive_loss_10pct() {
    run_single_transfer_test(
        1,
        1024 * 1024,
        32 * 1024,
        &mut LosingPacketsNetwork::new(2, 10),
        &mut IdealNetwork {},
    );
}

#[test]
fn send_receive_loss_90pct() {
    run_single_transfer_test(
        1,
        1024 * 1024,
        32 * 1024,
        &mut LosingPacketsNetwork::new(2, 90),
        &mut IdealNetwork {},
    );
}

fn write(conn: &mut Connection, data: &[u8]) {
    let mut source = ReadPipe::new(data.to_vec());
    assert_eq!(conn.write_from(&mut source), Ok(data.len()));
}

fn next_packet(conn: &mut Connection, room: usize) -> Vec<u8> {
    let mut buf = vec![0u8; room];
    let size = conn.generate_packet(&mut buf).unwrap();
    buf[..size].to_vec()
}

fn read_all(conn: &mut Connection) -> Vec<u8> {
    let mut buf = [0u8; 256];
    let size = conn.read(&mut buf).unwrap();
    buf[..size].to_vec()
}

#[test]
fn exact_bytes_of_a_connection_packet() {
    let mut conn = Connection::new(params(64), 0);
    write(&mut conn, b"hi");
    assert_eq!(conn.send_left(), 2);
    assert!(conn.have_data_to_send());
    let packet = next_packet(&mut conn, 100);
    assert_eq!(
        packet,
        [
            0, 0, 0, 0, 2, 0, 0, 0, 0, 0, 0, 0, 8, 8, 0, 0, 0, 0, 0, 0, 0, 0, 10, 0, 0, 0, 0, 0, 0,
            0, 0, 0, b'h', b'i'
        ]
    );
    assert!(!conn.have_data_to_send());
    assert_eq!(conn.send_left(), 2);
}

#[test]
fn small_packets_have_no_feedback() {
    let mut conn = Connection::new(params(64), 0);
    let mut buf = [0u8; 13];
    assert_eq!(
        conn.generate_packet(&mut buf),
        Err(SenderError::BufferTooSmall)
    );
    assert_eq!(next_packet(&mut conn, 14).len(), 12);
    assert_eq!(next_packet(&mut conn, 21), [1, 0, 0, 0, 0, 0, 0, 0, 0, 0, 0, 0]);
    assert_eq!(next_packet(&mut conn, 22).len(), 22);
}

#[test]
fn lost_packet_is_asked_for_and_sent_again() {
    let mut one = Connection::new(params(64), 0);
    let mut two = Connection::new(params(64), 0);
    write(&mut one, b"first");
    next_packet(&mut one, 100);
    write(&mut one, b"second");
    let packet = next_packet(&mut one, 100);
    assert_eq!(two.receive_packet(1, &packet), Ok(()));
    assert_eq!(two.data_to_read(), 0);
    let feedback = next_packet(&mut two, 100);
    assert_eq!(one.receive_packet(2, &feedback), Ok(()));
    assert!(one.have_data_to_send());
    let again = next_packet(&mut one, 100);
    assert_eq!(two.receive_packet(3, &again), Ok(()));
    assert_eq!(read_all(&mut two), b"firstsecond");
    let feedback = next_packet(&mut two, 100);
    assert_eq!(one.send_left(), 11);
    assert_eq!(one.receive_packet(4, &feedback), Ok(()));
    assert_eq!(one.send_left(), 0);
    assert_eq!(one.buffer_free(), 63);
}

#[test]
fn lost_end_is_asked_for_once_the_front_is_known() {
    let mut one = Connection::new(params(64), 0);
    let mut two = Connection::new(params(64), 0);
    write(&mut one, b"lost");
    next_packet(&mut one, 100);
    let empty = next_packet(&mut one, 100);
    two.receive_packet(1, &empty).unwrap();
    let feedback = next_packet(&mut two, 100);
    one.receive_packet(2, &feedback).unwrap();
    let again = next_packet(&mut one, 100);
    two.receive_packet(3, &again).unwrap();
    assert_eq!(read_all(&mut two), b"lost");
}

#[test]
fn both_directions_at_once() {
    let mut one = Connection::new(params(64), 0);
    let mut two = Connection::new(params(64), 0);
    write(&mut one, b"ping");
    write(&mut two, b"pong");
    let a = next_packet(&mut one, 100);
    let b = next_packet(&mut two, 100);
    one.receive_packet(1, &b).unwrap();
    two.receive_packet(1, &a).unwrap();
    assert_eq!(read_all(&mut one), b"pong");
    assert_eq!(read_all(&mut two), b"ping");
}

#[test]
fn output_is_a_beginning_of_what_was_written() {
    let mut one = Connection::new(params(64), 0);
    let mut two = Connection::new(params(64), 0);
    let mut packets: Vec<Vec<u8>> = Vec::new();
    let text = b"abcdefghijklmnopqrstuvwxyz";
    for part in text.chunks(5) {
        write(&mut one, part);
        packets.push(next_packet(&mut one, 100));
    }
    let mut out: Vec<u8> = Vec::new();
    for i in &[3usize, 0, 0, 5, 2, 3, 1, 4, 4] {
        assert!(two.packet_is_safe(&packets[*i]));
        two.receive_packet(0, &packets[*i]).unwrap();
        out.extend(read_all(&mut two));
        assert_eq!(out, &text[..out.len()]);
    }
    assert_eq!(out, text);
}

#[test]
fn unreadable_packets_are_refused() {
    let mut conn = Connection::new(params(64), 0);
    let eof = Err(SenderError::IoError {
        kind: ErrorKind::UnexpectedEof,
    });
    assert_eq!(conn.receive_packet(0, &[0, 0, 0]), eof);
    assert_eq!(conn.receive_packet(0, &[0; 11]), eof);
    assert_eq!(conn.receive_packet(0, &[0; 12]), Ok(()));
    assert_eq!(conn.receive_packet(0, &[0; 13]), Ok(()));
    let mut packet = vec![0u8; 12];
    packet.extend_from_slice(&[9, 0, 0, 0]);
    assert_eq!(conn.receive_packet(0, &packet), eof);
    let mut packet = vec![0u8; 12];
    packet.extend_from_slice(&[0, 16]);
    assert_eq!(
        conn.receive_packet(0, &packet),
        Err(SenderError::IoError {
            kind: ErrorKind::InvalidData
        })
    );
    let mut packet = vec![0u8; 12];
    packet.extend_from_slice(&[8, 8, 1, 0, 0, 0, 0, 0, 0, 0]);
    assert_eq!(
        conn.receive_packet(0, &packet),
        Err(SenderError::InvalidOffset { head: 0 })
    );
}

#[test]
fn chunks_before_a_fault_stay_taken_in() {
    let mut conn = Connection::new(params(64), 0);
    let mut packet = vec![0u8; 12];
    packet.extend_from_slice(&[9, 0, 0, 0, 0, 0, 0, 0, 0, 0, b'x', 0, 16]);
    assert!(conn.packet_is_safe(&packet));
    assert!(conn.receive_packet(0, &packet).is_err());
    assert_eq!(read_all(&mut conn), b"x");
}

#[test]
fn segment_without_offset_is_not_safe() {
    let conn = Connection::new(params(64), 0);
    let mut packet = vec![0u8; 12];
    packet.extend_from_slice(&[1, 0, 0]);
    assert!(!conn.packet_is_safe(&packet));
    // Behind feedback that cannot be acted on it is never reached.
    let mut packet = vec![0u8; 12];
    packet.extend_from_slice(&[8, 8, 1, 0, 0, 0, 0, 0, 0, 0]);
    packet.extend_from_slice(&[1, 0, 0]);
    assert!(conn.packet_is_safe(&packet));
    // Behind feedback that can be acted on it is.
    let mut packet = vec![0u8; 12];
    packet.extend_from_slice(&[8, 8, 0, 0, 0, 0, 0, 0, 0, 0]);
    packet.extend_from_slice(&[1, 0, 0]);
    assert!(!conn.packet_is_safe(&packet));
    assert!(conn.packet_is_safe(&[0; 5]));
}

#[test]
fn packets_become_due_one_by_one() {
    let mut conn = Connection::new(params(64), 5_000_000);
    assert_eq!(conn.next_packet_time(), 5_000_000);
    assert_eq!(conn.packets_available(4_999_999), 0);
    assert_eq!(conn.packets_available(5_000_000), 1);
    assert_eq!(conn.packets_available(5_999_999), 1);
    assert_eq!(conn.packets_available(8_000_000), 4);
    conn.update_sent_time(8_000_000);
    assert_eq!(conn.next_packet_time(), 9_000_000);
    conn.update_sent_time(u64::MAX);
    assert_eq!(conn.next_packet_time(), u64::MAX);
}

#[test]
fn without_delay_one_packet_is_due() {
    let mut hasty = params(64);
    hasty.send_delay = 0;
    let conn = Connection::new(hasty, 0);
    assert_eq!(conn.packets_available(u64::MAX), 1);
    let mut eager = params(64);
    eager.send_delay = 1;
    let conn = Connection::new(eager, 0);
    assert_eq!(conn.packets_available(u64::MAX), u64::MAX);
}

#[test]
fn transfer_goes_on_after_one_packet_each_way() {
    let mut one = Connection::new(params(1024), 0);
    let mut two = Connection::new(params(1024), 0);
    write(&mut one, &[5; 600]);
    // All packets are lost but the last.
    for _ in 0..5 {
        next_packet(&mut one, 153);
    }
    let last = next_packet(&mut one, 153);
    two.receive_packet(1, &last).unwrap();
    assert_eq!(two.data_to_read(), 0);
    let mut rounds = 0;
    let mut total = 0;
    while total < 600 {
        let feedback = next_packet(&mut two, 32);
        one.receive_packet(2, &feedback).unwrap();
        let packet = next_packet(&mut one, 153);
        two.receive_packet(3, &packet).unwrap();
        assert!(two.data_to_read() > 0);
        total += read_all(&mut two).len();
        rounds += 1;
    }
    assert_eq!(total, 600);
    assert!(rounds <= 6);
    let feedback = next_packet(&mut two, 32);
    one.receive_packet(4, &feedback).unwrap();
    assert_eq!(one.send_left(), 0);
    assert!(!one.have_data_to_send());
}

#[test]
fn chunks_too_long_for_their_head_are_foreseen() {
    let mut conn = Connection::new(params(8192), 0);
    write(&mut conn, &[1; 2039]);
    assert_eq!(conn.stream_front(), 2039);
    assert!(conn.packet_fits(5000));
    write(&mut conn, &[1; 1]);
    assert!(!conn.packet_fits(5000));
    assert!(conn.packet_fits(12 + 10 + 2 + 2047));
    assert!(!conn.packet_fits(12 + 10 + 2 + 2048));
    assert_eq!(next_packet(&mut conn, 12 + 10 + 2 + 2047).len(), 2071);
    assert!(conn.packet_fits(5000));
}
