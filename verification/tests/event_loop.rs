use udpipe::connection::{Connection, ConnectionParams};
use udpipe::event_loop::{
    next_action, on_incoming, sleep_time, Action, Incoming, Reaction, Stage,
};
use udpipe::pipe::ReadPipe;

fn connection(start: u64) -> Connection {
    Connection::new(
        ConnectionParams {
            send_delay: 100,
            retransmit_delay: 1000,
            send_buffer_size: 64,
            recv_buffer_size: 64,
        },
        start,
    )
}

#[test]
fn nothing_is_sent_before_the_peer_is_known() {
    let mut conn = connection(0);
    let wait = Action::Wait { timeout: None };
    assert_eq!(
        next_action(Stage::Begin, &mut conn, false, false, 50),
        (Stage::Begin, wait)
    );
    assert_eq!(
        next_action(Stage::Begin, &mut conn, false, true, 50),
        (Stage::Filled, Action::Fill)
    );
    assert_eq!(
        next_action(Stage::Filled, &mut conn, false, true, 50),
        (Stage::Begin, wait)
    );
}

#[test]
fn one_packet_is_sent_even_without_data() {
    let mut conn = connection(0);
    let (stage, action) = next_action(Stage::Begin, &mut conn, true, false, 250);
    assert_eq!(stage, Stage::Sending { left: 2 });
    assert_eq!(action, Action::Send);
    assert_eq!(
        next_action(stage, &mut conn, true, false, 250),
        (Stage::Begin, Action::Wait { timeout: Some(100) })
    );
    assert_eq!(conn.next_packet_time(), 350);
}

#[test]
fn turn_sends_no_more_than_is_due() {
    let mut conn = connection(0);
    let mut source = ReadPipe::new(vec![7; 60]);
    conn.write_from(&mut source).unwrap();
    let mut stage = Stage::Begin;
    let mut sent = 0;
    loop {
        let (next, action) = next_action(stage, &mut conn, true, false, 250);
        stage = next;
        match action {
            Action::Send => {
                let mut buf = [0u8; 40];
                conn.generate_packet(&mut buf).unwrap();
                sent += 1;
            }
            Action::Wait { timeout } => {
                assert_eq!(timeout, Some(100));
                break;
            }
            Action::Fill => unreachable!(),
        }
    }
    assert_eq!(sent, 3);
    assert!(conn.have_data_to_send());
}

#[test]
fn full_buffer_is_not_filled() {
    let mut conn = connection(1000);
    let mut source = ReadPipe::new(vec![7; 100]);
    conn.write_from(&mut source).unwrap();
    assert_eq!(conn.buffer_free(), 0);
    assert_eq!(
        next_action(Stage::Begin, &mut conn, true, true, 400),
        (Stage::Begin, Action::Wait { timeout: Some(600) })
    );
}

#[test]
fn wait_lasts_until_the_next_packet_is_due() {
    let conn = connection(1000);
    assert_eq!(sleep_time(&conn, 400), Some(600));
    assert_eq!(sleep_time(&conn, 999), Some(1));
    assert_eq!(sleep_time(&conn, 1000), None);
    assert_eq!(sleep_time(&conn, 2000), None);
}

#[test]
fn receiving_stops_at_an_empty_queue_or_datagram() {
    for connected in [false, true].iter() {
        assert_eq!(
            on_incoming(*connected, Incoming::WouldBlock),
            (*connected, Reaction::Stop)
        );
        assert_eq!(
            on_incoming(*connected, Incoming::Datagram { size: 0 }),
            (*connected, Reaction::Stop)
        );
        assert_eq!(
            on_incoming(*connected, Incoming::Failed),
            (*connected, Reaction::Fail)
        );
    }
}

#[test]
fn other_side_is_chosen_once() {
    let mut connected = false;
    let mut chosen = 0;
    let sizes = [0, 7, 3, 0, 9];
    for size in sizes.iter() {
        let (known, reaction) = on_incoming(connected, Incoming::Datagram { size: *size });
        if reaction == (Reaction::Take { connect: true }) {
            assert_eq!(*size, 7);
            chosen += 1;
        }
        connected = known;
    }
    assert!(connected);
    assert_eq!(chosen, 1);
}

#[test]
fn listening_program_sends_nothing_before_the_first_datagram() {
    let mut conn = connection(0);
    let mut connected = false;
    let mut chosen = None;
    let mut sent = Vec::new();
    let arrivals: [&[(usize, u32)]; 5] = [&[], &[(0, 1)], &[(5, 2), (6, 3)], &[(7, 4)], &[]];
    for (turn, datagrams) in arrivals.iter().enumerate() {
        let now = 1000 * turn as u64;
        for (size, source) in datagrams.iter() {
            let (known, reaction) = on_incoming(connected, Incoming::Datagram { size: *size });
            connected = known;
            match reaction {
                Reaction::Take { connect: true } => {
                    assert_eq!(chosen, None);
                    chosen = Some(*source);
                }
                Reaction::Take { connect: false } => {}
                Reaction::Stop => break,
                Reaction::Fail => unreachable!(),
            }
        }
        let mut stage = Stage::Begin;
        loop {
            let (next, action) = next_action(stage, &mut conn, connected, false, now);
            stage = next;
            match action {
                Action::Send => sent.push(turn),
                Action::Wait { .. } => break,
                Action::Fill => unreachable!(),
            }
        }
    }
    assert_eq!(chosen, Some(2));
    assert_eq!(sent, [2, 3, 4]);
}
