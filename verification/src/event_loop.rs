//! What the program that drives a connection does next.
//!
//! The program waits for events, asks what to do about each datagram that came in, and then asks
//! for one action after the other until it is told to wait again.

use crate::connection::{Connection, ConnectionState};
use vstd::prelude::*;

verus! {

/// How far a turn of the loop has come.
#[derive(Clone, Copy, Debug, PartialEq, Eq, Structural)]
pub enum Stage {
    /// The events were handled.
    Begin,
    /// There is nothing more to take in.
    Filled,
    /// Packets are being sent, up to `left` more.
    Sending { left: u64 },
}

/// What is to be done.
#[derive(Clone, Copy, Debug, PartialEq, Eq, Structural)]
pub enum Action {
    /// Take in what the source has.
    Fill,
    /// Make a packet and send it.
    Send,
    /// Wait for events, and for no longer than `timeout` nanoseconds where that is given.
    Wait { timeout: Option<u64> },
}

/// What came of trying to receive a datagram.
#[derive(Clone, Copy, Debug, PartialEq, Eq, Structural)]
pub enum Incoming {
    /// One of `size` bytes arrived.
    Datagram { size: usize },
    /// There is none now.
    WouldBlock,
    /// The socket failed.
    Failed,
}

/// What to do about it.
#[derive(Clone, Copy, Debug, PartialEq, Eq, Structural)]
pub enum Reaction {
    /// Stop receiving for this turn.
    Stop,
    /// Give up.
    Fail,
    /// Hand the datagram to the connection, and try to receive the next one. Where `connect` is
    /// set, first take its source for the other side.
    Take { connect: bool },
}

/// Whether the other side's address is known after something came in, and what to do: an empty
/// datagram ends receiving as an empty queue does, and the source of the first datagram that is
/// taken becomes the other side.
pub open spec fn reaction(connected: bool, incoming: Incoming) -> (bool, Reaction) {
    match incoming {
        Incoming::Datagram { size } => if size == 0 {
            (connected, Reaction::Stop)
        } else {
            (true, Reaction::Take { connect: !connected })
        },
        Incoming::WouldBlock => (connected, Reaction::Stop),
        Incoming::Failed => (connected, Reaction::Fail),
    }
}

/// Tells what to do about what came in, and whether the other side's address is known
/// afterwards. `connected` says whether it was known before.
pub fn on_incoming(connected: bool, incoming: Incoming) -> (r: (bool, Reaction))
    ensures
        r == reaction(connected, incoming),
{
    match incoming {
        Incoming::Datagram { size } => {
            if size == 0 {
                (connected, Reaction::Stop)
            } else {
                (true, Reaction::Take { connect: !connected })
            }
        },
        Incoming::WouldBlock => (connected, Reaction::Stop),
        Incoming::Failed => (connected, Reaction::Fail),
    }
}

/// Whether the other side's address is known after all of `incoming`.
pub open spec fn connected_after(connected: bool, incoming: Seq<Incoming>) -> bool
    decreases incoming.len(),
{
    if incoming.len() == 0 {
        connected
    } else {
        reaction(connected_after(connected, incoming.drop_last()), incoming.last()).0
    }
}

/// The other side is chosen once: where a datagram is taken for the first time. Before that its
/// address is unknown, and after that no other source is taken for it.
pub proof fn law_other_side_is_chosen_once(incoming: Seq<Incoming>, first: int, next: Incoming)
    requires
        0 <= first < incoming.len(),
        reaction(connected_after(false, incoming.take(first)), incoming[first]).1 == (
        Reaction::Take { connect: true }),
    ensures
        !connected_after(false, incoming.take(first)),
        connected_after(false, incoming),
        reaction(connected_after(false, incoming), next).1 != (Reaction::Take { connect: true }),
    decreases incoming.len(),
{
    let earlier = incoming.drop_last();
    if first == incoming.len() - 1 {
        assert(earlier =~= incoming.take(first));
    } else {
        assert(earlier.take(first) =~= incoming.take(first));
        assert(earlier[first] == incoming[first]);
        law_other_side_is_chosen_once(earlier, first, next);
    }
}

/// How long to wait at the time `now` until the next packet may be sent; where that time has
/// come, for as long as nothing happens.
pub open spec fn wait_time(state: ConnectionState, now: u64) -> Option<u64> {
    if state.next_send_time > now {
        Some((state.next_send_time - now) as u64)
    } else {
        None
    }
}

/// What to do once there is nothing more to take in.
pub open spec fn begin_sending(state: ConnectionState, connected: bool, now: u64) -> (
    Stage,
    Action,
) {
    if connected && state.due(now) > 0 {
        (Stage::Sending { left: (state.due(now) - 1) as u64 }, Action::Send)
    } else {
        (Stage::Begin, Action::Wait { timeout: wait_time(state, now) })
    }
}

/// What to do next, the stage after it, and the state of the connection.
///
/// A turn first takes in what the source has, if there is room. Then, if the other side's
/// address is known, it sends packets: at least one if any is due, and on up to as many as are
/// due as long as there is something to send.
pub open spec fn decide(
    stage: Stage,
    state: ConnectionState,
    connected: bool,
    readable: bool,
    now: u64,
) -> (ConnectionState, Stage, Action) {
    match stage {
        Stage::Begin => if readable && state.sender.cap > state.sender.bytes.len() {
            (state, Stage::Filled, Action::Fill)
        } else {
            let (next, action) = begin_sending(state, connected, now);
            (state, next, action)
        },
        Stage::Filled => {
            let (next, action) = begin_sending(state, connected, now);
            (state, next, action)
        },
        Stage::Sending { left } => if left > 0 && state.sender.pending.len() > 0 {
            (state, Stage::Sending { left: (left - 1) as u64 }, Action::Send)
        } else {
            let sent = state.sent_at(now);
            (sent, Stage::Begin, Action::Wait { timeout: wait_time(sent, now) })
        },
    }
}

/// Tells how long to wait at the time `now`.
pub fn sleep_time(conn: &Connection, now: u64) -> (r: Option<u64>)
    ensures
        r == wait_time(conn@, now),
{
    let next: u64 = conn.next_packet_time();
    if next > now {
        Some(next - now)
    } else {
        None
    }
}

/// Tells what to do once there is nothing more to take in.
pub fn start_sending(conn: &Connection, connected: bool, now: u64) -> (r: (Stage, Action))
    ensures
        r == begin_sending(conn@, connected, now),
{
    if connected {
        let due: u64 = conn.packets_available(now);
        if due > 0 {
            return (Stage::Sending { left: due - 1 }, Action::Send);
        }
    }
    (Stage::Begin, Action::Wait { timeout: sleep_time(conn, now) })
}

/// Tells what to do next at the time `now`, and the stage after it. `connected` says whether the
/// other side's address is known, `readable` whether the source may have something.
pub fn next_action(
    stage: Stage,
    conn: &mut Connection,
    connected: bool,
    readable: bool,
    now: u64,
) -> (r: (Stage, Action))
    requires
        old(conn).wf(),
    ensures
        final(conn).wf(),
        (final(conn)@, r.0, r.1) == decide(stage, old(conn)@, connected, readable, now),
{
    match stage {
        Stage::Begin => {
            if readable && conn.buffer_free() > 0 {
                (Stage::Filled, Action::Fill)
            } else {
                start_sending(conn, connected, now)
            }
        },
        Stage::Filled => start_sending(conn, connected, now),
        Stage::Sending { left } => {
            if left > 0 && conn.have_data_to_send() {
                (Stage::Sending { left: left - 1 }, Action::Send)
            } else {
                conn.update_sent_time(now);
                (Stage::Begin, Action::Wait { timeout: sleep_time(conn, now) })
            }
        },
    }
}

/// How many packets a turn at this stage sends at most before it waits again.
pub open spec fn packets_ahead(stage: Stage, state: ConnectionState, now: u64) -> int {
    match stage {
        Stage::Sending { left } => left as int,
        _ => state.due(now),
    }
}

/// A turn sends no more packets than are due: each packet uses up one of them, and taking in
/// what the source has adds none. Nothing is sent while the other side's address is unknown.
pub proof fn law_turn_sends_no_more_than_is_due(
    stage: Stage,
    state: ConnectionState,
    connected: bool,
    readable: bool,
    now: u64,
)
    ensures
        ({
            let (after, next, action) = decide(stage, state, connected, readable, now);
            &&& action is Send ==> packets_ahead(next, after, now) == packets_ahead(
                stage,
                state,
                now,
            ) - 1 && packets_ahead(stage, state, now) > 0
            &&& action is Fill ==> packets_ahead(next, after, now) == packets_ahead(
                stage,
                state,
                now,
            )
            &&& !connected && stage !is Sending ==> action !is Send && next !is Sending
        }),
{
    if now >= state.next_send_time && state.send_delay > 0 {
        assert(0 <= (now - state.next_send_time) / state.send_delay as int) by (nonlinear_arith)
            requires
                now >= state.next_send_time,
                state.send_delay > 0,
        ;
    }
}

/// Once packets were sent, no further one is due before the delay has passed.
pub proof fn law_packets_are_spaced(state: ConnectionState, now: u64, later: u64)
    requires
        now <= later,
        later - now < state.send_delay,
        now + state.send_delay <= u64::MAX,
    ensures
        state.sent_at(now).due(later) == 0,
{
}

/// What happens while the program runs.
pub enum Happening {
    /// The program tried to receive a datagram. If one arrived, it came from `source`.
    Received { incoming: Incoming, source: int },
    /// The program asked what to do next.
    Asked { readable: bool, now: u64 },
    /// The connection took in a packet or what the source had, or made a packet.
    Changed { conn: ConnectionState },
    /// The connection or the operating system refused something that the program tried.
    Refused,
}

/// What the program does to its socket.
pub enum Effect {
    /// It connects the socket to `source`.
    Connect { source: int },
    /// It sends a packet.
    Send,
}

/// Where a program stands, and what it has done so far.
pub struct Program {
    pub conn: ConnectionState,
    /// Whether the other side's address is known.
    pub connected: bool,
    pub stage: Stage,
    /// What the program did to its socket.
    pub effects: Seq<Effect>,
    /// The datagrams that were handed to the connection, by size and source.
    pub handed: Seq<(usize, int)>,
    /// How the program ended, if it did.
    pub result: Option<Result<(), ()>>,
}

/// A program that starts: one that listens does not know the other side's address.
pub open spec fn is_starting(program: Program, listen: bool) -> bool {
    &&& program.connected == !listen
    &&& program.stage == Stage::Begin
    &&& program.effects == Seq::<Effect>::empty()
    &&& program.handed == Seq::<(usize, int)>::empty()
    &&& program.result is None
}

/// The program after something happened. What happens after its end changes nothing.
pub open spec fn proceed(program: Program, happening: Happening) -> Program {
    if program.result is Some {
        program
    } else {
        match happening {
            Happening::Received { incoming, source } => {
                let (connected, reaction) = reaction(program.connected, incoming);
                match reaction {
                    Reaction::Stop => Program { connected, ..program },
                    Reaction::Fail => Program { connected, result: Some(Err(())), ..program },
                    Reaction::Take { connect } => Program {
                        connected,
                        effects: if connect {
                            program.effects.push(Effect::Connect { source })
                        } else {
                            program.effects
                        },
                        handed: match incoming {
                            Incoming::Datagram { size } => program.handed.push((size, source)),
                            _ => program.handed,
                        },
                        ..program
                    },
                }
            },
            Happening::Asked { readable, now } => {
                let (conn, stage, action) = decide(
                    program.stage,
                    program.conn,
                    program.connected,
                    readable,
                    now,
                );
                Program {
                    conn,
                    stage,
                    effects: if action is Send {
                        program.effects.push(Effect::Send)
                    } else {
                        program.effects
                    },
                    ..program
                }
            },
            Happening::Changed { conn } => Program { conn, ..program },
            Happening::Refused => Program { result: Some(Err(())), ..program },
        }
    }
}

/// The program after all that happened.
pub open spec fn program_run(program: Program, happenings: Seq<Happening>) -> Program
    decreases happenings.len(),
{
    if happenings.len() == 0 {
        program
    } else {
        proceed(program_run(program, happenings.drop_last()), happenings.last())
    }
}

/// A datagram arrived that is not empty.
pub open spec fn brings_data(happening: Happening) -> bool {
    happening matches Happening::Received { incoming, source } && incoming matches
        Incoming::Datagram { size } && size > 0
}

/// A program that listens sends nothing and connects to nobody before a datagram that is not
/// empty has come in.
pub proof fn law_nothing_is_sent_before_the_first_datagram(
    program: Program,
    happenings: Seq<Happening>,
)
    requires
        is_starting(program, true),
        forall|i: int| 0 <= i < happenings.len() ==> !brings_data(#[trigger] happenings[i]),
    ensures
        program_run(program, happenings).effects == Seq::<Effect>::empty(),
        !program_run(program, happenings).connected,
        program_run(program, happenings).stage !is Sending,
    decreases happenings.len(),
{
    if happenings.len() > 0 {
        let earlier = happenings.drop_last();
        assert(!brings_data(happenings[happenings.len() - 1]));
        assert forall|i: int| 0 <= i < earlier.len() implies !brings_data(
            #[trigger] earlier[i],
        ) by {
            assert(earlier[i] == happenings[i]);
        }
        law_nothing_is_sent_before_the_first_datagram(program, earlier);
    }
}

/// A program that listens connects its socket once, to the source of the first datagram that is
/// not empty, and does so before it sends anything. From then on it only sends.
pub proof fn law_socket_is_connected_once(
    program: Program,
    happenings: Seq<Happening>,
    first: int,
)
    requires
        is_starting(program, true),
        0 <= first < happenings.len(),
        brings_data(happenings[first]),
        forall|i: int| 0 <= i < first ==> !brings_data(#[trigger] happenings[i]),
        program_run(program, happenings.take(first)).result is None,
    ensures
        program_run(program, happenings).connected,
        program_run(program, happenings).effects.len() > 0,
        program_run(program, happenings).effects[0] == (Effect::Connect {
            source: happenings[first]->source,
        }),
        forall|i: int|
            0 < i < program_run(program, happenings).effects.len() ==> (
            #[trigger] program_run(program, happenings).effects[i]) is Send,
    decreases happenings.len(),
{
    let earlier = happenings.drop_last();
    if first == happenings.len() - 1 {
        assert(earlier =~= happenings.take(first));
        law_nothing_is_sent_before_the_first_datagram(program, earlier);
    } else {
        assert(earlier.take(first) =~= happenings.take(first));
        assert(earlier[first] == happenings[first]);
        law_socket_is_connected_once(program, earlier, first);
        let before = program_run(program, earlier);
        let after = program_run(program, happenings);
        assert forall|i: int| 0 < i < after.effects.len() implies (
        #[trigger] after.effects[i]) is Send by {
            if i < before.effects.len() {
                assert(after.effects[i] == before.effects[i]);
            }
        }
    }
}

/// A program that knows the other side from the start never connects its socket to another one.
pub proof fn law_known_side_is_kept(program: Program, happenings: Seq<Happening>)
    requires
        is_starting(program, false),
    ensures
        program_run(program, happenings).connected,
        forall|i: int|
            0 <= i < program_run(program, happenings).effects.len() ==> (
            #[trigger] program_run(program, happenings).effects[i]) is Send,
    decreases happenings.len(),
{
    if happenings.len() > 0 {
        let earlier = happenings.drop_last();
        law_known_side_is_kept(program, earlier);
        let before = program_run(program, earlier);
        let after = program_run(program, happenings);
        assert forall|i: int| 0 <= i < after.effects.len() implies (
        #[trigger] after.effects[i]) is Send by {
            if i < before.effects.len() {
                assert(after.effects[i] == before.effects[i]);
            }
        }
    }
}

/// A program that ends has failed.
pub proof fn law_program_ends_only_in_failure(
    program: Program,
    happenings: Seq<Happening>,
    listen: bool,
)
    requires
        is_starting(program, listen),
    ensures
        program_run(program, happenings).result matches Some(result) ==> result is Err,
    decreases happenings.len(),
{
    if happenings.len() > 0 {
        law_program_ends_only_in_failure(program, happenings.drop_last(), listen);
    }
}

/// Every datagram that is not empty is taken, whether or not the other side is known, and its
/// source becomes the other side exactly where none was known. Only a failed socket makes the
/// program give up, and nothing but a datagram that is taken makes the other side known.
pub proof fn law_every_datagram_is_taken(connected: bool, incoming: Incoming)
    ensures
        ({
            let (known, what) = reaction(connected, incoming);
            &&& what is Take <==> exists|size: usize|
                size > 0 && incoming == (Incoming::Datagram { size })
            &&& what is Fail <==> incoming is Failed
            &&& what matches Reaction::Take { connect } ==> known && connect != connected
            &&& what !is Take ==> known == connected
        }),
{
    if let Incoming::Datagram { size } = incoming {
        assert(incoming == (Incoming::Datagram { size }));
    }
}

/// The source is read first: a turn that begins with a readable source and a send buffer that
/// has room takes in what the source has, whether or not the other side is known. It does so
/// once, and under no other condition.
pub proof fn law_source_is_read_first(
    stage: Stage,
    state: ConnectionState,
    connected: bool,
    readable: bool,
    now: u64,
)
    ensures
        ({
            let (after, next, action) = decide(stage, state, connected, readable, now);
            &&& action is Fill <==> stage is Begin && readable && state.sender.bytes.len()
                < state.sender.cap
            &&& action is Fill ==> next !is Begin && next !is Sending && after == state
        }),
{
}

/// A turn waits only when it is done. If it sent nothing, no packet was due or the other side is
/// unknown. If it sent something, all that was due was sent or there is nothing left to send.
/// Then it begins anew.
pub proof fn law_turn_waits_only_when_it_is_done(
    stage: Stage,
    state: ConnectionState,
    connected: bool,
    readable: bool,
    now: u64,
)
    ensures
        ({
            let (after, next, action) = decide(stage, state, connected, readable, now);
            &&& action is Wait ==> next is Begin
            &&& action is Wait && stage !is Sending ==> !connected || now < state.next_send_time
            &&& action is Wait && stage is Sending ==> stage->left == 0 || state.sender.pending.len()
                == 0
            &&& action is Send && stage is Sending ==> state.sender.pending.len() > 0
            &&& action is Send ==> next is Sending && after == state
        }),
{
    law_due_packets_are_counted(state, now);
}

/// Sending is over when the turn waits: the next packet is due one delay later, or never where
/// that time cannot be told. A turn that sent nothing changes nothing.
pub proof fn law_delay_starts_when_sending_ends(
    stage: Stage,
    state: ConnectionState,
    connected: bool,
    readable: bool,
    now: u64,
)
    ensures
        ({
            let (after, next, action) = decide(stage, state, connected, readable, now);
            &&& action is Wait && stage is Sending && now + state.send_delay <= u64::MAX
                ==> after.next_send_time == now + state.send_delay
            &&& action is Wait && stage is Sending && now + state.send_delay > u64::MAX
                ==> after.next_send_time == u64::MAX
            &&& after == (ConnectionState { next_send_time: after.next_send_time, ..state })
            &&& stage !is Sending || action !is Wait ==> after == state
        }),
{
}

/// A wait ends when the next packet may be sent, and lasts until something happens where that
/// time has come.
pub proof fn law_wait_ends_when_a_packet_may_be_sent(
    stage: Stage,
    state: ConnectionState,
    connected: bool,
    readable: bool,
    now: u64,
)
    ensures
        ({
            let (after, next, action) = decide(stage, state, connected, readable, now);
            action matches Action::Wait { timeout } ==> match timeout {
                Some(time) => time > 0 && now + time == after.next_send_time,
                None => after.next_send_time <= now,
            }
        }),
{
}

/// As many packets are due as multiples of the delay, the zeroth among them, have passed since
/// the next packet's time; one where there is no delay. The count stops at what 64 bits hold.
pub proof fn law_due_packets_are_counted(state: ConnectionState, now: u64)
    ensures
        state.due(now) == 0 <==> now < state.next_send_time,
        now >= state.next_send_time && state.send_delay == 0 ==> state.due(now) == 1,
        now >= state.next_send_time && state.send_delay > 0 ==> {
            let n = state.due(now);
            &&& 1 <= n <= u64::MAX
            &&& state.next_send_time + (n - 1) * state.send_delay <= now
            &&& n < u64::MAX ==> now < state.next_send_time + n * state.send_delay
        },
{
    if now >= state.next_send_time && state.send_delay > 0 {
        let gap = now - state.next_send_time;
        let d = state.send_delay as int;
        let passed = gap / d;
        let n = state.due(now);
        vstd::arithmetic::div_mod::lemma_fundamental_div_mod(gap, d);
        assert(0 <= passed <= gap && d * passed <= gap < d * (passed + 1)) by (nonlinear_arith)
            requires
                d > 0,
                gap >= 0,
                passed == gap / d,
                gap == d * passed + gap % d,
                0 <= gap % d < d,
        ;
        if passed < u64::MAX {
            assert(n == passed + 1);
            assert((n - 1) * d == d * passed && n * d == d * (passed + 1)) by (nonlinear_arith)
                requires
                    n == passed + 1,
            ;
        } else {
            assert((n - 1) * d <= d * passed) by (nonlinear_arith)
                requires
                    d > 0,
                    n - 1 <= passed,
            ;
        }
    }
}

/// The datagrams that are not empty and came in before the program ended, by size and source.
pub open spec fn datagrams(program: Program, happenings: Seq<Happening>) -> Seq<(usize, int)>
    decreases happenings.len(),
{
    if happenings.len() == 0 {
        Seq::empty()
    } else {
        let earlier = datagrams(program, happenings.drop_last());
        match happenings.last() {
            Happening::Received { incoming: Incoming::Datagram { size }, source } => if size > 0
                && program_run(program, happenings.drop_last()).result is None {
                earlier.push((size, source))
            } else {
                earlier
            },
            _ => earlier,
        }
    }
}

/// Every datagram that is not empty and comes in before the program ends is handed to the
/// connection, in the order in which they come in, and nothing else is.
pub proof fn law_every_datagram_is_handed_on(
    program: Program,
    happenings: Seq<Happening>,
    listen: bool,
)
    requires
        is_starting(program, listen),
    ensures
        program_run(program, happenings).handed == datagrams(program, happenings),
    decreases happenings.len(),
{
    if happenings.len() > 0 {
        law_every_datagram_is_handed_on(program, happenings.drop_last(), listen);
    }
}

} // verus!
