//! Where the bytes of a stream come from.

use crate::circ;
use crate::error::ErrorKind;
use circbuf::CircBuf;
use vstd::prelude::*;

verus! {

/// What reading into a buffer that held `before` and now holds `after` came to.
pub open spec fn read_outcome(
    given: Result<Seq<u8>, ErrorKind>,
    before: Seq<u8>,
    after: Seq<u8>,
    result: Result<usize, ErrorKind>,
) -> bool {
    match given {
        Ok(bytes) => {
            &&& result == Ok::<usize, ErrorKind>(bytes.len() as usize)
            &&& after == before + bytes
        },
        Err(error) => {
            &&& result == Err::<usize, ErrorKind>(error)
            &&& after == before
        },
    }
}

/// A source that can be read into a ring buffer.
pub trait CircRead: Sized {
    /// What the next read gives, into a buffer that can hold `cap` bytes and has room for
    /// `room` more.
    spec fn next_read(&self, cap: nat, room: nat) -> Result<Seq<u8>, ErrorKind>;

    /// Appends what the source has to the buffer, as far as there is room, and returns how
    /// many bytes that was.
    fn read(&mut self, buffer: &mut CircBuf) -> (r: Result<usize, ErrorKind>)
        requires
            circ::circ_slots(*old(buffer)) > 0,
        ensures
            circ::circ_slots(*final(buffer)) == circ::circ_slots(*old(buffer)),
            circ::circ_bytes(*final(buffer)).len() <= circ::circ_cap(*final(buffer)),
            read_outcome(
                old(self).next_read(
                    circ::circ_cap(*old(buffer)),
                    circ::circ_room(*old(buffer)),
                ),
                circ::circ_bytes(*old(buffer)),
                circ::circ_bytes(*final(buffer)),
                r,
            ),
    ;
}

/// What a pipe gives when the bytes that it is known to hold are used up.
#[derive(Clone, Copy, Debug, PartialEq, Eq, Structural)]
pub enum PipeEnd {
    /// The pipe was closed.
    Eof,
    /// There may be more later.
    WouldBlock,
    /// The pipe fails.
    Failed { kind: ErrorKind },
}

/// What a [`ReadPipe`] holds.
#[verifier::ext_equal]
pub struct PipeState {
    /// The bytes that can be read at once.
    pub pending: Seq<u8>,
    /// What comes after them.
    pub end: PipeEnd,
    /// Whether the pipe is worth reading from.
    pub readable: bool,
}

/// The reading end of a pipe.
pub struct ReadPipe {
    pipe: Vec<u8>,
    taken: usize,
    end: PipeEnd,
    pub readable: bool,
}

impl View for ReadPipe {
    type V = PipeState;

    closed spec fn view(&self) -> PipeState {
        PipeState {
            pending: if self.taken <= self.pipe@.len() {
                self.pipe@.skip(self.taken as int)
            } else {
                Seq::empty()
            },
            end: self.end,
            readable: self.readable,
        }
    }
}

impl ReadPipe {
    /// A pipe that holds the bytes `pipe` and is closed after them. It is not marked as
    /// readable.
    pub fn new(pipe: Vec<u8>) -> (r: ReadPipe)
        ensures
            r@ == (PipeState { pending: pipe@, end: PipeEnd::Eof, readable: false }),
    {
        let r = ReadPipe { pipe, taken: 0, end: PipeEnd::Eof, readable: false };
        assert(r@.pending =~= pipe@);
        r
    }

    /// Tells the pipe that it holds `bytes` more, and what comes after them.
    pub fn refill(&mut self, bytes: Vec<u8>, end: PipeEnd)
        ensures
            final(self)@ == (PipeState { pending: old(self)@.pending + bytes@, end, ..old(self)@ }),
    {
        let ghost pre = self@;
        let ghost more = bytes@;
        if self.taken >= self.pipe.len() {
            self.pipe = bytes;
            self.taken = 0;
        } else {
            let mut bytes = bytes;
            self.pipe.append(&mut bytes);
        }
        self.end = end;
        assert(self@.pending =~= pre.pending + more);
    }
}

impl CircRead for ReadPipe {
    open spec fn next_read(&self, cap: nat, room: nat) -> Result<Seq<u8>, ErrorKind> {
        given(self@, cap, room)
    }

    /// Appends the bytes that the pipe holds to the buffer, as far as there is room. A pipe
    /// that gave nothing is no longer readable, unless the buffer can never take anything. A
    /// pipe that fails does so whatever room there is, and is left alone.
    fn read(&mut self, buffer: &mut CircBuf) -> (r: Result<usize, ErrorKind>)
        ensures
            final(self)@ == left_over(
                old(self)@,
                circ::circ_cap(*old(buffer)),
                circ::circ_room(*old(buffer)),
            ),
    {
        let ghost pre = self@;
        let ghost held = circ::circ_bytes(*buffer);
        if circ::cap(buffer) == 0 {
            assert(held + Seq::<u8>::empty() =~= held);
            assert(pre.pending.skip(0) =~= pre.pending);
            return Ok(0);
        }
        let room: usize = circ::cap(buffer) - circ::len(buffer);
        if self.taken >= self.pipe.len() {
            match self.end {
                PipeEnd::Failed { kind } => {
                    return Err(kind);
                },
                _ => {},
            }
            assert(pre.pending =~= Seq::empty());
            assert(pre.pending.skip(0) =~= pre.pending);
            assert(held + Seq::<u8>::empty() =~= held);
            self.readable = false;
            return Ok(0);
        }
        let rest: &[u8] = &self.pipe[self.taken..self.pipe.len()];
        assert(rest@ =~= pre.pending);
        let count: usize = circ::write(buffer, rest);
        proof {
            if room == 0 {
                assert(pre.pending.take(0) =~= Seq::empty());
            } else if pre.pending.len() < room {
                assert(pre.pending.take(count as int) =~= pre.pending);
            }
        }
        self.taken = self.taken + count;
        if count == 0 {
            self.readable = false;
        }
        assert(self@.pending =~= pre.pending.skip(count as int));
        Ok(count)
    }
}

/// What a pipe gives to the next read into a buffer of that capacity and room.
pub open spec fn given(state: PipeState, cap: nat, room: nat) -> Result<Seq<u8>, ErrorKind> {
    if cap == 0 {
        Ok(Seq::empty())
    } else if state.pending.len() == 0 {
        match state.end {
            PipeEnd::Failed { kind } => Err(kind),
            _ => Ok(Seq::empty()),
        }
    } else if state.pending.len() < room {
        Ok(state.pending)
    } else {
        Ok(state.pending.take(room as int))
    }
}

/// What is left of a pipe after the next read into a buffer of that capacity and room.
pub open spec fn left_over(state: PipeState, cap: nat, room: nat) -> PipeState {
    match given(state, cap, room) {
        Err(_) => state,
        Ok(bytes) => PipeState {
            pending: state.pending.skip(bytes.len() as int),
            end: state.end,
            readable: state.readable && (cap == 0 || bytes.len() > 0),
        },
    }
}

/// Reading a pipe loses no byte, repeats none and keeps their order.
pub proof fn law_pipe_gives_each_byte_once(state: PipeState, cap: nat, room: nat)
    ensures
        given(state, cap, room) matches Ok(bytes) ==> bytes + left_over(state, cap, room).pending
            == state.pending,
        given(state, cap, room) is Err ==> left_over(state, cap, room) == state,
        given(state, cap, room) matches Ok(bytes) ==> bytes.len() <= room,
{
    match given(state, cap, room) {
        Ok(bytes) => {
            assert(bytes + left_over(state, cap, room).pending =~= state.pending);
        },
        Err(_) => {},
    }
}

/// A read gives all that the pipe holds, or as much of it as there is room for. Where the buffer
/// has room and the pipe holds bytes, it gives some.
pub proof fn law_read_gives_as_much_as_fits(state: PipeState, cap: nat, room: nat)
    requires
        0 < cap,
        room <= cap,
        state.pending.len() > 0,
    ensures
        given(state, cap, room) is Ok,
        given(state, cap, room)->Ok_0.len() == room || given(state, cap, room)->Ok_0
            == state.pending,
        given(state, cap, room)->Ok_0.len() <= room,
        given(state, cap, room)->Ok_0.is_prefix_of(state.pending),
        room > 0 ==> given(state, cap, room)->Ok_0.len() > 0 && left_over(
            state,
            cap,
            room,
        ).readable == state.readable,
        room == 0 ==> !left_over(state, cap, room).readable,
{
    if room > 0 && state.pending.len() < room {
        assert(state.pending.take(state.pending.len() as int) =~= state.pending);
    }
    if state.pending.len() == room {
        assert(state.pending.take(room as int) =~= state.pending);
    }
}

/// A pipe that holds nothing fails if it is to fail, and is left as it is; otherwise it gives
/// nothing and is no longer readable. What comes after its bytes never changes by reading.
pub proof fn law_empty_pipe_gives_its_end(state: PipeState, cap: nat, room: nat)
    requires
        0 < cap,
        state.pending.len() == 0,
    ensures
        state.end matches PipeEnd::Failed { kind } ==> given(state, cap, room) == Err::<
            Seq<u8>,
            ErrorKind,
        >(kind) && left_over(state, cap, room) == state,
        state.end !is Failed ==> given(state, cap, room) == Ok::<Seq<u8>, ErrorKind>(Seq::empty())
            && left_over(state, cap, room) == (PipeState { readable: false, ..state }),
{
    if state.end !is Failed {
        assert(left_over(state, cap, room) =~= PipeState { readable: false, ..state });
    }
}

/// A buffer that can never take anything gets nothing, and leaves the pipe as it is.
pub proof fn law_useless_buffer_leaves_the_pipe_alone(state: PipeState, room: nat)
    ensures
        given(state, 0, room) == Ok::<Seq<u8>, ErrorKind>(Seq::empty()),
        left_over(state, 0, room) == state,
        forall|cap: nat| #[trigger] left_over(state, cap, room).end == state.end,
{
    assert(left_over(state, 0, room) =~= state);
}

/// Two reads give what one read with the room of both gives.
pub proof fn law_reads_add_up(state: PipeState, cap: nat, room1: nat, room2: nat)
    requires
        0 < cap,
        state.pending.len() > 0,
        state.end !is Failed,
    ensures
        ({
            let first = given(state, cap, room1);
            let second = given(left_over(state, cap, room1), cap, room2);
            &&& first is Ok
            &&& second is Ok
            &&& given(state, cap, room1 + room2) == Ok::<Seq<u8>, ErrorKind>(
                first->Ok_0 + second->Ok_0,
            )
        }),
{
    let first = given(state, cap, room1)->Ok_0;
    let second = given(left_over(state, cap, room1), cap, room2)->Ok_0;
    assert(given(state, cap, room1 + room2)->Ok_0 =~= first + second);
}

/// A pipe is a source that gives its bytes in order, each once: the next read gives the
/// beginning of what the pipe holds, as much as there is room for, and the pipe holds the rest
/// afterwards. It gives nothing only where there is nothing to give or no room to give it.
pub proof fn law_source_gives_what_the_pipe_holds(pipe: ReadPipe, cap: nat, room: nat)
    requires
        room <= cap,
    ensures
        match pipe.next_read(cap, room) {
            Ok(bytes) => {
                &&& bytes + left_over(pipe@, cap, room).pending == pipe@.pending
                &&& bytes.len() <= room
                &&& bytes.len() < room ==> bytes == pipe@.pending
                &&& cap > 0 && pipe@.pending.len() == 0 ==> pipe@.end !is Failed
            },
            Err(kind) => {
                &&& cap > 0
                &&& pipe@.pending.len() == 0
                &&& pipe@.end == (PipeEnd::Failed { kind })
                &&& left_over(pipe@, cap, room) == pipe@
            },
        },
{
    law_pipe_gives_each_byte_once(pipe@, cap, room);
    if cap > 0 && pipe@.pending.len() > 0 {
        law_read_gives_as_much_as_fits(pipe@, cap, room);
    }
}

} // verus!
