use circbuf::CircBuf;
use udpipe::error::ErrorKind;
use udpipe::pipe::{CircRead, PipeEnd, ReadPipe};

fn held(buffer: &CircBuf) -> Vec<u8> {
    let [first, second] = buffer.get_bytes();
    let mut all = first.to_vec();
    all.extend_from_slice(second);
    all
}

#[test]
fn pipe_gives_each_byte_once() {
    let mut pipe = ReadPipe::new(b"0123456789".to_vec());
    let mut buffer = CircBuf::with_capacity(8).unwrap();
    let mut out: Vec<u8> = Vec::new();
    for expected in [7usize, 3, 0].iter() {
        assert_eq!(pipe.read(&mut buffer), Ok(*expected));
        out.extend(held(&buffer));
        buffer.advance_read(*expected).unwrap();
    }
    assert_eq!(out, b"0123456789");
}

#[test]
fn pipe_that_gave_nothing_is_not_readable() {
    let mut pipe = ReadPipe::new(b"a".to_vec());
    assert!(!pipe.readable);
    pipe.readable = true;
    let mut buffer = CircBuf::with_capacity(8).unwrap();
    assert_eq!(pipe.read(&mut buffer), Ok(1));
    assert!(pipe.readable);
    assert_eq!(pipe.read(&mut buffer), Ok(0));
    assert!(!pipe.readable);
}

#[test]
fn failing_pipe_leaves_the_buffer_alone() {
    let kind = ErrorKind::Os { code: 32 };
    let mut pipe = ReadPipe::new(Vec::new());
    pipe.readable = true;
    pipe.refill(b"ab".to_vec(), PipeEnd::Failed { kind });
    let mut buffer = CircBuf::with_capacity(8).unwrap();
    assert_eq!(pipe.read(&mut buffer), Ok(2));
    assert_eq!(pipe.read(&mut buffer), Err(kind));
    assert_eq!(held(&buffer), b"ab");
    assert!(pipe.readable);
}

#[test]
fn failing_pipe_fails_whatever_room_there_is() {
    let kind = ErrorKind::Os { code: 32 };
    let mut pipe = ReadPipe::new(b"abc".to_vec());
    let mut buffer = CircBuf::with_capacity(4).unwrap();
    assert_eq!(pipe.read(&mut buffer), Ok(3));
    assert_eq!(buffer.avail(), 0);
    pipe.refill(Vec::new(), PipeEnd::Failed { kind });
    pipe.readable = true;
    assert_eq!(pipe.read(&mut buffer), Err(kind));
    assert!(pipe.readable);
    assert_eq!(held(&buffer), b"abc");
}

#[test]
fn full_buffer_takes_nothing() {
    let mut pipe = ReadPipe::new(b"abcde".to_vec());
    let mut buffer = CircBuf::with_capacity(4).unwrap();
    pipe.readable = true;
    assert_eq!(pipe.read(&mut buffer), Ok(3));
    assert!(pipe.readable);
    assert_eq!(pipe.read(&mut buffer), Ok(0));
    assert!(!pipe.readable);
    buffer.advance_read(3).unwrap();
    assert_eq!(pipe.read(&mut buffer), Ok(2));
    assert_eq!(held(&buffer), b"de");
}

#[test]
fn buffer_without_room_for_anything_leaves_the_pipe_alone() {
    let kind = ErrorKind::Os { code: 32 };
    let mut pipe = ReadPipe::new(Vec::new());
    pipe.refill(Vec::new(), PipeEnd::Failed { kind });
    pipe.readable = true;
    let mut buffer = CircBuf::with_capacity(1).unwrap();
    assert_eq!(pipe.read(&mut buffer), Ok(0));
    assert!(pipe.readable);
}
