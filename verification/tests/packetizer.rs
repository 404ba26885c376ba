use byteorder::{LittleEndian, ReadBytesExt};
use std::cmp::Ordering;
use std::io::Cursor;
use udpipe::error::ErrorKind;
use udpipe::packetizer::{Fragment, Packetizer};
use udpipe::pipe::{PipeEnd, ReadPipe};

#[test]
fn packetizer_test_basic_packet_formation() {
    let data = b"kek";
    let mut source = ReadPipe::new(data.to_vec());
    let mut packetizer = Packetizer::new(4096);
    assert_eq!(packetizer.write_from(&mut source).unwrap(), 3);

    let mut buffer = [0u8; 16];
    let packet_size = packetizer.generate(&mut buffer).unwrap();
    assert_eq!(packet_size, 4 + 4 + 2 + 3);

    let mut r = Cursor::new(buffer);
    let header = r.read_u32::<LittleEndian>().unwrap();
    let sequence = header >> 8;
    let num_fragments = header & 0xff;
    assert_eq!(sequence, 0);
    assert_eq!(num_fragments, 1);

    let offset = r.read_u32::<LittleEndian>().unwrap();
    let size = r.read_u16::<LittleEndian>().unwrap();
    assert_eq!(offset, 0);
    assert_eq!(size, 3);

    assert_eq!(data[..], buffer[r.position() as usize..packet_size]);
}

#[test]
fn later_reads_extend_the_fragment() {
    let mut packetizer = Packetizer::new(16);
    let mut source = ReadPipe::new(b"ab".to_vec());
    assert_eq!(packetizer.write_from(&mut source), Ok(2));
    source.refill(b"cd".to_vec(), PipeEnd::Eof);
    assert_eq!(packetizer.write_from(&mut source), Ok(2));
    let mut buffer = [0u8; 32];
    packetizer.generate(&mut buffer).unwrap();
    assert_eq!(packetizer.generate(&mut buffer), Ok(14));
    assert_eq!(
        &buffer[..14],
        &[1, 1, 0, 0, 0, 0, 0, 0, 4, 0, b'a', b'b', b'c', b'd']
    );
}

#[test]
fn packet_carries_no_more_than_fits() {
    let mut packetizer = Packetizer::new(16);
    let mut source = ReadPipe::new(b"abcdef".to_vec());
    packetizer.write_from(&mut source).unwrap();
    let mut buffer = [0u8; 13];
    assert_eq!(packetizer.generate(&mut buffer), Ok(13));
    assert_eq!(&buffer[8..], &[3, 0, b'a', b'b', b'c']);
    let mut buffer = [0u8; 10];
    assert_eq!(packetizer.generate(&mut buffer), Ok(4));
    assert_eq!(&buffer[..4], &[0, 1, 0, 0]);
}

#[test]
fn fragment_is_there_once_a_source_was_read() {
    let mut packetizer = Packetizer::new(16);
    let mut buffer = [0u8; 16];
    assert_eq!(packetizer.generate(&mut buffer), Ok(4));
    let mut source = ReadPipe::new(Vec::new());
    assert_eq!(packetizer.write_from(&mut source), Ok(0));
    assert_eq!(packetizer.generate(&mut buffer), Ok(10));
    assert_eq!(&buffer[..10], &[1, 1, 0, 0, 0, 0, 0, 0, 0, 0]);
    let kind = ErrorKind::Os { code: 4 };
    source.refill(Vec::new(), PipeEnd::Failed { kind });
    assert_eq!(packetizer.write_from(&mut source), Err(kind));
}

#[test]
fn fragments_are_known_by_their_offset() {
    let a = Fragment { offset: 1, size: 5 };
    let b = Fragment { offset: 1, size: 9 };
    let c = Fragment { offset: 2, size: 1 };
    assert_eq!(a, b);
    assert_ne!(a, c);
    assert_eq!(a.partial_cmp(&b), Some(Ordering::Equal));
    assert_eq!(b.partial_cmp(&c), Some(Ordering::Less));
    assert!(c > a);
}
