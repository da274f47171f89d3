use streammux::Core;
use streammux::MemSock;
use streammux::ReadExactError;
use streammux::VecQueue;
use streammux::Sid;
use streammux::encode_packets;

fn sid(b: u8) -> Sid {
    [b; 32]
}

fn connect(wire: Vec<u8>) -> Core<MemSock, VecQueue> {
    Core { sock: MemSock::with_input(wire), queue: VecQueue::new() }
}

#[test]
fn engine_reports_end_of_input() {
    let id = sid(1);
    // 40 bytes arrive, then the connection ends; 100 were asked for
    let wire = encode_packets(&id, &[5; 40]);
    let mut reader = connect(wire);
    let mut buf = Vec::new();
    let r = reader.read(&id, &mut buf, 100);
    assert!(matches!(r, Err(ReadExactError::UnexpectedEof)));
    // the bytes that did arrive were collected, not lost
    assert_eq!(buf, vec![5; 40]);
}

#[test]
fn stream_maps_end_of_input_to_short_read() {
    let id = sid(1);
    let wire = encode_packets(&id, &[5; 40]);
    let core = connect(wire);
    let mut handle = core.stream(id);
    let got = handle.read(100).unwrap();
    assert_eq!(got, vec![5; 40]);
}

#[test]
fn stream_read_at_closed_connection_returns_empty() {
    let id = sid(2);
    let core = connect(Vec::new());
    let mut handle = core.stream(id);
    let got = handle.read(10).unwrap();
    assert_eq!(got, Vec::<u8>::new());
}

#[test]
fn truncated_header_is_end_of_input() {
    let id = sid(3);
    // only half an identifier arrives
    let mut reader = connect(vec![0xaa; 16]);
    let mut buf = Vec::new();
    let r = reader.read(&id, &mut buf, 1);
    assert!(matches!(r, Err(ReadExactError::UnexpectedEof)));
    assert_eq!(buf.len(), 0);
}

#[test]
fn truncated_payload_is_end_of_input() {
    let id = sid(4);
    let mut wire = encode_packets(&id, &[1, 2, 3, 4, 5, 6, 7, 8, 9, 10]);
    wire.truncate(wire.len() - 5);  // header promises 10 bytes, 5 arrive
    let mut reader = connect(wire);
    let mut buf = Vec::new();
    let r = reader.read(&id, &mut buf, 10);
    assert!(matches!(r, Err(ReadExactError::UnexpectedEof)));
    assert_eq!(buf.len(), 0);
}

#[test]
fn end_of_input_keeps_stolen_frames() {
    let a = sid(5);
    let b = sid(6);
    let mut wire = encode_packets(&b, &[9; 8]);
    wire.extend_from_slice(&encode_packets(&a, &[1; 4]));
    wire.truncate(wire.len() - 2);  // a's frame arrives incomplete
    let mut reader = connect(wire);

    let mut got_a = Vec::new();
    let r = reader.read(&a, &mut got_a, 4);
    assert!(matches!(r, Err(ReadExactError::UnexpectedEof)));
    assert_eq!(got_a.len(), 0);

    // b's frame, stolen before the end of input, is still served
    let mut got_b = Vec::new();
    reader.read(&b, &mut got_b, 8).unwrap();
    assert_eq!(got_b, vec![9; 8]);
}

#[test]
fn error_variants_are_distinguished() {
    let eof: ReadExactError<u32> = ReadExactError::UnexpectedEof;
    let other: ReadExactError<u32> = ReadExactError::Other(17);
    assert!(matches!(eof, ReadExactError::UnexpectedEof));
    assert!(matches!(other, ReadExactError::Other(17)));
}
