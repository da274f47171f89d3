use streammux::Core;
use streammux::MemSock;
use streammux::VecQueue;
use streammux::Sid;
use streammux::encode_packets;

fn pattern(n: usize) -> Vec<u8> {
    (0..n).map(|i| (i % 251) as u8).collect()
}

fn sid(b: u8) -> Sid {
    [b; 32]
}

fn connect(wire: Vec<u8>) -> Core<MemSock, VecQueue> {
    Core { sock: MemSock::with_input(wire), queue: VecQueue::new() }
}

#[test]
fn wire_format_exact() {
    let id = sid(0xab);
    let wire = encode_packets(&id, &[1, 2, 3]);
    let mut expected = vec![0xab_u8; 32];
    expected.push(3);
    expected.push(0);
    expected.extend_from_slice(&[1, 2, 3]);
    assert_eq!(wire, expected);
}

#[test]
fn wire_format_length_little_endian() {
    let id = sid(1);
    let wire = encode_packets(&id, &pattern(300));
    // 300 == 0x012c, stored low byte first
    assert_eq!(wire[32], 0x2c);
    assert_eq!(wire[33], 0x01);
    assert_eq!(wire.len(), 34 + 300);
}

#[test]
fn wire_format_empty_write_sends_nothing() {
    let id = sid(9);
    let wire = encode_packets(&id, &[]);
    assert_eq!(wire, Vec::<u8>::new());
}

#[test]
fn wire_format_chunks_large_write() {
    let id = sid(2);
    let data = pattern(70000);
    let wire = encode_packets(&id, &data);
    // one maximal frame of 65535 bytes, then the remaining 4465
    assert_eq!(wire.len(), 34 + 65535 + 34 + 4465);
    assert_eq!(wire[32], 0xff);
    assert_eq!(wire[33], 0xff);
    let second = 34 + 65535;
    assert_eq!(wire[second + 32], (4465 % 256) as u8);
    assert_eq!(wire[second + 33], (4465 / 256) as u8);
}

#[test]
fn round_trip_small() {
    let id = sid(7);
    let mut writer = Core { sock: MemSock::new(), queue: VecQueue::new() };
    writer.write(&id, &[10, 20, 30]).unwrap();
    let mut reader = connect(writer.sock.output);
    let mut buf = Vec::new();
    reader.read(&id, &mut buf, 3).unwrap();
    assert_eq!(buf, vec![10, 20, 30]);
}

#[test]
fn round_trip_empty() {
    let id = sid(7);
    let mut writer = Core { sock: MemSock::new(), queue: VecQueue::new() };
    writer.write(&id, &[]).unwrap();
    assert_eq!(writer.sock.output.len(), 0);
    let mut reader = connect(writer.sock.output);
    let mut buf = Vec::new();
    reader.read(&id, &mut buf, 0).unwrap();
    assert_eq!(buf, Vec::<u8>::new());
}

#[test]
fn round_trip_larger_than_one_frame() {
    let id = sid(3);
    let data = pattern(70000);
    let mut writer = Core { sock: MemSock::new(), queue: VecQueue::new() };
    writer.write(&id, &data).unwrap();
    let mut reader = connect(writer.sock.output);
    let mut buf = Vec::new();
    reader.read(&id, &mut buf, 70000).unwrap();
    assert_eq!(buf, data);
}

#[test]
fn round_trip_exactly_one_maximal_frame() {
    let id = sid(4);
    let data = pattern(65535);
    let mut writer = Core { sock: MemSock::new(), queue: VecQueue::new() };
    writer.write(&id, &data).unwrap();
    assert_eq!(writer.sock.output.len(), 34 + 65535);
    let mut reader = connect(writer.sock.output);
    let mut buf = Vec::new();
    reader.read(&id, &mut buf, 65535).unwrap();
    assert_eq!(buf, data);
}

#[test]
fn round_trip_across_many_reads() {
    let id = sid(5);
    let data = pattern(1000);
    let mut writer = Core { sock: MemSock::new(), queue: VecQueue::new() };
    writer.write(&id, &data).unwrap();
    let mut reader = connect(writer.sock.output);
    let mut all = Vec::new();
    for _ in 0..10 {
        let mut buf = Vec::new();
        reader.read(&id, &mut buf, 100).unwrap();
        assert_eq!(buf.len(), 100);
        all.extend_from_slice(&buf);
    }
    assert_eq!(all, data);
}
