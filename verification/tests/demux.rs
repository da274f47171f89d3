use streammux::Core;
use streammux::MemSock;
use streammux::Routed;
use streammux::VecQueue;
use streammux::Sid;
use streammux::route_frame;

fn sid(b: u8) -> Sid {
    [b; 32]
}

fn fresh() -> Core<MemSock, VecQueue> {
    Core { sock: MemSock::new(), queue: VecQueue::new() }
}

fn connect(wire: Vec<u8>) -> Core<MemSock, VecQueue> {
    Core { sock: MemSock::with_input(wire), queue: VecQueue::new() }
}

#[test]
fn partial_frame_carry_over() {
    let id = sid(1);
    let data: Vec<u8> = (0..100).collect();
    let mut writer = fresh();
    writer.write(&id, &data).unwrap();
    let mut reader = connect(writer.sock.output);

    let mut first = Vec::new();
    reader.read(&id, &mut first, 40).unwrap();
    assert_eq!(first, data[..40].to_vec());

    let mut second = Vec::new();
    reader.read(&id, &mut second, 60).unwrap();
    assert_eq!(second, data[40..].to_vec());
}

#[test]
fn steal_and_replay() {
    let a = sid(0xaa);
    let b = sid(0xbb);
    let pa: Vec<u8> = vec![1, 2, 3, 4];
    let pb: Vec<u8> = vec![9, 8, 7];
    let mut writer = fresh();
    writer.write(&b, &pb).unwrap();
    writer.write(&a, &pa).unwrap();
    let mut reader = connect(writer.sock.output);

    // the read for `a` must skip past (and buffer) the earlier frame for `b`
    let mut got_a = Vec::new();
    reader.read(&a, &mut got_a, 4).unwrap();
    assert_eq!(got_a, pa);

    // `b`'s payload now comes wholly from the backlog
    let mut got_b = Vec::new();
    reader.read(&b, &mut got_b, 3).unwrap();
    assert_eq!(got_b, pb);
}

#[test]
fn non_interference_either_read_order() {
    let a = sid(0x01);
    let b = sid(0x02);
    let da: Vec<u8> = (0..50).collect();
    let db: Vec<u8> = (100..200).collect();

    // interleaved writes: a, b, a, b
    let mut writer = fresh();
    writer.write(&a, &da[..20]).unwrap();
    writer.write(&b, &db[..70]).unwrap();
    writer.write(&a, &da[20..]).unwrap();
    writer.write(&b, &db[70..]).unwrap();
    let wire = writer.sock.output;

    // read a first, then b
    let mut reader = connect(wire.clone());
    let mut got_a = Vec::new();
    reader.read(&a, &mut got_a, 50).unwrap();
    let mut got_b = Vec::new();
    reader.read(&b, &mut got_b, 100).unwrap();
    assert_eq!(got_a, da);
    assert_eq!(got_b, db);

    // read b first, then a
    let mut reader = connect(wire);
    let mut got_b = Vec::new();
    reader.read(&b, &mut got_b, 100).unwrap();
    let mut got_a = Vec::new();
    reader.read(&a, &mut got_a, 50).unwrap();
    assert_eq!(got_a, da);
    assert_eq!(got_b, db);
}

#[test]
fn many_streams_interleaved() {
    let ids: Vec<Sid> = (0..8u8).map(sid).collect();
    let datas: Vec<Vec<u8>> = (0..8u8).map(|k| vec![k; 64]).collect();

    // one writer interleaves short frames for all streams, round robin
    let mut writer = fresh();
    for round in 0..8 {
        for (id, data) in ids.iter().zip(datas.iter()) {
            writer.write(id, &data[round * 8..(round + 1) * 8]).unwrap();
        }
    }
    let mut reader = connect(writer.sock.output);

    // each stream gets exactly its own bytes, in order
    for (id, data) in ids.iter().zip(datas.iter()) {
        let mut got = Vec::new();
        reader.read(id, &mut got, 64).unwrap();
        assert_eq!(&got, data);
    }
}

#[test]
fn many_streams_partial_reads_interleaved() {
    let ids: Vec<Sid> = (0..5u8).map(sid).collect();
    let datas: Vec<Vec<u8>> = ids
        .iter()
        .enumerate()
        .map(|(k, _)| (0..300).map(|i| ((i * 7 + k * 11) % 256) as u8).collect())
        .collect();

    let mut writer = fresh();
    for third in 0..3 {
        for (id, data) in ids.iter().zip(datas.iter()) {
            writer.write(id, &data[third * 100..(third + 1) * 100]).unwrap();
        }
    }
    let mut reader = connect(writer.sock.output);

    // readers for all streams take turns, 30 bytes at a time
    let mut got: Vec<Vec<u8>> = ids.iter().map(|_| Vec::new()).collect();
    for _ in 0..10 {
        for (k, id) in ids.iter().enumerate() {
            reader.read(id, &mut got[k], 30).unwrap();
        }
    }
    for (g, d) in got.iter().zip(datas.iter()) {
        assert_eq!(g, d);
    }
}

#[test]
fn route_frame_delivers_matching_fit() {
    let s = sid(1);
    match route_frame(&s, s, vec![1, 2, 3], 5) {
        Routed::Deliver(d) => assert_eq!(d, vec![1, 2, 3]),
        _ => panic!("a fitting matching frame must be delivered whole"),
    }
}

#[test]
fn route_frame_splits_oversized_matching() {
    let s = sid(1);
    match route_frame(&s, s, vec![1, 2, 3, 4, 5], 2) {
        Routed::Split(d, q) => {
            assert_eq!(d, vec![1, 2]);
            assert_eq!(q, vec![3, 4, 5]);
        }
        _ => panic!("an oversized matching frame must be split"),
    }
}

#[test]
fn route_frame_steals_foreign() {
    let s = sid(1);
    let other = sid(2);
    match route_frame(&s, other, vec![9, 9], 100) {
        Routed::Steal(t, q) => {
            assert_eq!(t, other);
            assert_eq!(q, vec![9, 9]);
        }
        _ => panic!("a foreign frame must be stolen whole"),
    }
}

#[test]
fn buffered_read_needs_no_wire() {
    let a = sid(3);
    let b = sid(4);
    let mut writer = fresh();
    writer.write(&b, &[42; 10]).unwrap();
    writer.write(&a, &[7; 5]).unwrap();
    let mut reader = connect(writer.sock.output);

    let mut got_a = Vec::new();
    reader.read(&a, &mut got_a, 5).unwrap();
    assert_eq!(got_a, vec![7; 5]);

    // the connection is exhausted; b is served from the backlog alone
    assert_eq!(reader.sock.pos, reader.sock.input.len());
    let mut got_b = Vec::new();
    reader.read(&b, &mut got_b, 10).unwrap();
    assert_eq!(got_b, vec![42; 10]);
}
