use streammux::Core;
use streammux::MemSock;
use streammux::Queue;
use streammux::VecQueue;
use streammux::Sid;
use streammux::sid_eq;

fn sid(b: u8) -> Sid {
    [b; 32]
}

#[test]
fn sid_eq_compares_all_bytes() {
    let a = sid(1);
    let mut b = sid(1);
    assert!(sid_eq(&a, &b));
    b[31] = 2;
    assert!(!sid_eq(&a, &b));
}

#[test]
fn queue_is_fifo_per_identifier() {
    let id = sid(1);
    let mut q = VecQueue::new();
    q.push(&id, &[1, 2, 3]);
    q.push(&id, &[4, 5]);
    assert_eq!(q.pop(&id, 4), vec![1, 2, 3, 4]);
    assert_eq!(q.pop(&id, 4), vec![5]);
    assert_eq!(q.pop(&id, 4), Vec::<u8>::new());
}

#[test]
fn queue_pop_never_waits_for_more() {
    let id = sid(2);
    let mut q = VecQueue::new();
    q.push(&id, &[7, 8]);
    // only two bytes are there; pop returns them at once, not blocking
    assert_eq!(q.pop(&id, 100), vec![7, 8]);
}

#[test]
fn queue_pop_zero_consumes_nothing() {
    let id = sid(3);
    let mut q = VecQueue::new();
    q.push(&id, &[1]);
    assert_eq!(q.pop(&id, 0), Vec::<u8>::new());
    assert_eq!(q.pop(&id, 1), vec![1]);
}

#[test]
fn queue_keeps_identifiers_apart() {
    let a = sid(4);
    let b = sid(5);
    let mut q = VecQueue::new();
    q.push(&a, &[1, 2]);
    q.push(&b, &[3]);
    q.push(&a, &[4]);
    assert_eq!(q.pop(&b, 10), vec![3]);
    assert_eq!(q.pop(&a, 10), vec![1, 2, 4]);
}

#[test]
fn stream_write_reports_all_bytes() {
    let id = sid(6);
    let core = Core { sock: MemSock::new(), queue: VecQueue::new() };
    let mut handle = core.stream(id);
    let n = handle.write(&[1, 2, 3, 4]).unwrap();
    assert_eq!(n, 4);
    assert_eq!(handle.core.sock.output.len(), 34 + 4);
    assert!(handle.flush().is_ok());
}

#[test]
fn stream_handle_binds_its_identifier() {
    let id = sid(7);
    let core = Core { sock: MemSock::new(), queue: VecQueue::new() };
    let handle = core.stream(id);
    assert!(sid_eq(&handle.sid, &id));
}

#[test]
fn stream_round_trip_through_handles() {
    let id = sid(8);
    let writer = Core { sock: MemSock::new(), queue: VecQueue::new() };
    let mut wh = writer.stream(id);
    wh.write(&[11, 22, 33]).unwrap();
    let wire = wh.core.sock.output.clone();

    let reader = Core { sock: MemSock::with_input(wire), queue: VecQueue::new() };
    let mut rh = reader.stream(id);
    let got = rh.read(3).unwrap();
    assert_eq!(got, vec![11, 22, 33]);
}
