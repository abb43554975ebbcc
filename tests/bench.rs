use simple_kv::bench::{acks_well_formed_exec, push_put, AckError, Bench, PUT_OVERHEAD};

fn ack_bytes(n: usize) -> Vec<u8> {
    b"OK\n".repeat(n)
}

#[test]
fn put_line_format() {
    let mut out = Vec::new();
    push_put(&mut out, 0x1a2b, b"xyz");
    assert_eq!(out, b"PUT 0000000000001A2B xyz\n".to_vec());
    assert_eq!(out.len(), PUT_OVERHEAD + 3);
    let mut out = Vec::new();
    push_put(&mut out, u64::MAX, b"");
    assert_eq!(out, b"PUT FFFFFFFFFFFFFFFF \n".to_vec());
}

#[test]
fn new_rejects_overflowing_sizes() {
    assert!(Bench::new(1, usize::MAX, 1, 0).is_none());
    assert!(Bench::new(1, usize::MAX / 2, 3, 0).is_none());
    assert!(Bench::new(1, 48, 10, 0).is_some());
}

#[test]
fn fill_synthesizes_a_batch() {
    let mut b = Bench::new(2, 8, 3, 0).unwrap();
    let t = b.add_connection().unwrap();
    assert!(b.fill(t));
    let out = b.output(t).unwrap().to_vec();
    assert_eq!(out.len(), 3 * 30);
    for (i, line) in out.chunks(30).enumerate() {
        let expected_key = format!("PUT {:016X} ", i);
        assert_eq!(&line[..21], expected_key.as_bytes());
        assert!(line[21..29].iter().all(|c| c.is_ascii_alphanumeric()));
        assert_eq!(line[29], b'\n');
    }
    assert_ne!(&out[21..29], &out[51..59]);
    assert!(b.fill(t));
    assert_eq!(b.output(t).unwrap().len(), 90);
}

#[test]
fn sends_counted_by_message_boundaries() {
    let mut b = Bench::new(1, 8, 3, 0).unwrap();
    let t = b.add_connection().unwrap();
    assert!(b.fill(t));
    b.sent(t, 45, 100);
    assert_eq!(b.output(t).unwrap().len(), 45);
    assert_eq!(b.acknowledged(t, &ack_bytes(1), 130), Ok(1));
    assert_eq!(b.acknowledged(t, &ack_bytes(1), 130), Err(AckError::Unexpected));
}

#[test]
fn acks_match_oldest_first() {
    let mut b = Bench::new(1, 8, 4, 0).unwrap();
    let t = b.add_connection().unwrap();
    assert!(b.fill(t));
    b.sent(t, 30, 100);
    b.sent(t, 30, 200);
    b.sent(t, 15, 300);
    b.sent(t, 15, 400);
    assert_eq!(b.acknowledged(t, b"OK\nOK\nOK", 1000), Ok(2));
    assert_eq!(b.acknowledged(t, b"\n", 1500), Ok(1));
    let h = b.take_histogram();
    assert_eq!(h.entries(), 3);
    assert_eq!(h.get(900), Some(1));
    assert_eq!(h.get(800), Some(1));
    assert_eq!(h.get(1100), Some(1));
    assert_eq!(b.take_histogram().entries(), 0);
}

#[test]
fn n_sends_n_acks_n_increments() {
    let n = 5;
    let mut b = Bench::new(1, 4, n, 0).unwrap();
    let t = b.add_connection().unwrap();
    assert!(b.fill(t));
    let len = b.output(t).unwrap().len();
    b.sent(t, len, 10);
    assert_eq!(b.acknowledged(t, &ack_bytes(n), 5), Ok(n));
    let h = b.take_histogram();
    assert_eq!(h.entries(), n as u64);
    assert_eq!(h.get(0), Some(n as u64));
}

#[test]
fn malformed_ack_removes_connection() {
    let mut b = Bench::new(1, 4, 1, 0).unwrap();
    let t = b.add_connection().unwrap();
    assert!(b.fill(t));
    b.sent(t, 26, 1);
    assert_eq!(b.acknowledged(t, b"ERR\n", 2), Err(AckError::Malformed));
    assert!(b.output(t).is_none());
    assert!(!acks_well_formed_exec(&b"OK\nOX".to_vec()));
    assert!(acks_well_formed_exec(&b"OK\nO".to_vec()));
}

#[test]
fn finishes_after_count() {
    let mut b = Bench::new(1, 4, 2, 3).unwrap();
    let t = b.add_connection().unwrap();
    assert!(!b.finished());
    assert!(b.fill(t));
    assert!(!b.finished());
    b.sent(t, 52, 1);
    assert!(b.fill(t));
    assert!(b.finished());
    let forever = Bench::new(1, 4, 2, 0).unwrap();
    assert!(!forever.finished());
}

#[test]
fn connection_table_is_bounded() {
    let mut b = Bench::new(2, 4, 2, 0).unwrap();
    let a = b.add_connection().unwrap();
    let c = b.add_connection().unwrap();
    assert_eq!((a, c), (0, 1));
    assert!(b.add_connection().is_none());
    b.remove(a);
    assert_eq!(b.add_connection(), Some(0));
}
