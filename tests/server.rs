use simple_kv::connection::{Events, ReadEnd, Step, WriteAction, WriteResult};
use simple_kv::server::{Server, LISTENER};

fn feed(s: &mut Server, t: usize, data: &[u8]) -> Vec<u8> {
    assert!(s.readable(t, data, ReadEnd::WouldBlock));
    let out = s.output(t).unwrap().to_vec();
    let n = out.len();
    if n > 0 {
        assert_eq!(s.writable(t, WriteResult::Wrote(n)), WriteAction::Stop);
    }
    out
}

#[test]
fn scenario_put_get_none_err() {
    let mut s = Server::new();
    let t = s.accept().unwrap();
    assert_ne!(t, LISTENER);
    assert_eq!(feed(&mut s, t, b"PUT 0000000000000001 hello\n"), b"OK\n".to_vec());
    assert_eq!(feed(&mut s, t, b"GET 0000000000000001\n"), b"hello\n".to_vec());
    assert_eq!(feed(&mut s, t, b"GET ffffffffffffffff\n"), b"NONE\n".to_vec());
    assert_eq!(feed(&mut s, t, b"FOO bar\n"), b"ERR\n".to_vec());
}

#[test]
fn get_on_other_connection_sees_put() {
    let mut s = Server::new();
    let a = s.accept().unwrap();
    let b = s.accept().unwrap();
    assert_ne!(a, b);
    assert_eq!(feed(&mut s, a, b"PUT k v\n"), b"OK\n".to_vec());
    assert_eq!(feed(&mut s, b, b"GET k\n"), b"v\n".to_vec());
}

#[test]
fn partial_write_leaves_rest() {
    let mut s = Server::new();
    let t = s.accept().unwrap();
    assert!(s.readable(t, b"GET a\nGET b\nGET c\n", ReadEnd::WouldBlock));
    assert_eq!(s.output(t).unwrap().to_vec(), b"NONE\nNONE\nNONE\n".to_vec());
    assert!(s.readable(t, b"", ReadEnd::WouldBlock));
    let mut s2 = Server::new();
    let u = s2.accept().unwrap();
    assert!(s2.readable(u, b"PUT k hello world\nGET k\n", ReadEnd::WouldBlock));
    assert_eq!(s2.output(u).unwrap().to_vec(), b"ERR\nNONE\n".to_vec());
    let mut s3 = Server::new();
    let w = s3.accept().unwrap();
    assert!(s3.readable(w, b"PUT k 0123456\nGET k\n", ReadEnd::WouldBlock));
    let before = s3.output(w).unwrap().to_vec();
    assert_eq!(before, b"OK\n0123456\n".to_vec());
    assert_eq!(before.len(), 11);
    assert!(s3.readable(w, b"GET x\n", ReadEnd::WouldBlock));
    assert_eq!(s3.output(w).unwrap().len(), 16);
    assert_eq!(s3.writable(w, WriteResult::Wrote(9)), WriteAction::Again);
    assert_eq!(s3.output(w).unwrap().to_vec(), b"6\nNONE\n".to_vec());
    assert!(s3.events(w).unwrap().writable);
}

#[test]
fn five_of_twelve_bytes_leaves_seven() {
    let mut s = Server::new();
    let t = s.accept().unwrap();
    assert!(s.readable(t, b"PUT k hello_world\nGET k\n", ReadEnd::WouldBlock));
    assert_eq!(feed_write(&mut s, t, 3), WriteAction::Again);
    assert_eq!(s.output(t).unwrap().to_vec(), b"hello_world\n".to_vec());
    assert_eq!(s.writable(t, WriteResult::Wrote(5)), WriteAction::Again);
    assert_eq!(s.output(t).unwrap().to_vec(), b"_world\n".to_vec());
    assert!(s.events(t).unwrap().writable);
    assert_eq!(s.writable(t, WriteResult::Wrote(7)), WriteAction::Stop);
    assert!(s.output(t).unwrap().is_empty());
    assert!(!s.events(t).unwrap().writable);
}

fn feed_write(s: &mut Server, t: usize, n: usize) -> WriteAction {
    s.writable(t, WriteResult::Wrote(n))
}

#[test]
fn write_outcomes() {
    let mut s = Server::new();
    let t = s.accept().unwrap();
    assert!(s.readable(t, b"GET a\n", ReadEnd::WouldBlock));
    assert_eq!(s.writable(t, WriteResult::WouldBlock), WriteAction::Stop);
    assert_eq!(s.output(t).unwrap().to_vec(), b"NONE\n".to_vec());
    assert_eq!(s.writable(t, WriteResult::Wrote(5)), WriteAction::Stop);
    assert!(!s.events(t).unwrap().writable);
    assert!(s.readable(t, b"GET a\n", ReadEnd::WouldBlock));
    assert_eq!(s.writable(t, WriteResult::Wrote(0)), WriteAction::Close);
    assert!(s.output(t).is_none());
    let u = s.accept().unwrap();
    assert!(s.readable(u, b"GET a\n", ReadEnd::WouldBlock));
    assert_eq!(s.writable(u, WriteResult::Failed), WriteAction::Close);
    assert!(s.events(u).is_none());
}

#[test]
fn read_outcomes() {
    let mut s = Server::new();
    let t = s.accept().unwrap();
    assert_eq!(s.events(t), Some(Events::read_only()));
    assert!(s.readable(t, b"GET a\n", ReadEnd::Closed));
    assert_eq!(s.output(t).unwrap().to_vec(), b"NONE\n".to_vec());
    assert!(!s.readable(t, b"", ReadEnd::Closed));
    assert!(s.events(t).is_none());
    let u = s.accept().unwrap();
    assert!(!s.readable(u, b"GET a\n", ReadEnd::Failed));
    assert!(s.output(u).is_none());
}

#[test]
fn tokens_are_reused_and_bounded() {
    let mut s = Server::new();
    let a = s.accept().unwrap();
    let b = s.accept().unwrap();
    s.remove(a);
    assert_eq!(s.accept(), Some(a));
    assert_eq!(b, a + 1);
    let mut n = 2;
    while s.accept().is_some() {
        n += 1;
    }
    assert_eq!(n, simple_kv::server::SLAB_SIZE);
}

#[test]
fn dispatch_order() {
    let ev = Events { readable: true, writable: true, error: false, hup: false };
    assert_eq!(ev.step(), Step::Handle { read: true, write: true });
    let ev = Events { readable: true, writable: false, error: false, hup: true };
    assert_eq!(ev.step(), Step::Remove);
    let ev = Events { readable: false, writable: true, error: true, hup: false };
    assert_eq!(ev.step(), Step::Remove);
}

#[test]
fn request_split_across_reads() {
    let stream = b"PUT k v\nGET k\nGET z\n";
    let mut whole = Server::new();
    let t = whole.accept().unwrap();
    assert!(whole.readable(t, stream, ReadEnd::WouldBlock));
    let expected = whole.output(t).unwrap().to_vec();
    assert_eq!(expected, b"OK\nv\nNONE\n".to_vec());
    for cut in 0..stream.len() {
        let mut s = Server::new();
        let u = s.accept().unwrap();
        assert!(s.readable(u, &stream[..cut], ReadEnd::WouldBlock));
        assert!(s.readable(u, &stream[cut..], ReadEnd::WouldBlock));
        assert_eq!(s.output(u).unwrap().to_vec(), expected);
    }
}

#[test]
fn invalid_lines_each_answer_err_and_keep_map() {
    let mut s = Server::new();
    let t = s.accept().unwrap();
    assert!(s.readable(t, b"PUT k v\n", ReadEnd::WouldBlock));
    assert!(s.readable(t, b"FOO\nPUT k\nGET k x\n\xff\xfe\n", ReadEnd::WouldBlock));
    assert!(s.readable(t, b"GET k\n", ReadEnd::WouldBlock));
    assert_eq!(s.output(t).unwrap().to_vec(), b"OK\nERR\nERR\nERR\nERR\nv\n".to_vec());
}
