use simple_kv::codec::{drain_messages, encode_response, is_whitespace, split_words, Message};
use simple_kv::store::Store;

fn get_key(m: &Message) -> Option<String> {
    match m {
        Message::Get(k) => Some(k.clone()),
        _ => None,
    }
}

#[test]
fn decodes_get() {
    let m = Message::from_bytes(b"GET 0000000000000001");
    assert_eq!(get_key(&m), Some("0000000000000001".to_string()));
}

#[test]
fn decodes_put_with_extra_whitespace() {
    match Message::from_bytes(b"  PUT\tkey   value ") {
        Message::Put(k, v) => {
            assert_eq!(k, "key");
            assert_eq!(v, "value");
        }
        _ => panic!("expected a put"),
    }
}

#[test]
fn rejects_bad_lines() {
    for line in [
        &b"GET"[..],
        &b""[..],
        &b"GET a b"[..],
        &b"PUT a"[..],
        &b"PUT a b c"[..],
        &b"FOO bar"[..],
        &b"get a"[..],
        &[0xff, 0x20, 0x61][..],
    ] {
        assert!(matches!(Message::from_bytes(line), Message::Error));
    }
}

#[test]
fn splits_on_unicode_whitespace() {
    let m = Message::from_bytes("GET\u{a0}k\u{3000}".as_bytes());
    assert_eq!(get_key(&m), Some("k".to_string()));
    assert!(is_whitespace('\u{2028}'));
    assert!(!is_whitespace('x'));
}

#[test]
fn keeps_non_ascii_words() {
    let m = Message::from_bytes("GET clé".as_bytes());
    assert_eq!(get_key(&m), Some("clé".to_string()));
}

#[test]
fn splits_words_in_order() {
    let s: Vec<char> = " ab  c d ".chars().collect();
    let w = split_words(&s);
    assert_eq!(w, vec![vec!['a', 'b'], vec!['c'], vec!['d']]);
}

#[test]
fn drain_keeps_partial_line() {
    let mut buf = b"GET a\nPUT b c\nGET".to_vec();
    let ms = drain_messages(&mut buf);
    assert_eq!(ms.len(), 2);
    assert_eq!(get_key(&ms[0]), Some("a".to_string()));
    assert!(matches!(&ms[1], Message::Put(k, v) if k == "b" && v == "c"));
    assert_eq!(buf, b"GET".to_vec());
}

#[test]
fn drain_is_idempotent() {
    let mut buf = b"GET a\nPU".to_vec();
    let _ = drain_messages(&mut buf);
    let before = buf.clone();
    let again = drain_messages(&mut buf);
    assert!(again.is_empty());
    assert_eq!(buf, before);
}

#[test]
fn split_delivery_decodes_as_one_read() {
    let whole = b"PUT k v\nGET k\nGE".to_vec();
    let mut one = whole.clone();
    let all = drain_messages(&mut one);
    for cut in 0..whole.len() {
        let mut buf = whole[..cut].to_vec();
        let mut got = drain_messages(&mut buf);
        buf.extend_from_slice(&whole[cut..]);
        got.extend(drain_messages(&mut buf));
        assert_eq!(got.len(), all.len());
        assert_eq!(buf, one);
        for (a, b) in got.iter().zip(all.iter()) {
            assert_eq!(get_key(a), get_key(b));
        }
    }
}

#[test]
fn response_round_trip() {
    for text in ["OK", "NONE", "ERR", "hello", "grüße"] {
        let mut buf = Vec::new();
        encode_response(&mut buf, text);
        assert_eq!(buf.last(), Some(&b'\n'));
        let line = &buf[..buf.len() - 1];
        assert_eq!(std::str::from_utf8(line).unwrap(), text);
    }
}

#[test]
fn store_answers() {
    let mut s = Store::new();
    assert_eq!(s.apply(&Message::from_bytes(b"GET k")), "NONE");
    assert_eq!(s.apply(&Message::from_bytes(b"PUT k v1")), "OK");
    assert_eq!(s.apply(&Message::from_bytes(b"GET k")), "v1");
    assert_eq!(s.apply(&Message::from_bytes(b"PUT k v2")), "OK");
    assert_eq!(s.apply(&Message::from_bytes(b"GET k")), "v2");
    assert_eq!(s.apply(&Message::from_bytes(b"PUT k")), "ERR");
    assert_eq!(s.get(&"k".to_string()), Some("v2".to_string()));
    assert_eq!(s.get(&"other".to_string()), None);
}
