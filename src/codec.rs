//! Framing of the line protocol: splitting a byte stream into lines, and
//! decoding each line into a request.
use vstd::prelude::*;
use vstd::string::StringSliceAdditionalSpecFns;
use vstd::utf8::{decode_utf8, encode_utf8, valid_utf8};

use crate::outside::{string_of, utf8_chars};

verus! {

/// The line terminator.
pub const NEWLINE: u8 = 10;

/// Unicode `White_Space`, the characters that separate the words of a line.
pub open spec fn is_ws(c: char) -> bool {
    let u = c as u32;
    (0x09 <= u <= 0x0d) || u == 0x20 || u == 0x85 || u == 0xa0 || u == 0x1680 || (0x2000 <= u
        <= 0x200a) || u == 0x2028 || u == 0x2029 || u == 0x202f || u == 0x205f || u == 0x3000
}

/// The maximal runs of non-whitespace characters of `s`, in order.
pub open spec fn words(s: Seq<char>) -> Seq<Seq<char>>
    decreases s.len(),
{
    if s.len() == 0 {
        seq![]
    } else {
        let p = s.drop_last();
        let c = s.last();
        let w = words(p);
        if is_ws(c) {
            w
        } else if p.len() == 0 || is_ws(p.last()) {
            w.push(seq![c])
        } else {
            w.update(w.len() - 1, w.last().push(c))
        }
    }
}

/// A decoded request line.
pub ghost enum Request {
    Get(Seq<char>),
    Put(Seq<char>, Seq<char>),
    Invalid,
}

pub open spec fn get_keyword() -> Seq<char> {
    seq!['G', 'E', 'T']
}

pub open spec fn put_keyword() -> Seq<char> {
    seq!['P', 'U', 'T']
}

/// What a line (without its terminator) decodes to.
pub open spec fn decode_line(b: Seq<u8>) -> Request {
    if !valid_utf8(b) {
        Request::Invalid
    } else {
        let w = words(decode_utf8(b));
        if w.len() == 2 && w[0] == get_keyword() {
            Request::Get(w[1])
        } else if w.len() == 3 && w[0] == put_keyword() {
            Request::Put(w[1], w[2])
        } else {
            Request::Invalid
        }
    }
}

/// A request received from a client.
pub enum Message {
    /// A get message, including the key to look up.
    Get(String),
    /// A put message, including the key and value.
    Put(String, String),
    /// Unable to decode the message.
    Error,
}

impl View for Message {
    type V = Request;

    open spec fn view(&self) -> Request {
        match self {
            Message::Get(k) => Request::Get(k@),
            Message::Put(k, v) => Request::Put(k@, v@),
            Message::Error => Request::Invalid,
        }
    }
}

/// Whether `c` separates words.
pub fn is_whitespace(c: char) -> (r: bool)
    ensures
        r == is_ws(c),
{
    let u = c as u32;
    (0x09 <= u && u <= 0x0d) || u == 0x20 || u == 0x85 || u == 0xa0 || u == 0x1680 || (0x2000 <= u
        && u <= 0x200a) || u == 0x2028 || u == 0x2029 || u == 0x202f || u == 0x205f || u == 0x3000
}

pub open spec fn views_of(v: Seq<Vec<char>>) -> Seq<Seq<char>> {
    v.map_values(|w: Vec<char>| w@)
}

/// Splits `s` into its words.
pub fn split_words(s: &Vec<char>) -> (r: Vec<Vec<char>>)
    ensures
        views_of(r@) == words(s@),
{
    let mut done: Vec<Vec<char>> = Vec::new();
    let mut cur: Vec<char> = Vec::new();
    let mut i: usize = 0;
    while i < s.len()
        invariant
            i <= s@.len(),
            cur@.len() > 0 <==> (i > 0 && !is_ws(s@[i - 1])),
            cur@.len() > 0 ==> views_of(done@).push(cur@) == words(s@.take(i as int)),
            cur@.len() == 0 ==> views_of(done@) == words(s@.take(i as int)),
        decreases s@.len() - i,
    {
        let c = s[i];
        let ghost p = s@.take(i as int);
        assert(s@.take(i + 1).drop_last() == p);
        assert(s@.take(i + 1).last() == c);
        if is_whitespace(c) {
            if cur.len() > 0 {
                let ghost before = done@;
                let w = cur;
                cur = Vec::new();
                done.push(w);
                assert(views_of(done@) =~= views_of(before).push(w@));
            }
        } else {
            let ghost prev = views_of(done@);
            let ghost old_cur = cur@;
            cur.push(c);
            assert(cur@.drop_last() =~= old_cur);
            if cur.len() == 1 {
                assert(cur@ =~= seq![c]);
                assert(views_of(done@).push(cur@) =~= prev.push(seq![c]));
            } else {
                assert(views_of(done@).push(cur@) =~= prev.push(cur@.drop_last()).update(
                    prev.len() as int,
                    cur@.drop_last().push(c),
                ));
            }
        }
        i = i + 1;
    }
    if cur.len() > 0 {
        let ghost before = done@;
        let ghost last = cur@;
        done.push(cur);
        assert(views_of(done@) =~= views_of(before).push(last));
    }
    assert(s@.take(s@.len() as int) == s@);
    done
}

/// Whether `w` is the three-character word `a b c`.
fn is_word(w: &Vec<char>, a: char, b: char, c: char) -> (r: bool)
    ensures
        r == (w@ == seq![a, b, c]),
{
    if w.len() != 3 {
        return false;
    }
    let r = w[0] == a && w[1] == b && w[2] == c;
    if r {
        assert(w@ =~= seq![a, b, c]);
    }
    r
}

impl Message {
    /// Decodes one line, without its terminator, into a request.
    pub fn from_bytes(bytes: &[u8]) -> (m: Message)
        ensures
            m@ == decode_line(bytes@),
    {
        let chars = match utf8_chars(bytes) {
            Some(c) => c,
            None => {
                return Message::Error;
            },
        };
        let w = split_words(&chars);
        let len = w.len();
        assert(views_of(w@).len() == len);
        assert(forall|i: int| 0 <= i < len ==> views_of(w@)[i] == w@[i]@);
        if len == 2 && is_word(&w[0], 'G', 'E', 'T') {
            Message::Get(string_of(w[1].as_slice()))
        } else if len == 3 && is_word(&w[0], 'P', 'U', 'T') {
            Message::Put(string_of(w[1].as_slice()), string_of(w[2].as_slice()))
        } else {
            Message::Error
        }
    }
}

/// The length of the prefix of `b` that ends with its last terminator.
pub open spec fn consumed(b: Seq<u8>) -> nat
    decreases b.len(),
{
    if b.len() == 0 {
        0
    } else if b.last() == NEWLINE {
        b.len()
    } else {
        consumed(b.drop_last())
    }
}

/// The complete lines of `b`, without their terminators, in order.
pub open spec fn lines(b: Seq<u8>) -> Seq<Seq<u8>>
    decreases b.len(),
{
    if b.len() == 0 {
        seq![]
    } else {
        let p = b.drop_last();
        if b.last() == NEWLINE {
            lines(p).push(p.subrange(consumed(p) as int, p.len() as int))
        } else {
            lines(p)
        }
    }
}

/// The bytes of `b` after its last terminator: a line still awaiting its end.
pub open spec fn pending(b: Seq<u8>) -> Seq<u8> {
    b.subrange(consumed(b) as int, b.len() as int)
}

pub open spec fn decode_all(ls: Seq<Seq<u8>>) -> Seq<Request> {
    ls.map_values(|l: Seq<u8>| decode_line(l))
}

pub open spec fn requests_of(ms: Seq<Message>) -> Seq<Request> {
    ms.map_values(|m: Message| m@)
}

pub proof fn lemma_consumed_bound(b: Seq<u8>)
    ensures
        consumed(b) <= b.len(),
        consumed(b) == 0 || b[consumed(b) - 1] == NEWLINE,
        forall|i: int| consumed(b) <= i < b.len() ==> b[i] != NEWLINE,
    decreases b.len(),
{
    if b.len() > 0 && b.last() != NEWLINE {
        let p = b.drop_last();
        lemma_consumed_bound(p);
        assert forall|i: int| consumed(b) <= i < b.len() implies b[i] != NEWLINE by {
            if i < p.len() {
                assert(b[i] == p[i]);
            }
        }
    }
}

/// Removes every complete line from the front of `buf` and decodes each one;
/// the bytes after the last terminator stay for a later call.
pub fn drain_messages(buf: &mut Vec<u8>) -> (r: Vec<Message>)
    ensures
        requests_of(r@) == decode_all(lines(old(buf)@)),
        final(buf)@ == pending(old(buf)@),
{
    let ghost b = buf@;
    let mut out: Vec<Message> = Vec::new();
    let mut lo: usize = 0;
    let mut hi: usize = 0;
    while hi < buf.len()
        invariant
            buf@ == b,
            hi <= b.len(),
            lo == consumed(b.take(hi as int)),
            requests_of(out@) == decode_all(lines(b.take(hi as int))),
        decreases b.len() - hi,
    {
        let ghost p = b.take(hi as int);
        assert(b.take(hi + 1).drop_last() == p);
        proof {
            lemma_consumed_bound(p);
        }
        if buf[hi] == NEWLINE {
            let m = Message::from_bytes(&buf[lo..hi]);
            let ghost before = out@;
            out.push(m);
            assert(p.subrange(lo as int, hi as int) == b.subrange(lo as int, hi as int));
            assert(requests_of(out@) =~= requests_of(before).push(m@));
            assert(decode_all(lines(p).push(p.subrange(lo as int, hi as int))) =~= decode_all(
                lines(p),
            ).push(decode_line(p.subrange(lo as int, hi as int))));
            lo = hi + 1;
        }
        hi = hi + 1;
    }
    assert(b.take(b.len() as int) == b);
    proof {
        lemma_consumed_bound(b);
    }
    let mut rest: Vec<u8> = Vec::new();
    let mut j: usize = lo;
    while j < buf.len()
        invariant
            buf@ == b,
            lo <= j <= b.len(),
            rest@ == b.subrange(lo as int, j as int),
        decreases b.len() - j,
    {
        rest.push(buf[j]);
        assert(rest@ =~= b.subrange(lo as int, j + 1));
        j = j + 1;
    }
    *buf = rest;
    out
}

/// Queues a response line: the text followed by the terminator.
pub fn encode_response(buf: &mut Vec<u8>, text: &str)
    ensures
        final(buf)@ == old(buf)@ + text.spec_bytes().push(NEWLINE),
{
    let bytes = text.as_bytes();
    let mut i: usize = 0;
    let ghost start = buf@;
    while i < bytes.len()
        invariant
            bytes@ == text.spec_bytes(),
            i <= bytes@.len(),
            buf@ == start + bytes@.take(i as int),
        decreases bytes@.len() - i,
    {
        buf.push(bytes[i]);
        assert(bytes@.take(i + 1) == bytes@.take(i as int).push(bytes@[i as int]));
        i = i + 1;
    }
    buf.push(NEWLINE);
    assert(bytes@.take(bytes@.len() as int) == bytes@);
    assert(buf@ =~= start + text.spec_bytes().push(NEWLINE));
}

proof fn lemma_no_newline_lines(b: Seq<u8>)
    requires
        forall|i: int| 0 <= i < b.len() ==> b[i] != NEWLINE,
    ensures
        lines(b) == Seq::<Seq<u8>>::empty(),
        consumed(b) == 0,
    decreases b.len(),
{
    if b.len() > 0 {
        let p = b.drop_last();
        assert(b.last() == b[b.len() - 1]);
        lemma_no_newline_lines(p);
    }
}

proof fn lemma_push_byte(b: Seq<u8>, c: u8)
    ensures
        c != NEWLINE ==> lines(b.push(c)) == lines(b) && pending(b.push(c)) == pending(b).push(c),
        c == NEWLINE ==> lines(b.push(c)) == lines(b).push(pending(b)) && pending(b.push(c))
            == Seq::<u8>::empty(),
{
    let q = b.push(c);
    assert(q.drop_last() == b);
    lemma_consumed_bound(b);
    if c != NEWLINE {
        assert(pending(q) =~= pending(b).push(c));
    } else {
        assert(pending(q) =~= Seq::<u8>::empty());
    }
}

/// Draining is idempotent: what is left after the complete lines are taken
/// holds no complete line, so taking lines again yields none and leaves it as it is.
pub proof fn lemma_drain_idempotent(b: Seq<u8>)
    ensures
        lines(pending(b)) == Seq::<Seq<u8>>::empty(),
        pending(pending(b)) == pending(b),
{
    lemma_consumed_bound(b);
    let r = pending(b);
    assert forall|i: int| 0 <= i < r.len() implies r[i] != NEWLINE by {
        assert(r[i] == b[consumed(b) + i]);
    }
    lemma_no_newline_lines(r);
    assert(pending(r) =~= r);
}

/// Delivering a stream in two reads decodes as delivering it in one: the lines
/// of `x + y` are the lines of `x` followed by those of what `x` left pending
/// followed by `y`, and the same bytes are left pending either way.
pub proof fn lemma_split_delivery(x: Seq<u8>, y: Seq<u8>)
    ensures
        lines(x + y) == lines(x) + lines(pending(x) + y),
        pending(x + y) == pending(pending(x) + y),
    decreases y.len(),
{
    let px = pending(x);
    if y.len() == 0 {
        assert(x + y == x);
        assert(px + y == px);
        lemma_drain_idempotent(x);
        assert(lines(x) + Seq::<Seq<u8>>::empty() == lines(x));
    } else {
        let y2 = y.drop_last();
        let c = y.last();
        lemma_split_delivery(x, y2);
        assert(x + y == (x + y2).push(c));
        assert(px + y == (px + y2).push(c));
        lemma_push_byte(x + y2, c);
        lemma_push_byte(px + y2, c);
        if c == NEWLINE {
            assert(lines(x).push(Seq::<u8>::empty()) == lines(x).push(Seq::<u8>::empty()));
            assert((lines(x) + lines(px + y2)).push(pending(x + y2)) =~= lines(x) + lines(
                px + y2,
            ).push(pending(px + y2)));
        }
    }
}

proof fn lemma_scalar_no_newline(u: u32)
    requires
        u != 10,
    ensures
        forall|i: int|
            0 <= i < vstd::utf8::encode_scalar(u).len() ==> vstd::utf8::encode_scalar(u)[i]
                != NEWLINE,
{
    assert(u <= 0x7F ==> (u & 0x7F) as u8 != 10u8) by (bit_vector)
        requires
            u != 10,
    ;
    assert((0xC0u8 | ((u >> 6) & 0x1F) as u8) != 10u8) by (bit_vector);
    assert((0xE0u8 | ((u >> 12) & 0x0F) as u8) != 10u8) by (bit_vector);
    assert((0xF0u8 | ((u >> 18) & 0x7) as u8) != 10u8) by (bit_vector);
    assert((0x80u8 | (u & 0x3F) as u8) != 10u8) by (bit_vector);
    assert((0x80u8 | ((u >> 6) & 0x3F) as u8) != 10u8) by (bit_vector);
    assert((0x80u8 | ((u >> 12) & 0x3F) as u8) != 10u8) by (bit_vector);
}

proof fn lemma_encode_no_newline(t: Seq<char>)
    requires
        forall|i: int| 0 <= i < t.len() ==> t[i] != '\n',
    ensures
        forall|i: int|
            0 <= i < encode_utf8(t).len() ==> #[trigger] encode_utf8(t)[i] != NEWLINE,
    decreases t.len(),
{
    if t.len() > 0 {
        let rest = t.drop_first();
        lemma_encode_no_newline(rest);
        assert(t[0] != '\n');
        if (t[0] as u32) == 10 {
            vstd::utf8::char_u32_cast(t[0], 10);
        }
        lemma_scalar_no_newline(t[0] as u32);
        let h = vstd::utf8::encode_scalar(t[0] as u32);
        assert(encode_utf8(t) == h + encode_utf8(rest));
        assert forall|i: int| 0 <= i < encode_utf8(t).len() implies #[trigger] encode_utf8(t)[i]
            != NEWLINE by {
            if i >= h.len() {
                assert(encode_utf8(t)[i] == encode_utf8(rest)[i - h.len()]);
            }
        }
    }
}

/// A response encoded as one line decodes back to its text: the encoded bytes
/// form exactly one complete line, nothing stays pending, and that line is
/// valid UTF-8 holding the same characters.
pub proof fn lemma_response_round_trip(t: Seq<char>)
    requires
        forall|i: int| 0 <= i < t.len() ==> t[i] != '\n',
    ensures
        lines(encode_utf8(t).push(NEWLINE)) == seq![encode_utf8(t)],
        pending(encode_utf8(t).push(NEWLINE)) == Seq::<u8>::empty(),
        valid_utf8(encode_utf8(t)),
        decode_utf8(encode_utf8(t)) == t,
{
    let e = encode_utf8(t);
    lemma_encode_no_newline(t);
    lemma_no_newline_lines(e);
    lemma_push_byte(e, NEWLINE);
    assert(pending(e) =~= e);
    assert(Seq::<Seq<u8>>::empty().push(e) == seq![e]);
    vstd::utf8::encode_utf8_valid_utf8(t);
    vstd::utf8::encode_utf8_decode_utf8(t);
}

} // verus!
