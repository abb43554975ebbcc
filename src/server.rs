//! The key/value server's side of the reactor: its connection table, the map,
//! and what each readiness notification does to them.
use vstd::prelude::*;
use vstd::utf8::encode_utf8;

use crate::codec::{decode_all, lines, pending, requests_of, Request, NEWLINE};
use crate::connection::{ConnState, Connection, Events, ReadEnd, WriteAction, WriteResult};
use crate::slab::Slab;
use crate::store::{apply, respond, Store};

verus! {

/// The token of the listening socket; no connection has it.
pub const LISTENER: usize = 0;

/// Maximum number of concurrent clients.
pub const SLAB_SIZE: usize = 4096;

/// The map after a run of requests, and the response bytes they queue, one
/// terminated line per request, in order.
pub open spec fn serve(db: Map<Seq<char>, Seq<char>>, reqs: Seq<Request>) -> (
    Map<Seq<char>, Seq<char>>,
    Seq<u8>,
)
    decreases reqs.len(),
{
    if reqs.len() == 0 {
        (db, seq![])
    } else {
        let (d, out) = serve(db, reqs.drop_last());
        let r = reqs.last();
        (apply(d, r), out + encode_utf8(respond(d, r)).push(NEWLINE))
    }
}

/// Whether a readable notification keeps the connection: not on an error,
/// and not when the peer closed without sending anything more.
pub open spec fn keeps(data: Seq<u8>, end: ReadEnd) -> bool {
    !(end == ReadEnd::Failed || (end == ReadEnd::Closed && data.len() == 0))
}

/// A simple key/value database server, without its sockets.
///
/// It answers text lines of the forms `PUT <key> <value>` and `GET <key>`.
pub struct Server {
    connections: Slab<Connection>,
    db: Store,
}

impl Server {
    /// The connections by token.
    pub closed spec fn conns(&self) -> Map<usize, ConnState> {
        self.connections@.map_values(|c: Connection| c@)
    }

    /// The stored map.
    pub closed spec fn db(&self) -> Map<Seq<char>, Seq<char>> {
        self.db@
    }

    /// The table holds as many connections as it can.
    pub open spec fn full(&self) -> bool {
        self.conns().dom().len() == SLAB_SIZE
    }

    pub closed spec fn wf(&self) -> bool {
        &&& self.connections.wf()
        &&& self.connections.first() == LISTENER + 1
        &&& self.connections.capacity() == SLAB_SIZE
        &&& self.db.wf()
        &&& forall|t: usize| #[trigger] self.connections@.contains_key(t) ==> self.connections@[t]@.wf()
    }

    /// At most `SLAB_SIZE` connections are live, each with read, error and
    /// hangup interest, and with writable interest exactly while bytes wait
    /// to be sent.
    pub proof fn lemma_bounded(&self)
        requires
            self.wf(),
        ensures
            self.conns().dom().finite(),
            self.conns().dom().len() <= SLAB_SIZE,
            !self.conns().contains_key(LISTENER),
            forall|t: usize| #[trigger] self.conns().contains_key(t) ==> self.conns()[t].wf(),
    {
        self.connections.lemma_size();
        assert(self.conns().dom() =~= self.connections@.dom());
        if self.connections@.contains_key(LISTENER) {
            self.connections.lemma_first(LISTENER);
        }
    }

    /// A server with no connections and an empty map.
    pub fn new() -> (s: Server)
        ensures
            s.wf(),
            s.conns() == Map::<usize, ConnState>::empty(),
            s.db() == Map::<Seq<char>, Seq<char>>::empty(),
            !s.full(),
    {
        let s = Server { connections: Slab::new(LISTENER + 1, SLAB_SIZE), db: Store::new() };
        assert(s.conns() =~= Map::<usize, ConnState>::empty());
        assert(s.conns().dom() =~= Set::<usize>::empty());
        s
    }

    /// Adds a fresh connection with read-only interest and returns its token,
    /// or nothing when the table is full.
    pub fn accept(&mut self) -> (r: Option<usize>)
        requires
            old(self).wf(),
        ensures
            final(self).wf(),
            final(self).db() == old(self).db(),
            r.is_none() == old(self).full(),
            r.is_none() ==> final(self).conns() == old(self).conns(),
            r matches Some(t) ==> {
                &&& t != LISTENER
                &&& !old(self).conns().contains_key(t)
                &&& final(self).conns() == old(self).conns().insert(
                    t,
                    ConnState { input: seq![], output: seq![], events: Events::read_only_spec() },
                )
            },
    {
        proof {
            old(self).connections.lemma_size();
            assert(old(self).conns().dom() =~= old(self).connections@.dom());
        }
        let c = Connection::new();
        let ghost cs = c@;
        let r = self.connections.insert(c);
        assert(cs.input =~= seq![]);
        assert(cs.output =~= seq![]);
        assert(cs == ConnState { input: seq![], output: seq![], events: Events::read_only_spec() });
        assert(self.conns() =~= (if r is Some {
            old(self).conns().insert(r->0, cs)
        } else {
            old(self).conns()
        }));
        r
    }

    /// Drops the connection under `token`.
    pub fn remove(&mut self, token: usize)
        requires
            old(self).wf(),
        ensures
            final(self).wf(),
            final(self).db() == old(self).db(),
            final(self).conns() == old(self).conns().remove(token),
    {
        let _ = self.connections.take(token);
        assert(self.conns() =~= old(self).conns().remove(token));
    }

    /// The interest to re-arm the connection under `token` with.
    pub fn events(&self, token: usize) -> (r: Option<Events>)
        requires
            self.wf(),
        ensures
            r.is_some() == self.conns().contains_key(token),
            r matches Some(e) ==> e == self.conns()[token].events,
    {
        match self.connections.get(token) {
            Some(c) => Some(c.events()),
            None => None,
        }
    }

    /// The bytes waiting to be sent on the connection under `token`.
    pub fn output(&self, token: usize) -> (r: Option<&[u8]>)
        requires
            self.wf(),
        ensures
            r.is_some() == self.conns().contains_key(token),
            r matches Some(b) ==> b@ == self.conns()[token].output,
    {
        match self.connections.get(token) {
            Some(c) => Some(c.output()),
            None => None,
        }
    }

    /// Handles bytes drained from a readable connection: every complete line
    /// is decoded and applied to the map in order, and one response line per
    /// request is queued. An error, or a close with no new bytes, removes the
    /// connection instead. Returns whether the connection is kept.
    pub fn readable(&mut self, token: usize, data: &[u8], end: ReadEnd) -> (kept: bool)
        requires
            old(self).wf(),
            old(self).conns().contains_key(token),
        ensures
            final(self).wf(),
            kept == keeps(data@, end),
            !kept ==> final(self).conns() == old(self).conns().remove(token) && final(self).db()
                == old(self).db(),
            kept ==> {
                let c = old(self).conns()[token];
                let (db, out) = serve(old(self).db(), decode_all(lines(c.input + data@)));
                &&& final(self).db() == db
                &&& final(self).conns() == old(self).conns().insert(
                    token,
                    ConnState {
                        input: pending(c.input + data@),
                        output: c.output + out,
                        events: Events {
                            readable: true,
                            writable: (c.output + out).len() > 0,
                            error: true,
                            hup: true,
                        },
                    },
                )
            },
    {
        if end == ReadEnd::Failed || (end == ReadEnd::Closed && data.len() == 0) {
            self.remove(token);
            return false;
        }
        let mut c = self.connections.take(token).unwrap();
        let ghost c0 = c@;
        let ghost db0 = self.db@;
        let ms = c.receive(data);
        let ghost reqs = requests_of(ms@);
        let mut i: usize = 0;
        while i < ms.len()
            invariant
                self.connections.wf(),
                self.connections.first() == LISTENER + 1,
                self.connections.capacity() == SLAB_SIZE,
                self.connections.vacated(token),
                self.connections@ == old(self).connections@.remove(token),
                self.db.wf(),
                c@.wf(),
                i <= ms@.len(),
                reqs == requests_of(ms@),
                c@.input == pending(c0.input + data@),
                self.db@ == serve(db0, reqs.take(i as int)).0,
                c@.output == c0.output + serve(db0, reqs.take(i as int)).1,
            decreases ms@.len() - i,
        {
            let ghost d = self.db@;
            let resp = self.db.apply(&ms[i]);
            c.send(resp.as_str());
            assert(reqs.take(i + 1).drop_last() == reqs.take(i as int));
            assert(reqs[i as int] == ms@[i as int]@);
            assert(c@.output =~= c0.output + serve(db0, reqs.take(i + 1)).1);
            i = i + 1;
        }
        assert(reqs.take(ms@.len() as int) == reqs);
        let ghost cf = c@;
        self.connections.restore(token, c);
        assert(self.conns() =~= old(self).conns().insert(token, cf));
        true
    }

    /// Accounts for one write attempt on the connection under `token`; a
    /// failed attempt, or one that wrote nothing, removes the connection.
    pub fn writable(&mut self, token: usize, res: WriteResult) -> (a: WriteAction)
        requires
            old(self).wf(),
            old(self).conns().contains_key(token),
            res matches WriteResult::Wrote(n) ==> n <= old(self).conns()[token].output.len(),
        ensures
            final(self).wf(),
            final(self).db() == old(self).db(),
            ({
                let c = old(self).conns()[token];
                match res {
                    WriteResult::Wrote(n) => if n == 0 {
                        a == WriteAction::Close && final(self).conns() == old(self).conns().remove(
                            token,
                        )
                    } else {
                        let rest = c.output.subrange(n as int, c.output.len() as int);
                        &&& a == (if n == c.output.len() {
                            WriteAction::Stop
                        } else {
                            WriteAction::Again
                        })
                        &&& final(self).conns() == old(self).conns().insert(
                            token,
                            ConnState {
                                input: c.input,
                                output: rest,
                                events: Events {
                                    readable: true,
                                    writable: rest.len() > 0,
                                    error: true,
                                    hup: true,
                                },
                            },
                        )
                    },
                    WriteResult::WouldBlock => a == WriteAction::Stop && final(self).conns()
                        == old(self).conns(),
                    WriteResult::Failed => a == WriteAction::Close && final(self).conns()
                        == old(self).conns().remove(token),
                }
            }),
    {
        let mut c = self.connections.take(token).unwrap();
        let ghost c0 = c@;
        let a = c.after_write(res);
        if a == WriteAction::Close {
            assert(self.conns() =~= old(self).conns().remove(token));
            return a;
        }
        let ghost cf = c@;
        self.connections.restore(token, c);
        assert(self.conns() =~= old(self).conns().insert(token, cf));
        if res == WriteResult::WouldBlock {
            assert(cf == c0);
            assert(self.conns() =~= old(self).conns());
        }
        a
    }
}

/// Served in turn, a put and then a get of the same key answer `OK` and then
/// the value put, on any map.
pub proof fn lemma_serve_put_then_get(db: Map<Seq<char>, Seq<char>>, k: Seq<char>, v: Seq<char>)
    ensures
        serve(db, seq![Request::Put(k, v), Request::Get(k)]).1 == encode_utf8(
            crate::store::ok_text(),
        ).push(NEWLINE) + encode_utf8(v).push(NEWLINE),
        serve(db, seq![Request::Put(k, v), Request::Get(k)]).0 == db.insert(k, v),
{
    reveal_with_fuel(serve, 3);
    let rs = seq![Request::Put(k, v), Request::Get(k)];
    let one = seq![Request::Put(k, v)];
    assert(rs.drop_last() == one);
    assert(one.drop_last() == Seq::<Request>::empty());
    assert(serve(db, Seq::<Request>::empty()) == (db, Seq::<u8>::empty()));
    assert(serve(db, one) == (db.insert(k, v), Seq::<u8>::empty() + encode_utf8(
        crate::store::ok_text(),
    ).push(NEWLINE)));
    assert(Seq::<u8>::empty() + encode_utf8(crate::store::ok_text()).push(NEWLINE) == encode_utf8(
        crate::store::ok_text(),
    ).push(NEWLINE));
}

/// A line that is not a valid request is answered by exactly one `ERR` line
/// and leaves the map as it was.
pub proof fn lemma_serve_invalid(db: Map<Seq<char>, Seq<char>>, line: Seq<u8>)
    requires
        crate::codec::decode_line(line) == Request::Invalid,
    ensures
        serve(db, seq![crate::codec::decode_line(line)]) == (
            db,
            encode_utf8(crate::store::err_text()).push(NEWLINE),
        ),
{
    reveal_with_fuel(serve, 2);
    let rs = seq![crate::codec::decode_line(line)];
    assert(rs.drop_last() == Seq::<Request>::empty());
    assert(serve(db, Seq::<Request>::empty()) == (db, Seq::<u8>::empty()));
    assert(Seq::<u8>::empty() + encode_utf8(crate::store::err_text()).push(NEWLINE) == encode_utf8(
        crate::store::err_text(),
    ).push(NEWLINE));
}

proof fn lemma_serve_concat(db: Map<Seq<char>, Seq<char>>, a: Seq<Request>, b: Seq<Request>)
    ensures
        serve(db, a + b).0 == serve(serve(db, a).0, b).0,
        serve(db, a + b).1 == serve(db, a).1 + serve(serve(db, a).0, b).1,
    decreases b.len(),
{
    let mid = serve(db, a);
    if b.len() == 0 {
        assert(a + b =~= a);
        assert(mid.1 + Seq::<u8>::empty() =~= mid.1);
    } else {
        let b2 = b.drop_last();
        lemma_serve_concat(db, a, b2);
        assert((a + b).drop_last() =~= a + b2);
        assert((a + b).last() == b.last());
        let (d, out) = serve(mid.0, b2);
        let line = encode_utf8(respond(d, b.last())).push(NEWLINE);
        assert(mid.1 + out + line =~= mid.1 + (out + line));
    }
}

/// Bytes that arrive in two reads are served as if they had arrived in one:
/// the map ends the same, the responses queued by the two reads together are
/// those of the single read, and the same bytes stay pending.
pub proof fn lemma_split_read(
    db: Map<Seq<char>, Seq<char>>,
    input: Seq<u8>,
    x: Seq<u8>,
    y: Seq<u8>,
)
    ensures
        ({
            let first = serve(db, decode_all(lines(input + x)));
            let second = serve(first.0, decode_all(lines(pending(input + x) + y)));
            let whole = serve(db, decode_all(lines(input + x + y)));
            &&& second.0 == whole.0
            &&& first.1 + second.1 == whole.1
            &&& pending(pending(input + x) + y) == pending(input + x + y)
        }),
{
    let ix = input + x;
    crate::codec::lemma_split_delivery(ix, y);
    let l1 = lines(ix);
    let l2 = lines(pending(ix) + y);
    assert(decode_all(l1 + l2) =~= decode_all(l1) + decode_all(l2));
    lemma_serve_concat(db, decode_all(l1), decode_all(l2));
}

/// `n` `ERR` response lines.
pub open spec fn err_lines(n: nat) -> Seq<u8>
    decreases n,
{
    if n == 0 {
        seq![]
    } else {
        err_lines((n - 1) as nat) + encode_utf8(crate::store::err_text()).push(NEWLINE)
    }
}

/// A run of lines none of which is a valid request is answered by exactly
/// one `ERR` line each, and leaves the map as it was.
pub proof fn lemma_serve_all_invalid(db: Map<Seq<char>, Seq<char>>, reqs: Seq<Request>)
    requires
        forall|i: int| 0 <= i < reqs.len() ==> reqs[i] == Request::Invalid,
    ensures
        serve(db, reqs) == (db, err_lines(reqs.len())),
    decreases reqs.len(),
{
    if reqs.len() > 0 {
        let p = reqs.drop_last();
        assert forall|i: int| 0 <= i < p.len() implies p[i] == Request::Invalid by {
            assert(p[i] == reqs[i]);
        }
        lemma_serve_all_invalid(db, p);
        assert(reqs.last() == reqs[reqs.len() - 1]);
    }
}

} // verus!
