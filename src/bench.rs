//! The benchmark client's side of the reactor: it keeps a batch of put
//! requests in flight on each connection, notes when each one leaves, and
//! matches each acknowledgement to the oldest outstanding send.
use std::collections::VecDeque;

use vstd::prelude::*;

use histogram::Histogram;
use rand::rngs::StdRng;

use crate::codec::NEWLINE;
use crate::outside::{
    build_histogram, entries_of, is_alphanumeric, latency_config, random_alphanumeric, record,
    seeded_rng,
};
use crate::slab::Slab;
use vstd::arithmetic::div_mod::lemma_fundamental_div_mod_converse;

verus! {

/// Hex digits in a key.
pub const KEY_DIGITS: usize = 16;

/// Bytes of a put line besides its value: `PUT `, the key, a space and the terminator.
pub const PUT_OVERHEAD: usize = 22;

/// The largest latency, in nanoseconds, that the histogram buckets.
pub const HIST_MAX_VALUE: u64 = 1_000_000_000;

/// Significant figures that the histogram keeps.
pub const HIST_PRECISION: u32 = 4;

/// The uppercase hex digit of `d < 16`.
pub open spec fn hex_digit(d: nat) -> u8 {
    if d < 10 {
        (48 + d) as u8
    } else {
        (55 + d) as u8
    }
}

/// The last `n` uppercase hex digits of `i`, most significant first.
pub open spec fn hex_digits(i: nat, n: nat) -> Seq<u8>
    decreases n,
{
    if n == 0 {
        seq![]
    } else {
        hex_digits(i / 16, (n - 1) as nat).push(hex_digit(i % 16))
    }
}

/// The put request that stores value `v` under the key numbered `i`.
pub open spec fn put_line(i: u64, v: Seq<u8>) -> Seq<u8> {
    seq![80u8, 85u8, 84u8, 32u8] + hex_digits(i as nat, KEY_DIGITS as nat) + seq![32u8] + v
        + seq![NEWLINE]
}

/// `line` is the put request for key number `i` with some alphanumeric value
/// of `val_size` bytes.
pub open spec fn is_put_of(line: Seq<u8>, i: u64, val_size: nat) -> bool {
    exists|v: Seq<u8>|
        v.len() == val_size && (forall|j: int| 0 <= j < v.len() ==> is_alphanumeric(#[trigger] v[j]))
            && line == #[trigger] put_line(i, v)
}

proof fn lemma_hex_len(i: nat, n: nat)
    ensures
        hex_digits(i, n).len() == n,
    decreases n,
{
    if n > 0 {
        lemma_hex_len(i / 16, (n - 1) as nat);
    }
}

fn push_hex(out: &mut Vec<u8>, i: u64, n: usize)
    ensures
        final(out)@ == old(out)@ + hex_digits(i as nat, n as nat),
    decreases n,
{
    if n > 0 {
        push_hex(out, i / 16, n - 1);
        let d = (i % 16) as u8;
        let c: u8 = if d < 10 {
            48 + d
        } else {
            55 + d
        };
        out.push(c);
        assert(out@ =~= old(out)@ + hex_digits(i as nat, n as nat));
    }
}

fn push_bytes(out: &mut Vec<u8>, b: &[u8])
    ensures
        final(out)@ == old(out)@ + b@,
{
    let mut i: usize = 0;
    while i < b.len()
        invariant
            i <= b@.len(),
            out@ == old(out)@ + b@.take(i as int),
        decreases b@.len() - i,
    {
        out.push(b[i]);
        assert(b@.take(i + 1) == b@.take(i as int).push(b@[i as int]));
        i = i + 1;
    }
    assert(b@.take(b@.len() as int) == b@);
}

/// Appends the put request for key number `i` with value `v`.
pub fn push_put(out: &mut Vec<u8>, i: u64, v: &[u8])
    ensures
        final(out)@ == old(out)@ + put_line(i, v@),
        put_line(i, v@).len() == PUT_OVERHEAD + v@.len(),
{
    out.push(80);
    out.push(85);
    out.push(84);
    out.push(32);
    push_hex(out, i, KEY_DIGITS);
    out.push(32);
    push_bytes(out, v);
    out.push(NEWLINE);
    proof {
        lemma_hex_len(i as nat, KEY_DIGITS as nat);
    }
    assert(out@ =~= old(out)@ + put_line(i, v@));
}

/// The latency recorded for a message sent at `send` and acknowledged at
/// `recv`, in nanoseconds; never negative.
pub open spec fn latency(send: u64, recv: u64) -> u64 {
    if recv >= send {
        (recv - send) as u64
    } else {
        0
    }
}

/// The latencies of messages sent at `times`, all acknowledged at `recv`, in order.
pub open spec fn latencies(times: Seq<u64>, recv: u64) -> Seq<u64> {
    times.map_values(|t: u64| latency(t, recv))
}

/// `e` after `n` saturating increments.
pub open spec fn saturating_add(e: u64, n: nat) -> u64 {
    if e + n <= u64::MAX {
        (e + n) as u64
    } else {
        u64::MAX
    }
}

/// The acknowledgement of one put request.
pub open spec fn ack() -> Seq<u8> {
    seq![79u8, 75u8, NEWLINE]
}

/// `b` is acknowledgements back to back, the last possibly cut short.
pub open spec fn acks_well_formed(b: Seq<u8>) -> bool {
    forall|i: int| 0 <= i < b.len() ==> #[trigger] b[i] == ack()[i % 3]
}

/// Whether `b` is acknowledgements back to back, the last possibly cut short.
pub fn acks_well_formed_exec(b: &Vec<u8>) -> (r: bool)
    ensures
        r == acks_well_formed(b@),
{
    let mut i: usize = 0;
    while i < b.len()
        invariant
            i <= b@.len(),
            forall|j: int| 0 <= j < i ==> #[trigger] b@[j] == ack()[j % 3],
        decreases b@.len() - i,
    {
        let e: u8 = if i % 3 == 0 {
            79
        } else if i % 3 == 1 {
            75
        } else {
            NEWLINE
        };
        if b[i] != e {
            assert(b@[i as int] != ack()[i as int % 3]);
            return false;
        }
        i = i + 1;
    }
    true
}

/// Why received bytes cannot be matched to sent messages.
#[derive(Clone, Copy, Debug, PartialEq, Eq, Structural)]
pub enum AckError {
    /// Bytes other than back-to-back `OK` acknowledgements.
    Malformed,
    /// More acknowledgements than messages sent.
    Unexpected,
}

/// The state of one benchmark connection.
pub ghost struct BenchState {
    /// Received bytes not yet matched.
    pub input: Seq<u8>,
    /// Bytes waiting to be sent.
    pub output: Seq<u8>,
    /// Bytes of the current message already sent.
    pub partial: nat,
    /// Send times of the messages not yet acknowledged, oldest first.
    pub times: Seq<u64>,
}

/// One benchmark connection, without its socket.
pub struct BenchConnection {
    read_buf: Vec<u8>,
    write_buf: Vec<u8>,
    partial: usize,
    send_times: VecDeque<u64>,
}

impl View for BenchConnection {
    type V = BenchState;

    closed spec fn view(&self) -> BenchState {
        BenchState {
            input: self.read_buf@,
            output: self.write_buf@,
            partial: self.partial as nat,
            times: self.send_times@,
        }
    }
}

/// The benchmark client, without its sockets.
pub struct Bench {
    connections: Slab<BenchConnection>,
    entries_written: u64,
    count: usize,
    val_size: usize,
    batch_size: usize,
    message_size: usize,
    target: usize,
    hist: Histogram,
    rng: StdRng,
    recorded: Ghost<Seq<u64>>,
}

impl Bench {
    pub closed spec fn conns(&self) -> Map<usize, BenchState> {
        self.connections@.map_values(|c: BenchConnection| c@)
    }

    /// Put requests synthesized so far; the next one gets this key number.
    pub closed spec fn entries_written(&self) -> nat {
        self.entries_written as nat
    }

    pub closed spec fn val_size(&self) -> nat {
        self.val_size as nat
    }

    pub closed spec fn batch_size(&self) -> nat {
        self.batch_size as nat
    }

    /// Bytes in one put request.
    pub closed spec fn message_size(&self) -> nat {
        self.message_size as nat
    }

    /// The count that ends the run, or 0 for none.
    pub closed spec fn count(&self) -> nat {
        self.count as nat
    }

    /// The latencies handed to the current histogram, in order.
    pub closed spec fn recorded(&self) -> Seq<u64> {
        self.recorded@
    }

    /// The histogram being filled.
    pub closed spec fn hist(&self) -> Histogram {
        self.hist
    }

    /// The entry count of the current histogram.
    pub closed spec fn hist_entries(&self) -> u64 {
        entries_of(self.hist)
    }

    /// The most connections the benchmark holds.
    pub closed spec fn capacity(&self) -> nat {
        self.connections.capacity()
    }

    /// The table holds as many connections as it can.
    pub open spec fn full(&self) -> bool {
        self.conns().dom().len() == self.capacity()
    }

    /// At most `capacity()` connections are live.
    pub proof fn lemma_bounded(&self)
        requires
            self.wf(),
        ensures
            self.conns().dom().finite(),
            self.conns().dom().len() <= self.capacity(),
    {
        self.connections.lemma_size();
        assert(self.conns().dom() =~= self.connections@.dom());
    }

    pub closed spec fn wf(&self) -> bool {
        &&& self.connections.wf()
        &&& self.message_size == PUT_OVERHEAD + self.val_size
        &&& self.target == self.message_size * self.batch_size
        &&& latency_config(self.hist)
        &&& forall|t: usize| #[trigger]
            self.connections@.contains_key(t) ==> self.connections@[t].partial < self.message_size
    }

    /// A benchmark for up to `concurrency` connections, writing values of
    /// `val_size` bytes, `batch_size` requests per connection at a time, and
    /// ending after `count` requests (never, for 0). Nothing when a batch
    /// would not fit in memory.
    pub fn new(concurrency: usize, val_size: usize, batch_size: usize, count: usize) -> (r: Option<
        Bench,
    >)
        ensures
            r.is_none() == (PUT_OVERHEAD + val_size > usize::MAX || (PUT_OVERHEAD + val_size)
                * batch_size > usize::MAX),
            r matches Some(b) ==> {
                &&& b.wf()
                &&& b.conns() == Map::<usize, BenchState>::empty()
                &&& b.entries_written() == 0
                &&& b.val_size() == val_size
                &&& b.batch_size() == batch_size
                &&& b.count() == count
                &&& b.message_size() == PUT_OVERHEAD + val_size
                &&& b.recorded() == Seq::<u64>::empty()
                &&& b.hist_entries() == 0
                &&& b.capacity() == concurrency
                &&& (concurrency > 0 ==> !b.full())
            },
    {
        let message_size = match PUT_OVERHEAD.checked_add(val_size) {
            Some(m) => m,
            None => {
                return None;
            },
        };
        let target = match message_size.checked_mul(batch_size) {
            Some(t) => t,
            None => {
                return None;
            },
        };
        let hist = build_histogram(HIST_MAX_VALUE, HIST_PRECISION, 0).unwrap();
        let b = Bench {
            connections: Slab::new(0, concurrency),
            entries_written: 0,
            count,
            val_size,
            batch_size,
            message_size,
            target,
            hist,
            rng: seeded_rng(0),
            recorded: Ghost(Seq::empty()),
        };
        assert(b.conns() =~= Map::<usize, BenchState>::empty());
        assert(b.conns().dom() =~= Set::<usize>::empty());
        Some(b)
    }

    /// Adds a fresh connection and returns its token, or nothing when the
    /// table is full.
    pub fn add_connection(&mut self) -> (r: Option<usize>)
        requires
            old(self).wf(),
        ensures
            final(self).wf(),
            final(self).capacity() == old(self).capacity(),
            r.is_none() == old(self).full(),
            r.is_none() ==> final(self).conns() == old(self).conns(),
            r matches Some(t) ==> !old(self).conns().contains_key(t) && final(self).conns()
                == old(self).conns().insert(
                t,
                BenchState { input: seq![], output: seq![], partial: 0, times: seq![] },
            ),
            final(self).entries_written() == old(self).entries_written(),
            final(self).recorded() == old(self).recorded(),
    {
        proof {
            old(self).connections.lemma_size();
            assert(old(self).conns().dom() =~= old(self).connections@.dom());
        }
        let c = BenchConnection {
            read_buf: Vec::new(),
            write_buf: Vec::new(),
            partial: 0,
            send_times: VecDeque::new(),
        };
        let ghost cs = c@;
        let r = self.connections.insert(c);
        assert(cs.input =~= seq![]);
        assert(cs.output =~= seq![]);
        assert(cs.times =~= seq![]);
        assert(self.conns() =~= (if r is Some {
            old(self).conns().insert(r->0, cs)
        } else {
            old(self).conns()
        }));
        r
    }

    /// Whether the run is over: a count was set and more requests than it
    /// have been synthesized.
    pub fn finished(&self) -> (r: bool)
        ensures
            r == (self.count() > 0 && self.entries_written() > self.count()),
    {
        self.count > 0 && self.entries_written > self.count as u64
    }

    /// The bytes waiting to be sent on the connection under `token`.
    pub fn output(&self, token: usize) -> (r: Option<&[u8]>)
        ensures
            r.is_some() == self.conns().contains_key(token),
            r matches Some(b) ==> b@ == self.conns()[token].output,
    {
        match self.connections.get(token) {
            Some(c) => Some(c.write_buf.as_slice()),
            None => None,
        }
    }

    /// Drops the connection under `token`.
    pub fn remove(&mut self, token: usize)
        requires
            old(self).wf(),
        ensures
            final(self).wf(),
            final(self).capacity() == old(self).capacity(),
            final(self).conns() == old(self).conns().remove(token),
            final(self).entries_written() == old(self).entries_written(),
            final(self).recorded() == old(self).recorded(),
    {
        let _ = self.connections.take(token);
        assert(self.conns() =~= old(self).conns().remove(token));
    }

    /// Tops up the write buffer of the connection under `token` with put
    /// requests, keyed by consecutive numbers from `entries_written`, each
    /// with a fresh random value, until it holds a batch's worth of bytes.
    /// Does nothing, and answers false, when the key numbers of a whole batch
    /// would not fit in 64 bits.
    pub fn fill(&mut self, token: usize) -> (ok: bool)
        requires
            old(self).wf(),
            old(self).conns().contains_key(token),
        ensures
            final(self).wf(),
            final(self).capacity() == old(self).capacity(),
            final(self).recorded() == old(self).recorded(),
            final(self).hist_entries() == old(self).hist_entries(),
            final(self).message_size() == old(self).message_size(),
            final(self).val_size() == old(self).val_size(),
            final(self).batch_size() == old(self).batch_size(),
            final(self).count() == old(self).count(),
            ok == (old(self).entries_written() + old(self).batch_size() <= u64::MAX),
            !ok ==> final(self).conns() == old(self).conns() && final(self).entries_written()
                == old(self).entries_written(),
            ok ==> {
                let st = old(self).conns()[token];
                let o = st.output;
                let out = final(self).conns()[token].output;
                let ew = old(self).entries_written();
                let k = final(self).entries_written() - ew;
                let ms = old(self).message_size();
                let target = ms * old(self).batch_size();
                &&& final(self).entries_written() >= ew
                &&& final(self).conns() == old(self).conns().insert(
                    token,
                    BenchState { input: st.input, output: out, partial: st.partial, times: st.times },
                )
                &&& out.len() == o.len() + k * ms
                &&& out.subrange(0, o.len() as int) == o
                &&& out.len() >= target
                &&& (k > 0 ==> o.len() + (k - 1) * ms < target)
                &&& forall|j: int|
                    0 <= j < k ==> is_put_of(
                        #[trigger] out.subrange(o.len() + j * ms, o.len() + (j + 1) * ms),
                        (ew + j) as u64,
                        old(self).val_size(),
                    )
            },
    {
        if self.entries_written > u64::MAX - (self.batch_size as u64) {
            return false;
        }
        let mut c = self.connections.take(token).unwrap();
        let ghost st = c@;
        let ghost o = c.write_buf@;
        let ghost ew0 = self.entries_written as nat;
        let ghost ms = self.message_size as int;
        let mut k: usize = 0;
        while c.write_buf.len() < self.target && k < self.batch_size
            invariant
                self.connections.wf(),
                self.connections.vacated(token),
                self.connections@ == old(self).connections@.remove(token),
                self.connections.capacity() == old(self).connections.capacity(),
                self.count == old(self).count,
                self.val_size == old(self).val_size,
                self.batch_size == old(self).batch_size,
                self.message_size == old(self).message_size,
                self.target == old(self).target,
                self.hist == old(self).hist,
                self.recorded == old(self).recorded,
                self.message_size == PUT_OVERHEAD + self.val_size,
                self.target == self.message_size * self.batch_size,
                ms == self.message_size,
                st.partial < self.message_size,
                ew0 + self.batch_size <= u64::MAX,
                k <= self.batch_size,
                self.entries_written == ew0 + k,
                c@.input == st.input,
                c@.partial == st.partial,
                c@.times == st.times,
                c@.output.len() == o.len() + k * ms,
                c@.output.subrange(0, o.len() as int) == o,
                k > 0 ==> o.len() + (k - 1) * ms < self.target,
                forall|j: int|
                    0 <= j < k ==> is_put_of(
                        #[trigger] c@.output.subrange(o.len() + j * ms, o.len() + (j + 1) * ms),
                        (ew0 + j) as u64,
                        self.val_size as nat,
                    ),
            decreases self.batch_size - k,
        {
            let v = random_alphanumeric(&mut self.rng, self.val_size);
            let ghost before = c.write_buf@;
            let ghost key = self.entries_written;
            push_put(&mut c.write_buf, self.entries_written, v.as_slice());
            proof {
                let a = o.len() + k * ms;
                assert((k + 1) * ms == k * ms + ms) by (nonlinear_arith);
                assert(c.write_buf@.subrange(a, a + ms) =~= put_line(key, v@));
                assert(is_put_of(put_line(key, v@), key, self.val_size as nat));
                assert(c.write_buf@.subrange(0, o.len() as int) =~= o);
                assert forall|j: int| 0 <= j < k + 1 implies is_put_of(
                    #[trigger] c.write_buf@.subrange(o.len() + j * ms, o.len() + (j + 1) * ms),
                    (ew0 + j) as u64,
                    self.val_size as nat,
                ) by {
                    if j < k {
                        assert((j + 1) * ms <= k * ms) by (nonlinear_arith)
                            requires
                                j + 1 <= k,
                                ms >= 0,
                        ;
                        assert(j * ms >= 0) by (nonlinear_arith)
                            requires
                                j >= 0,
                                ms >= 0,
                        ;
                        assert((j + 1) * ms == j * ms + ms) by (nonlinear_arith);
                        let lo = o.len() + j * ms;
                        let hi = o.len() + (j + 1) * ms;
                        assert(0 <= lo <= hi <= before.len());
                        assert(c.write_buf@ == before + put_line(key, v@));
                        assert(c.write_buf@.subrange(lo, hi) =~= before.subrange(lo, hi));
                    }
                }
            }
            self.entries_written = self.entries_written + 1;
            k = k + 1;
        }
        proof {
            if k == self.batch_size {
                assert(k * ms == ms * k) by (nonlinear_arith);
            }
        }
        let ghost cf = c@;
        self.connections.restore(token, c);
        assert(self.conns() =~= old(self).conns().insert(token, cf));
        assert(cf == BenchState { input: st.input, output: cf.output, partial: st.partial, times: st.times });
        true
    }

    /// Accounts for `n` bytes written to the connection under `token` at
    /// `send_time`: they leave the front of the write buffer, and every
    /// message whose last byte was among them is noted as sent at that time.
    pub fn sent(&mut self, token: usize, n: usize, send_time: u64)
        requires
            old(self).wf(),
            old(self).conns().contains_key(token),
            n <= old(self).conns()[token].output.len(),
        ensures
            final(self).wf(),
            final(self).capacity() == old(self).capacity(),
            final(self).entries_written() == old(self).entries_written(),
            final(self).recorded() == old(self).recorded(),
            final(self).hist_entries() == old(self).hist_entries(),
            final(self).message_size() == old(self).message_size(),
            ({
                let st = old(self).conns()[token];
                let ms = old(self).message_size() as int;
                let m = ((st.partial + n) / ms) as nat;
                final(self).conns() == old(self).conns().insert(
                    token,
                    BenchState {
                        input: st.input,
                        output: st.output.subrange(n as int, st.output.len() as int),
                        partial: ((st.partial + n) % ms) as nat,
                        times: st.times + Seq::new(m, |i: int| send_time),
                    },
                )
            }),
    {
        let mut c = self.connections.take(token).unwrap();
        let ghost st = c@;
        let ms = self.message_size;
        let ghost p0 = st.partial as int;
        let mut i: usize = 0;
        let mut done: usize = 0;
        while i < n
            invariant
                self.connections.wf(),
                self.connections.vacated(token),
                self.connections@ == old(self).connections@.remove(token),
                self.connections.capacity() == old(self).connections.capacity(),
                self.entries_written == old(self).entries_written,
                self.recorded == old(self).recorded,
                self.hist == old(self).hist,
                self.message_size == old(self).message_size,
                self.val_size == old(self).val_size,
                self.batch_size == old(self).batch_size,
                self.target == old(self).target,
                self.message_size == PUT_OVERHEAD + self.val_size,
                self.target == self.message_size * self.batch_size,
                ms == self.message_size,
                i <= n,
                done <= i,
                n <= st.output.len(),
                c@.input == st.input,
                c@.output == st.output,
                c.partial < ms,
                p0 + i == done * ms + c.partial,
                c@.times == st.times + Seq::new(done as nat, |j: int| send_time),
            decreases n - i,
        {
            let ghost before = c@.times;
            if c.partial + 1 == ms {
                c.partial = 0;
                c.send_times.push_back(send_time);
                assert(c@.times =~= st.times + Seq::new((done + 1) as nat, |j: int| send_time));
                assert((done + 1) * ms == done * ms + ms) by (nonlinear_arith);
                done = done + 1;
            } else {
                c.partial = c.partial + 1;
            }
            i = i + 1;
        }
        proof {
            lemma_fundamental_div_mod_converse(p0 + n, ms as int, done as int, c.partial as int);
        }
        let ghost b = c.write_buf@;
        let mut rest: Vec<u8> = Vec::new();
        let mut j: usize = n;
        while j < c.write_buf.len()
            invariant
                c.write_buf@ == b,
                n <= j <= b.len(),
                rest@ == b.subrange(n as int, j as int),
            decreases b.len() - j,
        {
            rest.push(c.write_buf[j]);
            assert(rest@ =~= b.subrange(n as int, j + 1));
            j = j + 1;
        }
        c.write_buf = rest;
        let ghost cf = c@;
        self.connections.restore(token, c);
        assert(self.conns() =~= old(self).conns().insert(token, cf));
    }

    /// Matches bytes received on the connection under `token` at `recv_time`
    /// against the messages sent on it. Every complete `OK` acknowledgement
    /// retires the oldest outstanding send, whose latency goes into the
    /// histogram; a partial one stays buffered. Anything else, or more
    /// acknowledgements than sends, is fatal: the connection is removed.
    pub fn acknowledged(&mut self, token: usize, data: &[u8], recv_time: u64) -> (r: Result<
        usize,
        AckError,
    >)
        requires
            old(self).wf(),
            old(self).conns().contains_key(token),
        ensures
            final(self).wf(),
            final(self).capacity() == old(self).capacity(),
            final(self).entries_written() == old(self).entries_written(),
            final(self).message_size() == old(self).message_size(),
            ({
                let st = old(self).conns()[token];
                let b = st.input + data@;
                let n = b.len() / 3;
                &&& (r is Ok <==> acks_well_formed(b) && n <= st.times.len())
                &&& (!acks_well_formed(b) ==> r == Err::<usize, AckError>(AckError::Malformed))
                &&& (acks_well_formed(b) && n > st.times.len() ==> r == Err::<usize, AckError>(
                    AckError::Unexpected,
                ))
                &&& (r is Err ==> final(self).conns() == old(self).conns().remove(token)
                    && final(self).recorded() == old(self).recorded() && final(self).hist_entries()
                    == old(self).hist_entries())
                &&& (r matches Ok(m) ==> {
                    &&& m == n
                    &&& final(self).conns() == old(self).conns().insert(
                        token,
                        BenchState {
                            input: b.subrange(3 * n as int, b.len() as int),
                            output: st.output,
                            partial: st.partial,
                            times: st.times.subrange(n as int, st.times.len() as int),
                        },
                    )
                    &&& final(self).recorded() == old(self).recorded() + latencies(
                        st.times.take(n as int),
                        recv_time,
                    )
                    &&& final(self).hist_entries() == saturating_add(old(self).hist_entries(), n)
                })
            }),
    {
        let mut c = self.connections.take(token).unwrap();
        let ghost st = c@;
        push_bytes(&mut c.read_buf, data);
        let ghost b = c.read_buf@;
        let len = c.read_buf.len();
        if !acks_well_formed_exec(&c.read_buf) {
            assert(self.conns() =~= old(self).conns().remove(token));
            return Err(AckError::Malformed);
        }
        let n = len / 3;
        if n > c.send_times.len() {
            assert(self.conns() =~= old(self).conns().remove(token));
            return Err(AckError::Unexpected);
        }
        let mut k: usize = 0;
        while k < n
            invariant
                self.connections.wf(),
                self.connections.vacated(token),
                self.connections@ == old(self).connections@.remove(token),
                self.connections.capacity() == old(self).connections.capacity(),
                self.entries_written == old(self).entries_written,
                self.message_size == old(self).message_size,
                self.val_size == old(self).val_size,
                self.batch_size == old(self).batch_size,
                self.target == old(self).target,
                self.message_size == PUT_OVERHEAD + self.val_size,
                self.target == self.message_size * self.batch_size,
                k <= n,
                n <= st.times.len(),
                c@.input == b,
                c@.output == st.output,
                c@.partial == st.partial,
                st.partial < self.message_size,
                c@.times == st.times.subrange(k as int, st.times.len() as int),
                self.recorded@ == old(self).recorded@ + latencies(st.times.take(k as int), recv_time),
                entries_of(self.hist) == saturating_add(entries_of(old(self).hist), k as nat),
                latency_config(self.hist),
            decreases n - k,
        {
            let t = c.send_times.pop_front().unwrap();
            let lat: u64 = if recv_time >= t {
                recv_time - t
            } else {
                0
            };
            record(&mut self.hist, lat);
            self.recorded = Ghost(self.recorded@.push(lat));
            assert(st.times.take(k + 1) =~= st.times.take(k as int).push(t));
            assert(latencies(st.times.take(k + 1), recv_time) =~= latencies(
                st.times.take(k as int),
                recv_time,
            ).push(lat));
            assert(c@.times =~= st.times.subrange(k + 1, st.times.len() as int));
            k = k + 1;
        }
        let mut rest: Vec<u8> = Vec::new();
        let mut j: usize = 3 * n;
        while j < c.read_buf.len()
            invariant
                c.read_buf@ == b,
                3 * n <= j <= b.len(),
                rest@ == b.subrange(3 * n, j as int),
            decreases b.len() - j,
        {
            rest.push(c.read_buf[j]);
            assert(rest@ =~= b.subrange(3 * n, j + 1));
            j = j + 1;
        }
        c.read_buf = rest;
        let ghost cf = c@;
        self.connections.restore(token, c);
        assert(self.conns() =~= old(self).conns().insert(token, cf));
        Ok(n)
    }

    /// Hands over the current histogram and starts an empty one.
    pub fn take_histogram(&mut self) -> (h: Histogram)
        requires
            old(self).wf(),
        ensures
            final(self).wf(),
            final(self).capacity() == old(self).capacity(),
            h == old(self).hist(),
            entries_of(h) == old(self).hist_entries(),
            final(self).hist_entries() == 0,
            final(self).recorded() == Seq::<u64>::empty(),
            final(self).conns() == old(self).conns(),
            final(self).entries_written() == old(self).entries_written(),
    {
        let mut h = build_histogram(HIST_MAX_VALUE, HIST_PRECISION, 0).unwrap();
        std::mem::swap(&mut h, &mut self.hist);
        self.recorded = Ghost(Seq::empty());
        h
    }
}

/// `n` acknowledgements back to back.
pub open spec fn acks(n: nat) -> Seq<u8> {
    Seq::new(3 * n, |i: int| ack()[i % 3])
}

/// `n` acknowledgements for `n` outstanding sends are well formed, match every
/// send, and leave nothing buffered; the latencies recorded for them are one
/// per send, oldest first, each the receive time less the matching send time
/// (0 if the clock ran back).
pub proof fn lemma_all_acknowledged(times: Seq<u64>, recv: u64)
    ensures
        acks_well_formed(acks(times.len())),
        acks(times.len()).len() / 3 == times.len(),
        acks(times.len()).subrange(3 * times.len() as int, acks(times.len()).len() as int)
            == Seq::<u8>::empty(),
        times.subrange(times.len() as int, times.len() as int) == Seq::<u64>::empty(),
        latencies(times.take(times.len() as int), recv).len() == times.len(),
        forall|i: int|
            0 <= i < times.len() ==> #[trigger] latencies(times.take(times.len() as int), recv)[i]
                == latency(times[i], recv),
{
    let n = times.len();
    assert(acks(n).len() / 3 == n) by (nonlinear_arith)
        requires
            acks(n).len() == 3 * n,
    ;
    assert(times.take(n as int) == times);
    assert(acks(n).subrange(3 * n as int, acks(n).len() as int) =~= Seq::<u8>::empty());
    assert(times.subrange(n as int, n as int) =~= Seq::<u64>::empty());
}

/// Counting sent messages by the bytes of the current message already sent
/// agrees with counting whole-message boundaries over all bytes ever sent:
/// `(total + n) / ms - total / ms` messages end among the next `n` bytes.
pub proof fn lemma_message_boundaries(total: int, n: int, ms: int)
    requires
        total >= 0,
        n >= 0,
        ms > 0,
    ensures
        (total + n) / ms - total / ms == (total % ms + n) / ms,
        (total + n) % ms == (total % ms + n) % ms,
{
    let m = ms;
    let q = total / m;
    let r = total % m;
    vstd::arithmetic::div_mod::lemma_fundamental_div_mod(total, m);
    let q2 = (r + n) / m;
    let r2 = (r + n) % m;
    vstd::arithmetic::div_mod::lemma_fundamental_div_mod(r + n, m);
    assert(total + n == (q + q2) * m + r2) by (nonlinear_arith)
        requires
            total == m * q + r,
            r + n == m * q2 + r2,
    ;
    lemma_fundamental_div_mod_converse(total + n, m, q + q2, r2);
}

} // verus!
