//! Per-connection read and write buffers, partial-I/O bookkeeping and the
//! readiness interest that the reactor re-arms after every notification.
use vstd::prelude::*;
use vstd::string::StringSliceAdditionalSpecFns;

use crate::codec::{decode_all, drain_messages, encode_response, lines, pending, requests_of, Message, NEWLINE};

verus! {

/// A set of readiness conditions: what the reactor wants to hear about for a
/// connection, or what a notification reports.
#[derive(Clone, Copy, Debug, PartialEq, Eq, Structural)]
pub struct Events {
    pub readable: bool,
    pub writable: bool,
    pub error: bool,
    pub hup: bool,
}

/// What to do with one readiness notification of a connection.
#[derive(Clone, Copy, Debug, PartialEq, Eq, Structural)]
pub enum Step {
    /// Error or hangup: the connection is removed, nothing else is done.
    Remove,
    /// Read first if `read`, then write if `write`, then re-arm.
    Handle { read: bool, write: bool },
}

impl Events {
    pub open spec fn read_only_spec() -> Events {
        Events { readable: true, writable: false, error: true, hup: true }
    }

    /// Readable, error and hangup: the interest of a connection with nothing to send.
    pub fn read_only() -> (e: Events)
        ensures
            e == (Events { readable: true, writable: false, error: true, hup: true }),
    {
        Events { readable: true, writable: false, error: true, hup: true }
    }

    /// Error and hangup come first and end the connection; otherwise read, then write.
    pub fn step(self) -> (s: Step)
        ensures
            (self.error || self.hup) ==> s == Step::Remove,
            !(self.error || self.hup) ==> s == (Step::Handle {
                read: self.readable,
                write: self.writable,
            }),
    {
        if self.error || self.hup {
            Step::Remove
        } else {
            Step::Handle { read: self.readable, write: self.writable }
        }
    }
}

/// How a drain of the socket into the read buffer ended.
#[derive(Clone, Copy, Debug, PartialEq, Eq, Structural)]
pub enum ReadEnd {
    /// No more bytes for now.
    WouldBlock,
    /// The peer closed its side.
    Closed,
    /// A real error.
    Failed,
}

/// The result of one write attempt on the socket.
#[derive(Clone, Copy, Debug, PartialEq, Eq, Structural)]
pub enum WriteResult {
    /// The socket took this many bytes from the front of the buffer.
    Wrote(usize),
    /// The socket is full.
    WouldBlock,
    /// A real error.
    Failed,
}

/// What the writer does next.
#[derive(Clone, Copy, Debug, PartialEq, Eq, Structural)]
pub enum WriteAction {
    /// Bytes remain and the socket may take more: write again.
    Again,
    /// Stop for this notification: the buffer is empty or the socket is full.
    Stop,
    /// The connection has failed and is removed.
    Close,
}

/// The state of a connection as the protocol sees it.
pub ghost struct ConnState {
    pub input: Seq<u8>,
    pub output: Seq<u8>,
    pub events: Events,
}

impl ConnState {
    /// Writable interest is held exactly while bytes wait to be sent; the
    /// other conditions are always wanted.
    pub open spec fn wf(self) -> bool {
        &&& self.events.readable
        &&& self.events.error
        &&& self.events.hup
        &&& self.events.writable == (self.output.len() > 0)
    }
}

/// One client connection of the server, without its socket.
pub struct Connection {
    read_buf: Vec<u8>,
    write_buf: Vec<u8>,
    events: Events,
}

impl View for Connection {
    type V = ConnState;

    closed spec fn view(&self) -> ConnState {
        ConnState { input: self.read_buf@, output: self.write_buf@, events: self.events }
    }
}

impl Connection {
    /// A fresh connection: empty buffers, read-only interest.
    pub fn new() -> (c: Connection)
        ensures
            c@.wf(),
            c@.input.len() == 0,
            c@.output.len() == 0,
            c@.events == Events::read_only_spec(),
    {
        Connection { read_buf: Vec::new(), write_buf: Vec::new(), events: Events::read_only() }
    }

    /// The interest to re-arm the connection with.
    pub fn events(&self) -> (e: Events)
        ensures
            e == self@.events,
    {
        self.events
    }

    /// The bytes waiting to be sent.
    pub fn output(&self) -> (b: &[u8])
        ensures
            b@ == self@.output,
    {
        self.write_buf.as_slice()
    }

    /// Appends newly read bytes and decodes every complete line; the bytes
    /// after the last terminator stay buffered.
    pub fn receive(&mut self, data: &[u8]) -> (ms: Vec<Message>)
        requires
            old(self)@.wf(),
        ensures
            final(self)@.wf(),
            requests_of(ms@) == decode_all(lines(old(self)@.input + data@)),
            final(self)@.input == pending(old(self)@.input + data@),
            final(self)@.output == old(self)@.output,
            final(self)@.events == old(self)@.events,
    {
        let mut i: usize = 0;
        let ghost start = self.read_buf@;
        let ghost out = self.write_buf@;
        let ghost ev = self.events;
        while i < data.len()
            invariant
                i <= data@.len(),
                self.write_buf@ == out,
                self.events == ev,
                self.read_buf@ == start + data@.take(i as int),
            decreases data@.len() - i,
        {
            self.read_buf.push(data[i]);
            assert(data@.take(i + 1) == data@.take(i as int).push(data@[i as int]));
            i = i + 1;
        }
        assert(data@.take(data@.len() as int) == data@);
        drain_messages(&mut self.read_buf)
    }

    /// Queues a response line and asks to hear when the socket is writable.
    pub fn send(&mut self, text: &str)
        requires
            old(self)@.wf(),
        ensures
            final(self)@.wf(),
            final(self)@.output == old(self)@.output + text.spec_bytes().push(NEWLINE),
            final(self)@.input == old(self)@.input,
    {
        encode_response(&mut self.write_buf, text);
        self.events.writable = true;
    }

    /// Accounts for one write attempt: written bytes leave the front of the
    /// buffer; once it is empty writable interest is dropped. A write of zero
    /// bytes means the peer no longer reads, and is an error, as is a failure.
    pub fn after_write(&mut self, res: WriteResult) -> (a: WriteAction)
        requires
            old(self)@.wf(),
            res matches WriteResult::Wrote(n) ==> n <= old(self)@.output.len(),
        ensures
            final(self)@.wf(),
            final(self)@.input == old(self)@.input,
            match res {
                WriteResult::Wrote(n) => if n == 0 {
                    a == WriteAction::Close && final(self)@ == old(self)@
                } else {
                    &&& final(self)@.output == old(self)@.output.subrange(
                        n as int,
                        old(self)@.output.len() as int,
                    )
                    &&& a == (if n == old(self)@.output.len() {
                        WriteAction::Stop
                    } else {
                        WriteAction::Again
                    })
                },
                WriteResult::WouldBlock => a == WriteAction::Stop && final(self)@ == old(self)@,
                WriteResult::Failed => a == WriteAction::Close && final(self)@ == old(self)@,
            },
    {
        match res {
            WriteResult::Wrote(n) => {
                if n == 0 {
                    return WriteAction::Close;
                }
                let ghost b = self.write_buf@;
                let mut rest: Vec<u8> = Vec::new();
                let mut j: usize = n;
                while j < self.write_buf.len()
                    invariant
                        self.write_buf@ == b,
                        n <= j <= b.len(),
                        rest@ == b.subrange(n as int, j as int),
                    decreases b.len() - j,
                {
                    rest.push(self.write_buf[j]);
                    assert(rest@ =~= b.subrange(n as int, j + 1));
                    j = j + 1;
                }
                self.write_buf = rest;
                if self.write_buf.len() == 0 {
                    self.events.writable = false;
                    WriteAction::Stop
                } else {
                    WriteAction::Again
                }
            },
            WriteResult::WouldBlock => WriteAction::Stop,
            WriteResult::Failed => WriteAction::Close,
        }
    }
}

} // verus!
