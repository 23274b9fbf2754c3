//! The connection handler: a state machine owning one peer's byte stream.
//!
//! The holder of the connection loops: read bytes from the transport and
//! `feed` them in, `advance` to decode, dispatch and build the reply, write
//! the returned reply bytes out, then report the write with `reply_sent`.
//! While a reply is owed (`Phase::Writing`) no further request is decoded, so
//! replies leave in the order the requests arrived. A protocol error closes
//! the connection with no reply; frames that decode but make no sense as
//! commands earn an error reply and the connection lives on.

use vstd::prelude::*;

verus! {

use crate::bytes::copy_range;
use crate::codec::{decode, encode, Decoded};
use crate::command::{classify, parse_command, Command, CommandModel};
use crate::frame::{Frame, FrameModel, frame_wf};
use crate::store::Store;
use crate::wire::{encoding, parse_frame, ParseOut};

/// Where a connection stands. Dispatching happens within one `advance` call,
/// so between calls a connection is reading, owing a reply, or closed.
#[derive(Clone, Copy, Debug, PartialEq, Eq, Structural)]
pub enum Phase {
    /// Accumulating request bytes.
    Reading,
    /// A reply has been produced and must be written before the next decode.
    Writing,
    /// Terminal: the peer closed, a write failed, or the stream was corrupt.
    Closed,
}

/// One accepted transport session: its phase and its decode buffer. The
/// buffer and the transport handle are owned by this connection alone; only
/// the store is shared.
pub struct Connection {
    pub phase: Phase,
    pub inbuf: Vec<u8>,
}

/// What `next_request` found.
#[derive(Debug, PartialEq, Eq)]
pub enum Poll {
    /// A whole request arrived and was consumed from the buffer.
    Ready(Command),
    /// No complete frame yet: read more bytes and feed them in.
    NeedInput,
    /// The previous reply has not been written yet.
    AwaitReply,
    /// The connection is closed.
    Ended,
}

/// What the holder of the connection must do next.
#[derive(Debug, PartialEq, Eq)]
pub enum Action {
    /// Write these bytes to the peer, whole, then call `reply_sent`.
    Reply(Vec<u8>),
    /// Read more bytes and feed them in.
    NeedInput,
    /// The previous reply has not been written yet.
    AwaitReply,
    /// Drop the transport; the connection is closed.
    Ended,
}

/// The store after a command: only the SET command changes it.
pub open spec fn store_after(m: Map<Seq<u8>, Seq<u8>>, c: CommandModel) -> Map<Seq<u8>, Seq<u8>> {
    match c {
        CommandModel::Put { key, value } => m.insert(key, value),
        _ => m,
    }
}

/// The bytes of the `OK` status.
pub open spec fn ok_text() -> Seq<u8> {
    seq![79u8, 75u8]
}

/// The text of the error reply to an unsupported or malformed command.
pub open spec fn err_text() -> Seq<u8> {
    seq![69u8, 82u8, 82u8, 32u8, 117u8, 110u8, 115u8, 117u8, 112u8, 112u8, 111u8, 114u8, 116u8,
        101u8, 100u8, 32u8, 99u8, 111u8, 109u8, 109u8, 97u8, 110u8, 100u8]
}

/// The reply a command earns against a given store: the bound value or null
/// for GET, `OK` for SET, an error string for anything unsupported.
pub open spec fn reply_model(m: Map<Seq<u8>, Seq<u8>>, c: CommandModel) -> FrameModel {
    match c {
        CommandModel::Get { key } => if m.contains_key(key) {
            FrameModel::Bulk(m[key])
        } else {
            FrameModel::Null
        },
        CommandModel::Put { key, value } => FrameModel::Simple(ok_text()),
        CommandModel::Unsupported { original } => FrameModel::Error(err_text()),
    }
}

fn ok_frame() -> (f: Frame)
    ensures
        f@ == FrameModel::Simple(ok_text()),
        frame_wf(f@),
{
    let mut t: Vec<u8> = Vec::new();
    t.push(79);
    t.push(75);
    assert(t@ =~= ok_text());
    Frame::Simple(t)
}

fn err_frame() -> (f: Frame)
    ensures
        f@ == FrameModel::Error(err_text()),
        frame_wf(f@),
{
    let mut t: Vec<u8> = Vec::new();
    t.push(69);
    t.push(82);
    t.push(82);
    t.push(32);
    t.push(117);
    t.push(110);
    t.push(115);
    t.push(117);
    t.push(112);
    t.push(112);
    t.push(111);
    t.push(114);
    t.push(116);
    t.push(101);
    t.push(100);
    t.push(32);
    t.push(99);
    t.push(111);
    t.push(109);
    t.push(109);
    t.push(97);
    t.push(110);
    t.push(100);
    assert(t@ =~= err_text());
    Frame::Error(t)
}

/// Executes one command against the store and builds the reply frame. The
/// store changes exactly as `store_after` says; the reply is exactly
/// `reply_model`, and it is well-formed, so its encoding decodes back to it.
pub fn apply_command(store: &mut Store, cmd: Command) -> (reply: Frame)
    requires
        old(store).wf(),
    ensures
        final(store).wf(),
        final(store)@ == store_after(old(store)@, cmd@),
        reply@ == reply_model(old(store)@, cmd@),
        frame_wf(reply@),
{
    match cmd {
        Command::Get { key } => match store.get(&key) {
            Option::Some(v) => Frame::Bulk(v),
            Option::None => Frame::Null,
        },
        Command::Put { key, value } => {
            store.set(key, value);
            ok_frame()
        },
        Command::Unsupported { original } => err_frame(),
    }
}

impl Connection {
    /// A fresh connection: reading, with an empty buffer.
    pub fn new() -> (c: Connection)
        ensures
            c.phase == Phase::Reading,
            c.inbuf@ == Seq::<u8>::empty(),
    {
        Connection { phase: Phase::Reading, inbuf: Vec::new() }
    }

    /// Appends bytes read from the transport to the decode buffer.
    pub fn feed(&mut self, data: &Vec<u8>)
        ensures
            final(self).phase == old(self).phase,
            final(self).inbuf@ == old(self).inbuf@ + data@,
    {
        crate::bytes::push_all(&mut self.inbuf, data);
    }

    /// Closes the connection: on peer shutdown (a read of zero bytes) or a
    /// transport error. Terminal.
    pub fn close(&mut self)
        ensures
            final(self).phase == Phase::Closed,
            final(self).inbuf@ == old(self).inbuf@,
    {
        self.phase = Phase::Closed;
    }

    /// Tries to take one whole request out of the buffer. Consumes exactly
    /// the first frame's bytes and leaves the rest untouched; a corrupt
    /// stream closes the connection with nothing consumed downstream.
    pub fn next_request(&mut self) -> (r: Poll)
        ensures
            old(self).phase is Closed ==> r is Ended && *final(self) == *old(self),
            old(self).phase is Writing ==> r is AwaitReply && *final(self) == *old(self),
            old(self).phase is Reading ==> match parse_frame(old(self).inbuf@) {
                ParseOut::Got(m, k) => final(self).phase is Writing
                    && final(self).inbuf@ == old(self).inbuf@.skip(k as int)
                    && (r matches Poll::Ready(cmd) && cmd@ == classify(m)),
                ParseOut::NeedMore => r is NeedInput && *final(self) == *old(self),
                ParseOut::Corrupt => r is Ended && final(self).phase is Closed
                    && final(self).inbuf@ == Seq::<u8>::empty(),
            },
    {
        match self.phase {
            Phase::Closed => Poll::Ended,
            Phase::Writing => Poll::AwaitReply,
            Phase::Reading => {
                match decode(&self.inbuf) {
                    Decoded::Complete(f, used) => {
                        let rest = copy_range(&self.inbuf, used, self.inbuf.len());
                        self.inbuf = rest;
                        self.phase = Phase::Writing;
                        let cmd = parse_command(f);
                        Poll::Ready(cmd)
                    },
                    Decoded::Incomplete => Poll::NeedInput,
                    Decoded::Malformed => {
                        self.phase = Phase::Closed;
                        self.inbuf = Vec::new();
                        Poll::Ended
                    },
                }
            },
        }
    }

    /// Reports the outcome of writing the owed reply: on success the
    /// connection reads again; a failed write closes it.
    pub fn reply_sent(&mut self, ok: bool)
        ensures
            old(self).phase is Writing && ok ==> final(self).phase == Phase::Reading
                && final(self).inbuf@ == old(self).inbuf@,
            old(self).phase is Writing && !ok ==> final(self).phase == Phase::Closed
                && final(self).inbuf@ == old(self).inbuf@,
            !(old(self).phase is Writing) ==> *final(self) == *old(self),
    {
        match self.phase {
            Phase::Writing => {
                if ok {
                    self.phase = Phase::Reading;
                } else {
                    self.phase = Phase::Closed;
                }
            },
            _ => {},
        }
    }

    /// One full step of the handler: decode at most one request, execute it
    /// against the store, and hand back the encoded reply to write. While a
    /// reply is owed nothing is decoded, so replies keep request order; a
    /// corrupt stream closes the connection with no reply and the store
    /// untouched.
    pub fn advance(&mut self, store: &mut Store) -> (act: Action)
        requires
            old(store).wf(),
        ensures
            final(store).wf(),
            old(self).phase is Closed ==> act is Ended && *final(self) == *old(self)
                && final(store)@ == old(store)@,
            old(self).phase is Writing ==> act is AwaitReply && *final(self) == *old(self)
                && final(store)@ == old(store)@,
            old(self).phase is Reading ==> match parse_frame(old(self).inbuf@) {
                ParseOut::Got(m, k) => {
                    let c = classify(m);
                    &&& final(store)@ == store_after(old(store)@, c)
                    &&& final(self).phase is Writing
                    &&& final(self).inbuf@ == old(self).inbuf@.skip(k as int)
                    &&& (act matches Action::Reply(b) && b@ == encoding(
                        reply_model(old(store)@, c),
                    ))
                },
                ParseOut::NeedMore => act is NeedInput && *final(self) == *old(self)
                    && final(store)@ == old(store)@,
                ParseOut::Corrupt => act is Ended && final(self).phase is Closed
                    && final(self).inbuf@ == Seq::<u8>::empty() && final(store)@ == old(store)@,
            },
    {
        match self.next_request() {
            Poll::Ready(cmd) => {
                let reply = apply_command(store, cmd);
                let bytes = encode(&reply);
                Action::Reply(bytes)
            },
            Poll::NeedInput => Action::NeedInput,
            Poll::AwaitReply => Action::AwaitReply,
            Poll::Ended => Action::Ended,
        }
    }
}

} // verus!
