//! Executing commands against the store, and the state of one connection:
//! the bytes received and not yet consumed, and what to do with them next.
use vstd::prelude::*;
use crate::wire::{bulk_bytes, simple_bytes, error_bytes, nil_bytes, encode_bulk, encode_simple,
    encode_error, encode_nil};
use crate::frame::{FrameError, spec_decode, bulks, decode_frame, copy_range};
use crate::command::{Command, CommandView, CommandError, args_of, command_of, parse_command};
use crate::store::Store;

verus! {

pub open spec fn pong_text() -> Seq<u8> { seq![80u8, 79u8, 78u8, 71u8] }

pub open spec fn ok_text() -> Seq<u8> { seq![79u8, 75u8] }

pub open spec fn protocol_error_text() -> Seq<u8> {
    seq![69u8, 82u8, 82u8, 32u8, 112u8, 114u8, 111u8, 116u8, 111u8, 99u8, 111u8, 108u8, 32u8,
        101u8, 114u8, 114u8, 111u8, 114u8]
}

pub open spec fn unknown_command_text() -> Seq<u8> {
    seq![69u8, 82u8, 82u8, 32u8, 117u8, 110u8, 107u8, 110u8, 111u8, 119u8, 110u8, 32u8, 99u8,
        111u8, 109u8, 109u8, 97u8, 110u8, 100u8]
}

pub open spec fn wrong_type_text() -> Seq<u8> {
    seq![69u8, 82u8, 82u8, 32u8, 119u8, 114u8, 111u8, 110u8, 103u8, 32u8, 97u8, 114u8, 103u8,
        117u8, 109u8, 101u8, 110u8, 116u8, 32u8, 116u8, 121u8, 112u8, 101u8]
}

/// The reply to `c` on a store holding `m`.
pub open spec fn reply_of(m: Map<Seq<u8>, Seq<u8>>, c: CommandView) -> Seq<u8> {
    match c {
        CommandView::Ping => simple_bytes(pong_text()),
        CommandView::Echo(s) => bulk_bytes(s),
        CommandView::Get(k) => if m.contains_key(k) { bulk_bytes(m[k]) } else { nil_bytes() },
        CommandView::Store(_, _, _) => simple_bytes(ok_text()),
    }
}

/// The store after `c` on a store holding `m`. A `SET` holds the value
/// whatever options follow it; an expiry option is not enforced.
pub open spec fn store_after(m: Map<Seq<u8>, Seq<u8>>, c: CommandView) -> Map<Seq<u8>, Seq<u8>> {
    match c {
        CommandView::Store(k, v, _) => m.insert(k, v),
        _ => m,
    }
}

/// Runs `cmd` against `store` and returns the encoded reply.
pub fn execute(store: &mut Store, cmd: &Command) -> (r: Vec<u8>)
    requires
        old(store).wf(),
    ensures
        final(store).wf(),
        final(store)@ == store_after(old(store)@, cmd@),
        r@ == reply_of(old(store)@, cmd@),
{
    match cmd {
        Command::Ping => {
            let t: Vec<u8> = vec![80, 79, 78, 71];
            assert(t@ =~= pong_text());
            encode_simple(t.as_slice())
        },
        Command::Echo(s) => encode_bulk(s.as_slice()),
        Command::Get(k) => match store.get(k.as_slice()) {
            Some(v) => encode_bulk(v.as_slice()),
            None => encode_nil(),
        },
        Command::Store(k, v, _) => {
            let key = copy_range(k.as_slice(), 0, k.len());
            let value = copy_range(v.as_slice(), 0, v.len());
            assert(key@ =~= k@);
            assert(value@ =~= v@);
            store.set(key, value);
            let t: Vec<u8> = vec![79, 75];
            assert(t@ =~= ok_text());
            encode_simple(t.as_slice())
        },
    }
}

/// Why a connection must close.
#[derive(Debug, Clone, Copy, PartialEq, Eq, Structural)]
pub enum Failure {
    /// The bytes received are not a request.
    Malformed,
    /// A request names no known command, or has the wrong arguments for it.
    UnknownCommand,
    /// A request holds an element that is not a bulk string.
    WrongType,
}

pub open spec fn failure_text(f: Failure) -> Seq<u8> {
    match f {
        Failure::Malformed => protocol_error_text(),
        Failure::UnknownCommand => unknown_command_text(),
        Failure::WrongType => wrong_type_text(),
    }
}

/// The error reply sent before closing a connection on `f`.
pub fn failure_reply(f: Failure) -> (r: Vec<u8>)
    ensures
        r@ == error_bytes(failure_text(f)),
{
    let t: Vec<u8> = match f {
        Failure::Malformed => {
            let t: Vec<u8> = vec![69, 82, 82, 32, 112, 114, 111, 116, 111, 99, 111, 108, 32, 101,
                114, 114, 111, 114];
            assert(t@ =~= protocol_error_text());
            t
        },
        Failure::UnknownCommand => {
            let t: Vec<u8> = vec![69, 82, 82, 32, 117, 110, 107, 110, 111, 119, 110, 32, 99, 111,
                109, 109, 97, 110, 100];
            assert(t@ =~= unknown_command_text());
            t
        },
        Failure::WrongType => {
            let t: Vec<u8> = vec![69, 82, 82, 32, 119, 114, 111, 110, 103, 32, 97, 114, 103, 117,
                109, 101, 110, 116, 32, 116, 121, 112, 101];
            assert(t@ =~= wrong_type_text());
            t
        },
    };
    encode_error(t.as_slice())
}

/// What a connection does next.
#[derive(Debug, PartialEq, Eq)]
pub enum Step {
    /// Read more bytes before anything can be decided.
    NeedMore,
    /// Run this request and send its reply.
    Run(Command),
    /// Send the failure's reply and close.
    Fail(Failure),
}

/// The bytes a connection has received and not yet consumed.
pub struct Connection {
    pending: Vec<u8>,
}

impl View for Connection {
    type V = Seq<u8>;

    closed spec fn view(&self) -> Seq<u8> {
        self.pending@
    }
}

pub proof fn lemma_args_of_bulks(items: Seq<Seq<u8>>)
    ensures
        args_of(bulks(items)) == Some(items),
{
    let vals = bulks(items);
    assert(forall|i: int| 0 <= i < vals.len() ==> #[trigger] vals[i] is Bulk);
    assert(vals.map_values(|v: crate::frame::ValueView| v->Bulk_0) =~= items);
}

impl Connection {
    /// A connection that has received nothing.
    pub fn new() -> (r: Connection)
        ensures
            r@ == Seq::<u8>::empty(),
    {
        Connection { pending: Vec::new() }
    }

    /// Appends bytes read from the peer.
    pub fn receive(&mut self, data: &[u8])
        ensures
            final(self)@ == old(self)@ + data@,
    {
        let mut i: usize = 0;
        while i < data.len()
            invariant
                i <= data@.len(),
                self@ == old(self)@ + data@.subrange(0, i as int),
            decreases data@.len() - i,
        {
            self.pending.push(data[i]);
            i = i + 1;
            assert(self@ =~= old(self)@ + data@.subrange(0, i as int));
        }
        assert(data@.subrange(0, data@.len() as int) =~= data@);
    }

    /// Decides what to do with the bytes received so far. A complete
    /// request is consumed and handed out; an incomplete one is kept for
    /// later; bytes that cannot be a request end the connection.
    pub fn next_step(&mut self) -> (r: Step)
        ensures
            match spec_decode(old(self)@) {
                Err(FrameError::Incomplete) => r == Step::NeedMore && final(self)@ == old(self)@,
                Err(FrameError::Malformed) => r == Step::Fail(Failure::Malformed)
                    && final(self)@ == old(self)@,
                Ok((items, n)) => final(self)@ == old(self)@.subrange(n, old(self)@.len() as int)
                    && match command_of(items) {
                        Some(c) => match r {
                            Step::Run(cmd) => cmd@ == c,
                            _ => false,
                        },
                        None => r == Step::Fail(Failure::UnknownCommand),
                    },
            },
    {
        match decode_frame(self.pending.as_slice()) {
            Err(FrameError::Incomplete) => Step::NeedMore,
            Err(FrameError::Malformed) => Step::Fail(Failure::Malformed),
            Ok((frame, n)) => {
                proof {
                    match spec_decode(self@) {
                        Ok((items, m)) => lemma_args_of_bulks(items),
                        Err(_) => {},
                    }
                }
                let len = self.pending.len();
                let rest = copy_range(self.pending.as_slice(), n, len - n);
                self.pending = rest;
                match parse_command(frame.as_slice()) {
                    Ok(c) => Step::Run(c),
                    Err(CommandError::Unknown) => Step::Fail(Failure::UnknownCommand),
                    Err(CommandError::WrongType) => Step::Fail(Failure::WrongType),
                }
            },
        }
    }
}

} // verus!
