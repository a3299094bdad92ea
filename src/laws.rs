//! Properties that relate several operations of the library.
use vstd::prelude::*;
use crate::wire::{bulk_bytes, nil_bytes};
use crate::frame::{FrameError, spec_decode, frame_bytes, fits, lemma_decode_encoded,
    lemma_prefix_incomplete};
use crate::command::{CommandView, command_of, echo_name};
use crate::session::{reply_of, store_after};

verus! {

/// An `ECHO` request, once encoded, decodes back to the same text, and the
/// reply carries exactly that text as a bulk string.
pub proof fn lemma_echo_round_trip(t: Seq<u8>, rest: Seq<u8>, m: Map<Seq<u8>, Seq<u8>>)
    requires
        t.len() <= usize::MAX,
    ensures
        spec_decode(frame_bytes(seq![echo_name(), t]) + rest) == Ok::<(Seq<Seq<u8>>, int), FrameError>(
            (seq![echo_name(), t], frame_bytes(seq![echo_name(), t]).len() as int),
        ),
        command_of(seq![echo_name(), t]) == Some(CommandView::Echo(t)),
        reply_of(m, CommandView::Echo(t)) == bulk_bytes(t),
        store_after(m, CommandView::Echo(t)) == m,
{
    let items = seq![echo_name(), t];
    assert(items[0] == echo_name());
    assert(items[1] == t);
    lemma_decode_encoded(items, rest);
}

/// A request that arrives in two pieces is reported incomplete after the
/// first and decodes to the whole request once the second has arrived.
pub proof fn lemma_split_request(items: Seq<Seq<u8>>, m: int, rest: Seq<u8>)
    requires
        fits(items),
        0 <= m < frame_bytes(items).len(),
    ensures
        spec_decode(frame_bytes(items).subrange(0, m)) == Err::<(Seq<Seq<u8>>, int), FrameError>(
            FrameError::Incomplete,
        ),
        spec_decode(
            frame_bytes(items).subrange(0, m) + frame_bytes(items).subrange(m, frame_bytes(items).len() as int) + rest,
        ) == Ok::<(Seq<Seq<u8>>, int), FrameError>((items, frame_bytes(items).len() as int)),
{
    let f = frame_bytes(items);
    lemma_prefix_incomplete(items, m);
    assert(f.subrange(0, m) + f.subrange(m, f.len() as int) + rest =~= f + rest);
    lemma_decode_encoded(items, rest);
}

/// `GET` on a key that no `SET` has stored answers the absent value.
pub proof fn lemma_get_missing(m: Map<Seq<u8>, Seq<u8>>, k: Seq<u8>)
    requires
        !m.contains_key(k),
    ensures
        reply_of(m, CommandView::Get(k)) == nil_bytes(),
        store_after(m, CommandView::Get(k)) == m,
{
}

/// `GET` right after `SET k v` answers `v`.
pub proof fn lemma_set_then_get(m: Map<Seq<u8>, Seq<u8>>, k: Seq<u8>, v: Seq<u8>, opts: Seq<Seq<u8>>)
    ensures
        reply_of(store_after(m, CommandView::Store(k, v, opts)), CommandView::Get(k)) == bulk_bytes(v),
{
}

/// Of two `SET`s on one key, the later one's value is what `GET` answers.
pub proof fn lemma_last_writer_wins(
    m: Map<Seq<u8>, Seq<u8>>,
    k: Seq<u8>,
    v1: Seq<u8>,
    v2: Seq<u8>,
    opts1: Seq<Seq<u8>>,
    opts2: Seq<Seq<u8>>,
)
    ensures
        reply_of(
            store_after(store_after(m, CommandView::Store(k, v1, opts1)), CommandView::Store(k, v2, opts2)),
            CommandView::Get(k),
        ) == bulk_bytes(v2),
{
}

/// `PING` always answers `+PONG\r\n` and leaves the store as it was.
pub proof fn lemma_ping(m: Map<Seq<u8>, Seq<u8>>)
    ensures
        reply_of(m, CommandView::Ping) == seq![43u8, 80u8, 79u8, 78u8, 71u8, 13u8, 10u8],
        store_after(m, CommandView::Ping) == m,
{
    assert(reply_of(m, CommandView::Ping) =~= seq![43u8, 80u8, 79u8, 78u8, 71u8, 13u8, 10u8]);
}

/// Two `SET`s on distinct keys, applied one after the other in either
/// order, both survive, and the order does not matter.
pub proof fn lemma_distinct_sets_kept(
    m: Map<Seq<u8>, Seq<u8>>,
    k1: Seq<u8>,
    v1: Seq<u8>,
    opts1: Seq<Seq<u8>>,
    k2: Seq<u8>,
    v2: Seq<u8>,
    opts2: Seq<Seq<u8>>,
)
    requires
        k1 != k2,
    ensures
        store_after(store_after(m, CommandView::Store(k1, v1, opts1)), CommandView::Store(k2, v2, opts2))
            == store_after(store_after(m, CommandView::Store(k2, v2, opts2)), CommandView::Store(k1, v1, opts1)),
        reply_of(
            store_after(store_after(m, CommandView::Store(k1, v1, opts1)), CommandView::Store(k2, v2, opts2)),
            CommandView::Get(k1),
        ) == bulk_bytes(v1),
        reply_of(
            store_after(store_after(m, CommandView::Store(k1, v1, opts1)), CommandView::Store(k2, v2, opts2)),
            CommandView::Get(k2),
        ) == bulk_bytes(v2),
{
    assert(m.insert(k1, v1).insert(k2, v2) =~= m.insert(k2, v2).insert(k1, v1));
}

} // verus!
