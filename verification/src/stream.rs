//! The per-stream state object, the opaque arena key, and the per-queue
//! link capabilities through which the intrusive lists read and write a
//! stream's embedded "next" fields.

use vstd::prelude::*;

verus! {

/// Protocol-level stream identifier. The protocol layer supplies it; this
/// core uses it only as a lookup key and imposes no range constraints.
pub type StreamId = u32;

/// An opaque reference to one arena slot. Produced only by the store; valid
/// only relative to the store instance that produced it.
#[derive(Debug, Clone, Copy, PartialEq, Eq, Structural)]
pub struct Key(pub usize);

/// Per-stream state. The surrounding connection logic owns the meaning of
/// `data`; this core reads and writes only the embedded link fields, one per
/// logical queue a stream can belong to at the same time.
#[derive(Debug, Clone, Copy, PartialEq, Eq, Structural)]
pub struct Stream {
    /// Link for the pending-send queue.
    pub next_pending_send: Option<Key>,
    /// Link for the pending-reset queue.
    pub next_pending_reset: Option<Key>,
    /// Stand-in for the application-defined payload carried by the stream.
    pub data: u64,
}

/// A link capability: one implementation per logical queue, each reading and
/// writing that queue's own embedded link field on `Stream`. The generic
/// list algorithms are parameterized by a capability, so one stream can sit
/// in several independent queues at once.
pub trait Next {
    /// The queue's link field of `s`.
    spec fn spec_next(s: Stream) -> Option<Key>;

    /// `s` with the queue's link field overwritten by `k`.
    spec fn spec_set_next(s: Stream, k: Option<Key>) -> Stream;

    /// Overwriting the link field stores exactly the given key.
    proof fn lemma_set_get(s: Stream, k: Option<Key>)
        ensures
            Self::spec_next(Self::spec_set_next(s, k)) == k,
    ;

    /// Overwriting the link field with its current value changes nothing.
    proof fn lemma_set_same(s: Stream)
        ensures
            Self::spec_set_next(s, Self::spec_next(s)) == s,
    ;

    /// A second overwrite supersedes the first.
    proof fn lemma_set_set(s: Stream, k1: Option<Key>, k2: Option<Key>)
        ensures
            Self::spec_set_next(Self::spec_set_next(s, k1), k2) == Self::spec_set_next(s, k2),
    ;

    /// Peek the queue's link without mutating.
    fn next(s: &Stream) -> (r: Option<Key>)
        ensures
            r == Self::spec_next(*s),
    ;

    /// Overwrite the queue's link.
    fn set_next(s: &mut Stream, k: Option<Key>)
        ensures
            *final(s) == Self::spec_set_next(*old(s), k),
    ;

    /// Read and clear the queue's link in one step.
    fn take_next(s: &mut Stream) -> (r: Option<Key>)
        ensures
            r == Self::spec_next(*old(s)),
            *final(s) == Self::spec_set_next(*old(s), None),
    ;
}

/// Capability for the pending-send queue: accesses `next_pending_send`.
pub struct PendingSend;

impl Next for PendingSend {
    open spec fn spec_next(s: Stream) -> Option<Key> {
        s.next_pending_send
    }

    open spec fn spec_set_next(s: Stream, k: Option<Key>) -> Stream {
        Stream { next_pending_send: k, ..s }
    }

    proof fn lemma_set_get(s: Stream, k: Option<Key>) {
    }

    proof fn lemma_set_same(s: Stream) {
    }

    proof fn lemma_set_set(s: Stream, k1: Option<Key>, k2: Option<Key>) {
    }

    fn next(s: &Stream) -> (r: Option<Key>) {
        s.next_pending_send
    }

    fn set_next(s: &mut Stream, k: Option<Key>) {
        s.next_pending_send = k;
    }

    fn take_next(s: &mut Stream) -> (r: Option<Key>) {
        let r = s.next_pending_send;
        s.next_pending_send = None;
        r
    }
}

/// Capability for the pending-reset queue: accesses `next_pending_reset`.
pub struct PendingReset;

impl Next for PendingReset {
    open spec fn spec_next(s: Stream) -> Option<Key> {
        s.next_pending_reset
    }

    open spec fn spec_set_next(s: Stream, k: Option<Key>) -> Stream {
        Stream { next_pending_reset: k, ..s }
    }

    proof fn lemma_set_get(s: Stream, k: Option<Key>) {
    }

    proof fn lemma_set_same(s: Stream) {
    }

    proof fn lemma_set_set(s: Stream, k1: Option<Key>, k2: Option<Key>) {
    }

    fn next(s: &Stream) -> (r: Option<Key>) {
        s.next_pending_reset
    }

    fn set_next(s: &mut Stream, k: Option<Key>) {
        s.next_pending_reset = k;
    }

    fn take_next(s: &mut Stream) -> (r: Option<Key>) {
        let r = s.next_pending_reset;
        s.next_pending_reset = None;
        r
    }
}

/// The two built-in capabilities act on distinct fields: writing through one
/// never changes what the other reads, and neither touches the payload.
pub proof fn lemma_capabilities_independent()
    ensures
        forall|s: Stream, k: Option<Key>|
            PendingReset::spec_next(#[trigger] PendingSend::spec_set_next(s, k))
                == PendingReset::spec_next(s),
        forall|s: Stream, k: Option<Key>|
            PendingSend::spec_next(#[trigger] PendingReset::spec_set_next(s, k))
                == PendingSend::spec_next(s),
        forall|s: Stream, k: Option<Key>|
            (#[trigger] PendingSend::spec_set_next(s, k)).data == s.data,
        forall|s: Stream, k: Option<Key>|
            (#[trigger] PendingReset::spec_set_next(s, k)).data == s.data,
{
}

} // verus!
