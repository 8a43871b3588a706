//! The scan pipeline: a bounded, backpressure-applying result channel and
//! the producer that walks a table in ascending key order and pushes each
//! pair with a per-item send timeout.
//!
//! The channel ends are opaque resources; what has travelled through them
//! is modelled by the uninterpreted histories `sink_sent` and
//! `stream_taken`, and every verified guarantee about a scan's output is
//! stated over `sink_sent`.

use vstd::prelude::*;

use crate::model::{
    from_le, keys_from, lex_le, lex_lt, lemma_lex_antisym, lemma_lex_empty_least,
    lemma_lex_le_extend, lemma_lex_lt_le_trans, lemma_lex_successor, lemma_lex_total,
    lemma_lex_trans, name_view, pairs_view, scan_complete, scan_sound, StoreModel,
};
use crate::bytes::copy_bytes;
use crate::store::{KeyValueStore, StoreError};
use vstd::set_lib::lemma_len_subset;

verus! {

/// Capacity of the bounded result channel: at most this many pairs are in
/// flight between producer and consumer.
pub const SCAN_BUFFER: usize = 10;

/// How one scan ended.
#[derive(Clone, Copy, Debug, PartialEq, Eq, Structural)]
pub enum ScanStatus {
    /// The cursor was exhausted; every matching pair was pushed.
    Completed,
    /// The requested table does not exist; nothing was pushed.
    AbortedTableMissing,
    /// A push exceeded the send timeout; the scan stopped early.
    AbortedSendTimeout,
    /// The engine failed while reading; the scan stopped early.
    AbortedEngine,
}

/// The configuration of one scan: a table name and an optional start key.
/// It is handed to the producer by value and consumed exactly once.
pub struct ScanDescriptor {
    pub table: Option<String>,
    pub from: Option<Vec<u8>>,
}

impl ScanDescriptor {
    /// The table name this scan reads, as a spec value.
    pub open spec fn table_view(self) -> Option<Seq<char>> {
        name_view(self.table)
    }

    /// The optional start key, as a spec value.
    pub open spec fn from_view(self) -> Option<Seq<u8>> {
        match self.from {
            Some(f) => Some(f@),
            None => None,
        }
    }
}

/// The producer's end of the bounded result channel, together with the
/// timeout applied to each push. It owns the timer runtime that drives
/// its timed pushes, so it must be used and dropped outside an
/// asynchronous context.
#[verifier::external_body]
pub struct ScanSink {
    rt: tokio::runtime::Runtime,
    tx: tokio::sync::mpsc::Sender<(Vec<u8>, Vec<u8>)>,
    timeout: std::time::Duration,
}

/// The consumer's end of the bounded result channel.
#[verifier::external_body]
pub struct ScanStream {
    rx: tokio::sync::mpsc::Receiver<(Vec<u8>, Vec<u8>)>,
}

/// The pairs pushed successfully into a sink so far, oldest first.
pub uninterp spec fn sink_sent(s: ScanSink) -> Seq<(Seq<u8>, Seq<u8>)>;

/// The pairs taken out of a stream so far, oldest first.
pub uninterp spec fn stream_taken(s: ScanStream) -> Seq<(Seq<u8>, Seq<u8>)>;

/// The identity of the bounded channel a sink feeds.
pub uninterp spec fn sink_channel(s: ScanSink) -> int;

/// The identity of the bounded channel a stream drains.
pub uninterp spec fn stream_channel(s: ScanStream) -> int;

/// Every pair that is ever pushed into the channel with identity `c`
/// over its whole lifetime, oldest first. It ties the two ends together:
/// a sink's pushes and a stream's takes are both prefixes of it.
pub uninterp spec fn chan_pushed(c: int) -> Seq<(Seq<u8>, Seq<u8>)>;

/// Opens a fresh bounded result channel of the given capacity, whose sink
/// applies the given per-push timeout.
///
/// Relies on tokio::sync::mpsc::channel for the bounded channel and on
/// tokio::runtime::Builder to build the timer-only runtime that drives the
/// sink's timed pushes. The sink wraps the one sender of the channel, and
/// it cannot be cloned: everything the channel ever carries goes through
/// it. tokio's channel panics on capacity zero and on capacities above
/// its semaphore's maximum permit count, `usize::MAX / 8`; the requires
/// leave both out. Fails only when the runtime cannot be built.
#[verifier::external_body]
pub fn scan_channel(capacity: usize, timeout_ms: u64) -> (r: Result<
    (ScanSink, ScanStream),
    StoreError,
>)
    requires
        capacity >= 1,
        capacity <= usize::MAX / 8,
    ensures
        r matches Ok(p) ==> sink_sent(p.0) == Seq::<(Seq<u8>, Seq<u8>)>::empty()
            && stream_taken(p.1) == Seq::<(Seq<u8>, Seq<u8>)>::empty() && sink_channel(p.0)
            == stream_channel(p.1),
        r matches Err(e) ==> e == StoreError::Engine,
{
    let rt = match tokio::runtime::Builder::new_current_thread().enable_time().build() {
        Ok(rt) => rt,
        Err(_) => {
            return Err(StoreError::Engine);
        },
    };
    let (tx, rx) = tokio::sync::mpsc::channel(capacity);
    let timeout = std::time::Duration::from_millis(timeout_ms);
    Ok((ScanSink { rt, tx, timeout }, ScanStream { rx }))
}

impl ScanSink {
    /// Pushes one pair, waiting up to the sink's timeout for room in the
    /// channel; reports whether the pair was accepted.
    ///
    /// Relies on tokio::sync::mpsc::Sender::send_timeout: the value is
    /// delivered in order exactly when it returns Ok; on timeout or on a
    /// dropped stream it returns the value in the error and nothing is
    /// sent. Since this sink is its channel's only sender, what it has
    /// pushed so far is a prefix of everything the channel ever carries.
    /// Must not be called from within an asynchronous context.
    #[verifier::external_body]
    pub(crate) fn send_with_timeout(&mut self, key: Vec<u8>, value: Vec<u8>) -> (ok: bool)
        ensures
            ok ==> sink_sent(*final(self)) == sink_sent(*old(self)).push((key@, value@)),
            !ok ==> sink_sent(*final(self)) == sink_sent(*old(self)),
            sink_channel(*final(self)) == sink_channel(*old(self)),
            sink_sent(*final(self)).is_prefix_of(chan_pushed(sink_channel(*final(self)))),
    {
        let r = self.rt.block_on(self.tx.send_timeout((key, value), self.timeout));
        r.is_ok()
    }

    /// Closes the bounded channel: once it is also drained, the paired
    /// stream ends, and the channel's lifetime history is exactly what
    /// this sink had pushed. The sink is left feeding a fresh detached
    /// channel that never carries anything, so every later push fails.
    ///
    /// Relies on the sink being its channel's only sender (`scan_channel`
    /// hands out exactly one and it cannot be cloned) and on dropping
    /// that sender closing the channel: nothing can be pushed afterwards.
    #[verifier::external_body]
    pub fn close(&mut self)
        ensures
            chan_pushed(sink_channel(*old(self))) == sink_sent(*old(self)),
            sink_sent(*final(self)) == Seq::<(Seq<u8>, Seq<u8>)>::empty(),
    {
        let (tx, _rx) = tokio::sync::mpsc::channel(1);
        self.tx = tx;
    }
}

impl ScanStream {
    /// Takes the next pair out of the stream, blocking until one arrives;
    /// `None` once every sink of the channel is dropped and it is drained.
    ///
    /// Relies on tokio::sync::mpsc::Receiver::blocking_recv, which yields
    /// the pushed values one for one, in push order: what has been taken
    /// so far is a prefix of everything the channel ever carries, and
    /// `None` comes only once the channel is closed and fully drained, so
    /// everything it ever carried has then been taken. Must not be called
    /// from within an asynchronous context.
    #[verifier::external_body]
    pub fn recv(&mut self) -> (r: Option<(Vec<u8>, Vec<u8>)>)
        ensures
            r matches Some(p) ==> stream_taken(*final(self)) == stream_taken(*old(self)).push(
                (p.0@, p.1@),
            ),
            r is None ==> stream_taken(*final(self)) == stream_taken(*old(self)),
            stream_channel(*final(self)) == stream_channel(*old(self)),
            stream_taken(*final(self)).is_prefix_of(chan_pushed(stream_channel(*final(self)))),
            r is None ==> stream_taken(*final(self)) == chan_pushed(stream_channel(*final(self))),
    {
        self.rx.blocking_recv()
    }
}

/// Takes up to `max` pairs out of the stream, stopping early when the
/// stream ends; the pairs arrive in the order they were pushed: what has
/// been taken stays a prefix of everything the channel ever carries, and
/// a drain that stops under `max` took everything. Blocks between pairs,
/// so it must not be called from within an asynchronous context.
pub fn drain_up_to(rx: &mut ScanStream, max: usize) -> (out: Vec<(Vec<u8>, Vec<u8>)>)
    ensures
        out@.len() <= max,
        stream_taken(*final(rx)) == stream_taken(*old(rx)) + pairs_view(out@),
        stream_channel(*final(rx)) == stream_channel(*old(rx)),
        max >= 1 ==> stream_taken(*final(rx)).is_prefix_of(
            chan_pushed(stream_channel(*old(rx))),
        ),
        out@.len() < max ==> stream_taken(*final(rx)) == chan_pushed(
            stream_channel(*old(rx)),
        ),
{
    let mut out: Vec<(Vec<u8>, Vec<u8>)> = Vec::new();
    let ghost t0 = stream_taken(*rx);
    proof {
        assert(pairs_view(out@) =~= Seq::<(Seq<u8>, Seq<u8>)>::empty());
        assert(t0 + pairs_view(out@) =~= t0);
    }
    while out.len() < max
        invariant
            out@.len() <= max,
            stream_taken(*rx) == t0 + pairs_view(out@),
            t0 == stream_taken(*old(rx)),
            stream_channel(*rx) == stream_channel(*old(rx)),
            out@.len() > 0 ==> stream_taken(*rx).is_prefix_of(
                chan_pushed(stream_channel(*old(rx))),
            ),
        decreases max - out@.len(),
    {
        match rx.recv() {
            None => {
                proof {
                    let taken = stream_taken(*rx);
                    assert(taken.is_prefix_of(taken)) by {
                        assert(taken =~= taken.subrange(0, taken.len() as int));
                    }
                }
                return out;
            },
            Some(p) => {
                let ghost pv = (p.0@, p.1@);
                let ghost before = pairs_view(out@);
                out.push(p);
                proof {
                    assert(pairs_view(out@) =~= before.push(pv));
                    assert(t0 + pairs_view(out@) =~= (t0 + before).push(pv));
                }
            },
        }
    }
    out
}

/// What every scan guarantees: the earlier sink history is untouched, the
/// newly pushed pairs are a sound scan of the table, a completed scan
/// pushed every matching pair, a send-timeout abort left a matching pair
/// undelivered, a table-missing abort names a table that really is
/// absent, and a missing table can only end in an abort.
pub open spec fn scan_post(
    m: StoreModel,
    t: Option<Seq<char>>,
    from: Option<Seq<u8>>,
    sent0: Seq<(Seq<u8>, Seq<u8>)>,
    sent1: Seq<(Seq<u8>, Seq<u8>)>,
    st: ScanStatus,
) -> bool {
    &&& sent1.len() >= sent0.len()
    &&& sent1.subrange(0, sent0.len() as int) == sent0
    &&& scan_sound(m, t, from, sent1.skip(sent0.len() as int))
    &&& st == ScanStatus::Completed ==> m.contains_key(t) && scan_complete(
        m,
        t,
        from,
        sent1.skip(sent0.len() as int),
    )
    &&& st == ScanStatus::AbortedSendTimeout ==> !scan_complete(
        m,
        t,
        from,
        sent1.skip(sent0.len() as int),
    )
    &&& st == ScanStatus::AbortedTableMissing ==> !m.contains_key(t)
    &&& !m.contains_key(t) ==> st == ScanStatus::AbortedTableMissing || st
        == ScanStatus::AbortedEngine
}

/// Appends the zero byte: the smallest key strictly above `k`.
fn key_successor(k: Vec<u8>) -> (r: Vec<u8>)
    ensures
        r@ == k@.push(0u8),
{
    let mut r = k;
    r.push(0u8);
    r
}

/// The scan producer: starting at the descriptor's start key (or the
/// beginning), walks table entries in ascending key order and pushes each
/// pair into the sink, stopping on exhaustion, on a missing table, on a
/// send timeout, or on an engine failure.
#[verifier::loop_isolation(false)]
pub fn run_scan<S: KeyValueStore>(store: &S, desc: ScanDescriptor, sink: &mut ScanSink) -> (st:
    ScanStatus)
    requires
        store.inv(),
    ensures
        scan_post(
            store.tables(),
            desc.table_view(),
            desc.from_view(),
            sink_sent(*old(sink)),
            sink_sent(*final(sink)),
            st,
        ),
        sink_channel(*final(sink)) == sink_channel(*old(sink)),
{
    let ghost m = store.tables();
    let ghost tv = desc.table_view();
    let ghost fv = desc.from_view();
    let ghost sent0 = sink_sent(*sink);
    let ScanDescriptor { table, from } = desc;
    let mut lower: Vec<u8> = match from {
        Some(f) => f,
        None => Vec::new(),
    };
    proof {
        if fv is None {
            assert forall|k: Seq<u8>| lex_le(lower@, k) implies from_le(fv, k) by {
                lemma_lex_empty_least(k);
            }
        }
    }
    loop
        invariant
            m == store.tables(),
            tv == name_view(table),
            sink_channel(*sink) == sink_channel(*old(sink)),
            sink_sent(*sink).len() >= sent0.len(),
            sink_sent(*sink).subrange(0, sent0.len() as int) == sent0,
            scan_sound(m, tv, fv, sink_sent(*sink).skip(sent0.len() as int)),
            // every pushed key lies strictly below the next lower bound
            forall|i: int|
                0 <= i < sink_sent(*sink).skip(sent0.len() as int).len() ==> lex_lt(
                    (#[trigger] sink_sent(*sink).skip(sent0.len() as int)[i]).0,
                    lower@,
                ),
            // the lower bound never falls below the start key
            forall|k: Seq<u8>| #[trigger] lex_le(lower@, k) ==> from_le(fv, k),
            // every stored key below the lower bound has been pushed
            forall|k: Seq<u8>|
                m.contains_key(tv) && #[trigger] m[tv].contains_key(k) && from_le(fv, k)
                    && !lex_le(lower@, k) ==> exists|i: int|
                    0 <= i < sink_sent(*sink).skip(sent0.len() as int).len() && (
                    #[trigger] sink_sent(*sink).skip(sent0.len() as int)[i]).0 == k,
        decreases keys_from(m, tv, lower@).len(),
    {
        let step = store.first_entry_from(&table, &lower);
        match step {
            Err(e) => {
                if e == StoreError::TableMissing {
                    return ScanStatus::AbortedTableMissing;
                } else {
                    return ScanStatus::AbortedEngine;
                }
            },
            Ok(None) => {
                proof {
                    assert forall|k: Seq<u8>|
                        #[trigger] m[tv].contains_key(k) && m.contains_key(tv) && from_le(
                            fv,
                            k,
                        ) implies exists|i: int|
                        0 <= i < sink_sent(*sink).skip(sent0.len() as int).len() && (
                        #[trigger] sink_sent(*sink).skip(sent0.len() as int)[i]).0 == k by {
                        assert(!lex_le(lower@, k));
                    }
                }
                return ScanStatus::Completed;
            },
            Ok(Some((k, v))) => {
                let ghost prev = sink_sent(*sink);
                let ghost delta_old = prev.skip(sent0.len() as int);
                let ghost kview = k@;
                let ghost low_old = lower@;
                let key_copy = copy_bytes(&k);
                if sink.send_with_timeout(k, v) {
                    lower = key_successor(key_copy);
                    proof {
                        let sent = sink_sent(*sink);
                        let delta = sent.skip(sent0.len() as int);
                        let low_new = kview.push(0u8);
                        assert(lower@ == low_new);
                        assert(sent.subrange(0, sent0.len() as int) =~= sent0);
                        assert(delta =~= delta_old.push(delta.last()));
                        assert(delta.last().0 == kview);
                        // the fresh pair lies at or after the start key
                        assert(from_le(fv, kview));
                        assert(kview.push(0u8) =~= kview + seq![0u8]);
                        lemma_lex_le_extend(kview, seq![0u8]);
                        // keys stay strictly ascending and strictly below the new bound
                        assert forall|i: int| 0 <= i < delta.len() implies lex_lt(
                            (#[trigger] delta[i]).0,
                            low_new,
                        ) by {
                            if i < delta_old.len() {
                                lemma_lex_lt_le_trans(delta[i].0, low_old, kview);
                                lemma_lex_lt_le_trans(delta[i].0, kview, low_new);
                            } else {
                                assert(delta[i].0 == kview);
                                assert(kview.len() < low_new.len());
                                assert(lex_lt(kview, low_new));
                            }
                        }
                        assert forall|i: int, j: int| 0 <= i < j < delta.len() implies lex_lt(
                            (#[trigger] delta[i]).0,
                            (#[trigger] delta[j]).0,
                        ) by {
                            if j == delta.len() - 1 {
                                lemma_lex_lt_le_trans(delta[i].0, low_old, kview);
                            }
                        }
                        // the new bound still lies at or after the start key
                        assert forall|k2: Seq<u8>| #[trigger] lex_le(low_new, k2) implies from_le(
                            fv,
                            k2,
                        ) by {
                            lemma_lex_successor(kview, k2);
                            lemma_lex_trans(low_old, kview, k2);
                        }
                        // every stored key below the new bound has been pushed
                        assert forall|k2: Seq<u8>|
                            m.contains_key(tv) && #[trigger] m[tv].contains_key(k2) && from_le(
                                fv,
                                k2,
                            ) && !lex_le(low_new, k2) implies exists|i: int|
                            0 <= i < delta.len() && (#[trigger] delta[i]).0 == k2 by {
                            lemma_lex_successor(kview, k2);
                            lemma_lex_total(kview, k2);
                            if lex_le(low_old, k2) {
                                lemma_lex_antisym(kview, k2);
                                assert(delta[delta.len() - 1].0 == k2);
                            } else {
                                let i = choose|i: int|
                                    0 <= i < delta_old.len() && (#[trigger] delta_old[i]).0 == k2;
                                assert(delta[i].0 == k2);
                            }
                        }
                        // the set of keys still to deliver strictly shrinks
                        store.tables_finite();
                        let rem_old = keys_from(m, tv, low_old);
                        let rem_new = keys_from(m, tv, low_new);
                        lemma_len_subset(rem_old, m[tv].dom());
                        assert(rem_old.contains(kview));
                        assert forall|k2: Seq<u8>| rem_new.contains(k2) implies rem_old.remove(
                            kview,
                        ).contains(k2) by {
                            lemma_lex_successor(kview, k2);
                            lemma_lex_trans(low_old, kview, k2);
                        }
                        assert(rem_new.subset_of(rem_old.remove(kview)));
                        lemma_len_subset(rem_new, rem_old.remove(kview));
                        assert(rem_new.len() < rem_old.len());
                    }
                } else {
                    proof {
                        let delta = sink_sent(*sink).skip(sent0.len() as int);
                        assert(m[tv].contains_key(kview) && m.contains_key(tv) && from_le(
                            fv,
                            kview,
                        ));
                        // the refused pair is a matching pair that was never pushed
                        assert forall|i: int| 0 <= i < delta.len() implies (
                        #[trigger] delta[i]).0 != kview by {
                            lemma_lex_lt_le_trans(delta[i].0, low_old, kview);
                        }
                        assert(!scan_complete(m, tv, fv, delta));
                    }
                    return ScanStatus::AbortedSendTimeout;
                }
            },
        }
    }
}

} // verus!
