//! The service layer: turns decoded requests into store operations and
//! store output into response values, and starts scans through the
//! pipeline. An absent key is reported with an explicit presence flag,
//! and how a scan ended is reported as an explicit status.

use vstd::prelude::*;

use crate::model::{
    name_view, pairs_view, scan_complete, scan_sound, spec_lookup, spec_set, StoreModel,
};
use crate::scan::{
    chan_pushed, drain_up_to, run_scan, scan_channel, scan_post, sink_channel, sink_sent,
    stream_channel, stream_taken, ScanDescriptor, ScanSink, ScanStatus,
};
use crate::store::{KeyValueStore, StoreError};

verus! {

/// A decoded point-read request.
pub struct GetRequest {
    pub table: Option<String>,
    pub key: Vec<u8>,
}

/// The answer to a point read: the value, with an explicit presence flag
/// so that an absent key is distinguishable from an empty value.
pub struct GetResponse {
    pub found: bool,
    pub value: Vec<u8>,
}

/// A decoded point-write request.
pub struct SetRequest {
    pub table: Option<String>,
    pub key: Vec<u8>,
    pub value: Vec<u8>,
}

/// The answer to a point write.
pub struct SetResponse {
    pub success: bool,
}

/// A decoded scan request; an empty `from` key asks for a full scan.
pub struct ScanRequest {
    pub table: Option<String>,
    pub from: Vec<u8>,
}

/// The start key a scan request denotes: an empty `from` means none.
pub open spec fn req_from_view(req: ScanRequest) -> Option<Seq<u8>> {
    if req.from@.len() == 0 {
        None
    } else {
        Some(req.from@)
    }
}

/// The service: the store it answers from, behind the capability
/// interface so that the engine can be swapped.
pub struct Service<S: KeyValueStore> {
    pub store: S,
}

impl<S: KeyValueStore> Service<S> {
    /// The service is well-formed when its store is.
    pub open spec fn inv(self) -> bool {
        self.store.inv()
    }

    /// The abstract contents the service answers from.
    pub open spec fn model(self) -> StoreModel {
        self.store.tables()
    }

    /// Wraps a store.
    pub fn new(store: S) -> (s: Service<S>)
        ensures
            s.store == store,
    {
        Service { store }
    }

    /// Point read: answers with the stored value and `found == true`, or
    /// with an empty value and `found == false` when the table or the key
    /// does not exist.
    pub fn get(&self, req: GetRequest) -> (r: Result<GetResponse, StoreError>)
        requires
            self.inv(),
        ensures
            r matches Ok(resp) ==> ((resp.found <==> spec_lookup(
                self.model(),
                name_view(req.table),
                req.key@,
            ) is Some) && (resp.found ==> Some(resp.value@) == spec_lookup(
                self.model(),
                name_view(req.table),
                req.key@,
            )) && (!resp.found ==> resp.value@ == Seq::<u8>::empty())),
            r matches Err(e) ==> e == StoreError::Engine,
    {
        match self.store.get(&req.table, &req.key) {
            Err(e) => Err(e),
            Ok(None) => Ok(GetResponse { found: false, value: Vec::new() }),
            Ok(Some(v)) => Ok(GetResponse { found: true, value: v }),
        }
    }

    /// Point write: upserts and reports the store's success flag.
    pub fn set(&mut self, req: SetRequest) -> (r: SetResponse)
        requires
            old(self).inv(),
        ensures
            final(self).inv(),
            r.success ==> final(self).model() == spec_set(
                old(self).model(),
                name_view(req.table),
                req.key@,
                req.value@,
            ),
            !r.success ==> final(self).model() == old(self).model(),
    {
        let SetRequest { table, key, value } = req;
        let ok = self.store.set(&table, key, value);
        SetResponse { success: ok }
    }

    /// Builds the scan descriptor of a request, normalizing an empty
    /// start key to "no start key".
    pub fn scan_descriptor(req: ScanRequest) -> (d: ScanDescriptor)
        ensures
            d.table_view() == name_view(req.table),
            d.from_view() == req_from_view(req),
    {
        let ScanRequest { table, from } = req;
        if from.len() == 0 {
            ScanDescriptor { table, from: None }
        } else {
            ScanDescriptor { table, from: Some(from) }
        }
    }

    /// Runs the scan producer for this request against the service's
    /// store, pushing the matching pairs into the sink in ascending key
    /// order; see `scan_post`.
    pub fn scan(&self, req: ScanRequest, sink: &mut ScanSink) -> (st: ScanStatus)
        requires
            self.inv(),
        ensures
            scan_post(
                self.model(),
                name_view(req.table),
                req_from_view(req),
                sink_sent(*old(sink)),
                sink_sent(*final(sink)),
                st,
            ),
            sink_channel(*final(sink)) == sink_channel(*old(sink)),
    {
        let d = Self::scan_descriptor(req);
        run_scan(&self.store, d, sink)
    }

    /// Runs a scan through a fresh bounded channel and collects what
    /// arrives, single-threaded: at most `capacity` pairs fit in the
    /// channel, so a larger result ends with a send-timeout abort. The
    /// collected pairs are stored pairs of the requested table, at or
    /// after the start key, in strictly ascending key order; a completed
    /// scan whose result fits under `capacity` is collected whole. Blocks
    /// while producing and draining, so it must not be called from within
    /// an asynchronous context; a concurrent consumer should instead
    /// drive `scan` and the stream from separate tasks.
    pub fn scan_collect(&self, req: ScanRequest, capacity: usize, timeout_ms: u64) -> (r: Result<
        (Vec<(Vec<u8>, Vec<u8>)>, ScanStatus),
        StoreError,
    >)
        requires
            self.inv(),
            capacity >= 1,
            capacity <= usize::MAX / 8,
        ensures
            r matches Ok(p) ==> p.0@.len() <= capacity,
            r matches Ok(p) ==> scan_sound(
                self.model(),
                name_view(req.table),
                req_from_view(req),
                pairs_view(p.0@),
            ),
            r matches Ok(p) ==> ((p.1 == ScanStatus::Completed && p.0@.len() < capacity)
                ==> scan_complete(
                self.model(),
                name_view(req.table),
                req_from_view(req),
                pairs_view(p.0@),
            )),
            r matches Ok(p) ==> (p.1 == ScanStatus::AbortedSendTimeout ==> !scan_complete(
                self.model(),
                name_view(req.table),
                req_from_view(req),
                pairs_view(p.0@),
            )),
            r matches Ok(p) ==> (p.1 == ScanStatus::Completed ==> self.model().contains_key(
                name_view(req.table),
            )),
            r matches Ok(p) ==> (p.1 == ScanStatus::AbortedTableMissing ==> !self.model()
                .contains_key(name_view(req.table))),
            r matches Err(e) ==> e == StoreError::Engine,
    {
        let ghost tname = name_view(req.table);
        let ghost fromv = req_from_view(req);
        let (mut sink, mut stream) = match scan_channel(capacity, timeout_ms) {
            Err(e) => {
                return Err(e);
            },
            Ok(p) => p,
        };
        let ghost id = sink_channel(sink);
        proof {
            assert(stream_channel(stream) == id);
        }
        let st = self.scan(req, &mut sink);
        let ghost delta = sink_sent(sink);
        proof {
            // the sink was fresh, so its whole history is this scan's output
            assert(delta.subrange(0, 0) =~= Seq::<(Seq<u8>, Seq<u8>)>::empty());
            assert(delta.skip(0) =~= delta);
            assert(scan_sound(self.model(), tname, fromv, delta));
        }
        sink.close();
        let out = drain_up_to(&mut stream, capacity);
        proof {
            // the channel carried exactly `delta`, and the drain took a
            // prefix of it -- all of it when it stopped under `capacity`
            assert(chan_pushed(id) == delta);
            assert(stream_taken(stream) =~= pairs_view(out@));
            assert(pairs_view(out@).is_prefix_of(delta));
            crate::model::lemma_scan_sound_prefix(
                self.model(),
                tname,
                fromv,
                delta,
                pairs_view(out@),
            );
            if st == ScanStatus::AbortedSendTimeout {
                crate::model::lemma_scan_incomplete_prefix(
                    self.model(),
                    tname,
                    fromv,
                    delta,
                    pairs_view(out@),
                );
            }
            if out@.len() < capacity {
                assert(pairs_view(out@) =~= delta);
            }
        }
        Ok((out, st))
    }
}

} // verus!
