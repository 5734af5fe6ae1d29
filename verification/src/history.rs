//! The content-addressed blob store and the append-only history event log:
//! capture, record, finish, listing and rollback.

use vstd::prelude::*;

verus! {

use vstd::string::StringSliceAdditionalSpecFns;
use crate::errors::ErrorKind;
use crate::hash::{fnv64, hash_bytes, hex64, hash_hex};
use crate::text::{
    append_slice, bytes_eq, clone_of, dec_u128, joined_path, lit, parent_path, path_join,
    push_dec_u128, push_dec_u64, subrange_vec,
};
use crate::config::Config;

/// A blob's address: the content digest, and a disambiguating suffix that
/// stays zero unless another payload already owns the digest.
#[derive(Clone, Copy, Debug, PartialEq, Eq, Structural)]
pub struct BlobId {
    pub digest: u64,
    pub suffix: u64,
}

/// A stored payload under its address.
pub struct Blob {
    pub id: BlobId,
    pub data: Vec<u8>,
}

/// The classification of a filesystem path at one instant.
#[derive(Clone, Copy, Debug, PartialEq, Eq, Structural)]
pub enum EntityKind {
    Missing,
    File,
    Dir,
}

/// The full state of one path: its kind, and the blob that holds its bytes
/// or its encoded directory snapshot.
#[derive(Clone, Copy, Debug, PartialEq, Eq, Structural)]
pub struct EntityState {
    pub kind: EntityKind,
    pub blob: Option<BlobId>,
}

impl EntityState {
    /// The state of an absent path.
    pub fn missing() -> (r: EntityState)
        ensures
            r == (EntityState { kind: EntityKind::Missing, blob: None }),
    {
        EntityState { kind: EntityKind::Missing, blob: None }
    }
}

/// Two captured states describe the same content.
pub fn state_matches(current: &EntityState, expected: &EntityState) -> (r: bool)
    ensures
        r == (*current == *expected),
{
    let kind_eq: bool = match (current.kind, expected.kind) {
        (EntityKind::Missing, EntityKind::Missing) => true,
        (EntityKind::File, EntityKind::File) => true,
        (EntityKind::Dir, EntityKind::Dir) => true,
        _ => false,
    };
    let blob_eq: bool = match (&current.blob, &expected.blob) {
        (None, None) => true,
        (Some(a), Some(b)) => a.digest == b.digest && a.suffix == b.suffix,
        _ => false,
    };
    kind_eq && blob_eq
}

/// The unique identity of a history event: a wall-clock nanosecond reading
/// and the recording process's identifier.
#[derive(Clone, Copy, Debug, PartialEq, Eq, Structural)]
pub struct EventId {
    pub nanos: u128,
    pub pid: u32,
}

/// One recorded write: the path, and its state before and after.
pub struct HistoryWrite {
    pub path: Vec<u8>,
    pub before: EntityState,
    pub after: EntityState,
}

/// One persisted event: identity, timestamp, origin label, and the ordered
/// writes it batches.
pub struct HistoryEvent {
    pub id: EventId,
    pub timestamp_ms: u64,
    pub origin: Vec<u8>,
    pub writes: Vec<HistoryWrite>,
}

/// One line of an event listing.
#[derive(Debug)]
pub struct HistorySummary {
    pub id: EventId,
    pub timestamp_ms: u64,
    pub origin: Vec<u8>,
    pub writes: usize,
}

/// What a rollback did: the event reversed, how many paths it restored,
/// and the fresh event that recorded the restoration.
#[derive(Debug)]
pub struct RollbackReport {
    pub target_event_id: EventId,
    pub restored: usize,
    pub rollback_event_id: Option<EventId>,
}

/// The views of a blob list.
pub open spec fn blobs_view(bs: Seq<Blob>) -> Seq<(BlobId, Seq<u8>)> {
    Seq::new(bs.len(), |i: int| (bs[i].id, bs[i].data@))
}

/// The view of one write.
pub open spec fn write_view(w: &HistoryWrite) -> (Seq<u8>, EntityState, EntityState) {
    (w.path@, w.before, w.after)
}

/// The views of a write list.
pub open spec fn writes_view(ws: Seq<HistoryWrite>) -> Seq<(Seq<u8>, EntityState, EntityState)> {
    Seq::new(ws.len(), |i: int| write_view(&ws[i]))
}

/// The view of one event.
pub open spec fn event_view(e: &HistoryEvent) -> (
    EventId,
    u64,
    Seq<u8>,
    Seq<(Seq<u8>, EntityState, EntityState)>,
) {
    (e.id, e.timestamp_ms, e.origin@, writes_view(e.writes@))
}

/// The views of an event list.
pub open spec fn events_view(es: Seq<HistoryEvent>) -> Seq<
    (EventId, u64, Seq<u8>, Seq<(Seq<u8>, EntityState, EntityState)>),
> {
    Seq::new(es.len(), |i: int| event_view(&es[i]))
}

/// The payload stored under an id: the first blob carrying it.
pub open spec fn blob_lookup(bv: Seq<(BlobId, Seq<u8>)>, id: BlobId) -> Option<Seq<u8>>
    decreases bv.len(),
{
    if bv.len() == 0 {
        None
    } else if bv.first().0 == id {
        Some(bv.first().1)
    } else {
        blob_lookup(bv.drop_first(), id)
    }
}

/// The first blob with this digest and exactly these bytes.
pub open spec fn find_dedup(bv: Seq<(BlobId, Seq<u8>)>, digest: u64, bytes: Seq<u8>) -> Option<
    BlobId,
>
    decreases bv.len(),
{
    if bv.len() == 0 {
        None
    } else if bv.first().0.digest == digest && bv.first().1 == bytes {
        Some(bv.first().0)
    } else {
        find_dedup(bv.drop_first(), digest, bytes)
    }
}

/// One past the largest suffix already used under this digest.
pub open spec fn next_suffix(bv: Seq<(BlobId, Seq<u8>)>, digest: u64) -> int
    decreases bv.len(),
{
    if bv.len() == 0 {
        0
    } else {
        let r = next_suffix(bv.drop_last(), digest);
        if bv.last().0.digest == digest && bv.last().0.suffix + 1 > r {
            bv.last().0.suffix + 1
        } else {
            r
        }
    }
}

/// Some blob sits at this suffix under this digest.
pub open spec fn suffix_used(bv: Seq<(BlobId, Seq<u8>)>, digest: u64, t: int) -> bool {
    exists|j: int| 0 <= j < bv.len() && (#[trigger] bv[j]).0.digest == digest && bv[j].0.suffix == t
}

/// Every address is unique, suffixes stay small enough to grow, and the
/// suffixes under one digest form an unbroken run from zero.
pub open spec fn store_wf(bv: Seq<(BlobId, Seq<u8>)>) -> bool {
    &&& forall|i: int, j: int| 0 <= i < j < bv.len() ==> (#[trigger] bv[i]).0 != (#[trigger] bv[j]).0
    &&& forall|i: int| 0 <= i < bv.len() ==> (#[trigger] bv[i]).0.suffix < bv.len()
    &&& forall|i: int|
        0 <= i < bv.len() && (#[trigger] bv[i]).0.suffix > 0 ==> suffix_used(
            bv,
            bv[i].0.digest,
            bv[i].0.suffix - 1,
        )
    &&& bv.len() <= usize::MAX
}

/// The address `store_blob` hands out for these bytes.
pub open spec fn spec_store_id(bv: Seq<(BlobId, Seq<u8>)>, bytes: Seq<u8>) -> BlobId {
    match find_dedup(bv, fnv64(bytes), bytes) {
        Some(id) => id,
        None => BlobId { digest: fnv64(bytes), suffix: next_suffix(bv, fnv64(bytes)) as u64 },
    }
}

/// The blob list after `store_blob` ran on these bytes.
pub open spec fn spec_store_bv(bv: Seq<(BlobId, Seq<u8>)>, bytes: Seq<u8>) -> Seq<
    (BlobId, Seq<u8>),
> {
    match find_dedup(bv, fnv64(bytes), bytes) {
        Some(id) => bv,
        None => bv.push((spec_store_id(bv, bytes), bytes)),
    }
}

/// The event log and the blob store it points into, in memory, with the
/// directory everything persists under.
pub struct HistoryStore {
    pub root: Vec<u8>,
    pub blobs: Vec<Blob>,
    pub events: Vec<HistoryEvent>,
}

impl HistoryStore {
    /// The store is internally consistent.
    pub open spec fn wf(&self) -> bool {
        store_wf(blobs_view(self.blobs@))
    }

    /// An empty store rooted in the `history` directory beside the central
    /// commands directory.
    pub fn from_config(cfg: &Config) -> (r: Result<HistoryStore, ErrorKind>)
        ensures
            match r {
                Ok(s) => {
                    &&& parent_path(cfg.central_dir@) matches Some(p) && s.root@ == joined_path(
                        p,
                        "history".spec_bytes(),
                    )
                    &&& s.blobs@.len() == 0
                    &&& s.events@.len() == 0
                    &&& s.wf()
                },
                Err(e) => e == ErrorKind::InvalidInput && parent_path(cfg.central_dir@) is None,
            },
    {
        match crate::text::path_parent(cfg.central_dir.as_slice()) {
            Some(p) => {
                let root: Vec<u8> = path_join(p.as_slice(), lit("history").as_slice());
                Ok(HistoryStore { root, blobs: Vec::new(), events: Vec::new() })
            },
            None => Err(ErrorKind::InvalidInput),
        }
    }

    /// Where blobs persist.
    pub fn blobs_dir(&self) -> (r: Vec<u8>)
        ensures
            r@ == joined_path(self.root@, "blobs".spec_bytes()),
    {
        path_join(self.root.as_slice(), lit("blobs").as_slice())
    }

    /// Where events persist.
    pub fn events_dir(&self) -> (r: Vec<u8>)
        ensures
            r@ == joined_path(self.root@, "events".spec_bytes()),
    {
        path_join(self.root.as_slice(), lit("events").as_slice())
    }

    /// The file an event persists as: its identity and a fixed extension.
    pub fn event_path(&self, id: &EventId) -> (r: Vec<u8>)
        ensures
            r@ == joined_path(
                joined_path(self.root@, "events".spec_bytes()),
                dec_u128(id.nanos as nat) + "-".spec_bytes() + dec_u128(id.pid as nat)
                    + ".toml".spec_bytes(),
            ),
    {
        let mut name: Vec<u8> = Vec::new();
        push_dec_u128(&mut name, id.nanos);
        append_slice(&mut name, lit("-").as_slice());
        push_dec_u64(&mut name, id.pid as u64);
        append_slice(&mut name, lit(".toml").as_slice());
        let dir: Vec<u8> = self.events_dir();
        path_join(dir.as_slice(), name.as_slice())
    }

    /// The file a blob persists as: the digest in hexadecimal, with the
    /// suffix appended when it is not zero.
    pub fn blob_path(&self, id: &BlobId) -> (r: Vec<u8>)
        ensures
            r@ == joined_path(
                joined_path(self.root@, "blobs".spec_bytes()),
                if id.suffix == 0 {
                    hex64(id.digest)
                } else {
                    hex64(id.digest) + "-".spec_bytes() + dec_u128(id.suffix as nat)
                },
            ),
    {
        let mut name: Vec<u8> = hash_hex(id.digest);
        if id.suffix != 0 {
            append_slice(&mut name, lit("-").as_slice());
            push_dec_u64(&mut name, id.suffix);
        }
        let dir: Vec<u8> = self.blobs_dir();
        path_join(dir.as_slice(), name.as_slice())
    }

    /// Store bytes under their digest, deduplicating identical payloads and
    /// never overwriting a different payload that shares the digest.
    pub fn store_blob(&mut self, bytes: &[u8]) -> (r: BlobId)
        requires
            old(self).wf(),
        ensures
            final(self).wf(),
            final(self).root@ == old(self).root@,
            events_view(final(self).events@) == events_view(old(self).events@),
            blobs_view(final(self).blobs@) == spec_store_bv(blobs_view(old(self).blobs@), bytes@),
            r == spec_store_id(blobs_view(old(self).blobs@), bytes@),
            blob_lookup(blobs_view(final(self).blobs@), r) == Some(bytes@),
    {
        let ghost bv = blobs_view(self.blobs@);
        let digest: u64 = hash_bytes(bytes);
        let mut i: usize = 0;
        proof {
            assert(bv.skip(0) =~= bv);
        }
        while i < self.blobs.len()
            invariant
                old(self) == self,
                i <= self.blobs@.len(),
                bv == blobs_view(self.blobs@),
                old(self).wf(),
                digest == fnv64(bytes@),
                find_dedup(bv, digest, bytes@) == find_dedup(bv.skip(i as int), digest, bytes@),
                forall|j: int|
                    0 <= j < i ==> !((#[trigger] bv[j]).0.digest == digest && bv[j].1 == bytes@),
            decreases self.blobs@.len() - i,
        {
            proof {
                assert(bv.skip(i as int).first() == bv[i as int]);
                assert(bv.skip(i as int).drop_first() =~= bv.skip(i + 1));
            }
            if self.blobs[i].id.digest == digest && bytes_eq(self.blobs[i].data.as_slice(), bytes) {
                let id: BlobId = self.blobs[i].id;
                proof {
                    assert(find_dedup(bv, digest, bytes@) == Some(id));
                    lemma_dedup_lookup(bv, digest, bytes@, id);
                }
                return id;
            }
            i = i + 1;
        }
        proof {
            assert(find_dedup(bv, digest, bytes@) is None);
        }
        // no identical payload: pick the next free suffix under this digest
        let mut best: u64 = 0;
        let mut j: usize = 0;
        proof {
            assert(bv.take(0) =~= Seq::<(BlobId, Seq<u8>)>::empty());
        }
        while j < self.blobs.len()
            invariant
                old(self) == self,
                j <= self.blobs@.len(),
                bv == blobs_view(self.blobs@),
                old(self).wf(),
                best == next_suffix(bv.take(j as int), digest),
            decreases self.blobs@.len() - j,
        {
            proof {
                assert(bv.take(j + 1).drop_last() =~= bv.take(j as int));
                assert(bv.take(j + 1).last() == bv[j as int]);
                assert(bv[j as int].0.suffix < bv.len());
                assert(bv.len() <= usize::MAX);
            }
            if self.blobs[j].id.digest == digest && self.blobs[j].id.suffix >= best {
                best = self.blobs[j].id.suffix + 1;
            }
            j = j + 1;
        }
        proof {
            assert(bv.take(bv.len() as int) =~= bv);
        }
        let id: BlobId = BlobId { digest, suffix: best };
        let data: Vec<u8> = subrange_vec(bytes, 0, bytes.len());
        proof {
            assert(data@ =~= bytes@);
        }
        self.blobs.push(Blob { id, data });
        proof {
            let bv2 = blobs_view(self.blobs@);
            assert(bv2 =~= bv.push((id, bytes@)));
            lemma_next_suffix_bound(bv, digest);
            assert(bv2.len() <= usize::MAX) by {
                assert(vstd::std_specs::vec::spec_vec_len(&self.blobs) == self.blobs@.len());
            }
            assert forall|i2: int| 0 <= i2 < bv.len() implies (#[trigger] bv[i2]).0 != id by {
                if bv[i2].0.digest == digest {
                    lemma_next_suffix_max(bv, digest, i2);
                }
            }
            assert(store_wf(bv2)) by {
                assert forall|a: int, b: int| 0 <= a < b < bv2.len() implies (#[trigger] bv2[a]).0
                    != (#[trigger] bv2[b]).0 by {
                    if b == bv2.len() - 1 {
                        if bv2[a].0.digest == digest {
                            lemma_next_suffix_max(bv, digest, a);
                        }
                    }
                }
                assert forall|a: int|
                    0 <= a < bv2.len() && (#[trigger] bv2[a]).0.suffix > 0 implies suffix_used(
                    bv2,
                    bv2[a].0.digest,
                    bv2[a].0.suffix - 1,
                ) by {
                    if a < bv.len() {
                        assert(suffix_used(bv, bv[a].0.digest, bv[a].0.suffix - 1));
                        let j = choose|j: int|
                            0 <= j < bv.len() && (#[trigger] bv[j]).0.digest == bv[a].0.digest
                                && bv[j].0.suffix == bv[a].0.suffix - 1;
                        assert(bv2[j] == bv[j]);
                    } else {
                        assert(bv2[a].0.digest == digest && bv2[a].0.suffix == best);
                        lemma_next_suffix_used(bv, digest);
                        let j = choose|j: int|
                            0 <= j < bv.len() && (#[trigger] bv[j]).0.digest == digest
                                && bv[j].0.suffix == best - 1;
                        assert(bv2[j] == bv[j]);
                    }
                }
                assert forall|a: int| 0 <= a < bv2.len() implies (#[trigger] bv2[a]).0.suffix
                    < bv2.len() by {
                    if a < bv.len() {
                        assert(bv[a].0.suffix < bv.len());
                    }
                }
            }
            lemma_lookup_pushed(bv, id, bytes@);
        }
        id
    }

    /// Read a blob's payload back.
    pub fn read_blob(&self, id: &BlobId) -> (r: Result<Vec<u8>, ErrorKind>)
        ensures
            match r {
                Ok(d) => blob_lookup(blobs_view(self.blobs@), *id) == Some(d@),
                Err(e) => blob_lookup(blobs_view(self.blobs@), *id) is None && e
                    == ErrorKind::NotFound,
            },
    {
        let ghost bv = blobs_view(self.blobs@);
        let mut i: usize = 0;
        proof {
            assert(bv.skip(0) =~= bv);
        }
        while i < self.blobs.len()
            invariant
                i <= self.blobs@.len(),
                bv == blobs_view(self.blobs@),
                blob_lookup(bv, *id) == blob_lookup(bv.skip(i as int), *id),
            decreases self.blobs@.len() - i,
        {
            proof {
                assert(bv.skip(i as int).first() == bv[i as int]);
                assert(bv.skip(i as int).drop_first() =~= bv.skip(i + 1));
            }
            if self.blobs[i].id.digest == id.digest && self.blobs[i].id.suffix == id.suffix {
                return Ok(clone_of(&self.blobs[i].data));
            }
            i = i + 1;
        }
        Err(ErrorKind::NotFound)
    }

    /// The most recent events, oldest first within the returned window.
    pub fn list_recent(&self, limit: usize) -> (r: Vec<HistorySummary>)
        ensures
            r@.len() == if limit <= self.events@.len() {
                limit as int
            } else {
                self.events@.len() as int
            },
            forall|i: int|
                0 <= i < r@.len() ==> {
                    let e = #[trigger] events_view(self.events@)[self.events@.len() - r@.len() + i];
                    &&& r@[i].id == e.0
                    &&& r@[i].timestamp_ms == e.1
                    &&& r@[i].origin@ == e.2
                    &&& r@[i].writes == e.3.len()
                },
    {
        let count: usize = if limit <= self.events.len() {
            limit
        } else {
            self.events.len()
        };
        let start: usize = self.events.len() - count;
        let mut out: Vec<HistorySummary> = Vec::new();
        let mut i: usize = 0;
        while i < count
            invariant
                count <= self.events@.len(),
                self.events@.len() <= usize::MAX,
                start == self.events@.len() - count,
                i <= count,
                out@.len() == i,
                forall|k: int|
                    0 <= k < i ==> {
                        let e = #[trigger] events_view(self.events@)[start + k];
                        &&& out@[k].id == e.0
                        &&& out@[k].timestamp_ms == e.1
                        &&& out@[k].origin@ == e.2
                        &&& out@[k].writes == e.3.len()
                    },
            decreases count - i,
        {
            let e: &HistoryEvent = &self.events[start + i];
            out.push(
                HistorySummary {
                    id: e.id,
                    timestamp_ms: e.timestamp_ms,
                    origin: clone_of(&e.origin),
                    writes: e.writes.len(),
                },
            );
            i = i + 1;
        }
        out
    }

    /// The identity of the newest event, if any exists.
    pub fn latest_event_id(&self) -> (r: Option<EventId>)
        ensures
            match r {
                Some(id) => self.events@.len() > 0 && id == self.events@.last().id,
                None => self.events@.len() == 0,
            },
    {
        if self.events.len() == 0 {
            None
        } else {
            Some(self.events[self.events.len() - 1].id)
        }
    }
}

/// A deduplicated address resolves to the payload it was found for.
proof fn lemma_dedup_lookup(bv: Seq<(BlobId, Seq<u8>)>, digest: u64, bytes: Seq<u8>, id: BlobId)
    requires
        forall|i: int, j: int|
            0 <= i < j < bv.len() ==> (#[trigger] bv[i]).0 != (#[trigger] bv[j]).0,
        find_dedup(bv, digest, bytes) == Some(id),
    ensures
        blob_lookup(bv, id) == Some(bytes),
    decreases bv.len(),
{
    if bv.len() > 0 {
        if bv.first().0.digest == digest && bv.first().1 == bytes {
        } else {
            assert forall|a: int, b: int|
                0 <= a < b < bv.drop_first().len() implies (#[trigger] bv.drop_first()[a]).0
                != (#[trigger] bv.drop_first()[b]).0 by {
                assert(bv.drop_first()[a] == bv[a + 1]);
                assert(bv.drop_first()[b] == bv[b + 1]);
            }
            lemma_dedup_lookup(bv.drop_first(), digest, bytes, id);
            assert(bv.first().0 != id) by {
                lemma_dedup_in(bv.drop_first(), digest, bytes, id);
                let i = choose|i: int|
                    0 <= i < bv.drop_first().len() && (#[trigger] bv.drop_first()[i]).0 == id;
                assert(bv[i + 1].0 == id);
            }
        }
    }
}

/// The address deduplication finds belongs to some stored blob.
proof fn lemma_dedup_in(bv: Seq<(BlobId, Seq<u8>)>, digest: u64, bytes: Seq<u8>, id: BlobId)
    requires
        find_dedup(bv, digest, bytes) == Some(id),
    ensures
        exists|i: int| 0 <= i < bv.len() && (#[trigger] bv[i]).0 == id,
    decreases bv.len(),
{
    if bv.len() > 0 {
        if bv.first().0.digest == digest && bv.first().1 == bytes {
            assert(bv[0].0 == id);
        } else {
            lemma_dedup_in(bv.drop_first(), digest, bytes, id);
            let tail = bv.drop_first();
            let i = choose|i: int| 0 <= i < tail.len() && (#[trigger] tail[i]).0 == id;
            assert(bv[i + 1].0 == id);
        }
    }
}

/// Every suffix already used under a digest lies below the next one.
proof fn lemma_next_suffix_max(bv: Seq<(BlobId, Seq<u8>)>, digest: u64, i: int)
    requires
        0 <= i < bv.len(),
        bv[i].0.digest == digest,
    ensures
        bv[i].0.suffix < next_suffix(bv, digest),
    decreases bv.len(),
{
    if i == bv.len() - 1 {
    } else {
        lemma_next_suffix_max(bv.drop_last(), digest, i);
        assert(bv.drop_last()[i] == bv[i]);
    }
}

/// A positive next suffix has a bearer one below it.
proof fn lemma_next_suffix_used(bv: Seq<(BlobId, Seq<u8>)>, digest: u64)
    ensures
        next_suffix(bv, digest) > 0 ==> suffix_used(bv, digest, next_suffix(bv, digest) - 1),
    decreases bv.len(),
{
    if bv.len() > 0 {
        lemma_next_suffix_used(bv.drop_last(), digest);
        if bv.last().0.digest == digest && bv.last().0.suffix + 1 > next_suffix(
            bv.drop_last(),
            digest,
        ) {
            assert(bv[bv.len() - 1].0.digest == digest && bv[bv.len() - 1].0.suffix
                == next_suffix(bv, digest) - 1);
        } else {
            if next_suffix(bv, digest) > 0 {
                let j = choose|j: int|
                    0 <= j < bv.drop_last().len() && (#[trigger] bv.drop_last()[j]).0.digest
                        == digest && bv.drop_last()[j].0.suffix == next_suffix(bv, digest) - 1;
                assert(bv[j].0.digest == digest && bv[j].0.suffix == next_suffix(bv, digest) - 1);
            }
        }
    }
}

/// In a well-formed store a used suffix pins every smaller one.
proof fn lemma_used_below(bv: Seq<(BlobId, Seq<u8>)>, digest: u64, t: int)
    requires
        store_wf(bv),
        0 <= t,
        suffix_used(bv, digest, t),
    ensures
        forall|u: int| 0 <= u <= t ==> suffix_used(bv, digest, u),
    decreases t,
{
    if t > 0 {
        let j = choose|j: int|
            0 <= j < bv.len() && (#[trigger] bv[j]).0.digest == digest && bv[j].0.suffix == t;
        assert(suffix_used(bv, digest, t - 1));
        lemma_used_below(bv, digest, t - 1);
    }
}

/// In a well-formed store the suffix handed to fresh bytes is the
/// smallest unused one under their digest.
pub proof fn lemma_store_suffix_smallest(bv: Seq<(BlobId, Seq<u8>)>, bytes: Seq<u8>)
    requires
        store_wf(bv),
        find_dedup(bv, fnv64(bytes), bytes) is None,
    ensures
        spec_store_id(bv, bytes).digest == fnv64(bytes),
        !suffix_used(bv, fnv64(bytes), spec_store_id(bv, bytes).suffix as int),
        forall|t: int|
            0 <= t < spec_store_id(bv, bytes).suffix as int ==> suffix_used(bv, fnv64(bytes), t),
{
    let digest = fnv64(bytes);
    let s = next_suffix(bv, digest);
    lemma_next_suffix_nonneg(bv, digest);
    assert(!suffix_used(bv, digest, s)) by {
        if suffix_used(bv, digest, s) {
            let j = choose|j: int|
                0 <= j < bv.len() && (#[trigger] bv[j]).0.digest == digest && bv[j].0.suffix == s;
            lemma_next_suffix_max(bv, digest, j);
        }
    }
    if s > 0 {
        lemma_next_suffix_used(bv, digest);
        lemma_used_below(bv, digest, s - 1);
    }
}

/// The next suffix is never negative.
proof fn lemma_next_suffix_nonneg(bv: Seq<(BlobId, Seq<u8>)>, digest: u64)
    ensures
        next_suffix(bv, digest) >= 0,
    decreases bv.len(),
{
    if bv.len() > 0 {
        lemma_next_suffix_nonneg(bv.drop_last(), digest);
    }
}

/// The next suffix never exceeds the number of blobs.
proof fn lemma_next_suffix_bound(bv: Seq<(BlobId, Seq<u8>)>, digest: u64)
    requires
        forall|i: int| 0 <= i < bv.len() ==> (#[trigger] bv[i]).0.suffix < bv.len(),
    ensures
        next_suffix(bv, digest) <= bv.len(),
    decreases bv.len(),
{
    if bv.len() > 0 {
        assert(forall|i: int|
            0 <= i < bv.drop_last().len() ==> (#[trigger] bv.drop_last()[i]).0.suffix < bv.len());
        lemma_next_suffix_bound_loose(bv.drop_last(), digest, bv.len() as int);
    }
}

proof fn lemma_next_suffix_bound_loose(bv: Seq<(BlobId, Seq<u8>)>, digest: u64, cap: int)
    requires
        cap >= 0,
        forall|i: int| 0 <= i < bv.len() ==> (#[trigger] bv[i]).0.suffix < cap,
    ensures
        next_suffix(bv, digest) <= cap,
    decreases bv.len(),
{
    if bv.len() > 0 {
        assert(bv[bv.len() - 1].0.suffix < cap);
        assert(forall|i: int|
            0 <= i < bv.drop_last().len() ==> (#[trigger] bv.drop_last()[i]).0.suffix < cap);
        lemma_next_suffix_bound_loose(bv.drop_last(), digest, cap);
    }
}

/// A fresh address pushed at the end resolves to its payload.
proof fn lemma_lookup_pushed(bv: Seq<(BlobId, Seq<u8>)>, id: BlobId, bytes: Seq<u8>)
    requires
        forall|i: int| 0 <= i < bv.len() ==> (#[trigger] bv[i]).0 != id,
    ensures
        blob_lookup(bv.push((id, bytes)), id) == Some(bytes),
    decreases bv.len(),
{
    if bv.len() == 0 {
        assert(bv.push((id, bytes)).first() == (id, bytes));
    } else {
        assert(bv.push((id, bytes)).first() == bv[0]);
        assert(bv.push((id, bytes)).drop_first() =~= bv.drop_first().push((id, bytes)));
        assert(forall|i: int|
            0 <= i < bv.drop_first().len() ==> (#[trigger] bv.drop_first()[i]).0 != id);
        lemma_lookup_pushed(bv.drop_first(), id, bytes);
    }
}

/// Storing bytes keeps every payload that was already stored.
pub proof fn lemma_store_preserves(bv: Seq<(BlobId, Seq<u8>)>, bytes: Seq<u8>, id: BlobId)
    requires
        blob_lookup(bv, id) is Some,
    ensures
        blob_lookup(spec_store_bv(bv, bytes), id) == blob_lookup(bv, id),
{
    match find_dedup(bv, fnv64(bytes), bytes) {
        Some(_) => {},
        None => {
            lemma_lookup_prefix(bv, spec_store_id(bv, bytes), bytes, id);
        },
    }
}

proof fn lemma_lookup_prefix(bv: Seq<(BlobId, Seq<u8>)>, nid: BlobId, bytes: Seq<u8>, id: BlobId)
    requires
        blob_lookup(bv, id) is Some,
    ensures
        blob_lookup(bv.push((nid, bytes)), id) == blob_lookup(bv, id),
    decreases bv.len(),
{
    if bv.len() > 0 {
        assert(bv.push((nid, bytes)).first() == bv[0]);
        assert(bv.push((nid, bytes)).drop_first() =~= bv.drop_first().push((nid, bytes)));
        if bv.first().0 == id {
        } else {
            lemma_lookup_prefix(bv.drop_first(), nid, bytes, id);
        }
    }
}

/// Reading back what was just stored yields exactly the stored bytes: the
/// blob store round-trips every payload.
pub proof fn lemma_blob_round_trip(bv: Seq<(BlobId, Seq<u8>)>, bytes: Seq<u8>)
    requires
        store_wf(bv),
    ensures
        blob_lookup(spec_store_bv(bv, bytes), spec_store_id(bv, bytes)) == Some(bytes),
{
    match find_dedup(bv, fnv64(bytes), bytes) {
        Some(id) => {
            lemma_dedup_lookup(bv, fnv64(bytes), bytes, id);
        },
        None => {
            let id = spec_store_id(bv, bytes);
            lemma_next_suffix_nonneg(bv, fnv64(bytes));
            lemma_next_suffix_bound(bv, fnv64(bytes));
            assert forall|i: int| 0 <= i < bv.len() implies (#[trigger] bv[i]).0 != id by {
                if bv[i].0.digest == fnv64(bytes) {
                    lemma_next_suffix_max(bv, fnv64(bytes), i);
                }
            }
            lemma_lookup_pushed(bv, id, bytes);
        },
    }
}

/// The in-memory event under construction during one sync or rollback pass.
pub struct HistoryRecorder {
    pub id: EventId,
    pub timestamp_ms: u64,
    pub origin: Vec<u8>,
    pub writes: Vec<HistoryWrite>,
}

impl HistoryRecorder {
    /// Open a recorder bound to an origin label and a fresh identity.
    pub fn new(origin: Vec<u8>, timestamp_ms: u64, id: EventId) -> (r: HistoryRecorder)
        ensures
            r.id == id,
            r.timestamp_ms == timestamp_ms,
            r.origin@ == origin@,
            r.writes@.len() == 0,
    {
        HistoryRecorder { id, timestamp_ms, origin, writes: Vec::new() }
    }

    /// Append a write entry, unless nothing changed.
    pub fn record_change(&mut self, path: Vec<u8>, before: EntityState, after: EntityState)
        ensures
            final(self).id == old(self).id,
            final(self).timestamp_ms == old(self).timestamp_ms,
            final(self).origin@ == old(self).origin@,
            writes_view(final(self).writes@) == if before == after {
                writes_view(old(self).writes@)
            } else {
                writes_view(old(self).writes@).push((path@, before, after))
            },
    {
        if state_matches(&before, &after) {
            proof {
                assert(writes_view(self.writes@) =~= writes_view(old(self).writes@));
            }
            return;
        }
        let ghost p = path@;
        self.writes.push(HistoryWrite { path, before, after });
        proof {
            assert(writes_view(self.writes@) =~= writes_view(old(self).writes@).push(
                (p, before, after),
            ));
        }
    }

    /// Persist the event into the store when it recorded anything; an event
    /// with no writes is discarded.
    pub fn finish(self, store: &mut HistoryStore) -> (r: Option<EventId>)
        ensures
            final(store).root@ == old(store).root@,
            blobs_view(final(store).blobs@) == blobs_view(old(store).blobs@),
            self.writes@.len() == 0 ==> r is None && events_view(final(store).events@)
                == events_view(old(store).events@),
            self.writes@.len() > 0 ==> r == Some(self.id) && events_view(final(store).events@)
                == events_view(old(store).events@).push(
                (self.id, self.timestamp_ms, self.origin@, writes_view(self.writes@)),
            ),
    {
        if self.writes.len() == 0 {
            proof {
                assert(events_view(store.events@) =~= events_view(old(store).events@));
                assert(blobs_view(store.blobs@) =~= blobs_view(old(store).blobs@));
            }
            return None;
        }
        let id: EventId = self.id;
        let ghost ev = (self.id, self.timestamp_ms, self.origin@, writes_view(self.writes@));
        let event: HistoryEvent = HistoryEvent {
            id: self.id,
            timestamp_ms: self.timestamp_ms,
            origin: self.origin,
            writes: self.writes,
        };
        store.events.push(event);
        proof {
            assert(events_view(store.events@) =~= events_view(old(store).events@).push(ev));
            assert(blobs_view(store.blobs@) =~= blobs_view(old(store).blobs@));
        }
        Some(id)
    }
}


/// The first event with this identity, or a negative value.
pub open spec fn find_event(
    evs: Seq<(EventId, u64, Seq<u8>, Seq<(Seq<u8>, EntityState, EntityState)>)>,
    id: EventId,
) -> int
    decreases evs.len(),
{
    if evs.len() == 0 {
        -1
    } else if evs.first().0 == id {
        0
    } else {
        let r = find_event(evs.drop_first(), id);
        if r < 0 {
            -1
        } else {
            r + 1
        }
    }
}

/// A path has been put back into the state a write recorded: gone if the
/// state was missing, the blob's bytes if it was a file, and a directory
/// carrying exactly the snapshot's records if it was a directory.
pub open spec fn state_restored(
    ev_fs: Seq<(Seq<u8>, (bool, Seq<u8>, Seq<(Seq<u8>, Seq<u8>)>))>,
    bv: Seq<(BlobId, Seq<u8>)>,
    path: Seq<u8>,
    st: EntityState,
) -> bool {
    match st.kind {
        EntityKind::Missing => crate::fs::fs_lookup(ev_fs, path) is None,
        EntityKind::File => match st.blob {
            Some(id) => match blob_lookup(bv, id) {
                Some(d) => crate::fs::fs_lookup(ev_fs, path) == Some(
                    (false, d, Seq::<(Seq<u8>, Seq<u8>)>::empty()),
                ),
                None => false,
            },
            None => false,
        },
        EntityKind::Dir => match st.blob {
            Some(id) => match blob_lookup(bv, id) {
                Some(enc) => match crate::codec::spec_decode(enc) {
                    Some(rs) => match crate::fs::fs_lookup(ev_fs, path) {
                        Some(n) => n.0 && n.2.to_multiset() == rs.to_multiset(),
                        None => false,
                    },
                    None => false,
                },
                None => false,
            },
            None => false,
        },
    }
}

/// What restoring a recorded state must come to: a missing state always
/// restores; a file or directory restores exactly when its blob reference
/// is present, resolves in the store and (for a directory) decodes; a
/// state without its blob reference is malformed.
pub open spec fn spec_restore_outcome(bv: Seq<(BlobId, Seq<u8>)>, st: EntityState) -> Result<
    (),
    ErrorKind,
> {
    match st.kind {
        EntityKind::Missing => Ok(()),
        EntityKind::File => match st.blob {
            None => Err(ErrorKind::InvalidData),
            Some(id) => match blob_lookup(bv, id) {
                Some(_) => Ok(()),
                None => Err(ErrorKind::NotFound),
            },
        },
        EntityKind::Dir => match st.blob {
            None => Err(ErrorKind::InvalidData),
            Some(id) => match blob_lookup(bv, id) {
                Some(enc) => match crate::codec::spec_decode(enc) {
                    Some(_) => Ok(()),
                    None => Err(ErrorKind::InvalidData),
                },
                None => Err(ErrorKind::NotFound),
            },
        },
    }
}

/// The kind and payload a capture reads for a path: file bytes, or the
/// encoded snapshot of a directory.
pub open spec fn spec_capture_payload(
    ev_fs: Seq<(Seq<u8>, (bool, Seq<u8>, Seq<(Seq<u8>, Seq<u8>)>))>,
    path: Seq<u8>,
) -> Option<(EntityKind, Seq<u8>)> {
    match crate::fs::fs_lookup(ev_fs, path) {
        None => None,
        Some(n) => Some(
            (
                if n.0 {
                    EntityKind::Dir
                } else {
                    EntityKind::File
                },
                if n.0 {
                    crate::codec::spec_encode(n.2)
                } else {
                    n.1
                },
            ),
        ),
    }
}

/// The state a capture reports for a path, against a given blob store.
pub open spec fn spec_capture_state(
    bv: Seq<(BlobId, Seq<u8>)>,
    ev_fs: Seq<(Seq<u8>, (bool, Seq<u8>, Seq<(Seq<u8>, Seq<u8>)>))>,
    path: Seq<u8>,
) -> EntityState {
    match spec_capture_payload(ev_fs, path) {
        None => EntityState { kind: EntityKind::Missing, blob: None },
        Some((k, p)) => EntityState { kind: k, blob: Some(spec_store_id(bv, p)) },
    }
}

/// The blob store after a capture of a path.
pub open spec fn spec_capture_bv(
    bv: Seq<(BlobId, Seq<u8>)>,
    ev_fs: Seq<(Seq<u8>, (bool, Seq<u8>, Seq<(Seq<u8>, Seq<u8>)>))>,
    path: Seq<u8>,
) -> Seq<(BlobId, Seq<u8>)> {
    match spec_capture_payload(ev_fs, path) {
        None => bv,
        Some((k, p)) => spec_store_bv(bv, p),
    }
}

/// The blob store after the safety pass captured the newest `m` writes.
pub open spec fn scan_bv(
    bv: Seq<(BlobId, Seq<u8>)>,
    ev_fs: Seq<(Seq<u8>, (bool, Seq<u8>, Seq<(Seq<u8>, Seq<u8>)>))>,
    ws: Seq<(Seq<u8>, EntityState, EntityState)>,
    m: nat,
) -> Seq<(BlobId, Seq<u8>)>
    decreases m,
{
    if m == 0 || m > ws.len() {
        bv
    } else {
        spec_capture_bv(scan_bv(bv, ev_fs, ws, (m - 1) as nat), ev_fs, ws[ws.len() - m].0)
    }
}

/// The safety pass accepts the newest `m` writes: each path's captured
/// state equals the state the event recorded after it.
pub open spec fn scan_pass(
    bv: Seq<(BlobId, Seq<u8>)>,
    ev_fs: Seq<(Seq<u8>, (bool, Seq<u8>, Seq<(Seq<u8>, Seq<u8>)>))>,
    ws: Seq<(Seq<u8>, EntityState, EntityState)>,
    m: nat,
) -> bool
    decreases m,
{
    if m == 0 || m > ws.len() {
        true
    } else {
        scan_pass(bv, ev_fs, ws, (m - 1) as nat) && spec_capture_state(
            scan_bv(bv, ev_fs, ws, (m - 1) as nat),
            ev_fs,
            ws[ws.len() - m].0,
        ) == ws[ws.len() - m].2
    }
}

/// Every recorded before-state restores against this blob store.
pub open spec fn before_states_ok(
    bv: Seq<(BlobId, Seq<u8>)>,
    ws: Seq<(Seq<u8>, EntityState, EntityState)>,
) -> bool {
    forall|k: int| 0 <= k < ws.len() ==> spec_restore_outcome(bv, (#[trigger] ws[k]).1) is Ok
}

/// Passing a longer safety scan passes every shorter one.
proof fn lemma_scan_pass_mono(
    bv: Seq<(BlobId, Seq<u8>)>,
    ev_fs: Seq<(Seq<u8>, (bool, Seq<u8>, Seq<(Seq<u8>, Seq<u8>)>))>,
    ws: Seq<(Seq<u8>, EntityState, EntityState)>,
    m1: nat,
    m2: nat,
)
    requires
        m1 <= m2 <= ws.len(),
        scan_pass(bv, ev_fs, ws, m2),
    ensures
        scan_pass(bv, ev_fs, ws, m1),
    decreases m2,
{
    if m1 < m2 {
        lemma_scan_pass_mono(bv, ev_fs, ws, m1, (m2 - 1) as nat);
    }
}

/// The safety pass only adds blobs: every payload already stored keeps
/// its address and bytes.
proof fn lemma_scan_bv_preserves(
    bv: Seq<(BlobId, Seq<u8>)>,
    ev_fs: Seq<(Seq<u8>, (bool, Seq<u8>, Seq<(Seq<u8>, Seq<u8>)>))>,
    ws: Seq<(Seq<u8>, EntityState, EntityState)>,
    m: nat,
    id: BlobId,
)
    requires
        blob_lookup(bv, id) is Some,
    ensures
        blob_lookup(scan_bv(bv, ev_fs, ws, m), id) == blob_lookup(bv, id),
    decreases m,
{
    if m > 0 && m <= ws.len() {
        lemma_scan_bv_preserves(bv, ev_fs, ws, (m - 1) as nat, id);
        let prev = scan_bv(bv, ev_fs, ws, (m - 1) as nat);
        match spec_capture_payload(ev_fs, ws[ws.len() - m].0) {
            None => {},
            Some((k, p)) => {
                lemma_store_preserves(prev, p, id);
            },
        }
    }
}

impl HistoryStore {
    /// Capture the full state of a path as the picture shows it, storing
    /// its bytes (or its encoded snapshot) as a blob.
    pub fn capture_path(&mut self, fs: &crate::fs::Fs, path: &[u8]) -> (r: EntityState)
        requires
            old(self).wf(),
            crate::fs::fs_wf(crate::fs::fs_view(fs.entries@)),
        ensures
            final(self).wf(),
            final(self).root@ == old(self).root@,
            events_view(final(self).events@) == events_view(old(self).events@),
            ({
                let bv0 = blobs_view(old(self).blobs@);
                match crate::fs::fs_lookup(crate::fs::fs_view(fs.entries@), path@) {
                    None => r == (EntityState { kind: EntityKind::Missing, blob: None })
                        && blobs_view(final(self).blobs@) == bv0,
                    Some(n) => {
                        let payload = if n.0 {
                            crate::codec::spec_encode(n.2)
                        } else {
                            n.1
                        };
                        &&& r.kind == if n.0 {
                            EntityKind::Dir
                        } else {
                            EntityKind::File
                        }
                        &&& r.blob == Some(spec_store_id(bv0, payload))
                        &&& blobs_view(final(self).blobs@) == spec_store_bv(bv0, payload)
                        &&& blob_lookup(blobs_view(final(self).blobs@), r.blob.unwrap()) == Some(
                            payload,
                        )
                    },
                }
            }),
    {
        match fs.get(path) {
            None => {
                proof {
                    assert(blobs_view(self.blobs@) =~= blobs_view(old(self).blobs@));
                    assert(events_view(self.events@) =~= events_view(old(self).events@));
                }
                EntityState::missing()
            },
            Some(node) => match node {
                crate::fs::FsNode::File(d) => {
                    let id: BlobId = self.store_blob(d.as_slice());
                    EntityState { kind: EntityKind::File, blob: Some(id) }
                },
                crate::fs::FsNode::Tree(t) => {
                    proof {
                        let ev = crate::fs::fs_view(fs.entries@);
                        let i = crate::fs::fs_find(ev, path@);
                        crate::fs::lemma_fs_find_ok(ev, path@);
                        assert(ev[i].1.0 ==> crate::fs::tree_wf(ev[i].1.2));
                    }
                    let bytes: Vec<u8> = crate::codec::encode_dir_snapshot(t);
                    let id: BlobId = self.store_blob(bytes.as_slice());
                    EntityState { kind: EntityKind::Dir, blob: Some(id) }
                },
            },
        }
    }

    /// Capture the state a file will have once these bytes are written.
    pub fn snapshot_file_bytes(&mut self, contents: &[u8]) -> (r: EntityState)
        requires
            old(self).wf(),
        ensures
            final(self).wf(),
            final(self).root@ == old(self).root@,
            events_view(final(self).events@) == events_view(old(self).events@),
            blobs_view(final(self).blobs@) == spec_store_bv(
                blobs_view(old(self).blobs@),
                contents@,
            ),
            r.kind == EntityKind::File,
            r.blob == Some(spec_store_id(blobs_view(old(self).blobs@), contents@)),
            blob_lookup(blobs_view(final(self).blobs@), r.blob.unwrap()) == Some(contents@),
    {
        let id: BlobId = self.store_blob(contents);
        EntityState { kind: EntityKind::File, blob: Some(id) }
    }

    /// Put one path back into a recorded state.
    pub fn restore_path(
        &self,
        fs: &mut crate::fs::Fs,
        path: &[u8],
        state: &EntityState,
    ) -> (r: Result<(), ErrorKind>)
        requires
            crate::fs::fs_unique(crate::fs::fs_view(old(fs).entries@)),
            crate::fs::fs_wf(crate::fs::fs_view(old(fs).entries@)),
        ensures
            crate::fs::fs_unique(crate::fs::fs_view(final(fs).entries@)),
            crate::fs::fs_wf(crate::fs::fs_view(final(fs).entries@)),
            r == spec_restore_outcome(blobs_view(self.blobs@), *state),
            match r {
                Ok(_) => state_restored(
                    crate::fs::fs_view(final(fs).entries@),
                    blobs_view(self.blobs@),
                    path@,
                    *state,
                ) && forall|q: Seq<u8>|
                    q != path@ ==> #[trigger] crate::fs::fs_lookup(
                        crate::fs::fs_view(final(fs).entries@),
                        q,
                    ) == crate::fs::fs_lookup(crate::fs::fs_view(old(fs).entries@), q),
                Err(e) => crate::fs::fs_view(final(fs).entries@) == crate::fs::fs_view(
                    old(fs).entries@,
                ),
            },
    {
        let ghost ev0 = crate::fs::fs_view(fs.entries@);
        match state.kind {
            EntityKind::Missing => {
                fs.remove(path);
                proof {
                    assert forall|q: Seq<u8>| q != path@ implies #[trigger] crate::fs::fs_lookup(
                        crate::fs::fs_view(fs.entries@),
                        q,
                    ) == crate::fs::fs_lookup(ev0, q) by {
                        crate::fs::lemma_fs_frame(
                            ev0,
                            path@,
                            (false, Seq::<u8>::empty(), Seq::<(Seq<u8>, Seq<u8>)>::empty()),
                            q,
                        );
                    }
                    crate::fs::lemma_fs_frame(
                        ev0,
                        path@,
                        (false, Seq::<u8>::empty(), Seq::<(Seq<u8>, Seq<u8>)>::empty()),
                        path@,
                    );
                    crate::fs::lemma_fs_wf_step(
                        ev0,
                        path@,
                        (false, Seq::<u8>::empty(), Seq::<(Seq<u8>, Seq<u8>)>::empty()),
                    );
                }
                Ok(())
            },
            EntityKind::File => {
                let id: BlobId = match &state.blob {
                    Some(id) => *id,
                    None => {
                        return Err(ErrorKind::InvalidData);
                    },
                };
                let data: Vec<u8> = match self.read_blob(&id) {
                    Ok(d) => d,
                    Err(_) => {
                        return Err(ErrorKind::NotFound);
                    },
                };
                let ghost dv = data@;
                fs.set(crate::text::clone_of_slice(path), crate::fs::FsNode::File(data));
                proof {
                    assert forall|q: Seq<u8>| q != path@ implies #[trigger] crate::fs::fs_lookup(
                        crate::fs::fs_view(fs.entries@),
                        q,
                    ) == crate::fs::fs_lookup(ev0, q) by {
                        crate::fs::lemma_fs_frame(
                            ev0,
                            path@,
                            (false, dv, Seq::<(Seq<u8>, Seq<u8>)>::empty()),
                            q,
                        );
                    }
                    crate::fs::lemma_fs_frame(
                        ev0,
                        path@,
                        (false, dv, Seq::<(Seq<u8>, Seq<u8>)>::empty()),
                        path@,
                    );
                    crate::fs::lemma_fs_wf_step(
                        ev0,
                        path@,
                        (false, dv, Seq::<(Seq<u8>, Seq<u8>)>::empty()),
                    );
                }
                Ok(())
            },
            EntityKind::Dir => {
                let id: BlobId = match &state.blob {
                    Some(id) => *id,
                    None => {
                        return Err(ErrorKind::InvalidData);
                    },
                };
                let enc: Vec<u8> = match self.read_blob(&id) {
                    Ok(d) => d,
                    Err(_) => {
                        return Err(ErrorKind::NotFound);
                    },
                };
                let files: Vec<crate::codec::TreeFile> = match crate::codec::decode_dir_snapshot(
                    enc.as_slice(),
                ) {
                    Ok(fl) => fl,
                    Err(_) => {
                        return Err(ErrorKind::InvalidData);
                    },
                };
                proof {
                    crate::codec::lemma_decode_wf(enc@);
                }
                let sorted: Vec<crate::codec::TreeFile> = crate::codec::sort_tree_files(files);
                let ghost tv = crate::codec::tree_view(sorted@);
                fs.set(crate::text::clone_of_slice(path), crate::fs::FsNode::Tree(sorted));
                proof {
                    assert forall|q: Seq<u8>| q != path@ implies #[trigger] crate::fs::fs_lookup(
                        crate::fs::fs_view(fs.entries@),
                        q,
                    ) == crate::fs::fs_lookup(ev0, q) by {
                        crate::fs::lemma_fs_frame(ev0, path@, (true, Seq::<u8>::empty(), tv), q);
                    }
                    crate::fs::lemma_fs_frame(ev0, path@, (true, Seq::<u8>::empty(), tv), path@);
                    assert(crate::fs::tree_wf(tv)) by {
                        crate::codec::lemma_records_wf_multiset(
                            crate::codec::tree_view(files@),
                            tv,
                        );
                    }
                    crate::fs::lemma_fs_wf_step(ev0, path@, (true, Seq::<u8>::empty(), tv));
                }
                Ok(())
            },
        }
    }
}


/// Write `k` is the first in the list that touches its path.
pub open spec fn first_of_path(ws: Seq<(Seq<u8>, EntityState, EntityState)>, k: int) -> bool {
    forall|j: int| 0 <= j < k ==> (#[trigger] ws[j]).0 != ws[k].0
}

/// A restored-state claim survives more blobs arriving in the store.
proof fn lemma_state_restored_store(
    ev: Seq<(Seq<u8>, (bool, Seq<u8>, Seq<(Seq<u8>, Seq<u8>)>))>,
    bv: Seq<(BlobId, Seq<u8>)>,
    x: Seq<u8>,
    p: Seq<u8>,
    st: EntityState,
)
    requires
        state_restored(ev, bv, p, st),
    ensures
        state_restored(ev, spec_store_bv(bv, x), p, st),
{
    match st.kind {
        EntityKind::Missing => {},
        EntityKind::File => {
            let id = st.blob.unwrap();
            lemma_store_preserves(bv, x, id);
        },
        EntityKind::Dir => {
            let id = st.blob.unwrap();
            lemma_store_preserves(bv, x, id);
        },
    }
}

impl HistoryStore {
    /// Find the position of an event by identity.
    fn find_event_index(&self, id: &EventId) -> (r: Option<usize>)
        ensures
            match r {
                Some(i) => 0 <= i < self.events@.len() && find_event(
                    events_view(self.events@),
                    *id,
                ) == i,
                None => find_event(events_view(self.events@), *id) < 0,
            },
    {
        let ghost evs = events_view(self.events@);
        let mut i: usize = 0;
        proof {
            assert(evs.skip(0) =~= evs);
        }
        while i < self.events.len()
            invariant
                i <= self.events@.len(),
                evs == events_view(self.events@),
                find_event(evs, *id) == if find_event(evs.skip(i as int), *id) < 0 {
                    -1
                } else {
                    i + find_event(evs.skip(i as int), *id)
                },
            decreases self.events@.len() - i,
        {
            proof {
                assert(evs.skip(i as int).first() == evs[i as int]);
                assert(evs.skip(i as int).drop_first() =~= evs.skip(i + 1));
            }
            if self.events[i].id.nanos == id.nanos && self.events[i].id.pid == id.pid {
                return Some(i);
            }
            i = i + 1;
        }
        None
    }

    /// Reverse one event: check every touched path still holds the state
    /// the event left (unless forced), then restore each path to its prior
    /// state in reverse order, recording the restoration as a fresh event.
    #[verifier::rlimit(100)]
    pub fn rollback(
        &mut self,
        fs: &mut crate::fs::Fs,
        event_id: &EventId,
        force: bool,
        now_ms: u64,
        new_id: EventId,
    ) -> (r: Result<RollbackReport, ErrorKind>)
        requires
            old(self).wf(),
            crate::fs::fs_unique(crate::fs::fs_view(old(fs).entries@)),
            crate::fs::fs_wf(crate::fs::fs_view(old(fs).entries@)),
        ensures
            final(self).wf(),
            final(self).root@ == old(self).root@,
            crate::fs::fs_unique(crate::fs::fs_view(final(fs).entries@)),
            crate::fs::fs_wf(crate::fs::fs_view(final(fs).entries@)),
            forall|id: BlobId|
                blob_lookup(blobs_view(old(self).blobs@), id) is Some ==> #[trigger] blob_lookup(
                    blobs_view(final(self).blobs@),
                    id,
                ) == blob_lookup(blobs_view(old(self).blobs@), id),
            find_event(events_view(old(self).events@), *event_id) < 0 ==> r == Err::<
                RollbackReport,
                ErrorKind,
            >(ErrorKind::NotFound) && crate::fs::fs_view(final(fs).entries@) == crate::fs::fs_view(
                old(fs).entries@,
            ),
            ({
                let evs0 = events_view(old(self).events@);
                let ei = find_event(evs0, *event_id);
                let bv0 = blobs_view(old(self).blobs@);
                let fs0 = crate::fs::fs_view(old(fs).entries@);
                ei >= 0 ==> {
                    let ws = evs0[ei].3;
                    &&& ((force || scan_pass(bv0, fs0, ws, ws.len())) && before_states_ok(bv0, ws)
                        ==> r is Ok)
                    &&& (!force && !scan_pass(bv0, fs0, ws, ws.len()) ==> r == Err::<
                        RollbackReport,
                        ErrorKind,
                    >(ErrorKind::AlreadyExists))
                    &&& (r == Err::<RollbackReport, ErrorKind>(ErrorKind::NotFound) || r == Err::<
                        RollbackReport,
                        ErrorKind,
                    >(ErrorKind::InvalidData) ==> exists|k: int|
                        0 <= k < ws.len() && spec_restore_outcome(bv0, (#[trigger] ws[k]).1) is Err)
                }
            }),
            match r {
                Ok(rep) => {
                    let ei = find_event(events_view(old(self).events@), *event_id);
                    let ws = events_view(old(self).events@)[ei].3;
                    &&& ei >= 0
                    &&& rep.target_event_id == *event_id
                    &&& rep.restored == ws.len()
                    &&& forall|k: int|
                        0 <= k < ws.len() && first_of_path(ws, k) ==> state_restored(
                            crate::fs::fs_view(final(fs).entries@),
                            blobs_view(final(self).blobs@),
                            (#[trigger] ws[k]).0,
                            ws[k].1,
                        )
                    &&& events_view(final(self).events@).len() == events_view(
                        old(self).events@,
                    ).len() + (if rep.rollback_event_id is Some {
                        1int
                    } else {
                        0int
                    })
                    &&& forall|i: int|
                        0 <= i < events_view(old(self).events@).len() ==> #[trigger] events_view(
                            final(self).events@,
                        )[i] == events_view(old(self).events@)[i]
                    &&& (rep.rollback_event_id matches Some(x) ==> {
                        let appended = events_view(final(self).events@).last();
                        &&& x == new_id
                        &&& appended.0 == new_id
                        &&& appended.1 == now_ms
                        &&& appended.2 == "rollback:".spec_bytes() + dec_u128(
                            event_id.nanos as nat,
                        ) + "-".spec_bytes() + dec_u128(event_id.pid as nat)
                        &&& forall|j: int|
                            0 <= j < appended.3.len() ==> exists|k: int|
                                0 <= k < ws.len() && (#[trigger] appended.3[j]).0 == ws[k].0
                    })
                },
                Err(e) => {
                    &&& events_view(final(self).events@) == events_view(old(self).events@)
                    &&& (e == ErrorKind::AlreadyExists ==> !force && crate::fs::fs_view(
                        final(fs).entries@,
                    ) == crate::fs::fs_view(old(fs).entries@))
                    &&& (e == ErrorKind::NotFound || e == ErrorKind::AlreadyExists || e
                        == ErrorKind::InvalidData)
                },
            },
    {
        let ei: usize = match self.find_event_index(event_id) {
            Some(i) => i,
            None => {
                return Err(ErrorKind::NotFound);
            },
        };
        let ghost evs0 = events_view(self.events@);
        let ghost ws = evs0[ei as int].3;
        let ghost bv0 = blobs_view(self.blobs@);
        let ghost fs0 = crate::fs::fs_view(fs.entries@);
        // copy the event's writes so the store stays free to change
        let n: usize = self.events[ei].writes.len();
        let mut writes: Vec<HistoryWrite> = Vec::new();
        let mut c: usize = 0;
        while c < n
            invariant
                c <= n,
                ei < self.events@.len(),
                old(self) == self,
                n == self.events@[ei as int].writes@.len(),
                ws == writes_view(self.events@[ei as int].writes@),
                writes@.len() == c,
                forall|j: int| 0 <= j < c ==> write_view(&(#[trigger] writes@[j])) == ws[j],
            decreases n - c,
        {
            let w: &HistoryWrite = &self.events[ei].writes[c];
            writes.push(
                HistoryWrite { path: clone_of(&w.path), before: w.before, after: w.after },
            );
            c = c + 1;
        }
        // the safety pass: every touched path must still hold the state the
        // event left, or the rollback refuses to change anything
        let mut currents: Vec<EntityState> = Vec::new();
        let mut m: usize = 0;
        proof {
            assert(scan_bv(bv0, fs0, ws, 0) == bv0);
        }
        while m < n
            invariant
                m <= n,
                n == writes@.len(),
                n == ws.len(),
                forall|j: int| 0 <= j < n ==> write_view(&(#[trigger] writes@[j])) == ws[j],
                self.wf(),
                self.root@ == old(self).root@,
                events_view(self.events@) == events_view(old(self).events@),
                crate::fs::fs_view(fs.entries@) == crate::fs::fs_view(old(fs).entries@),
                crate::fs::fs_unique(crate::fs::fs_view(fs.entries@)),
                crate::fs::fs_wf(crate::fs::fs_view(fs.entries@)),
                currents@.len() == m,
                bv0 == blobs_view(old(self).blobs@),
                fs0 == crate::fs::fs_view(old(fs).entries@),
                evs0 == events_view(old(self).events@),
                ei < old(self).events@.len(),
                find_event(events_view(old(self).events@), *event_id) == ei as int,
                ws == events_view(old(self).events@)[ei as int].3,
                blobs_view(self.blobs@) == scan_bv(bv0, fs0, ws, m as nat),
                !force ==> scan_pass(bv0, fs0, ws, m as nat),
            decreases n - m,
        {
            let k: usize = n - 1 - m;
            let ghost bv_pre = blobs_view(self.blobs@);
            let current: EntityState = self.capture_path(fs, writes[k].path.as_slice());
            proof {
                assert(ws[k as int].0 == writes@[k as int].path@);
                assert(current == spec_capture_state(bv_pre, fs0, ws[k as int].0));
                assert(blobs_view(self.blobs@) == spec_capture_bv(bv_pre, fs0, ws[k as int].0));
                assert(ws.len() - (m + 1) == k as int);
                assert(blobs_view(self.blobs@) == scan_bv(bv0, fs0, ws, (m + 1) as nat));
            }
            if !force && !state_matches(&current, &writes[k].after) {
                proof {
                    assert(current != ws[k as int].2);
                    assert(!scan_pass(bv0, fs0, ws, (m + 1) as nat));
                    if scan_pass(bv0, fs0, ws, n as nat) {
                        lemma_scan_pass_mono(bv0, fs0, ws, (m + 1) as nat, n as nat);
                        assert(false);
                    }
                    assert forall|id: BlobId| blob_lookup(bv0, id) is Some
                        implies #[trigger] blob_lookup(blobs_view(self.blobs@), id)
                        == blob_lookup(bv0, id) by {
                        lemma_scan_bv_preserves(bv0, fs0, ws, (m + 1) as nat, id);
                    }
                }
                return Err(ErrorKind::AlreadyExists);
            }
            proof {
                if !force {
                    assert(current == ws[k as int].2);
                    assert(scan_pass(bv0, fs0, ws, (m + 1) as nat));
                }
            }
            currents.push(current);
            m = m + 1;
        }
        proof {
            assert(blobs_view(self.blobs@) == scan_bv(bv0, fs0, ws, n as nat));
            assert forall|id: BlobId| blob_lookup(bv0, id) is Some implies #[trigger] blob_lookup(
                blobs_view(self.blobs@),
                id,
            ) == blob_lookup(bv0, id) by {
                lemma_scan_bv_preserves(bv0, fs0, ws, n as nat, id);
            }
        }
        // the restore pass, newest write first
        let origin: Vec<u8> = rollback_origin(event_id);
        let mut recorder: HistoryRecorder = HistoryRecorder::new(origin, now_ms, new_id);
        let mut restored: usize = 0;
        let mut m2: usize = 0;
        while m2 < n
            invariant
                m2 <= n,
                n == writes@.len(),
                n == ws.len(),
                forall|j: int| 0 <= j < n ==> write_view(&(#[trigger] writes@[j])) == ws[j],
                self.wf(),
                self.root@ == old(self).root@,
                events_view(self.events@) == events_view(old(self).events@),
                crate::fs::fs_unique(crate::fs::fs_view(fs.entries@)),
                crate::fs::fs_wf(crate::fs::fs_view(fs.entries@)),
                restored == m2,
                currents@.len() == n,
                recorder.id == new_id,
                recorder.timestamp_ms == now_ms,
                recorder.origin@ == "rollback:".spec_bytes() + dec_u128(event_id.nanos as nat)
                    + "-".spec_bytes() + dec_u128(event_id.pid as nat),
                bv0 == blobs_view(old(self).blobs@),
                fs0 == crate::fs::fs_view(old(fs).entries@),
                ei < old(self).events@.len(),
                find_event(events_view(old(self).events@), *event_id) == ei as int,
                ws == events_view(old(self).events@)[ei as int].3,
                !force ==> scan_pass(bv0, fs0, ws, n as nat),
                forall|id: BlobId|
                    blob_lookup(bv0, id) is Some ==> #[trigger] blob_lookup(
                        blobs_view(self.blobs@),
                        id,
                    ) == blob_lookup(bv0, id),
                forall|j: int|
                    0 <= j < writes_view(recorder.writes@).len() ==> exists|k: int|
                        0 <= k < ws.len() && (#[trigger] writes_view(recorder.writes@)[j]).0
                            == ws[k].0,
                forall|k: int|
                    n - m2 <= k < n && (forall|j: int|
                        n - m2 <= j < k ==> (#[trigger] ws[j]).0 != ws[k].0) ==> state_restored(
                        crate::fs::fs_view(fs.entries@),
                        blobs_view(self.blobs@),
                        (#[trigger] ws[k]).0,
                        ws[k].1,
                    ),
            decreases n - m2,
        {
            let k: usize = n - 1 - m2;
            let ghost ev_pre = crate::fs::fs_view(fs.entries@);
            let ghost bv_pre = blobs_view(self.blobs@);
            match self.restore_path(fs, writes[k].path.as_slice(), &writes[k].before) {
                Ok(_) => {},
                Err(e) => {
                    proof {
                        let before = ws[k as int].1;
                        let bv_cur = blobs_view(self.blobs@);
                        assert(Err::<(), ErrorKind>(e) == spec_restore_outcome(bv_cur, before));
                        // the failure traces back to the original store
                        assert(spec_restore_outcome(bv0, before) is Err) by {
                            match before.kind {
                                EntityKind::Missing => {
                                    assert(spec_restore_outcome(bv_cur, before) is Ok);
                                },
                                EntityKind::File => {
                                    match before.blob {
                                        None => {},
                                        Some(id) => {
                                            if blob_lookup(bv0, id) is Some {
                                                assert(blob_lookup(bv_cur, id) == blob_lookup(
                                                    bv0,
                                                    id,
                                                ));
                                            }
                                        },
                                    }
                                },
                                EntityKind::Dir => {
                                    match before.blob {
                                        None => {},
                                        Some(id) => {
                                            if blob_lookup(bv0, id) is Some {
                                                assert(blob_lookup(bv_cur, id) == blob_lookup(
                                                    bv0,
                                                    id,
                                                ));
                                            }
                                        },
                                    }
                                },
                            }
                        }
                        // and success would have been owed otherwise
                        if before_states_ok(bv0, ws) {
                            assert(spec_restore_outcome(bv0, before) is Ok);
                            assert(false);
                        }
                    }
                    return Err(e);
                },
            }
            let ghost ev_mid = crate::fs::fs_view(fs.entries@);
            let ghost bv_mid = blobs_view(self.blobs@);
            let restored_state: EntityState = self.capture_path(fs, writes[k].path.as_slice());
            proof {
                assert forall|id: BlobId| blob_lookup(bv0, id) is Some implies #[trigger] blob_lookup(
                    blobs_view(self.blobs@),
                    id,
                ) == blob_lookup(bv0, id) by {
                    assert(blob_lookup(bv_mid, id) == blob_lookup(bv0, id));
                    match crate::fs::fs_lookup(crate::fs::fs_view(fs.entries@), ws[k as int].0) {
                        None => {},
                        Some(node) => {
                            let payload = if node.0 {
                                crate::codec::spec_encode(node.2)
                            } else {
                                node.1
                            };
                            lemma_store_preserves(bv_mid, payload, id);
                        },
                    }
                }
            }
            let ghost recw0 = writes_view(recorder.writes@);
            recorder.record_change(
                clone_of(&writes[k].path),
                currents[m2],
                restored_state,
            );
            proof {
                assert forall|j: int|
                    0 <= j < writes_view(recorder.writes@).len() implies exists|k2: int|
                    0 <= k2 < ws.len() && (#[trigger] writes_view(recorder.writes@)[j]).0
                        == ws[k2].0 by {
                    if j < recw0.len() {
                        assert(writes_view(recorder.writes@)[j] == recw0[j]);
                    } else {
                        assert(writes_view(recorder.writes@)[j].0 == ws[k as int].0);
                    }
                }
            }
            restored = restored + 1;
            proof {
                let ev_post = crate::fs::fs_view(fs.entries@);
                let bv_post = blobs_view(self.blobs@);
                assert(ev_post == ev_mid);
                assert forall|k2: int|
                    n - (m2 + 1) <= k2 < n && (forall|j: int|
                        n - (m2 + 1) <= j < k2 ==> (#[trigger] ws[j]).0 != ws[k2].0)
                    implies state_restored(ev_post, bv_post, (#[trigger] ws[k2]).0, ws[k2].1) by {
                    if k2 == k as int {
                        assert(state_restored(ev_mid, bv_mid, ws[k as int].0, ws[k as int].1))
                            by {
                            lemma_state_restored_same_lookup(
                                ev_mid,
                                ev_mid,
                                bv_pre,
                                bv_mid,
                                ws[k as int].0,
                                ws[k as int].1,
                            );
                        }
                        lemma_state_restored_any_store(
                            ev_post,
                            bv_mid,
                            bv_post,
                            ws[k2].0,
                            ws[k2].1,
                        );
                    } else {
                        assert(ws[k as int].0 != ws[k2].0);
                        assert(state_restored(ev_pre, bv_pre, ws[k2].0, ws[k2].1));
                        assert(crate::fs::fs_lookup(ev_mid, ws[k2].0) == crate::fs::fs_lookup(
                            ev_pre,
                            ws[k2].0,
                        ));
                        lemma_state_restored_same_lookup(
                            ev_pre,
                            ev_mid,
                            bv_pre,
                            bv_pre,
                            ws[k2].0,
                            ws[k2].1,
                        );
                        lemma_state_restored_any_store(ev_mid, bv_pre, bv_mid, ws[k2].0, ws[k2].1);
                        lemma_state_restored_any_store(ev_post, bv_mid, bv_post, ws[k2].0, ws[k2].1);
                    }
                }
            }
            m2 = m2 + 1;
        }
        let rollback_event_id: Option<EventId> = recorder.finish(self);
        proof {
            if rollback_event_id is Some {
                assert(events_view(self.events@).last().0 == new_id);
            }
        }
        Ok(
            RollbackReport {
                target_event_id: EventId { nanos: event_id.nanos, pid: event_id.pid },
                restored,
                rollback_event_id,
            },
        )
    }
}

/// A restored-state claim only reads the picture at its own path and the
/// blobs it names.
proof fn lemma_state_restored_same_lookup(
    ev1: Seq<(Seq<u8>, (bool, Seq<u8>, Seq<(Seq<u8>, Seq<u8>)>))>,
    ev2: Seq<(Seq<u8>, (bool, Seq<u8>, Seq<(Seq<u8>, Seq<u8>)>))>,
    bv1: Seq<(BlobId, Seq<u8>)>,
    bv2: Seq<(BlobId, Seq<u8>)>,
    p: Seq<u8>,
    st: EntityState,
)
    requires
        state_restored(ev1, bv1, p, st),
        crate::fs::fs_lookup(ev2, p) == crate::fs::fs_lookup(ev1, p),
        bv2 == bv1,
    ensures
        state_restored(ev2, bv2, p, st),
{
}

/// A restored-state claim survives any sequence of stores, since blobs are
/// only ever appended.
proof fn lemma_state_restored_any_store(
    ev: Seq<(Seq<u8>, (bool, Seq<u8>, Seq<(Seq<u8>, Seq<u8>)>))>,
    bv1: Seq<(BlobId, Seq<u8>)>,
    bv2: Seq<(BlobId, Seq<u8>)>,
    p: Seq<u8>,
    st: EntityState,
)
    requires
        state_restored(ev, bv1, p, st),
        bv2 == bv1 || exists|x: Seq<u8>| bv2 == spec_store_bv(bv1, x),
    ensures
        state_restored(ev, bv2, p, st),
{
    if bv2 != bv1 {
        let x = choose|x: Seq<u8>| bv2 == spec_store_bv(bv1, x);
        lemma_state_restored_store(ev, bv1, x, p, st);
    }
}

/// The origin label a rollback records under.
pub fn rollback_origin(event_id: &EventId) -> (r: Vec<u8>)
    ensures
        r@ == "rollback:".spec_bytes() + dec_u128(event_id.nanos as nat) + "-".spec_bytes()
            + dec_u128(event_id.pid as nat),
{
    let mut out: Vec<u8> = lit("rollback:");
    push_dec_u128(&mut out, event_id.nanos);
    append_slice(&mut out, lit("-").as_slice());
    push_dec_u64(&mut out, event_id.pid as u64);
    proof {
        assert(out@ =~= "rollback:".spec_bytes() + dec_u128(event_id.nanos as nat)
            + "-".spec_bytes() + dec_u128(event_id.pid as nat));
    }
    out
}


/// No two blobs carry the same digest and payload: what a store built
/// solely through `store_blob` maintains.
pub open spec fn dedup_wf(bv: Seq<(BlobId, Seq<u8>)>) -> bool {
    forall|i: int, j: int|
        0 <= i < j < bv.len() ==> !((#[trigger] bv[i]).0.digest == (#[trigger] bv[j]).0.digest
            && bv[i].1 == bv[j].1)
}

/// In a deduplicated store, the address of stored bytes is the address
/// they already live under.
proof fn lemma_dedup_find_self(bv: Seq<(BlobId, Seq<u8>)>, id: BlobId, d: Seq<u8>, i: int)
    requires
        dedup_wf(bv),
        0 <= i < bv.len(),
        bv[i] == (id, d),
        id.digest == fnv64(d),
    ensures
        find_dedup(bv, fnv64(d), d) == Some(id),
    decreases bv.len(),
{
    if i == 0 {
    } else {
        assert(!(bv.first().0.digest == fnv64(d) && bv.first().1 == d)) by {
            assert(!((bv[0]).0.digest == (bv[i]).0.digest && bv[0].1 == bv[i].1));
        }
        assert(bv.drop_first()[i - 1] == bv[i]);
        assert(forall|a: int, b: int|
            0 <= a < b < bv.drop_first().len() ==> (#[trigger] bv.drop_first()[a]) == bv[a + 1]
                && (#[trigger] bv.drop_first()[b]) == bv[b + 1]);
        lemma_dedup_find_self(bv.drop_first(), id, d, i - 1);
    }
}

/// The stored pair behind a resolvable address.
proof fn lemma_lookup_in(bv: Seq<(BlobId, Seq<u8>)>, id: BlobId, d: Seq<u8>)
    requires
        blob_lookup(bv, id) == Some(d),
    ensures
        exists|i: int| 0 <= i < bv.len() && (#[trigger] bv[i]) == (id, d),
    decreases bv.len(),
{
    if bv.len() > 0 {
        if bv.first().0 == id {
            assert(bv[0] == (id, d));
        } else {
            lemma_lookup_in(bv.drop_first(), id, d);
            let i = choose|i: int|
                0 <= i < bv.drop_first().len() && (#[trigger] bv.drop_first()[i]) == (id, d);
            assert(bv[i + 1] == (id, d));
        }
    }
}

/// The capture/restore round trip on one file: after a file's recorded
/// state is restored, capturing that path reports the very same state,
/// so a rolled-back change is invisible to a fresh capture.
pub proof fn lemma_capture_after_restore(
    bv: Seq<(BlobId, Seq<u8>)>,
    ev_fs: Seq<(Seq<u8>, (bool, Seq<u8>, Seq<(Seq<u8>, Seq<u8>)>))>,
    path: Seq<u8>,
    st: EntityState,
    d: Seq<u8>,
)
    requires
        dedup_wf(bv),
        crate::fs::fs_unique(ev_fs),
        st.kind == EntityKind::File,
        st.blob matches Some(id) && blob_lookup(bv, id) == Some(d) && id.digest == fnv64(d),
    ensures
        spec_capture_state(
            bv,
            crate::fs::spec_fs_set(ev_fs, path, (false, d, Seq::<(Seq<u8>, Seq<u8>)>::empty())),
            path,
        ) == st,
{
    let id = st.blob.unwrap();
    let fs2 = crate::fs::spec_fs_set(ev_fs, path, (false, d, Seq::<(Seq<u8>, Seq<u8>)>::empty()));
    crate::fs::lemma_fs_frame(ev_fs, path, (false, d, Seq::<(Seq<u8>, Seq<u8>)>::empty()), path);
    assert(crate::fs::fs_lookup(fs2, path) == Some(
        (false, d, Seq::<(Seq<u8>, Seq<u8>)>::empty()),
    ));
    lemma_lookup_in(bv, id, d);
    let i = choose|i: int| 0 <= i < bv.len() && (#[trigger] bv[i]) == (id, d);
    lemma_dedup_find_self(bv, id, d, i);
    assert(spec_store_id(bv, d) == id);
}
} // verus!
