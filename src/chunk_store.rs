//! Content-addressed chunk store and its mark-and-sweep garbage collection.
//!
//! The store maps a 32-byte digest to the chunk bytes and the chunk's access
//! time. A chunk is never overwritten: inserting a digest that is present keeps
//! the existing bytes. Garbage collection touches every chunk referenced by an
//! index, then removes the chunks whose access time lies before the start of
//! the run minus a grace window.

use vstd::prelude::*;
use vstd::string::*;

use crate::tools::{hex_of, to_hex};

verus! {

/// Grace window of garbage collection: one day and five minutes, in seconds.
pub const GC_GRACE_SECONDS: i64 = 86700;

/// One stored chunk.
pub struct ChunkEntry {
    digest: [u8; 32],
    data: Vec<u8>,
    atime: i64,
}

/// Outcome of an insert.
#[derive(Clone, Copy, Debug, PartialEq, Eq, Structural)]
pub enum InsertOutcome {
    Inserted,
    AlreadyPresent,
}

/// Errors of garbage collection.
#[derive(Clone, Copy, Debug, PartialEq, Eq, Structural)]
pub enum GcError {
    /// An index references a chunk that is not in the store.
    DanglingReference,
}

/// Counters of a garbage-collection run.
#[derive(Clone, Copy, Debug, PartialEq, Eq, Structural)]
pub struct GarbageCollectionStatus {
    pub disk_bytes: u64,
    pub disk_chunks: u64,
    pub removed_bytes: u64,
    pub removed_chunks: u64,
    pub pending_bytes: u64,
    pub pending_chunks: u64,
}

/// A chunk store held in memory.
pub struct ChunkStore {
    entries: Vec<ChunkEntry>,
    contents: Ghost<Map<Seq<u8>, (Seq<u8>, int)>>,
}

/// The chunks that garbage collection keeps: those referenced, and those
/// accessed no earlier than the cutoff; referenced ones carry the start time.
pub open spec fn gc_outcome(
    store: Map<Seq<u8>, (Seq<u8>, int)>,
    referenced: Set<Seq<u8>>,
    t_start: int,
) -> Map<Seq<u8>, (Seq<u8>, int)> {
    Map::new(
        |d: Seq<u8>|
            store.contains_key(d) && (referenced.contains(d) || store[d].1 >= t_start
                - GC_GRACE_SECONDS),
        |d: Seq<u8>|
            (store[d].0, if referenced.contains(d) {
                t_start
            } else {
                store[d].1
            }),
    )
}

/// The chunks of a store last accessed before `t`.
pub open spec fn older_than(store: Map<Seq<u8>, (Seq<u8>, int)>, t: int) -> Set<Seq<u8>> {
    store.dom().filter(|d: Seq<u8>| store[d].1 < t)
}

/// The digests of a list.
pub open spec fn digest_set(digests: Seq<[u8; 32]>) -> Set<Seq<u8>> {
    Set::new(|d: Seq<u8>| exists|k: int| 0 <= k < digests.len() && (#[trigger] digests[k])@ == d)
}

/// `store` with the access time of the digests in `done` set to `t`.
pub open spec fn touched(
    store: Map<Seq<u8>, (Seq<u8>, int)>,
    done: Set<Seq<u8>>,
    t: int,
) -> Map<Seq<u8>, (Seq<u8>, int)> {
    Map::new(
        |d: Seq<u8>| store.contains_key(d),
        |d: Seq<u8>|
            (store[d].0, if done.contains(d) {
                t
            } else {
                store[d].1
            }),
    )
}

fn digest_eq(a: &[u8; 32], b: &[u8; 32]) -> (r: bool)
    ensures
        r == (a@ == b@),
{
    let mut i: usize = 0;
    while i < 32
        invariant
            i <= 32,
            a@.len() == 32,
            b@.len() == 32,
            forall|k: int| 0 <= k < i ==> a@[k] == b@[k],
        decreases 32 - i,
    {
        if a[i] != b[i] {
            return false;
        }
        i = i + 1;
    }
    assert(a@ =~= b@);
    true
}

fn copy_bytes(v: &Vec<u8>) -> (r: Vec<u8>)
    ensures
        r@ == v@,
{
    let mut r: Vec<u8> = Vec::new();
    let mut i: usize = 0;
    while i < v.len()
        invariant
            i <= v@.len(),
            r@ == v@.subrange(0, i as int),
        decreases v@.len() - i,
    {
        r.push(v[i]);
        i = i + 1;
        assert(r@ =~= v@.subrange(0, i as int));
    }
    assert(v@.subrange(0, i as int) =~= v@);
    r
}

impl ChunkStore {
    /// Digest to bytes and access time.
    pub closed spec fn view(&self) -> Map<Seq<u8>, (Seq<u8>, int)> {
        self.contents@
    }

    pub closed spec fn wf(&self) -> bool {
        &&& self.contents@.dom().finite()
        &&& self.contents@.dom().len() == self.entries@.len()
        &&& forall|i: int|
            0 <= i < self.entries@.len() ==> {
                let e = #[trigger] self.entries@[i];
                &&& self.contents@.contains_key(e.digest@)
                &&& self.contents@[e.digest@] == (e.data@, e.atime as int)
            }
        &&& forall|i: int, j: int|
            0 <= i < j < self.entries@.len() ==> (#[trigger] self.entries@[i]).digest@
                != (#[trigger] self.entries@[j]).digest@
        &&& forall|d: Seq<u8>|
            #[trigger] self.contents@.contains_key(d) ==> exists|i: int|
                0 <= i < self.entries@.len() && (#[trigger] self.entries@[i]).digest@ == d
    }

    /// An empty store.
    pub fn new() -> (r: Self)
        ensures
            r.wf(),
            r.view() == Map::<Seq<u8>, (Seq<u8>, int)>::empty(),
    {
        ChunkStore { entries: Vec::new(), contents: Ghost(Map::empty()) }
    }

    fn find(&self, digest: &[u8; 32]) -> (r: Option<usize>)
        requires
            self.wf(),
        ensures
            r is Some ==> r->Some_0 < self.entries@.len() && self.entries@[r->Some_0 as int].digest@
                == digest@,
            r is None ==> !self.view().contains_key(digest@),
    {
        let mut i: usize = 0;
        while i < self.entries.len()
            invariant
                i <= self.entries@.len(),
                forall|k: int| 0 <= k < i ==> self.entries@[k].digest@ != digest@,
            decreases self.entries@.len() - i,
        {
            if digest_eq(&self.entries[i].digest, digest) {
                return Some(i);
            }
            i = i + 1;
        }
        None
    }

    /// Whether a chunk with this digest is stored.
    pub fn contains(&self, digest: &[u8; 32]) -> (r: bool)
        requires
            self.wf(),
        ensures
            r == self.view().contains_key(digest@),
    {
        self.find(digest).is_some()
    }

    /// Stores a chunk, unless one with the same digest is present; the
    /// present one then stays as it is.
    pub fn insert(&mut self, digest: &[u8; 32], data: Vec<u8>, now: i64) -> (r: InsertOutcome)
        requires
            old(self).wf(),
        ensures
            final(self).wf(),
            old(self).view().contains_key(digest@) ==> r == InsertOutcome::AlreadyPresent
                && final(self).view() == old(self).view(),
            !old(self).view().contains_key(digest@) ==> r == InsertOutcome::Inserted
                && final(self).view() == old(self).view().insert(digest@, (data@, now as int)),
    {
        match self.find(digest) {
            Some(_) => InsertOutcome::AlreadyPresent,
            None => {
                let ghost old_entries = self.entries@;
                let e = ChunkEntry { digest: *digest, data, atime: now };
                self.contents = Ghost(self.contents@.insert(digest@, (e.data@, now as int)));
                self.entries.push(e);
                proof {
                    assert forall|d: Seq<u8>| #[trigger] self.contents@.contains_key(d) implies exists|i: int|
                        0 <= i < self.entries@.len() && (#[trigger] self.entries@[i]).digest@ == d by {
                        if d == digest@ {
                            assert(self.entries@[old_entries.len() as int].digest@ == d);
                        } else {
                            let i = choose|i: int| 0 <= i < old_entries.len() && (#[trigger] old_entries[i]).digest@ == d;
                            assert(self.entries@[i] == old_entries[i]);
                        }
                    }
                    assert forall|i: int| 0 <= i < self.entries@.len() implies {
                        let e = #[trigger] self.entries@[i];
                        &&& self.contents@.contains_key(e.digest@)
                        &&& self.contents@[e.digest@] == (e.data@, e.atime as int)
                    } by {
                        if i < old_entries.len() {
                            assert(self.entries@[i] == old_entries[i]);
                        }
                    }
                    assert forall|i: int, j: int| 0 <= i < j < self.entries@.len() implies (#[trigger] self.entries@[i]).digest@
                        != (#[trigger] self.entries@[j]).digest@ by {
                        assert(self.entries@[i] == old_entries[i]);
                        if j < old_entries.len() {
                            assert(self.entries@[j] == old_entries[j]);
                        }
                    }
                }
                InsertOutcome::Inserted
            },
        }
    }

    /// The bytes of a chunk, if stored.
    pub fn read(&self, digest: &[u8; 32]) -> (r: Option<Vec<u8>>)
        requires
            self.wf(),
        ensures
            r is Some <==> self.view().contains_key(digest@),
            r is Some ==> r->Some_0@ == self.view()[digest@].0,
    {
        match self.find(digest) {
            Some(i) => Some(copy_bytes(&self.entries[i].data)),
            None => None,
        }
    }

    /// Sets the access time of a chunk to `now`; nothing happens to a missing
    /// chunk. Returns whether it was present.
    pub fn touch(&mut self, digest: &[u8; 32], now: i64) -> (r: bool)
        requires
            old(self).wf(),
        ensures
            final(self).wf(),
            r == old(self).view().contains_key(digest@),
            r ==> final(self).view() == old(self).view().insert(
                digest@,
                (old(self).view()[digest@].0, now as int),
            ),
            !r ==> final(self).view() == old(self).view(),
    {
        match self.find(digest) {
            None => false,
            Some(i) => {
                let ghost old_entries = self.entries@;
                let mut e = self.entries.remove(i);
                e.atime = now;
                self.contents = Ghost(self.contents@.insert(digest@, (e.data@, now as int)));
                self.entries.insert(i, e);
                proof {
                    assert(self.entries@ == old_entries.update(i as int, self.entries@[i as int]));
                    assert forall|d: Seq<u8>| #[trigger] self.contents@.contains_key(d) implies exists|k: int|
                        0 <= k < self.entries@.len() && (#[trigger] self.entries@[k]).digest@ == d by {
                        if d != digest@ {
                            let k = choose|k: int| 0 <= k < old_entries.len() && (#[trigger] old_entries[k]).digest@ == d;
                            assert(self.entries@[k] == old_entries[k]);
                        } else {
                            assert(self.entries@[i as int].digest@ == d);
                        }
                    }
                    assert forall|k: int| 0 <= k < self.entries@.len() implies {
                        let e = #[trigger] self.entries@[k];
                        &&& self.contents@.contains_key(e.digest@)
                        &&& self.contents@[e.digest@] == (e.data@, e.atime as int)
                    } by {
                        if k != i {
                            assert(self.entries@[k] == old_entries[k]);
                            assert(old_entries[k].digest@ != old_entries[i as int].digest@);
                        }
                    }
                    assert forall|a: int, b: int| 0 <= a < b < self.entries@.len() implies (#[trigger] self.entries@[a]).digest@
                        != (#[trigger] self.entries@[b]).digest@ by {
                        assert(self.entries@[a].digest@ == old_entries[a].digest@);
                        assert(self.entries@[b].digest@ == old_entries[b].digest@);
                    }
                }
                true
            },
        }
    }

    /// Removes a chunk if its access time lies before `cutoff`; returns
    /// whether it was removed.
    pub fn remove_if_older(&mut self, digest: &[u8; 32], cutoff: i64) -> (r: bool)
        requires
            old(self).wf(),
        ensures
            final(self).wf(),
            r == (old(self).view().contains_key(digest@) && old(self).view()[digest@].1 < cutoff),
            r ==> final(self).view() == old(self).view().remove(digest@),
            !r ==> final(self).view() == old(self).view(),
    {
        match self.find(digest) {
            None => false,
            Some(i) => {
                if self.entries[i].atime >= cutoff {
                    return false;
                }
                self.remove_at(i);
                true
            },
        }
    }

    fn remove_at(&mut self, i: usize)
        requires
            old(self).wf(),
            i < old(self).entries@.len(),
        ensures
            final(self).wf(),
            final(self).entries@ == old(self).entries@.remove(i as int),
            final(self).view() == old(self).view().remove(old(self).entries@[i as int].digest@),
    {
        let ghost old_entries = self.entries@;
        let ghost d = old_entries[i as int].digest@;
        let _e = self.entries.remove(i);
        self.contents = Ghost(self.contents@.remove(d));
        proof {
            assert forall|x: Seq<u8>| #[trigger] self.contents@.contains_key(x) implies exists|k: int|
                0 <= k < self.entries@.len() && (#[trigger] self.entries@[k]).digest@ == x by {
                let k = choose|k: int| 0 <= k < old_entries.len() && (#[trigger] old_entries[k]).digest@ == x;
                assert(k != i);
                if k < i {
                    assert(self.entries@[k] == old_entries[k]);
                } else {
                    assert(self.entries@[k - 1] == old_entries[k]);
                }
            }
            assert forall|k: int| 0 <= k < self.entries@.len() implies {
                let e = #[trigger] self.entries@[k];
                &&& self.contents@.contains_key(e.digest@)
                &&& self.contents@[e.digest@] == (e.data@, e.atime as int)
            } by {
                if k < i {
                    assert(self.entries@[k] == old_entries[k]);
                    assert(old_entries[k].digest@ != d);
                } else {
                    assert(self.entries@[k] == old_entries[k + 1]);
                    assert(old_entries[k + 1].digest@ != d);
                }
            }
            assert forall|a: int, b: int| 0 <= a < b < self.entries@.len() implies (#[trigger] self.entries@[a]).digest@
                != (#[trigger] self.entries@[b]).digest@ by {
                let oa = if a < i { a } else { a + 1 };
                let ob = if b < i { b } else { b + 1 };
                assert(self.entries@[a] == old_entries[oa]);
                assert(self.entries@[b] == old_entries[ob]);
            }
        }
    }

    /// Garbage collection started at `t_start` over the chunks that the
    /// indexes of all snapshots reference. Mark: every referenced chunk is
    /// touched; a missing one aborts the run. Sweep: chunks accessed before
    /// `t_start` minus the grace window are removed.
    pub fn garbage_collection(&mut self, referenced: &Vec<[u8; 32]>, t_start: i64) -> (r: Result<
        GarbageCollectionStatus,
        GcError,
    >)
        requires
            old(self).wf(),
            t_start >= i64::MIN + GC_GRACE_SECONDS,
        ensures
            final(self).wf(),
            r is Ok <==> digest_set(referenced@).subset_of(old(self).view().dom()),
            r is Err ==> r == Err::<GarbageCollectionStatus, GcError>(GcError::DanglingReference),
            r is Ok ==> final(self).view() == gc_outcome(
                old(self).view(),
                digest_set(referenced@),
                t_start as int,
            ),
            r is Ok ==> r->Ok_0.disk_chunks == final(self).view().dom().len(),
            r is Ok ==> r->Ok_0.removed_chunks == old(self).view().dom().len() - final(self).view().dom().len(),
            r is Ok ==> r->Ok_0.pending_chunks == older_than(final(self).view(), t_start as int).len(),
    {
        let ghost start = self.view();
        let ghost mut done: Set<Seq<u8>> = Set::empty();
        let mut k: usize = 0;
        while k < referenced.len()
            invariant
                self.wf(),
                k <= referenced@.len(),
                done == Set::new(|d: Seq<u8>| exists|q: int| 0 <= q < k && (#[trigger] referenced@[q])@ == d),
                done.subset_of(start.dom()),
                start == old(self).view(),
                self.view() == touched(start, done, t_start as int),
            decreases referenced@.len() - k,
        {
            let ghost d = referenced@[k as int]@;
            if !self.touch(&referenced[k], t_start) {
                proof {
                    assert(!start.contains_key(d));
                    assert(referenced@[k as int]@ == d);
                    assert(digest_set(referenced@).contains(d));
                    assert(!start.dom().contains(d));
                    assert(!digest_set(referenced@).subset_of(start.dom()));
                }
                return Err(GcError::DanglingReference);
            }
            proof {
                let nd = done.insert(d);
                assert(self.view() =~= touched(start, nd, t_start as int));
                done = nd;
            }
            k = k + 1;
            proof {
                assert(done =~= Set::new(|x: Seq<u8>| exists|q: int| 0 <= q < k && (#[trigger] referenced@[q])@ == x)) by {
                    assert forall|x: Seq<u8>| done.contains(x) implies exists|q: int| 0 <= q < k && (#[trigger] referenced@[q])@ == x by {
                        if x == d {
                            assert(referenced@[k - 1]@ == x);
                        }
                    }
                }
            }
        }
        proof {
            assert(done =~= digest_set(referenced@));
        }
        let ghost marked = self.view();
        let n0 = self.entries.len();
        let ghost marked_len = n0 as nat;
        let ghost mut pend: Set<Seq<u8>> = Set::empty();
        let cutoff = t_start - GC_GRACE_SECONDS;
        let mut status = GarbageCollectionStatus {
            disk_bytes: 0,
            disk_chunks: 0,
            removed_bytes: 0,
            removed_chunks: 0,
            pending_bytes: 0,
            pending_chunks: 0,
        };
        let mut i: usize = 0;
        while i < self.entries.len()
            invariant
                self.wf(),
                i <= self.entries@.len(),
                cutoff == t_start - GC_GRACE_SECONDS,
                marked_len == marked.dom().len(),
                marked_len <= usize::MAX,
                self.entries@.len() <= marked_len,
                status.removed_chunks == marked_len - self.entries@.len(),
                status.disk_chunks == i,
                pend.finite(),
                status.pending_chunks == pend.len(),
                status.pending_chunks <= i,
                forall|d: Seq<u8>|
                    pend.contains(d) <==> exists|q: int|
                        0 <= q < i && (#[trigger] self.entries@[q]).digest@ == d && self.entries@[q].atime
                            < t_start,
                forall|d: Seq<u8>| #[trigger] self.view().contains_key(d) ==> marked.contains_key(d) && self.view()[d] == marked[d],
                forall|d: Seq<u8>| #[trigger] marked.contains_key(d) && marked[d].1 >= cutoff ==> self.view().contains_key(d),
                forall|q: int| 0 <= q < i ==> (#[trigger] self.entries@[q]).atime >= cutoff,
            decreases self.entries@.len() - i,
        {
            let atime = self.entries[i].atime;
            let size = self.entries[i].data.len() as u64;
            if atime < cutoff {
                status.removed_chunks = status.removed_chunks.saturating_add(1);
                status.removed_bytes = status.removed_bytes.saturating_add(size);
                let ghost before = self.entries@;
                self.remove_at(i);
                proof {
                    assert forall|q: int| 0 <= q < i implies (#[trigger] self.entries@[q]).atime >= cutoff by {
                        assert(self.entries@[q] == before[q]);
                    }
                    assert forall|d: Seq<u8>|
                        pend.contains(d) <==> exists|q: int|
                            0 <= q < i && (#[trigger] self.entries@[q]).digest@ == d && self.entries@[q].atime
                                < t_start by {
                        if pend.contains(d) {
                            let q = choose|q: int|
                                0 <= q < i && (#[trigger] before[q]).digest@ == d && before[q].atime < t_start;
                            assert(self.entries@[q] == before[q]);
                        }
                        if exists|q: int|
                            0 <= q < i && (#[trigger] self.entries@[q]).digest@ == d && self.entries@[q].atime
                                < t_start {
                            let q = choose|q: int|
                                0 <= q < i && (#[trigger] self.entries@[q]).digest@ == d && self.entries@[q].atime
                                    < t_start;
                            assert(self.entries@[q] == before[q]);
                        }
                    }
                }
            } else {
                let ghost d = self.entries@[i as int].digest@;
                if atime < t_start {
                    status.pending_chunks = status.pending_chunks.saturating_add(1);
                    status.pending_bytes = status.pending_bytes.saturating_add(size);
                    proof {
                        assert(!pend.contains(d)) by {
                            if pend.contains(d) {
                                let q = choose|q: int|
                                    0 <= q < i && (#[trigger] self.entries@[q]).digest@ == d && self.entries@[q].atime
                                        < t_start;
                                assert(self.entries@[q].digest@ != self.entries@[i as int].digest@);
                            }
                        }
                        pend = pend.insert(d);
                    }
                }
                status.disk_chunks = status.disk_chunks.saturating_add(1);
                status.disk_bytes = status.disk_bytes.saturating_add(size);
                i = i + 1;
                proof {
                    assert forall|x: Seq<u8>|
                        pend.contains(x) <==> exists|q: int|
                            0 <= q < i && (#[trigger] self.entries@[q]).digest@ == x && self.entries@[q].atime
                                < t_start by {
                        if x == d && atime < t_start {
                            assert(self.entries@[i - 1].digest@ == x);
                        }
                        if exists|q: int|
                            0 <= q < i && (#[trigger] self.entries@[q]).digest@ == x && self.entries@[q].atime
                                < t_start {
                            let q = choose|q: int|
                                0 <= q < i && (#[trigger] self.entries@[q]).digest@ == x && self.entries@[q].atime
                                    < t_start;
                            if q == i - 1 {
                                assert(x == d);
                            }
                        }
                    }
                }
            }
        }
        proof {
            assert(self.view() =~= gc_outcome(start, digest_set(referenced@), t_start as int)) by {
                assert forall|d: Seq<u8>| #[trigger] self.view().contains_key(d) implies marked[d].1 >= cutoff by {
                    let q = choose|q: int| 0 <= q < self.entries@.len() && (#[trigger] self.entries@[q]).digest@ == d;
                    assert(self.entries@[q].atime >= cutoff);
                }
            }
            assert(pend =~= older_than(self.view(), t_start as int)) by {
                assert forall|d: Seq<u8>| older_than(self.view(), t_start as int).contains(d) implies pend.contains(d) by {
                    let q = choose|q: int| 0 <= q < self.entries@.len() && (#[trigger] self.entries@[q]).digest@ == d;
                    assert(self.entries@[q].atime < t_start);
                }
            }
            assert(marked.dom() =~= start.dom());
        }
        Ok(status)
    }
}

/// A chunk inserted into a store where its digest is absent, or present with
/// the same bytes, reads back byte for byte.
pub proof fn lemma_insert_then_read(
    store: Map<Seq<u8>, (Seq<u8>, int)>,
    d: Seq<u8>,
    bytes: Seq<u8>,
    now: int,
)
    requires
        !store.contains_key(d) || store[d].0 == bytes,
    ensures
        ({
            let after = if store.contains_key(d) {
                store
            } else {
                store.insert(d, (bytes, now))
            };
            after.contains_key(d) && after[d].0 == bytes
        }),
{
}

/// Garbage collection keeps every stored chunk that an index references,
/// with its bytes.
pub proof fn lemma_gc_keeps_referenced(
    store: Map<Seq<u8>, (Seq<u8>, int)>,
    referenced: Set<Seq<u8>>,
    t_start: int,
    d: Seq<u8>,
)
    requires
        store.contains_key(d),
        referenced.contains(d),
    ensures
        gc_outcome(store, referenced, t_start).contains_key(d),
        gc_outcome(store, referenced, t_start)[d].0 == store[d].0,
{
}

/// A chunk touched no earlier than the grace window before the start of a
/// garbage-collection run survives that run, referenced or not.
pub proof fn lemma_touch_within_grace_survives(
    store: Map<Seq<u8>, (Seq<u8>, int)>,
    d: Seq<u8>,
    t_touch: int,
    referenced: Set<Seq<u8>>,
    t_start: int,
)
    requires
        store.contains_key(d),
        t_start - GC_GRACE_SECONDS <= t_touch,
    ensures
        gc_outcome(store.insert(d, (store[d].0, t_touch)), referenced, t_start).contains_key(d),
{
}

/// `<base>/.chunks/<first four hex digits>/<all 64 hex digits>`: where a chunk
/// is stored on disk.
pub fn chunk_path(base: &str, digest: &[u8; 32]) -> (r: String)
    ensures
        r@ == base@ + seq!['/', '.', 'c', 'h', 'u', 'n', 'k', 's', '/'] + hex_of(digest@.subrange(0, 2))
            + seq!['/'] + hex_of(digest@),
{
    let prefix: [u8; 2] = [digest[0], digest[1]];
    assert(prefix@ =~= digest@.subrange(0, 2));
    let mut r = String::from_str(base);
    proof {
        reveal_strlit("/.chunks/");
        reveal_strlit("/");
    }
    r.append("/.chunks/");
    let shard = to_hex(&prefix);
    r.append(shard.as_str());
    r.append("/");
    let name = to_hex(digest);
    r.append(name.as_str());
    r
}

} // verus!
