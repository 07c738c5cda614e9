//! Deduplication of in-flight terrain generation.
//!
//! Many players can stand near the same region, and generation is costly, so
//! at most one generation task may run per (bounds, level of detail) key.  A
//! duplicate request attaches its (client, reason) pair to the existing
//! record's waiter list instead of spawning new work; completion drains the
//! list and the record is destroyed.

use vstd::prelude::*;
use crate::protocol::{ClientId, VoxelReason};
use crate::space::Bounds;

verus! {

/// The key of one unit of generation work: a region and the level of detail
/// it is to be generated at.
#[derive(Copy, Clone, PartialEq, Eq, Structural, Debug)]
pub struct TerrainKey {
    pub bounds: Bounds,
    pub lod: u8,
}

/// A client waiting on a generation task, and why it asked.  The reason is
/// echoed verbatim when the block is delivered, so a `Requested` waiter keeps
/// the original request timestamp.
#[derive(Copy, Clone, PartialEq, Eq, Structural, Debug)]
pub struct Waiter {
    pub client: ClientId,
    pub reason: VoxelReason,
}

/// One in-flight generation task: its key and the clients awaiting it.
pub struct Record {
    pub key: TerrainKey,
    pub waiters: Vec<Waiter>,
}

/// The mathematical state of a tracker: the tracked keys in creation order,
/// each with its waiter list.
pub type TrackerView = Seq<(TerrainKey, Seq<Waiter>)>;

/// Key `k` is tracked in `m`.
pub open spec fn has_key(m: TrackerView, k: TerrainKey) -> bool {
    exists|i: int| 0 <= i < m.len() && (#[trigger] m[i]).0 == k
}

/// The index of key `k` in `m` (meaningful only when `has_key(m, k)` and the
/// keys of `m` are distinct).
pub open spec fn key_index(m: TrackerView, k: TerrainKey) -> int {
    choose|i: int| 0 <= i < m.len() && (#[trigger] m[i]).0 == k
}

/// The waiters recorded for key `k`.
pub open spec fn waiters_of(m: TrackerView, k: TerrainKey) -> Seq<Waiter> {
    m[key_index(m, k)].1
}

/// No two records share a key: the heart of the at-most-one-task guarantee.
pub open spec fn distinct_keys(m: TrackerView) -> bool {
    forall|i: int, j: int|
        0 <= i < m.len() && 0 <= j < m.len() && i != j ==> (#[trigger] m[i]).0 != (
        #[trigger] m[j]).0
}

/// The effect of one `request` call on tracked state: if the key is already
/// tracked the waiter joins its record and no task is spawned; otherwise a
/// new record with the single waiter is appended and one task is spawned.
/// The second component is whether a task was spawned.
pub open spec fn spec_request(m: TrackerView, k: TerrainKey, w: Waiter) -> (TrackerView, bool) {
    if has_key(m, k) {
        (m.update(key_index(m, k), (k, m[key_index(m, k)].1.push(w))), false)
    } else {
        (m.push((k, seq![w])), true)
    }
}

/// The effect of one `complete` call: the key's record is destroyed and its
/// waiters are handed back for notification; completing an untracked key
/// (dropped or evicted work) changes nothing.
pub open spec fn spec_complete(m: TrackerView, k: TerrainKey) -> (TrackerView, Option<
    Seq<Waiter>,
>) {
    if has_key(m, k) {
        (m.remove(key_index(m, k)), Some(waiters_of(m, k)))
    } else {
        (m, None)
    }
}

/// What one `request` does, spelled out per key: the requested key gains
/// exactly the one waiter, every other key is untouched, a task is spawned
/// if and only if the key was new, and keys stay distinct.
pub proof fn lemma_request_effect(m: TrackerView, k: TerrainKey, w: Waiter)
    requires
        distinct_keys(m),
    ensures
        ({
            let (m2, spawned) = spec_request(m, k, w);
            &&& spawned == !has_key(m, k)
            &&& has_key(m2, k)
            &&& distinct_keys(m2)
            &&& waiters_of(m2, k) == if has_key(m, k) {
                waiters_of(m, k).push(w)
            } else {
                seq![w]
            }
            &&& forall|k2: TerrainKey|
                k2 != k ==> #[trigger] has_key(m2, k2) == has_key(m, k2) && (has_key(m, k2)
                    ==> waiters_of(m2, k2) == waiters_of(m, k2))
        }),
{
    let (m2, spawned) = spec_request(m, k, w);
    if has_key(m, k) {
        let i = key_index(m, k);
        assert(0 <= i < m.len() && m[i].0 == k);
        assert(m2[i].0 == k);
        assert(has_key(m2, k));
        assert(key_index(m2, k) == i);
        assert forall|k2: TerrainKey| k2 != k implies #[trigger] has_key(m2, k2) == has_key(m, k2)
            && (has_key(m, k2) ==> waiters_of(m2, k2) == waiters_of(m, k2)) by {
            if has_key(m, k2) {
                let j = key_index(m, k2);
                assert(m2[j] == m[j]);
                assert(has_key(m2, k2));
                assert(key_index(m2, k2) == j);
            }
            if has_key(m2, k2) {
                let j = key_index(m2, k2);
                assert(m[j].0 == k2);
                assert(has_key(m, k2));
            }
        }
    } else {
        let n = m.len() as int;
        assert(m2[n].0 == k);
        assert(has_key(m2, k));
        assert(key_index(m2, k) == n);
        assert forall|k2: TerrainKey| k2 != k implies #[trigger] has_key(m2, k2) == has_key(m, k2)
            && (has_key(m, k2) ==> waiters_of(m2, k2) == waiters_of(m, k2)) by {
            if has_key(m, k2) {
                let j = key_index(m, k2);
                assert(m2[j] == m[j]);
                assert(has_key(m2, k2));
                assert(key_index(m2, k2) == j);
            }
            if has_key(m2, k2) {
                let j = key_index(m2, k2);
                assert(j < n);
                assert(m[j].0 == k2);
                assert(has_key(m, k2));
            }
        }
    }
}

/// The dedup guarantee: starting from a state that does not track `k`, any
/// run of requests for `k` spawns exactly one generation task, and every
/// requester is on the waiter list when the run ends.
pub proof fn lemma_request_dedup(m: TrackerView, k: TerrainKey, ws: Seq<Waiter>)
    requires
        distinct_keys(m),
        !has_key(m, k),
        ws.len() > 0,
    ensures
        ({
            let (m2, spawned) = spec_request_all(m, k, ws);
            &&& spawned == 1
            &&& has_key(m2, k)
            &&& waiters_of(m2, k) == ws
            &&& distinct_keys(m2)
        }),
{
    lemma_request_effect(m, k, ws[0]);
    let (m1, sp1) = spec_request(m, k, ws[0]);
    lemma_request_all_existing(m1, k, ws.drop_first());
    assert(seq![ws[0]] + ws.drop_first() =~= ws);
}

/// Requests against an already-tracked key never spawn: they only append to
/// the waiter list.
pub proof fn lemma_request_all_existing(m: TrackerView, k: TerrainKey, ws: Seq<Waiter>)
    requires
        distinct_keys(m),
        has_key(m, k),
    ensures
        ({
            let (m2, spawned) = spec_request_all(m, k, ws);
            &&& spawned == 0
            &&& has_key(m2, k)
            &&& waiters_of(m2, k) == waiters_of(m, k) + ws
            &&& distinct_keys(m2)
        }),
    decreases ws.len(),
{
    if ws.len() == 0 {
        assert(waiters_of(m, k) + ws =~= waiters_of(m, k));
    } else {
        lemma_request_effect(m, k, ws[0]);
        let (m1, sp1) = spec_request(m, k, ws[0]);
        lemma_request_all_existing(m1, k, ws.drop_first());
        let (m2, spawned) = spec_request_all(m, k, ws);
        assert(waiters_of(m, k).push(ws[0]) + ws.drop_first() =~= waiters_of(m, k) + ws);
    }
}

/// Dedup, end to end: after any number of concurrent requests for one
/// fresh key, exactly one generation task has been spawned, and the
/// completion hands back exactly those requesters, in arrival order, with
/// the record destroyed.
pub proof fn lemma_dedup_notification(m: TrackerView, k: TerrainKey, ws: Seq<Waiter>)
    requires
        distinct_keys(m),
        !has_key(m, k),
        ws.len() > 0,
    ensures
        ({
            let (m2, spawned) = spec_request_all(m, k, ws);
            let (m3, drained) = spec_complete(m2, k);
            &&& spawned == 1
            &&& drained == Some(ws)
            &&& !has_key(m3, k)
            &&& distinct_keys(m3)
        }),
{
    lemma_request_dedup(m, k, ws);
    let (m2, spawned) = spec_request_all(m, k, ws);
    let (m3, drained) = spec_complete(m2, k);
    let ki = key_index(m2, k);
    assert(0 <= ki < m2.len() && m2[ki].0 == k);
    assert forall|a: int, b: int|
        0 <= a < m3.len() && 0 <= b < m3.len() && a != b implies (#[trigger] m3[a]).0 != (
    #[trigger] m3[b]).0 by {
        let lift = |x: int| if x < ki { x } else { x + 1 };
        assert(m3[a] == m2[lift(a)] && m3[b] == m2[lift(b)]);
    }
    if has_key(m3, k) {
        let j = key_index(m3, k);
        assert(0 <= j < m3.len() && m3[j].0 == k);
        let jj = if j < ki { j } else { j + 1 };
        assert(m3[j] == m2[jj]);
        assert(m2[jj].0 == k && jj != ki);
    }
}

/// The result of issuing every request in `ws` for the one key `k`, in
/// order, with the total number of generation tasks spawned.
pub open spec fn spec_request_all(m: TrackerView, k: TerrainKey, ws: Seq<Waiter>) -> (
    TrackerView,
    int,
)
    decreases ws.len(),
{
    if ws.len() == 0 {
        (m, 0)
    } else {
        let (m1, sp) = spec_request(m, k, ws[0]);
        let (m2, n) = spec_request_all(m1, k, ws.drop_first());
        (m2, n + if sp {
            1int
        } else {
            0int
        })
    }
}

/// Deduplicates concurrent terrain generation requests.
///
/// The tracked state is `model()`: one record per in-flight (bounds, level
/// of detail) key, with the clients waiting on it.
pub struct Tracker {
    records: Vec<Record>,
}

impl Tracker {
    /// The tracked keys in creation order, each with its waiter list.
    pub closed spec fn model(self) -> TrackerView {
        self.records@.map(|i: int, r: Record| (r.key, r.waiters@))
    }

    /// No two records share a key.
    pub open spec fn wf(self) -> bool {
        distinct_keys(self.model())
    }

    /// An empty tracker: nothing in flight.
    pub fn new() -> (r: Tracker)
        ensures
            r.model() == Seq::<(TerrainKey, Seq<Waiter>)>::empty(),
            r.wf(),
    {
        let r = Tracker { records: Vec::new() };
        proof {
            assert(r.model() =~= Seq::<(TerrainKey, Seq<Waiter>)>::empty());
        }
        r
    }

    /// Records that `client` wants `bounds` generated at `lod` for `reason`.
    /// Returns whether the caller must spawn a generation task: true exactly
    /// when no task for this key was already in flight.
    #[verifier::loop_isolation(false)]
    pub fn request(&mut self, bounds: Bounds, lod: u8, client: ClientId, reason: VoxelReason) -> (
        spawn: bool)
        requires
            old(self).wf(),
        ensures
            final(self).wf(),
            ({
                let k = (TerrainKey { bounds, lod });
                let w = (Waiter { client, reason });
                let (m2, sp) = spec_request(old(self).model(), k, w);
                final(self).model() == m2 && spawn == sp
            }),
    {
        let key = TerrainKey { bounds, lod };
        let w = Waiter { client, reason };
        let ghost m = self.model();
        let n: usize = self.records.len();
        let mut i: usize = 0;
        while i < n
            invariant
                n == self.records.len(),
                0 <= i <= n,
                forall|j: int| 0 <= j < i ==> (#[trigger] m[j]).0 != key,
                m == self.model(),
                distinct_keys(m),
            decreases n - i,
        {
            if self.records[i].key == key {
                proof {
                    assert(m[i as int].0 == key);
                    assert(has_key(m, key));
                    assert(key_index(m, key) == i as int);
                }
                let mut rec = self.records.remove(i);
                rec.waiters.push(w);
                self.records.insert(i, rec);
                proof {
                    assert(self.model() =~= m.update(i as int, (key, m[i as int].1.push(w))));
                }
                return false;
            }
            i += 1;
        }
        proof {
            assert(!has_key(m, key));
        }
        let mut waiters: Vec<Waiter> = Vec::new();
        waiters.push(w);
        self.records.push(Record { key, waiters });
        proof {
            assert(waiters@ =~= seq![w]);
            assert(self.model() =~= m.push((key, seq![w])));
            lemma_request_effect(m, key, w);
        }
        true
    }

    /// Tears down the record for a completed (or abandoned) key and hands
    /// back its waiters for notification; `None` if the key was not tracked,
    /// in which case the completed block is to be dropped.
    #[verifier::loop_isolation(false)]
    pub fn complete(&mut self, bounds: Bounds, lod: u8) -> (drained: Option<Vec<Waiter>>)
        requires
            old(self).wf(),
        ensures
            final(self).wf(),
            ({
                let k = (TerrainKey { bounds, lod });
                let (m2, dr) = spec_complete(old(self).model(), k);
                final(self).model() == m2 && (match drained {
                    Some(v) => dr == Some(v@),
                    None => dr is None,
                })
            }),
    {
        let key = TerrainKey { bounds, lod };
        let ghost m = self.model();
        let n: usize = self.records.len();
        let mut i: usize = 0;
        while i < n
            invariant
                n == self.records.len(),
                0 <= i <= n,
                forall|j: int| 0 <= j < i ==> (#[trigger] m[j]).0 != key,
                m == self.model(),
                distinct_keys(m),
            decreases n - i,
        {
            if self.records[i].key == key {
                proof {
                    assert(m[i as int].0 == key);
                    assert(has_key(m, key));
                    assert(key_index(m, key) == i as int);
                }
                let rec = self.records.remove(i);
                proof {
                    assert(self.model() =~= m.remove(i as int));
                    assert forall|a: int, b: int|
                        0 <= a < self.model().len() && 0 <= b < self.model().len() && a
                            != b implies (#[trigger] self.model()[a]).0 != (
                        #[trigger] self.model()[b]).0 by {
                        let lift = |x: int| if x < i as int { x } else { x + 1 };
                        assert(self.model()[a] == m[lift(a)] && self.model()[b] == m[lift(b)]);
                    }
                }
                return Some(rec.waiters);
            }
            i += 1;
        }
        proof {
            assert(!has_key(m, key));
        }
        None
    }

    /// Whether a generation task for this key is in flight.
    #[verifier::loop_isolation(false)]
    pub fn is_tracked(&self, bounds: Bounds, lod: u8) -> (r: bool)
        requires
            self.wf(),
        ensures
            r == has_key(self.model(), (TerrainKey { bounds, lod })),
    {
        let key = TerrainKey { bounds, lod };
        let ghost m = self.model();
        let n: usize = self.records.len();
        let mut i: usize = 0;
        while i < n
            invariant
                n == self.records.len(),
                0 <= i <= n,
                forall|j: int| 0 <= j < i ==> (#[trigger] m[j]).0 != key,
                m == self.model(),
            decreases n - i,
        {
            if self.records[i].key == key {
                proof {
                    assert(m[i as int].0 == key);
                }
                return true;
            }
            i += 1;
        }
        false
    }
}

} // verus!
