//! The per-entity record of replicated components that were removed.
//!
//! A tracker is a hash map. The order in which it is walked is open, so a scan
//! reads the removals of an entity as the list that a walk has handed out,
//! and what it yields keeps the order of that list.

use std::collections::HashMap;
use vstd::prelude::*;
use vstd::std_specs::iter::IteratorSpec;
use crate::replicon_core::replication_rules::ReplicationId;
use crate::tick::{newer_than_at, Tick};

verus! {

broadcast use vstd::std_specs::hash::group_hash_axioms;

/// One removed component type and the tick of its removal.
#[derive(Clone, Copy, Debug, PartialEq, Eq, Structural)]
pub struct Removal {
    pub replication_id: ReplicationId,
    pub tick: Tick,
}

/// The first `n` removals of `removals` that are newer than `bound` when seen
/// from `this_run`, in their order.
pub open spec fn fresh_removals(removals: Seq<Removal>, n: int, bound: Tick, this_run: Tick) -> Seq<
    Removal,
>
    decreases n,
{
    if n <= 0 {
        Seq::empty()
    } else {
        let earlier = fresh_removals(removals, n - 1, bound, this_run);
        if newer_than_at(removals[n - 1].tick@, bound@, this_run@) {
            earlier.push(removals[n - 1])
        } else {
            earlier
        }
    }
}

/// No component type is recorded twice.
pub open spec fn distinct_removals(removals: Seq<Removal>) -> bool {
    forall|i: int, j: int|
        0 <= i < j < removals.len() ==> removals[i].replication_id != removals[j].replication_id
}

/// Every fresh removal is one of the removals it was selected from, and is
/// newer than the bound.
pub proof fn lemma_fresh_removals_sound(
    removals: Seq<Removal>,
    n: int,
    bound: Tick,
    this_run: Tick,
)
    requires
        0 <= n <= removals.len(),
    ensures
        fresh_removals(removals, n, bound, this_run).len() <= n,
        forall|p: int|
            0 <= p < fresh_removals(removals, n, bound, this_run).len() ==> {
                let fresh = #[trigger] fresh_removals(removals, n, bound, this_run)[p];
                &&& newer_than_at(fresh.tick@, bound@, this_run@)
                &&& exists|q: int| 0 <= q < n && removals[q] == fresh
            },
    decreases n,
{
    if n > 0 {
        lemma_fresh_removals_sound(removals, n - 1, bound, this_run);
        let earlier = fresh_removals(removals, n - 1, bound, this_run);
        let all = fresh_removals(removals, n, bound, this_run);
        assert forall|p: int| 0 <= p < all.len() implies {
            let fresh = #[trigger] all[p];
            &&& newer_than_at(fresh.tick@, bound@, this_run@)
            &&& exists|q: int| 0 <= q < n && removals[q] == fresh
        } by {
            if p < earlier.len() {
                let q = choose|q: int| 0 <= q < n - 1 && removals[q] == earlier[p];
                assert(removals[q] == all[p]);
            } else {
                assert(removals[n - 1] == all[p]);
            }
        }
    }
}

/// Every removal that is newer than the bound is among the fresh removals.
pub proof fn lemma_fresh_removals_complete(
    removals: Seq<Removal>,
    n: int,
    bound: Tick,
    this_run: Tick,
    q: int,
)
    requires
        0 <= q < n <= removals.len(),
        newer_than_at(removals[q].tick@, bound@, this_run@),
    ensures
        fresh_removals(removals, n, bound, this_run).contains(removals[q]),
    decreases n,
{
    let all = fresh_removals(removals, n, bound, this_run);
    if q == n - 1 {
        assert(all[all.len() - 1] == removals[q]);
    } else {
        lemma_fresh_removals_complete(removals, n - 1, bound, this_run, q);
        let earlier = fresh_removals(removals, n - 1, bound, this_run);
        let p = choose|p: int| 0 <= p < earlier.len() && earlier[p] == removals[q];
        assert(all[p] == removals[q]);
    }
}

/// Selecting from distinct removals gives distinct removals.
pub proof fn lemma_fresh_removals_distinct(
    removals: Seq<Removal>,
    n: int,
    bound: Tick,
    this_run: Tick,
)
    requires
        0 <= n <= removals.len(),
        distinct_removals(removals),
    ensures
        distinct_removals(fresh_removals(removals, n, bound, this_run)),
    decreases n,
{
    if n > 0 {
        lemma_fresh_removals_distinct(removals, n - 1, bound, this_run);
        lemma_fresh_removals_sound(removals, n - 1, bound, this_run);
        let earlier = fresh_removals(removals, n - 1, bound, this_run);
        let all = fresh_removals(removals, n, bound, this_run);
        assert forall|i: int, j: int| 0 <= i < j < all.len() implies all[i].replication_id
            != all[j].replication_id by {
            if j == earlier.len() {
                let q = choose|q: int| 0 <= q < n - 1 && removals[q] == earlier[i];
                assert(removals[q].replication_id != removals[n - 1].replication_id);
            }
        }
    }
}

/// Selecting again with the same bound changes nothing.
pub proof fn lemma_fresh_removals_idempotent(
    removals: Seq<Removal>,
    n: int,
    bound: Tick,
    this_run: Tick,
)
    requires
        0 <= n <= removals.len(),
    ensures
        ({
            let fresh = fresh_removals(removals, n, bound, this_run);
            fresh_removals(fresh, fresh.len() as int, bound, this_run) == fresh
        }),
    decreases n,
{
    if n > 0 {
        lemma_fresh_removals_idempotent(removals, n - 1, bound, this_run);
        let earlier = fresh_removals(removals, n - 1, bound, this_run);
        let fresh = fresh_removals(removals, n, bound, this_run);
        if newer_than_at(removals[n - 1].tick@, bound@, this_run@) {
            lemma_fresh_removals_prefix(fresh, earlier, earlier.len() as int, bound, this_run);
            assert(fresh_removals(fresh, fresh.len() as int, bound, this_run) =~= fresh);
        }
    }
}

/// Selection from a prefix looks only at that prefix.
proof fn lemma_fresh_removals_prefix(
    longer: Seq<Removal>,
    shorter: Seq<Removal>,
    n: int,
    bound: Tick,
    this_run: Tick,
)
    requires
        0 <= n <= shorter.len() <= longer.len(),
        forall|i: int| 0 <= i < n ==> longer[i] == shorter[i],
    ensures
        fresh_removals(longer, n, bound, this_run) == fresh_removals(shorter, n, bound, this_run),
    decreases n,
{
    if n > 0 {
        lemma_fresh_removals_prefix(longer, shorter, n - 1, bound, this_run);
    }
}

/// The removals of a mapping that are newer than `bound` when seen from
/// `this_run`.
pub open spec fn fresh_mapping(removals: Map<ReplicationId, Tick>, bound: Tick, this_run: Tick) -> Map<
    ReplicationId,
    Tick,
> {
    Map::new(
        |id: ReplicationId|
            removals.contains_key(id) && newer_than_at(removals[id]@, bound@, this_run@),
        |id: ReplicationId| removals[id],
    )
}

/// `walk` lists a mapping of removals: every entry of the mapping once, in
/// some order, and nothing else.
pub open spec fn is_walk_of(walk: Seq<Removal>, removals: Map<ReplicationId, Tick>) -> bool {
    &&& distinct_removals(walk)
    &&& forall|i: int|
        0 <= i < walk.len() ==> removals.contains_key((#[trigger] walk[i]).replication_id)
            && removals[walk[i].replication_id] == walk[i].tick
    &&& forall|id: ReplicationId| #[trigger]
        removals.contains_key(id) ==> walk.contains(
            Removal { replication_id: id, tick: removals[id] },
        )
}

/// Pruning and scanning agree: what a scan selects from a walk of a mapping
/// is a walk of what pruning with the same bound leaves of the mapping.
pub proof fn lemma_fresh_walk(
    walk: Seq<Removal>,
    removals: Map<ReplicationId, Tick>,
    bound: Tick,
    this_run: Tick,
)
    requires
        is_walk_of(walk, removals),
    ensures
        is_walk_of(
            fresh_removals(walk, walk.len() as int, bound, this_run),
            fresh_mapping(removals, bound, this_run),
        ),
{
    let fresh = fresh_removals(walk, walk.len() as int, bound, this_run);
    let kept = fresh_mapping(removals, bound, this_run);
    lemma_fresh_removals_distinct(walk, walk.len() as int, bound, this_run);
    lemma_fresh_removals_sound(walk, walk.len() as int, bound, this_run);
    assert forall|i: int| 0 <= i < fresh.len() implies kept.contains_key(
        (#[trigger] fresh[i]).replication_id,
    ) && kept[fresh[i].replication_id] == fresh[i].tick by {
        let q = choose|q: int| 0 <= q < walk.len() && walk[q] == fresh[i];
        assert(removals.contains_key(walk[q].replication_id));
    }
    assert forall|id: ReplicationId| #[trigger] kept.contains_key(id) implies fresh.contains(
        Removal { replication_id: id, tick: kept[id] },
    ) by {
        assert(removals.contains_key(id));
        let q = choose|q: int|
            0 <= q < walk.len() && walk[q] == Removal { replication_id: id, tick: removals[id] };
        lemma_fresh_removals_complete(walk, walk.len() as int, bound, this_run, q);
    }
}

/// Which replicated components were removed from an entity, and when: a
/// mapping from the replication identifier of a component type to the tick of
/// its latest removal.
#[derive(Clone, Debug)]
pub struct RemovalTracker {
    removals: HashMap<usize, Tick>,
}

impl View for RemovalTracker {
    type V = Map<ReplicationId, Tick>;

    closed spec fn view(&self) -> Map<ReplicationId, Tick> {
        Map::new(
            |id: ReplicationId| self.removals@.contains_key(id.0),
            |id: ReplicationId| self.removals@[id.0],
        )
    }
}

impl RemovalTracker {
    /// A tracker that records nothing.
    pub fn new() -> (tracker: RemovalTracker)
        ensures
            tracker@ == Map::<ReplicationId, Tick>::empty(),
    {
        let tracker = RemovalTracker { removals: HashMap::new() };
        proof {
            assert(tracker@ =~= Map::<ReplicationId, Tick>::empty());
        }
        tracker
    }

    /// The tick at which a component type was removed, if it is recorded.
    pub fn get(&self, replication_id: ReplicationId) -> (tick: Option<Tick>)
        ensures
            tick == if self@.contains_key(replication_id) {
                Some(self@[replication_id])
            } else {
                None
            },
    {
        match self.removals.get(&replication_id.0) {
            Some(tick) => Some(*tick),
            None => None,
        }
    }

    /// Records that a component type was removed at `tick`, in place of what
    /// was recorded for that type before.
    pub fn insert(&mut self, replication_id: ReplicationId, tick: Tick)
        ensures
            final(self)@ == old(self)@.insert(replication_id, tick),
    {
        self.removals.insert(replication_id.0, tick);
        proof {
            assert(self@ =~= old(self)@.insert(replication_id, tick));
        }
    }

    /// The recorded removals as a list: every one of them once, in the order
    /// in which the mapping happens to be walked.
    pub fn entries(&self) -> (walk: Vec<Removal>)
        ensures
            is_walk_of(walk@, self@),
    {
        let mut walk: Vec<Removal> = Vec::new();
        let ghost pairs = self.removals.iter().remaining();
        for pair in it: self.removals.iter()
            invariant
                it.seq() == pairs,
                pairs.no_duplicates(),
                walk@.len() == it.index(),
                forall|i: int|
                    0 <= i < walk@.len() ==> #[trigger] walk@[i] == (Removal {
                        replication_id: ReplicationId(*it.seq()[i].0),
                        tick: *it.seq()[i].1,
                    }),
        {
            let (replication_id, tick) = pair;
            walk.push(Removal { replication_id: ReplicationId(*replication_id), tick: *tick });
        }
        proof {
            let recorded = self.removals@;
            assert forall|id: ReplicationId| #[trigger] self@.contains_key(id) implies walk@.contains(
                Removal { replication_id: id, tick: self@[id] },
            ) by {
                let key = id.0;
                assert(pairs.contains((&key, &recorded[key])));
                let i = choose|i: int| 0 <= i < pairs.len() && pairs[i] == (&key, &recorded[key]);
                assert(walk@[i] == Removal { replication_id: id, tick: self@[id] });
            }
            assert forall|i: int, j: int| 0 <= i < j < walk@.len() implies walk@[i].replication_id
                != walk@[j].replication_id by {
                if walk@[i].replication_id == walk@[j].replication_id {
                    assert(*pairs[i].0 == *pairs[j].0);
                    assert(recorded[*pairs[i].0] == *pairs[i].1);
                    assert(recorded[*pairs[j].0] == *pairs[j].1);
                    assert(pairs[i] == pairs[j]);
                }
            }
            assert forall|i: int| 0 <= i < walk@.len() implies self@.contains_key(
                (#[trigger] walk@[i]).replication_id,
            ) && self@[walk@[i].replication_id] == walk@[i].tick by {
                assert(recorded.contains_key(*pairs[i].0));
                assert(recorded[*pairs[i].0] == *pairs[i].1);
            }
        }
        walk
    }

    /// Forgets every removal that is not newer than `oldest`, seen from
    /// `this_run`: what all clients have acknowledged.
    pub fn prune(&mut self, oldest: Tick, this_run: Tick)
        ensures
            final(self)@ == fresh_mapping(old(self)@, oldest, this_run),
    {
        let walk = self.entries();
        let ghost before = self.removals@;
        let mut i: usize = 0;
        while i < walk.len()
            invariant
                i <= walk@.len(),
                is_walk_of(walk@, old(self)@),
                before == old(self).removals@,
                forall|key: usize| #[trigger]
                    self.removals@.contains_key(key) ==> before.contains_key(key)
                        && self.removals@[key] == before[key],
                forall|key: usize| #[trigger]
                    before.contains_key(key) ==> (self.removals@.contains_key(key) <==> (
                    newer_than_at(before[key]@, oldest@, this_run@) || !walked(
                        walk@,
                        i as int,
                        key,
                    ))),
            decreases walk@.len() - i,
        {
            let removal = walk[i];
            let ghost earlier = self.removals@;
            proof {
                assert(old(self)@.contains_key(removal.replication_id));
                assert(before[removal.replication_id.0] == removal.tick);
            }
            if !removal.tick.is_newer_than(oldest, this_run) {
                self.removals.remove(&removal.replication_id.0);
            }
            proof {
                assert forall|key: usize| #[trigger] before.contains_key(key) implies (
                self.removals@.contains_key(key) <==> (newer_than_at(
                    before[key]@,
                    oldest@,
                    this_run@,
                ) || !walked(walk@, i + 1, key))) by {
                    assert(earlier.contains_key(key) <==> (newer_than_at(
                        before[key]@,
                        oldest@,
                        this_run@,
                    ) || !walked(walk@, i as int, key)));
                    if key == removal.replication_id.0 {
                        assert(walk@[i as int].replication_id.0 == key);
                    } else if walked(walk@, i + 1, key) {
                        let j = choose|j: int|
                            0 <= j < i + 1 && (#[trigger] walk@[j]).replication_id.0 == key;
                        assert(j < i);
                    }
                }
            }
            i += 1;
        }
        proof {
            assert forall|id: ReplicationId|
                self@.contains_key(id) <==> fresh_mapping(
                    old(self)@,
                    oldest,
                    this_run,
                ).contains_key(id) by {
                if old(self)@.contains_key(id) {
                    assert(before.contains_key(id.0));
                    let at = choose|at: int|
                        0 <= at < walk@.len() && walk@[at] == Removal {
                            replication_id: id,
                            tick: old(self)@[id],
                        };
                    assert(walk@[at].replication_id.0 == id.0);
                    assert(walked(walk@, walk@.len() as int, id.0));
                } else if self@.contains_key(id) {
                    assert(self.removals@.contains_key(id.0));
                }
            }
            assert(self@ =~= fresh_mapping(old(self)@, oldest, this_run));
        }
    }
}

/// One of the first `n` entries of a walk is for the component type `key`.
spec fn walked(walk: Seq<Removal>, n: int, key: usize) -> bool {
    exists|j: int| 0 <= j < n && (#[trigger] walk[j]).replication_id.0 == key
}

} // verus!
