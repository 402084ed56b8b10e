//! The state that the checking loop keeps between iterations: the last
//! fingerprint of every region seen, and when it was taken.
use vstd::prelude::*;

use crate::region::{Region, RegionView};

verus! {

/// A change found in a region's fingerprint.
#[derive(Debug, Clone, Copy)]
pub struct MemoryError<'a> {
    /// the address, size and origin of the region where the change occurred
    pub region: &'a Region,
    /// the previous fingerprint of the region
    pub old_hash: crate::fingerprint::Hash,
    /// the current fingerprint of the region
    pub new_hash: crate::fingerprint::Hash,
    /// when `old_hash` was computed, in nanoseconds on the loop's clock
    pub old_hash_computed_at: u64,
}

/// The last fingerprint of a region and when it was taken.
pub struct TrackedRegion {
    pub region: Region,
    pub hash: crate::fingerprint::Hash,
    pub observed_at: u64,
}

/// What is known of a tracked region: its fingerprint and when it was taken.
pub type TrackedView = (Seq<u8>, u64);

/// The map that a sequence of entries stands for.
pub open spec fn entries_view(s: Seq<TrackedRegion>) -> Map<RegionView, TrackedView> {
    Map::new(
        |k: RegionView| exists|i: int| 0 <= i < s.len() && (#[trigger] s[i]).region@ == k,
        |k: RegionView|
            {
                let i = choose|i: int| 0 <= i < s.len() && (#[trigger] s[i]).region@ == k;
                (s[i].hash@, s[i].observed_at)
            },
    )
}

/// No two entries are for the same region.
pub open spec fn keys_unique(s: Seq<TrackedRegion>) -> bool {
    forall|i: int, j: int|
        0 <= i < s.len() && 0 <= j < s.len() && i != j ==> (#[trigger] s[i]).region@ != (
        #[trigger] s[j]).region@
}

/// The entries of `m` that were observed at `now`.
pub open spec fn observed_at_time(m: Map<RegionView, TrackedView>, now: u64) -> Map<
    RegionView,
    TrackedView,
> {
    Map::new(|k: RegionView| m.contains_key(k) && m[k].1 == now, |k: RegionView| m[k])
}

proof fn lemma_entry_in_view(s: Seq<TrackedRegion>, i: int)
    requires
        keys_unique(s),
        0 <= i < s.len(),
    ensures
        entries_view(s).contains_key(s[i].region@),
        entries_view(s)[s[i].region@] == (s[i].hash@, s[i].observed_at),
{
    let k = s[i].region@;
    assert(0 <= i < s.len() && s[i].region@ == k);
    let j = choose|j: int| 0 <= j < s.len() && (#[trigger] s[j]).region@ == k;
    assert(j == i);
}

proof fn lemma_view_update(s: Seq<TrackedRegion>, i: int, e: TrackedRegion)
    requires
        keys_unique(s),
        0 <= i < s.len(),
        e.region@ == s[i].region@,
    ensures
        keys_unique(s.update(i, e)),
        entries_view(s.update(i, e)) == entries_view(s).insert(e.region@, (e.hash@, e.observed_at)),
{
    let t = s.update(i, e);
    assert forall|a: int, b: int|
        0 <= a < t.len() && 0 <= b < t.len() && a != b implies (#[trigger] t[a]).region@ != (
        #[trigger] t[b]).region@ by {
        assert(s[a].region@ != s[b].region@);
    }
    let lhs = entries_view(t);
    let rhs = entries_view(s).insert(e.region@, (e.hash@, e.observed_at));
    assert forall|k: RegionView| lhs.contains_key(k) <==> rhs.contains_key(k) by {
        if lhs.contains_key(k) {
            let j = choose|j: int| 0 <= j < t.len() && (#[trigger] t[j]).region@ == k;
            if j != i {
                assert(s[j].region@ == k);
            }
        }
        if rhs.contains_key(k) && k != e.region@ {
            let j = choose|j: int| 0 <= j < s.len() && (#[trigger] s[j]).region@ == k;
            assert(t[j].region@ == k);
        }
        if k == e.region@ {
            assert(t[i].region@ == k);
        }
    }
    assert forall|k: RegionView| lhs.contains_key(k) implies lhs[k] == rhs[k] by {
        let j = choose|j: int| 0 <= j < t.len() && (#[trigger] t[j]).region@ == k;
        lemma_entry_in_view(t, j);
        if j != i {
            lemma_entry_in_view(s, j);
        }
    }
    assert(lhs =~= rhs);
}

proof fn lemma_view_push(s: Seq<TrackedRegion>, e: TrackedRegion)
    requires
        keys_unique(s),
        !entries_view(s).contains_key(e.region@),
    ensures
        keys_unique(s.push(e)),
        entries_view(s.push(e)) == entries_view(s).insert(e.region@, (e.hash@, e.observed_at)),
{
    let t = s.push(e);
    assert forall|a: int, b: int|
        0 <= a < t.len() && 0 <= b < t.len() && a != b implies (#[trigger] t[a]).region@ != (
        #[trigger] t[b]).region@ by {
        if a < s.len() && b < s.len() {
            assert(s[a].region@ != s[b].region@);
        } else if a < s.len() {
            assert(t[a] == s[a]);
            assert(entries_view(s).contains_key(s[a].region@));
        } else {
            assert(t[b] == s[b]);
            assert(entries_view(s).contains_key(s[b].region@));
        }
    }
    let lhs = entries_view(t);
    let rhs = entries_view(s).insert(e.region@, (e.hash@, e.observed_at));
    assert forall|k: RegionView| lhs.contains_key(k) <==> rhs.contains_key(k) by {
        if lhs.contains_key(k) {
            let j = choose|j: int| 0 <= j < t.len() && (#[trigger] t[j]).region@ == k;
            if j < s.len() {
                assert(s[j].region@ == k);
            }
        }
        if rhs.contains_key(k) && k != e.region@ {
            let j = choose|j: int| 0 <= j < s.len() && (#[trigger] s[j]).region@ == k;
            assert(t[j].region@ == k);
        }
        if k == e.region@ {
            assert(t[s.len() as int].region@ == k);
        }
    }
    assert forall|k: RegionView| lhs.contains_key(k) implies lhs[k] == rhs[k] by {
        let j = choose|j: int| 0 <= j < t.len() && (#[trigger] t[j]).region@ == k;
        lemma_entry_in_view(t, j);
        if j < s.len() {
            assert(t[j] == s[j]);
            lemma_entry_in_view(s, j);
        }
    }
    assert(lhs =~= rhs);
}

/// The tracked state after recording, in order, the fingerprints `seen` taken at `now`.
pub open spec fn observe_all(
    m: Map<RegionView, TrackedView>,
    seen: Seq<(RegionView, Seq<u8>)>,
    now: u64,
) -> Map<RegionView, TrackedView>
    decreases seen.len(),
{
    if seen.len() == 0 {
        m
    } else {
        observe_all(m, seen.drop_last(), now).insert(seen.last().0, (seen.last().1, now))
    }
}

/// Whether recording fingerprint `h` of `r` in state `m` reports a change.
pub open spec fn fires(m: Map<RegionView, TrackedView>, r: RegionView, h: Seq<u8>) -> bool {
    m.contains_key(r) && m[r].0 != h
}

/// A reported change: region, old fingerprint, new fingerprint, time of the old one.
pub type ChangeView = (RegionView, Seq<u8>, Seq<u8>, u64);

/// The changes reported while recording `seen` at `now`, in order.
pub open spec fn change_events(
    m: Map<RegionView, TrackedView>,
    seen: Seq<(RegionView, Seq<u8>)>,
    now: u64,
) -> Seq<ChangeView>
    decreases seen.len(),
{
    if seen.len() == 0 {
        seq![]
    } else {
        let before = observe_all(m, seen.drop_last(), now);
        let (r, h) = seen.last();
        change_events(m, seen.drop_last(), now) + if fires(before, r, h) {
            seq![(r, before[r].0, h, before[r].1)]
        } else {
            seq![]
        }
    }
}

/// The state at the end of an iteration at `now` that recorded `seen`: every
/// region not seen in it is dropped.
pub open spec fn after_iteration(
    m: Map<RegionView, TrackedView>,
    seen: Seq<(RegionView, Seq<u8>)>,
    now: u64,
) -> Map<RegionView, TrackedView> {
    observed_at_time(observe_all(m, seen, now), now)
}

/// The regions paired with their fingerprints.
pub open spec fn pairs(regions: Seq<Region>, hashes: Seq<crate::fingerprint::Hash>) -> Seq<
    (RegionView, Seq<u8>),
> {
    Seq::new(regions.len(), |i: int| (regions[i]@, hashes[i]@))
}

/// The mathematical value of a reported change.
pub open spec fn change_view(e: MemoryError) -> ChangeView {
    (e.region@, e.old_hash@, e.new_hash@, e.old_hash_computed_at)
}

/// Fingerprints of the regions seen so far, keyed by region.
pub struct RegionTracker {
    entries: Vec<TrackedRegion>,
}

impl View for RegionTracker {
    type V = Map<RegionView, TrackedView>;

    closed spec fn view(&self) -> Map<RegionView, TrackedView> {
        entries_view(self.entries@)
    }
}

impl RegionTracker {
    /// Holds of every tracker: one entry per region.
    pub closed spec fn wf(&self) -> bool {
        keys_unique(self.entries@)
    }

    /// A tracker that has seen nothing.
    pub fn new() -> (r: RegionTracker)
        ensures
            r.wf(),
            r@ == Map::<RegionView, TrackedView>::empty(),
    {
        let r = RegionTracker { entries: Vec::new() };
        assert(r@ =~= Map::<RegionView, TrackedView>::empty());
        r
    }

    /// Whether no region is tracked.
    pub fn is_empty(&self) -> (r: bool)
        requires
            self.wf(),
        ensures
            r == (self@ == Map::<RegionView, TrackedView>::empty()),
    {
        if self.entries.len() == 0 {
            assert(self@ =~= Map::<RegionView, TrackedView>::empty());
            true
        } else {
            proof {
                lemma_entry_in_view(self.entries@, 0);
            }
            false
        }
    }

    /// Records the fingerprint `hash` of `region`, taken at `now`.
    ///
    /// A region seen before whose fingerprint differs gives the change; a region
    /// seen for the first time gives none.
    pub fn observe<'a>(&mut self, region: &'a Region, hash: crate::fingerprint::Hash, now: u64) -> (r: Option<
        MemoryError<'a>,
    >)
        requires
            old(self).wf(),
        ensures
            final(self).wf(),
            final(self)@ == old(self)@.insert(region@, (hash@, now)),
            r is Some <==> old(self)@.contains_key(region@) && old(self)@[region@].0 != hash@,
            r matches Some(e) ==> {
                &&& e.region@ == region@
                &&& e.old_hash@ == old(self)@[region@].0
                &&& e.new_hash@ == hash@
                &&& e.old_hash_computed_at == old(self)@[region@].1
            },
    {
        let mut i: usize = 0;
        while i < self.entries.len()
            invariant
                i <= self.entries@.len(),
                self.entries@ == old(self).entries@,
                keys_unique(self.entries@),
                forall|j: int| 0 <= j < i ==> (#[trigger] self.entries@[j]).region@ != region@,
            decreases self.entries@.len() - i,
        {
            if self.entries[i].region.same(region) {
                proof {
                    lemma_entry_in_view(self.entries@, i as int);
                }
                let old_hash = self.entries[i].hash;
                let old_at = self.entries[i].observed_at;
                let entry = TrackedRegion { region: region.duplicate(), hash, observed_at: now };
                proof {
                    lemma_view_update(self.entries@, i as int, entry);
                }
                self.entries.set(i, entry);
                if old_hash.same(&hash) {
                    return None;
                } else {
                    return Some(
                        MemoryError {
                            region,
                            old_hash,
                            new_hash: hash,
                            old_hash_computed_at: old_at,
                        },
                    );
                }
            }
            i = i + 1;
        }
        let entry = TrackedRegion { region: region.duplicate(), hash, observed_at: now };
        proof {
            if self@.contains_key(region@) {
                let j = choose|j: int|
                    0 <= j < self.entries@.len() && (#[trigger] self.entries@[j]).region@ == region@;
                assert(self.entries@[j].region@ != region@);
            }
            lemma_view_push(self.entries@, entry);
        }
        self.entries.push(entry);
        None
    }

    /// Drops every region that was not observed at `now`.
    pub fn prune(&mut self, now: u64)
        requires
            old(self).wf(),
        ensures
            final(self).wf(),
            final(self)@ == observed_at_time(old(self)@, now),
    {
        let ghost s = self.entries@;
        let ghost mut from: Seq<int> = seq![];
        let mut kept: Vec<TrackedRegion> = Vec::new();
        let mut i: usize = 0;
        while i < self.entries.len()
            invariant
                i <= s.len(),
                self.entries@ == s,
                keys_unique(s),
                keys_unique(kept@),
                from.len() == kept@.len(),
                forall|j: int|
                    0 <= j < kept@.len() ==> {
                        let m = #[trigger] from[j];
                        &&& 0 <= m < i
                        &&& s[m].region@ == kept@[j].region@
                        &&& s[m].hash@ == kept@[j].hash@
                        &&& s[m].observed_at == kept@[j].observed_at
                        &&& s[m].observed_at == now
                    },
                forall|m: int|
                    0 <= m < i && (#[trigger] s[m]).observed_at == now ==> exists|j: int|
                        0 <= j < kept@.len() && (#[trigger] kept@[j]).region@ == s[m].region@,
            decreases s.len() - i,
        {
            if self.entries[i].observed_at == now {
                let e = TrackedRegion {
                    region: self.entries[i].region.duplicate(),
                    hash: self.entries[i].hash,
                    observed_at: self.entries[i].observed_at,
                };
                let ghost before = kept@;
                let ghost from_before = from;
                proof {
                    assert forall|j: int| 0 <= j < before.len() implies (#[trigger] before[j]).region@
                        != e.region@ by {
                        assert(s[from[j]].region@ != s[i as int].region@);
                    }
                    from = from.push(i as int);
                }
                kept.push(e);
                proof {
                    assert forall|a: int, b: int|
                        0 <= a < kept@.len() && 0 <= b < kept@.len() && a != b implies (
                        #[trigger] kept@[a]).region@ != (#[trigger] kept@[b]).region@ by {
                        if a < before.len() && b < before.len() {
                            assert(before[a].region@ != before[b].region@);
                        } else if a < before.len() {
                            assert(before[a].region@ != e.region@);
                        } else {
                            assert(before[b].region@ != e.region@);
                        }
                    }
                    assert forall|j: int| 0 <= j < kept@.len() implies {
                        let m = #[trigger] from[j];
                        &&& 0 <= m < i + 1
                        &&& s[m].region@ == kept@[j].region@
                        &&& s[m].hash@ == kept@[j].hash@
                        &&& s[m].observed_at == kept@[j].observed_at
                        &&& s[m].observed_at == now
                    } by {
                        if j < before.len() {
                            assert(kept@[j] == before[j]);
                            assert(from[j] == from_before[j]);
                        } else {
                            assert(kept@[j] == e);
                        }
                    }
                    assert forall|m: int|
                        0 <= m < i + 1 && (#[trigger] s[m]).observed_at == now implies exists|j: int|
                        0 <= j < kept@.len() && (#[trigger] kept@[j]).region@ == s[m].region@ by {
                        if m < i {
                            let j = choose|j: int|
                                0 <= j < before.len() && (#[trigger] before[j]).region@ == s[m].region@;
                            assert(kept@[j] == before[j]);
                        } else {
                            assert(kept@[before.len() as int].region@ == s[m].region@);
                        }
                    }
                }
            }
            i = i + 1;
        }
        proof {
            let old_view = entries_view(s);
            let new_view = entries_view(kept@);
            let want = observed_at_time(old_view, now);
            assert forall|k: RegionView| new_view.contains_key(k) <==> want.contains_key(k) by {
                if new_view.contains_key(k) {
                    let j = choose|j: int| 0 <= j < kept@.len() && (#[trigger] kept@[j]).region@ == k;
                    lemma_entry_in_view(s, from[j]);
                }
                if want.contains_key(k) {
                    let m = choose|m: int| 0 <= m < s.len() && (#[trigger] s[m]).region@ == k;
                    lemma_entry_in_view(s, m);
                    let j = choose|j: int|
                        0 <= j < kept@.len() && (#[trigger] kept@[j]).region@ == s[m].region@;
                    assert(kept@[j].region@ == k);
                }
            }
            assert forall|k: RegionView| new_view.contains_key(k) implies new_view[k] == want[k] by {
                let j = choose|j: int| 0 <= j < kept@.len() && (#[trigger] kept@[j]).region@ == k;
                lemma_entry_in_view(s, from[j]);
                lemma_entry_in_view(kept@, j);
            }
            assert(new_view =~= want);
        }
        self.entries = kept;
    }

    /// One iteration of the checking loop at `now`: records the fingerprint
    /// `hashes[i]` of every `regions[i]`, in order, then drops the regions that
    /// were not seen. Returns the changes found, in order.
    pub fn check_iteration<'a>(
        &mut self,
        regions: &'a [Region],
        hashes: &[crate::fingerprint::Hash],
        now: u64,
    ) -> (r: Vec<MemoryError<'a>>)
        requires
            old(self).wf(),
            regions@.len() == hashes@.len(),
        ensures
            final(self).wf(),
            final(self)@ == after_iteration(old(self)@, pairs(regions@, hashes@), now),
            change_views(r@) == change_events(old(self)@, pairs(regions@, hashes@), now),
    {
        let ghost start = self@;
        let ghost seen = pairs(regions@, hashes@);
        let mut events: Vec<MemoryError<'a>> = Vec::new();
        let mut i: usize = 0;
        while i < regions.len()
            invariant
                i <= regions@.len(),
                regions@.len() == hashes@.len(),
                seen == pairs(regions@, hashes@),
                start == old(self)@,
                self.wf(),
                self@ == observe_all(start, seen.subrange(0, i as int), now),
                change_views(events@) == change_events(start, seen.subrange(0, i as int), now),
            decreases regions@.len() - i,
        {
            let ghost prefix = seen.subrange(0, i as int);
            let ghost next = seen.subrange(0, i + 1);
            proof {
                assert(next.drop_last() =~= prefix);
                assert(next.last() == (regions@[i as int]@, hashes@[i as int]@));
            }
            let change = self.observe(&regions[i], hashes[i], now);
            let ghost before = events@;
            match change {
                Some(e) => {
                    events.push(e);
                    proof {
                        assert(change_views(events@) =~= change_views(before) + seq![change_view(e)]);
                    }
                },
                None => {},
            }
            i = i + 1;
        }
        proof {
            assert(seen.subrange(0, i as int) =~= seen);
        }
        self.prune(now);
        events
    }

    /// The regions being tracked, each once.
    pub fn tracked_regions(&self) -> (r: Vec<Region>)
        requires
            self.wf(),
        ensures
            forall|i: int| 0 <= i < r@.len() ==> self@.contains_key(#[trigger] r@[i]@),
            forall|k: RegionView|
                self@.contains_key(k) ==> exists|i: int| 0 <= i < r@.len() && (#[trigger] r@[i])@ == k,
            forall|i: int, j: int|
                0 <= i < r@.len() && 0 <= j < r@.len() && i != j ==> (#[trigger] r@[i])@ != (
                #[trigger] r@[j])@,
    {
        let mut r: Vec<Region> = Vec::new();
        let mut i: usize = 0;
        while i < self.entries.len()
            invariant
                i <= self.entries@.len(),
                keys_unique(self.entries@),
                r@.len() == i,
                forall|j: int| 0 <= j < i ==> (#[trigger] r@[j])@ == self.entries@[j].region@,
            decreases self.entries@.len() - i,
        {
            r.push(self.entries[i].region.duplicate());
            i = i + 1;
        }
        proof {
            assert forall|j: int| 0 <= j < r@.len() implies self@.contains_key(#[trigger] r@[j]@) by {
                lemma_entry_in_view(self.entries@, j);
            }
            assert forall|k: RegionView| self@.contains_key(k) implies exists|j: int|
                0 <= j < r@.len() && (#[trigger] r@[j])@ == k by {
                let j = choose|j: int|
                    0 <= j < self.entries@.len() && (#[trigger] self.entries@[j]).region@ == k;
                assert(r@[j]@ == k);
            }
            assert forall|a: int, b: int|
                0 <= a < r@.len() && 0 <= b < r@.len() && a != b implies (#[trigger] r@[a])@ != (
                #[trigger] r@[b])@ by {
                assert(self.entries@[a].region@ != self.entries@[b].region@);
            }
        }
        r
    }
}

/// The views of a sequence of reported changes.
pub open spec fn change_views<'a>(s: Seq<MemoryError<'a>>) -> Seq<ChangeView> {
    s.map_values(|e: MemoryError<'a>| change_view(e))
}

/// Whether a change concerns region `k`.
pub open spec fn on_region(k: RegionView) -> spec_fn(ChangeView) -> bool {
    |e: ChangeView| e.0 == k
}

/// The changes in `events` that concern region `k`.
pub open spec fn events_for(events: Seq<ChangeView>, k: RegionView) -> Seq<ChangeView> {
    events.filter(on_region(k))
}

proof fn lemma_unseen_region_kept(
    m: Map<RegionView, TrackedView>,
    seen: Seq<(RegionView, Seq<u8>)>,
    now: u64,
    k: RegionView,
)
    requires
        forall|i: int| 0 <= i < seen.len() ==> (#[trigger] seen[i]).0 != k,
    ensures
        observe_all(m, seen, now).contains_key(k) == m.contains_key(k),
        m.contains_key(k) ==> observe_all(m, seen, now)[k] == m[k],
        events_for(change_events(m, seen, now), k) == Seq::<ChangeView>::empty(),
    decreases seen.len(),
{
    if seen.len() > 0 {
        let prefix = seen.drop_last();
        assert forall|i: int| 0 <= i < prefix.len() implies (#[trigger] prefix[i]).0 != k by {
            assert(prefix[i] == seen[i]);
        }
        lemma_unseen_region_kept(m, prefix, now, k);
        assert(seen.last().0 != k);
        let before = observe_all(m, prefix, now);
        let (r, h) = seen.last();
        let tail: Seq<ChangeView> = if fires(before, r, h) {
            seq![(r, before[r].0, h, before[r].1)]
        } else {
            seq![]
        };
        Seq::filter_distributes_over_add(change_events(m, prefix, now), tail, on_region(k));
        assert(tail.filter(on_region(k)) =~= Seq::<ChangeView>::empty()) by {
            reveal(Seq::filter);
            if tail.len() > 0 {
                assert(tail.drop_last() =~= Seq::<ChangeView>::empty());
            }
        }
    }
}

/// A region that was tracked and is not seen in an iteration is dropped at the
/// end of it, and no change is reported for it.
pub proof fn lemma_disappeared_region_dropped(
    m: Map<RegionView, TrackedView>,
    seen: Seq<(RegionView, Seq<u8>)>,
    now: u64,
    k: RegionView,
)
    requires
        m.contains_key(k),
        m[k].1 != now,
        forall|i: int| 0 <= i < seen.len() ==> (#[trigger] seen[i]).0 != k,
    ensures
        !after_iteration(m, seen, now).contains_key(k),
        events_for(change_events(m, seen, now), k) == Seq::<ChangeView>::empty(),
{
    lemma_unseen_region_kept(m, seen, now, k);
}

/// A region seen once in an iteration gets exactly one change reported when it
/// was tracked with another fingerprint, carrying the old fingerprint and the
/// time it was taken, and none otherwise.
pub proof fn lemma_changed_region_reported_once(
    m: Map<RegionView, TrackedView>,
    seen: Seq<(RegionView, Seq<u8>)>,
    now: u64,
    p: int,
)
    requires
        0 <= p < seen.len(),
        forall|i: int| 0 <= i < seen.len() && i != p ==> (#[trigger] seen[i]).0 != seen[p].0,
    ensures
        events_for(change_events(m, seen, now), seen[p].0) == if fires(m, seen[p].0, seen[p].1) {
            seq![(seen[p].0, m[seen[p].0].0, seen[p].1, m[seen[p].0].1)]
        } else {
            Seq::<ChangeView>::empty()
        },
    decreases seen.len(),
{
    let k = seen[p].0;
    let prefix = seen.drop_last();
    let before = observe_all(m, prefix, now);
    let (r, h) = seen.last();
    let tail: Seq<ChangeView> = if fires(before, r, h) {
        seq![(r, before[r].0, h, before[r].1)]
    } else {
        seq![]
    };
    Seq::filter_distributes_over_add(change_events(m, prefix, now), tail, on_region(k));
    if p < seen.len() - 1 {
        assert forall|i: int| 0 <= i < prefix.len() && i != p implies (#[trigger] prefix[i]).0
            != prefix[p].0 by {
            assert(prefix[i] == seen[i]);
        }
        lemma_changed_region_reported_once(m, prefix, now, p);
        assert(r != k);
        assert(tail.filter(on_region(k)) =~= Seq::<ChangeView>::empty()) by {
            reveal(Seq::filter);
            if tail.len() > 0 {
                assert(tail.drop_last() =~= Seq::<ChangeView>::empty());
            }
        }
    } else {
        assert forall|i: int| 0 <= i < prefix.len() implies (#[trigger] prefix[i]).0 != k by {
            assert(prefix[i] == seen[i]);
        }
        lemma_unseen_region_kept(m, prefix, now, k);
        assert(r == k);
        assert(tail.filter(on_region(k)) =~= tail) by {
            reveal(Seq::filter);
            if tail.len() > 0 {
                assert(tail.drop_last() =~= Seq::<ChangeView>::empty());
            }
        }
        assert(fires(before, k, h) == fires(m, k, h));
        assert(Seq::<ChangeView>::empty() + tail =~= tail);
    }
}

/// The first sighting of a region reports no change.
pub proof fn lemma_first_sighting_silent(
    m: Map<RegionView, TrackedView>,
    seen: Seq<(RegionView, Seq<u8>)>,
    now: u64,
    p: int,
)
    requires
        0 <= p < seen.len(),
        !m.contains_key(seen[p].0),
        forall|i: int| 0 <= i < seen.len() && i != p ==> (#[trigger] seen[i]).0 != seen[p].0,
    ensures
        events_for(change_events(m, seen, now), seen[p].0) == Seq::<ChangeView>::empty(),
{
    lemma_changed_region_reported_once(m, seen, now, p);
}

} // verus!
