use vstd::prelude::*;
use crate::ancestry::SlotAncestry;

verus! {

/// A vote notification waiting for enough ancestry to be validated: the
/// voting identity, the ascending voted slots, the bank hash the vote
/// committed to, and its optional timestamp.
pub struct PendingVote {
    pub identity: String,
    pub slots: Vec<u64>,
    pub hash: Vec<u8>,
    pub timestamp: Option<i64>,
}

/// Buffered vote notifications, bucketed by the vote's highest slot and
/// held with strictly increasing bucket keys.
pub struct VoteBuffer {
    buckets: Vec<(u64, Vec<PendingVote>)>,
}

impl VoteBuffer {
    /// The buckets, ordered by strictly increasing key.
    pub closed spec fn buckets_seq(&self) -> Seq<(u64, Vec<PendingVote>)> {
        self.buckets@
    }

    pub open spec fn wf(&self) -> bool {
        forall|i: int, j: int|
            0 <= i < j < self.buckets_seq().len() ==> self.buckets_seq()[i].0
                < self.buckets_seq()[j].0
    }

    pub open spec fn has_key(&self, k: u64) -> bool {
        exists|i: int| 0 <= i < self.buckets_seq().len() && self.buckets_seq()[i].0 == k
    }

    pub fn new() -> (r: VoteBuffer)
        ensures
            r.wf(),
            r.buckets_seq().len() == 0,
    {
        VoteBuffer { buckets: Vec::new() }
    }

    pub fn len(&self) -> (r: usize)
        ensures
            r == self.buckets_seq().len(),
    {
        self.buckets.len()
    }

    /// Buffer a vote under the key of its highest slot.  A vote with no
    /// slots is ignored.  Returns the bucket key used, if any.
    pub fn buffer_vote(&mut self, v: PendingVote) -> (key: Option<u64>)
        requires
            old(self).wf(),
        ensures
            final(self).wf(),
            key is None <==> v.slots@.len() == 0,
            key is None ==> final(self).buckets_seq() == old(self).buckets_seq(),
            key is Some ==> key->0 == v.slots@[v.slots@.len() - 1] && final(self).has_key(key->0),
            forall|k: u64| #[trigger] final(self).has_key(k) ==> old(self).has_key(k) || (key
                is Some && k == key->0),
            forall|k: u64| #[trigger] old(self).has_key(k) ==> final(self).has_key(k),
    {
        if v.slots.len() == 0 {
            return None;
        }
        let key = v.slots[v.slots.len() - 1];
        let mut i: usize = 0;
        while i < self.buckets.len() && self.buckets[i].0 < key
            invariant
                self.wf(),
                self.buckets_seq() == old(self).buckets_seq(),
                0 <= i <= self.buckets_seq().len(),
                forall|k: int| 0 <= k < i ==> self.buckets_seq()[k].0 < key,
            decreases self.buckets.len() - i,
        {
            i += 1;
        }
        if i < self.buckets.len() && self.buckets[i].0 == key {
            let ghost pre = self.buckets@;
            self.buckets[i].1.push(v);
            proof {
                assert(self.buckets@[i as int].0 == pre[i as int].0);
                assert(forall|j: int| 0 <= j < pre.len() && j != i ==> self.buckets@[j] == pre[j]);
                assert(self.buckets@.len() == pre.len());
                assert forall|k: u64| #[trigger] self.has_key(k) implies old(self).has_key(k) by {
                    let j = choose|j: int|
                        0 <= j < self.buckets_seq().len() && self.buckets_seq()[j].0 == k;
                    assert(pre[j].0 == k);
                }
                assert forall|k: u64| #[trigger] old(self).has_key(k) implies self.has_key(k) by {
                    let j = choose|j: int| 0 <= j < pre.len() && pre[j].0 == k;
                    assert(self.buckets_seq()[j].0 == k);
                }
                assert(0 <= i < self.buckets_seq().len() && self.buckets_seq()[i as int].0 == key);
                assert(self.has_key(key));
            }
            return Some(key);
        }
        proof {
            assert(forall|k: int| 0 <= k < i ==> self.buckets_seq()[k].0 < key);
            assert forall|k: int|
                i <= k < self.buckets_seq().len() implies self.buckets_seq()[k].0 > key by {
                if k > i {
                    assert(self.buckets_seq()[i as int].0 < self.buckets_seq()[k].0);
                }
            }
        }
        let ghost pre = self.buckets@;
        self.buckets.insert(i, (key, vec![v]));
        proof {
            assert(self.buckets@ == pre.insert(i as int, self.buckets@[i as int]));
            assert(self.buckets@[i as int].0 == key);
            assert(forall|k: int| 0 <= k < i ==> self.buckets@[k] == pre[k]);
            assert(forall|k: int| i < k < self.buckets@.len() ==> self.buckets@[k] == pre[k - 1]);
            assert forall|a: int, b: int|
                0 <= a < b < self.buckets_seq().len() implies self.buckets_seq()[a].0
                < self.buckets_seq()[b].0 by {}
            assert forall|k: u64| #[trigger] self.has_key(k) implies (old(self).has_key(k) || k
                == key) by {
                let j = choose|j: int|
                    0 <= j < self.buckets_seq().len() && self.buckets_seq()[j].0 == k;
                if j < i {
                    assert(pre[j].0 == k);
                } else if j > i {
                    assert(pre[j - 1].0 == k);
                }
            }
            assert forall|k: u64| #[trigger] old(self).has_key(k) implies self.has_key(k) by {
                let j = choose|j: int| 0 <= j < pre.len() && pre[j].0 == k;
                let j2: int = if j < i {
                    j
                } else {
                    j + 1
                };
                assert(self.buckets_seq()[j2].0 == k);
            }
            assert(self.has_key(key));
        }
        Some(key)
    }

    /// Drop every bucket keyed below `cut`: those votes can no longer be
    /// resolved against the evicted ancestry.  Returns the dropped buckets,
    /// lowest key first, so the caller can report them as lost.
    pub fn drop_below(&mut self, cut: u64) -> (dropped: Vec<(u64, Vec<PendingVote>)>)
        requires
            old(self).wf(),
        ensures
            final(self).wf(),
            dropped@ + final(self).buckets_seq() == old(self).buckets_seq(),
            forall|i: int| 0 <= i < dropped@.len() ==> (#[trigger] dropped@[i]).0 < cut,
            forall|i: int|
                0 <= i < final(self).buckets_seq().len() ==> (
                #[trigger] final(self).buckets_seq()[i]).0 >= cut,
    {
        let ghost orig = self.buckets@;
        let mut dropped: Vec<(u64, Vec<PendingVote>)> = Vec::new();
        proof {
            assert forall|i: int, j: int| 0 <= i < j < orig.len() implies orig[i].0
                < orig[j].0 by {
                assert(old(self).buckets_seq()[i].0 < old(self).buckets_seq()[j].0);
            }
        }
        while self.buckets.len() > 0 && self.buckets[0].0 < cut
            invariant
                orig == old(self).buckets_seq(),
                forall|i: int, j: int| 0 <= i < j < orig.len() ==> orig[i].0 < orig[j].0,
                dropped@ + self.buckets@ =~= orig,
                dropped@.len() + self.buckets@.len() == orig.len(),
                self.wf(),
                forall|i: int| 0 <= i < dropped@.len() ==> (#[trigger] dropped@[i]).0 < cut,
            decreases self.buckets.len(),
        {
            let b = self.buckets.remove(0);
            dropped.push(b);
            proof {
                assert(dropped@ + self.buckets@ =~= orig);
                assert forall|a: int, b2: int|
                    0 <= a < b2 < self.buckets@.len() implies self.buckets@[a].0
                    < self.buckets@[b2].0 by {
                    assert(self.buckets@[a] == orig[dropped@.len() + a]);
                    assert(self.buckets@[b2] == orig[dropped@.len() + b2]);
                }
            }
        }
        proof {
            if self.buckets@.len() > 0 {
                assert forall|i: int|
                    0 <= i < self.buckets_seq().len() implies (
                #[trigger] self.buckets_seq()[i]).0 >= cut by {
                    if i > 0 {
                        assert(self.buckets_seq()[0].0 < self.buckets_seq()[i].0);
                    }
                }
            }
            assert(dropped@ + self.buckets@ == orig);
        }
        dropped
    }

    /// Remove and return every bucket keyed at or below `h` (the highest
    /// known ancestry slot), lowest key first: exactly the buckets whose
    /// votes are ready for validation, in ascending slot order.
    pub fn take_ready(&mut self, h: u64) -> (ready: Vec<(u64, Vec<PendingVote>)>)
        requires
            old(self).wf(),
        ensures
            final(self).wf(),
            ready@ + final(self).buckets_seq() == old(self).buckets_seq(),
            forall|i: int| 0 <= i < ready@.len() ==> (#[trigger] ready@[i]).0 <= h,
            forall|i: int|
                0 <= i < final(self).buckets_seq().len() ==> (
                #[trigger] final(self).buckets_seq()[i]).0 > h,
            forall|i: int, j: int| 0 <= i < j < ready@.len() ==> ready@[i].0 < ready@[j].0,
    {
        let ghost orig = self.buckets@;
        let mut ready: Vec<(u64, Vec<PendingVote>)> = Vec::new();
        proof {
            assert forall|i: int, j: int| 0 <= i < j < orig.len() implies orig[i].0
                < orig[j].0 by {
                assert(old(self).buckets_seq()[i].0 < old(self).buckets_seq()[j].0);
            }
        }
        while self.buckets.len() > 0 && self.buckets[0].0 <= h
            invariant
                orig == old(self).buckets_seq(),
                ready@ + self.buckets@ =~= orig,
                ready@.len() + self.buckets@.len() == orig.len(),
                self.wf(),
                forall|i: int| 0 <= i < ready@.len() ==> (#[trigger] ready@[i]).0 <= h,
                forall|i: int, j: int|
                    0 <= i < j < orig.len() ==> orig[i].0 < orig[j].0,
            decreases self.buckets.len(),
        {
            let b = self.buckets.remove(0);
            ready.push(b);
            proof {
                assert(ready@ + self.buckets@ =~= orig);
                assert forall|a: int, b2: int|
                    0 <= a < b2 < self.buckets@.len() implies self.buckets@[a].0
                    < self.buckets@[b2].0 by {
                    assert(self.buckets@[a] == orig[ready@.len() + a]);
                    assert(self.buckets@[b2] == orig[ready@.len() + b2]);
                }
            }
        }
        proof {
            if self.buckets@.len() > 0 {
                assert forall|i: int|
                    0 <= i < self.buckets_seq().len() implies (
                #[trigger] self.buckets_seq()[i]).0 > h by {
                    if i > 0 {
                        assert(self.buckets_seq()[0].0 < self.buckets_seq()[i].0);
                    }
                }
            }
            assert(ready@ + self.buckets@ == orig);
            assert forall|i: int, j: int| 0 <= i < j < ready@.len() implies ready@[i].0
                < ready@[j].0 by {
                assert(ready@[i] == orig[i]);
                assert(ready@[j] == orig[j]);
            }
        }
        ready
    }
}

/// What to do with one buffered vote once its bucket is ready.
#[derive(Clone, Copy, Debug, PartialEq, Eq, Structural)]
pub enum VoteScreen {
    Defer,
    Stale,
    CheckLockout,
}

/// The screening rule: defer while the tower's lowest pending lockout slot
/// or the vote's own lowest slot is missing from the ancestry (too shallow
/// to validate safely); otherwise reject as stale any vote whose target
/// does not exceed the last-voted slot; otherwise the lockout check is due.
pub open spec fn screen_spec(
    ancestry: &SlotAncestry,
    vote_lowest: u64,
    target: u64,
    tower_lowest: Option<u64>,
    last_voted: Option<u64>,
) -> VoteScreen {
    if (tower_lowest is Some && !ancestry.has_child(tower_lowest->0)) || !ancestry.has_child(
        vote_lowest,
    ) {
        VoteScreen::Defer
    } else if last_voted is Some && last_voted->0 >= target {
        VoteScreen::Stale
    } else {
        VoteScreen::CheckLockout
    }
}

/// Screen one buffered vote against the ancestry and the tower's reported
/// lowest pending lockout slot and last-voted slot.
pub fn screen_vote(
    ancestry: &SlotAncestry,
    vote_lowest: u64,
    target: u64,
    tower_lowest: Option<u64>,
    last_voted: Option<u64>,
) -> (r: VoteScreen)
    requires
        ancestry.wf(),
    ensures
        r == screen_spec(ancestry, vote_lowest, target, tower_lowest, last_voted),
{
    let tower_missing = match tower_lowest {
        Some(t) => !ancestry.contains(t),
        None => false,
    };
    if tower_missing || !ancestry.contains(vote_lowest) {
        return VoteScreen::Defer;
    }
    match last_voted {
        Some(lv) if lv >= target => VoteScreen::Stale,
        _ => VoteScreen::CheckLockout,
    }
}

/// A vote whose highest slot does not exceed the tower's last-voted slot is
/// screened out as stale (or deferred for shallow ancestry) and never
/// reaches the lockout check or application.
pub proof fn lemma_stale_vote_never_applied(
    ancestry: &SlotAncestry,
    vote_lowest: u64,
    target: u64,
    tower_lowest: Option<u64>,
    last_voted: Option<u64>,
)
    requires
        last_voted is Some,
        last_voted->0 >= target,
    ensures
        screen_spec(ancestry, vote_lowest, target, tower_lowest, last_voted)
            != VoteScreen::CheckLockout,
{
}

} // verus!
