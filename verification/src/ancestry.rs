use vstd::prelude::*;

verus! {

/// A bounded child-to-parent slot map describing the observed fork ancestry.
///
/// Edges are held sorted by child slot, each child at most once, and every
/// edge points strictly downward (`parent < child`), so the collection is a
/// forest and every ancestor walk terminates.  When the map grows past its
/// cap, the lowest-numbered children are evicted first.
pub struct SlotAncestry {
    edges: Vec<(u64, u64)>,
    cap: usize,
}

impl SlotAncestry {
    /// The recorded edges, as (child, parent) pairs sorted by child.
    pub closed spec fn edges_seq(&self) -> Seq<(u64, u64)> {
        self.edges@
    }

    pub closed spec fn spec_cap(&self) -> usize {
        self.cap
    }

    pub open spec fn wf(&self) -> bool {
        &&& forall|i: int, j: int|
            0 <= i < j < self.edges_seq().len() ==> self.edges_seq()[i].0 < self.edges_seq()[j].0
        &&& forall|i: int|
            0 <= i < self.edges_seq().len() ==> self.edges_seq()[i].1 < self.edges_seq()[i].0
    }

    /// Whether an edge for child slot `c` is recorded.
    pub open spec fn has_child(&self, c: u64) -> bool {
        exists|i: int| 0 <= i < self.edges_seq().len() && self.edges_seq()[i].0 == c
    }

    /// The recorded parent of child slot `c` (meaningful only when
    /// `has_child(c)` holds).
    pub open spec fn parent_of(&self, c: u64) -> u64 {
        self.edges_seq()[choose|i: int|
            0 <= i < self.edges_seq().len() && self.edges_seq()[i].0 == c].1
    }

    /// Under `wf`, the index of a child's edge is unique, so `parent_of`
    /// agrees with any edge that mentions the child.
    pub proof fn lemma_parent_at(&self, i: int)
        requires
            self.wf(),
            0 <= i < self.edges_seq().len(),
        ensures
            self.has_child(self.edges_seq()[i].0),
            self.parent_of(self.edges_seq()[i].0) == self.edges_seq()[i].1,
    {
        let c = self.edges_seq()[i].0;
        assert(self.has_child(c));
        let j = choose|j: int| 0 <= j < self.edges_seq().len() && self.edges_seq()[j].0 == c;
        if i < j {
            assert(self.edges_seq()[i].0 < self.edges_seq()[j].0);
        } else if j < i {
            assert(self.edges_seq()[j].0 < self.edges_seq()[i].0);
        }
    }

    /// The slots reachable from `s` by following parent links, excluding `s`
    /// itself.
    pub open spec fn ancestor_chain(&self, s: u64) -> Set<u64>
        decreases s,
        when self.wf()
    {
        if self.has_child(s) {
            set![self.parent_of(s)].union(self.ancestor_chain(self.parent_of(s)))
        } else {
            Set::<u64>::empty()
        }
    }

    pub fn new(cap: usize) -> (r: SlotAncestry)
        ensures
            r.wf(),
            r.edges_seq().len() == 0,
            r.spec_cap() == cap,
    {
        SlotAncestry { edges: Vec::new(), cap }
    }

    pub fn len(&self) -> (r: usize)
        ensures
            r == self.edges_seq().len(),
    {
        self.edges.len()
    }

    pub fn cap(&self) -> (r: usize)
        ensures
            r == self.spec_cap(),
    {
        self.cap
    }

    /// Whether an ancestry edge for child slot `c` is recorded.
    pub fn contains(&self, c: u64) -> (r: bool)
        requires
            self.wf(),
        ensures
            r == self.has_child(c),
    {
        let mut i: usize = 0;
        while i < self.edges.len()
            invariant
                self.wf(),
                0 <= i <= self.edges.len(),
                forall|k: int| 0 <= k < i ==> self.edges_seq()[k].0 != c,
            decreases self.edges.len() - i,
        {
            if self.edges[i].0 == c {
                proof {
                    assert(self.edges_seq()[i as int].0 == c);
                }
                return true;
            }
            i += 1;
        }
        proof {
            if self.has_child(c) {
                let k = choose|k: int|
                    0 <= k < self.edges_seq().len() && self.edges_seq()[k].0 == c;
                assert(self.edges_seq()[k].0 != c);
            }
        }
        false
    }

    /// Record the edge `child -> parent`.  The insertion is idempotent: a
    /// child already present keeps its first recorded parent.  An edge that
    /// does not point strictly downward is refused, which keeps the
    /// collection a forest.  Returns whether the edge was added.
    pub fn insert(&mut self, child: u64, parent: u64) -> (added: bool)
        requires
            old(self).wf(),
        ensures
            final(self).wf(),
            final(self).spec_cap() == old(self).spec_cap(),
            added == (parent < child && !old(self).has_child(child)),
            forall|c: u64| #[trigger] final(self).has_child(c) ==> old(self).has_child(c) || (added
                && c == child),
            forall|c: u64| #[trigger] old(self).has_child(c) ==> final(self).has_child(c),
            forall|c: u64| #[trigger] old(self).has_child(c) ==> final(self).parent_of(c) == old(
            self).parent_of(c),
            added ==> final(self).has_child(child) && final(self).parent_of(child) == parent,
            final(self).edges_seq().len() == old(self).edges_seq().len() + (if added {
                1int
            } else {
                0int
            }),
    {
        if parent >= child {
            return false;
        }
        let mut i: usize = 0;
        while i < self.edges.len() && self.edges[i].0 < child
            invariant
                self.wf(),
                self.edges_seq() == old(self).edges_seq(),
                self.cap == old(self).spec_cap(),
                0 <= i <= self.edges.len(),
                forall|k: int| 0 <= k < i ==> self.edges_seq()[k].0 < child,
            decreases self.edges.len() - i,
        {
            i += 1;
        }
        if i < self.edges.len() && self.edges[i].0 == child {
            proof {
                self.lemma_parent_at(i as int);
            }
            return false;
        }
        proof {
            assert(forall|k: int| 0 <= k < i ==> self.edges_seq()[k].0 < child);
            assert forall|k: int|
                i <= k < self.edges_seq().len() implies self.edges_seq()[k].0 > child by {
                if k > i {
                    assert(self.edges_seq()[i as int].0 < self.edges_seq()[k].0);
                }
            }
            if old(self).has_child(child) {
                let k = choose|k: int|
                    0 <= k < self.edges_seq().len() && self.edges_seq()[k].0 == child;
                assert(false);
            }
        }
        let ghost oldseq = self.edges@;
        self.edges.insert(i, (child, parent));
        proof {
            assert(self.edges_seq() == oldseq.insert(i as int, (child, parent)));
            assert(forall|k: int| 0 <= k < i ==> self.edges_seq()[k] == oldseq[k]);
            assert(forall|k: int|
                i < k < self.edges_seq().len() ==> self.edges_seq()[k] == oldseq[k - 1]);
            assert(self.edges_seq()[i as int] == (child, parent));
            assert forall|a: int, b: int|
                0 <= a < b < self.edges_seq().len() implies self.edges_seq()[a].0
                < self.edges_seq()[b].0 by {}
            assert(self.wf());
            assert forall|c: u64| #[trigger] old(self).has_child(c) implies self.has_child(c)
                && self.parent_of(c) == old(self).parent_of(c) by {
                let k = choose|k: int| 0 <= k < oldseq.len() && oldseq[k].0 == c;
                let k2: int = if k < i {
                    k
                } else {
                    k + 1
                };
                assert(self.edges_seq()[k2] == oldseq[k]);
                self.lemma_parent_at(k2);
                old(self).lemma_parent_at(k);
            }
            assert forall|c: u64| #[trigger] self.has_child(c) implies (old(self).has_child(c) || c
                == child) by {
                let k = choose|k: int|
                    0 <= k < self.edges_seq().len() && self.edges_seq()[k].0 == c;
                if k < i {
                    assert(oldseq[k].0 == c);
                } else if k > i {
                    assert(oldseq[k - 1].0 == c);
                }
            }
            self.lemma_parent_at(i as int);
        }
        true
    }

    /// The lowest-numbered child slot recorded, if any.
    pub fn lowest_child(&self) -> (r: Option<u64>)
        requires
            self.wf(),
        ensures
            match r {
                Option::None => self.edges_seq().len() == 0,
                Option::Some(lo) => self.edges_seq().len() > 0 && self.edges_seq()[0].0 == lo
                    && forall|c: u64| #[trigger] self.has_child(c) ==> lo <= c,
            },
    {
        if self.edges.len() == 0 {
            None
        } else {
            let lo = self.edges[0].0;
            proof {
                assert forall|c: u64| #[trigger] self.has_child(c) implies lo <= c by {
                    let k = choose|k: int|
                        0 <= k < self.edges_seq().len() && self.edges_seq()[k].0 == c;
                    if k > 0 {
                        assert(self.edges_seq()[0].0 < self.edges_seq()[k].0);
                    }
                }
            }
            Some(lo)
        }
    }

    /// The highest-numbered child slot recorded, if any.
    pub fn highest_child(&self) -> (r: Option<u64>)
        requires
            self.wf(),
        ensures
            match r {
                Option::None => self.edges_seq().len() == 0,
                Option::Some(hi) => self.edges_seq().len() > 0 && self.edges_seq()[self.edges_seq().len()
                    - 1].0 == hi && forall|c: u64| #[trigger] self.has_child(c) ==> c <= hi,
            },
    {
        if self.edges.len() == 0 {
            None
        } else {
            let hi = self.edges[self.edges.len() - 1].0;
            proof {
                assert forall|c: u64| #[trigger] self.has_child(c) implies c <= hi by {
                    let k = choose|k: int|
                        0 <= k < self.edges_seq().len() && self.edges_seq()[k].0 == c;
                    if k < self.edges_seq().len() - 1 {
                        assert(self.edges_seq()[k].0 < self.edges_seq()[self.edges_seq().len()
                            - 1].0);
                    }
                }
            }
            Some(hi)
        }
    }

    /// Remove lowest-numbered child entries until the size is within the cap.
    /// Exactly a prefix of the sorted edges is dropped, so after `k` excess
    /// insertions the `k` lowest-numbered children are absent.
    #[verifier::rlimit(50)]
    pub fn evict(&mut self)
        requires
            old(self).wf(),
        ensures
            final(self).wf(),
            final(self).spec_cap() == old(self).spec_cap(),
            final(self).edges_seq().len() == if old(self).edges_seq().len() <= old(
                self,
            ).spec_cap() {
                old(self).edges_seq().len() as int
            } else {
                old(self).spec_cap() as int
            },
            final(self).edges_seq() == old(self).edges_seq().skip(
                old(self).edges_seq().len() - final(self).edges_seq().len(),
            ),
            forall|c: u64| #[trigger] final(self).has_child(c) ==> old(self).has_child(c),
            forall|c1: u64, c2: u64|
                #![trigger old(self).has_child(c1), final(self).has_child(c2)]
                old(self).has_child(c1) && !final(self).has_child(c1) && final(self).has_child(c2)
                    ==> c1 < c2,
    {
        let ghost orig = self.edges@;
        while self.edges.len() > self.cap
            invariant
                self.cap == old(self).spec_cap(),
                orig == old(self).edges_seq(),
                self.edges@.len() <= orig.len(),
                self.edges@ == orig.skip(orig.len() - self.edges@.len()),
                orig.len() > self.cap ==> self.edges@.len() >= self.cap,
                orig.len() <= self.cap ==> self.edges@.len() == orig.len(),
            decreases self.edges.len(),
        {
            self.edges.remove(0);
            proof {
                assert(self.edges@ =~= orig.skip(orig.len() - self.edges@.len()));
            }
        }
        proof {
            let d = orig.len() - self.edges@.len();
            assert forall|a: int, b: int|
                0 <= a < b < self.edges_seq().len() implies self.edges_seq()[a].0
                < self.edges_seq()[b].0 by {
                assert(self.edges_seq()[a] == orig[d + a]);
                assert(self.edges_seq()[b] == orig[d + b]);
            }
            assert forall|a: int|
                0 <= a < self.edges_seq().len() implies self.edges_seq()[a].1
                < self.edges_seq()[a].0 by {
                assert(self.edges_seq()[a] == orig[d + a]);
            }
            assert forall|c: u64| #[trigger] self.has_child(c) implies old(self).has_child(c) by {
                let a = choose|a: int|
                    0 <= a < self.edges_seq().len() && self.edges_seq()[a].0 == c;
                assert(orig[d + a].0 == c);
            }
            assert forall|c1: u64, c2: u64|
                #![trigger old(self).has_child(c1), self.has_child(c2)]
                old(self).has_child(c1) && !self.has_child(c1) && self.has_child(
                    c2,
                ) implies c1 < c2 by {
                let k1 = choose|k: int| 0 <= k < orig.len() && orig[k].0 == c1;
                let a2 = choose|a: int|
                    0 <= a < self.edges_seq().len() && self.edges_seq()[a].0 == c2;
                if k1 >= d {
                    assert(self.edges_seq()[k1 - d].0 == c1);
                }
                assert(self.edges_seq()[a2] == orig[d + a2]);
                assert(orig[k1].0 < orig[d + a2].0);
            }
        }
    }

    /// The ancestor slots of `s`: every slot reachable from `s` by following
    /// recorded parent links, excluding `s` itself, in descending order.
    pub fn ancestors_of(&self, s: u64) -> (r: Vec<u64>)
        requires
            self.wf(),
        ensures
            r@.to_set() == self.ancestor_chain(s),
            forall|i: int, j: int| 0 <= i < j < r@.len() ==> r@[i] > r@[j],
    {
        let mut r: Vec<u64> = Vec::new();
        let mut cur: u64 = s;
        let mut more: bool = self.contains(cur);
        proof {
            assert(r@.to_set() =~= Set::<u64>::empty());
            assert(r@.to_set().union(self.ancestor_chain(cur)) =~= self.ancestor_chain(s));
        }
        while more
            invariant
                self.wf(),
                more == self.has_child(cur),
                cur <= s,
                r@.to_set().union(self.ancestor_chain(cur)) == self.ancestor_chain(s),
                forall|i: int, j: int| 0 <= i < j < r@.len() ==> r@[i] > r@[j],
                forall|i: int| 0 <= i < r@.len() ==> r@[i] >= cur,
                r@.len() > 0 ==> r@[r@.len() - 1] == cur,
            decreases cur,
        {
            let p = self.parent_of_exec(cur);
            let ghost oldr = r@;
            r.push(p);
            proof {
                assert(r@ == oldr.push(p));
                assert(r@[r@.len() - 1] == p);
                assert forall|x: u64| #[trigger] r@.contains(x) implies (oldr.contains(x) || x
                    == p) by {
                    let idx = choose|idx: int| 0 <= idx < r@.len() && r@[idx] == x;
                    if idx < oldr.len() {
                        assert(oldr[idx] == x);
                    }
                }
                assert forall|x: u64| oldr.contains(x) implies r@.contains(x) by {
                    let idx = choose|idx: int| 0 <= idx < oldr.len() && oldr[idx] == x;
                    assert(r@[idx] == x);
                }
                assert(r@.contains(p));
                assert(r@.to_set() =~= oldr.to_set().insert(p));
                assert(self.ancestor_chain(cur) == set![p].union(self.ancestor_chain(p)));
                assert(r@.to_set().union(self.ancestor_chain(p)) =~= oldr.to_set().union(
                    self.ancestor_chain(cur),
                ));
            }
            cur = p;
            more = self.contains(cur);
        }
        proof {
            assert(self.ancestor_chain(cur) =~= Set::<u64>::empty());
            assert(r@.to_set() =~= r@.to_set().union(self.ancestor_chain(cur)));
        }
        r
    }

    /// The recorded parent of `c`, which must be present.
    fn parent_of_exec(&self, c: u64) -> (r: u64)
        requires
            self.wf(),
            self.has_child(c),
        ensures
            r == self.parent_of(c),
            r < c,
    {
        let mut i: usize = 0;
        while i < self.edges.len()
            invariant
                self.wf(),
                self.has_child(c),
                0 <= i <= self.edges.len(),
                forall|k: int| 0 <= k < i ==> self.edges_seq()[k].0 != c,
            decreases self.edges.len() - i,
        {
            if self.edges[i].0 == c {
                proof {
                    self.lemma_parent_at(i as int);
                }
                return self.edges[i].1;
            }
            i += 1;
        }
        proof {
            let k = choose|k: int| 0 <= k < self.edges_seq().len() && self.edges_seq()[k].0 == c;
            assert(self.edges_seq()[k].0 != c);
        }
        0
    }
}

} // verus!
