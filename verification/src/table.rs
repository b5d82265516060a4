use vstd::prelude::*;
use vstd::multiset::Multiset;
use crate::meta::{
    classify_spec, in_span, meta_wf, span_hi, span_lo, TableEntry, TableEntryView, VoteMeta,
    VoteMetaView,
};

verus! {

/// The landing table: one row per slot starting at `start`, each row holding
/// `depth` cells, where a placed vote span occupies one depth across its
/// whole slot range.
pub struct LandingTable {
    pub start: u64,
    pub rows: Vec<Vec<Option<TableEntry>>>,
    pub depth: usize,
}

/// A fatal layout fault: a vote span could not be placed within the
/// precomputed depth bound.
#[derive(Clone, Copy, Debug, PartialEq, Eq, Structural)]
pub enum LayoutError {
    DepthExceeded,
}

/// The cell for slot `s` at depth `d` in rows that begin at slot `start`.
pub open spec fn cell_at(
    rows: Seq<Vec<Option<TableEntry>>>,
    start: int,
    s: int,
    d: int,
) -> Option<TableEntryView> {
    match rows[s - start]@[d] {
        Option::Some(e) => Option::Some(e@),
        Option::None => Option::None,
    }
}

/// The cell every slot `s` of a placed span of vote `m` must hold.
pub open spec fn span_cell(m: VoteMetaView, s: int) -> Option<TableEntryView> {
    Option::Some(TableEntryView { kind: classify_spec(m, s as u64), vote_meta: m })
}

/// Structural soundness of the row storage: every row as wide as `depth`.
pub open spec fn rows_shaped(rows: Seq<Vec<Option<TableEntry>>>, depth: int) -> bool {
    forall|i: int| 0 <= i < rows.len() ==> #[trigger] rows[i]@.len() == depth
}

/// Every occupied cell belongs to a well-formed vote whose span lies inside
/// the table, carries the classification of its slot, and whose whole span
/// is filled at the same depth with the same vote.
pub open spec fn rows_wf(rows: Seq<Vec<Option<TableEntry>>>, start: int, depth: int) -> bool {
    &&& rows_shaped(rows, depth)
    &&& forall|s: int, d: int|
        start <= s < start + rows.len() && 0 <= d < depth && #[trigger] cell_at(
            rows,
            start,
            s,
            d,
        ) is Some ==> {
            let m = cell_at(rows, start, s, d)->0.vote_meta;
            &&& meta_wf(m)
            &&& in_span(m, s)
            &&& start <= span_lo(m)
            &&& span_hi(m) < start + rows.len()
            &&& cell_at(rows, start, s, d) == span_cell(m, s)
            &&& forall|s2: int| in_span(m, s2) ==> #[trigger] cell_at(rows, start, s2, d)
                == span_cell(m, s2)
        }
}

impl LandingTable {
    pub open spec fn width(&self) -> int {
        self.rows@.len() as int
    }

    pub open spec fn cell(&self, s: int, d: int) -> Option<TableEntryView> {
        cell_at(self.rows@, self.start as int, s, d)
    }

    pub open spec fn wf(&self) -> bool {
        rows_wf(self.rows@, self.start as int, self.depth as int)
    }

    /// No two overlapping vote spans share a depth: any two occupied cells at
    /// the same depth whose votes' spans overlap hold the same vote.
    pub proof fn lemma_no_overlap_same_depth(&self, s1: int, s2: int, d: int)
        requires
            self.wf(),
            self.start <= s1 < self.start + self.width(),
            self.start <= s2 < self.start + self.width(),
            0 <= d < self.depth,
            self.cell(s1, d) is Some,
            self.cell(s2, d) is Some,
            exists|s: int|
                in_span(self.cell(s1, d)->0.vote_meta, s) && in_span(
                    self.cell(s2, d)->0.vote_meta,
                    s,
                ),
        ensures
            self.cell(s1, d)->0.vote_meta == self.cell(s2, d)->0.vote_meta,
    {
        let m1 = self.cell(s1, d)->0.vote_meta;
        let m2 = self.cell(s2, d)->0.vote_meta;
        let s = choose|s: int| in_span(m1, s) && in_span(m2, s);
        assert(cell_at(self.rows@, self.start as int, s, d) == span_cell(m1, s));
        assert(cell_at(self.rows@, self.start as int, s, d) == span_cell(m2, s));
    }
}

/// A row of `depth` empty cells.
fn blank_row(depth: usize) -> (row: Vec<Option<TableEntry>>)
    ensures
        row@.len() == depth,
        forall|d: int| 0 <= d < depth ==> row@[d] is None,
{
    let mut row: Vec<Option<TableEntry>> = Vec::new();
    let mut d: usize = 0;
    while d < depth
        invariant
            0 <= d <= depth,
            row@.len() == d,
            forall|k: int| 0 <= k < d ==> row@[k] is None,
        decreases depth - d,
    {
        row.push(None);
        d += 1;
    }
    row
}

/// Whether every slot of `[lo_s, hi_s]` is still free at depth `d`.
fn span_free(
    rows: &Vec<Vec<Option<TableEntry>>>,
    start: u64,
    lo_s: u64,
    hi_s: u64,
    d: usize,
) -> (b: bool)
    requires
        rows_shaped(rows@, rows@[0]@.len() as int),
        d < rows@[0]@.len(),
        rows@.len() > 0,
        start <= lo_s <= hi_s,
        hi_s < u64::MAX,
        hi_s - start < rows@.len(),
    ensures
        b == forall|s: int|
            lo_s <= s <= hi_s ==> #[trigger] cell_at(rows@, start as int, s, d as int) is None,
{
    let ghost depth = rows@[0]@.len() as int;
    let n = rows.len();
    let mut s: u64 = lo_s;
    while s <= hi_s
        invariant
            rows_shaped(rows@, depth),
            d < depth,
            start <= lo_s <= s,
            hi_s < u64::MAX,
            hi_s - start < rows@.len(),
            n == rows@.len(),
            s <= hi_s + 1,
            forall|t: int| lo_s <= t < s ==> #[trigger] cell_at(rows@, start as int, t, d as int) is None,
        decreases hi_s + 1 - s,
    {
        assert(s - start < n);
        let i = (s - start) as usize;
        assert(i as int == s - start);
        assert(rows@[i as int]@.len() == depth);
        if rows[i][d].is_some() {
            proof {
                assert(cell_at(rows@, start as int, s as int, d as int) is Some);
            }
            return false;
        }
        proof {
            assert(cell_at(rows@, start as int, s as int, d as int) is None);
        }
        s += 1;
    }
    true
}

/// Fill depth `d` of every slot in the span of `m` with its classified cell.
fn place_span(rows: &mut Vec<Vec<Option<TableEntry>>>, start: u64, m: &VoteMeta, d: usize)
    requires
        rows_shaped(old(rows)@, old(rows)@[0]@.len() as int),
        old(rows)@.len() > 0,
        d < old(rows)@[0]@.len(),
        meta_wf(m@),
        start <= span_lo(m@),
        span_hi(m@) - start < old(rows)@.len(),
    ensures
        final(rows)@.len() == old(rows)@.len(),
        rows_shaped(final(rows)@, old(rows)@[0]@.len() as int),
        forall|s: int|
            in_span(m@, s) ==> #[trigger] cell_at(final(rows)@, start as int, s, d as int)
                == span_cell(m@, s),
        forall|i: int, dd: int|
            0 <= i < old(rows)@.len() && 0 <= dd < old(rows)@[0]@.len() && !(dd == d && in_span(
                m@,
                i + start,
            )) ==> #[trigger] final(rows)@[i]@[dd] == old(rows)@[i]@[dd],
{
    let ghost depth = old(rows)@[0]@.len() as int;
    let ghost r0 = old(rows)@;
    let n = rows.len();
    let lo_s: u64 = m.vote_slots[0];
    let hi_s: u64 = m.landed_slot + 1;
    let mut s: u64 = lo_s;
    while s <= hi_s
        invariant
            rows_shaped(rows@, depth),
            rows@.len() == r0.len(),
            d < depth,
            meta_wf(m@),
            lo_s == span_lo(m@),
            hi_s == span_hi(m@),
            start <= lo_s <= s,
            hi_s < u64::MAX,
            s <= hi_s + 1,
            hi_s - start < rows@.len(),
            n == rows@.len(),
            forall|t: int|
                lo_s <= t < s ==> #[trigger] cell_at(rows@, start as int, t, d as int)
                    == span_cell(m@, t),
            forall|i: int, dd: int|
                0 <= i < r0.len() && 0 <= dd < depth && !(dd == d && lo_s <= i + start < s)
                    ==> #[trigger] rows@[i]@[dd] == r0[i]@[dd],
        decreases hi_s + 1 - s,
    {
        assert(s - start < n);
        let i = (s - start) as usize;
        assert(i as int == s - start);
        assert(rows@[i as int]@.len() == depth);
        let kind = m.classify(s);
        let entry = TableEntry { kind, vote_meta: m.clone_meta() };
        proof {
            assert(entry@ == TableEntryView { kind: classify_spec(m@, s), vote_meta: m@ });
        }
        let ghost pre = rows@;
        rows[i][d] = Some(entry);
        proof {
            assert(rows@.len() == pre.len());
            assert(rows@[i as int]@ =~= pre[i as int]@.update(d as int, Some(entry)));
            assert(forall|j: int| 0 <= j < pre.len() && j != i ==> rows@[j] == pre[j]);
            assert(cell_at(rows@, start as int, s as int, d as int) == span_cell(m@, s as int));
            assert forall|t: int|
                lo_s <= t < s + 1 implies #[trigger] cell_at(rows@, start as int, t, d as int)
                == span_cell(m@, t) by {
                if t < s {
                    assert(rows@[t - start] == pre[t - start]);
                    assert(cell_at(pre, start as int, t, d as int) == span_cell(m@, t));
                }
            }
            assert forall|i2: int, dd: int|
                0 <= i2 < r0.len() && 0 <= dd < depth && !(dd == d && lo_s <= i2 + start < s
                    + 1) implies #[trigger] rows@[i2]@[dd] == r0[i2]@[dd] by {
                assert(pre[i2]@[dd] == r0[i2]@[dd]);
                if i2 != i {
                    assert(rows@[i2] == pre[i2]);
                } else {
                    assert(rows@[i2]@[dd] == pre[i2]@[dd]);
                }
            }
        }
        s += 1;
    }
}

/// Whether some slot of `[lo_s, hi_s]` already holds an entry at depth `d`.
pub open spec fn span_occupied(
    rows: Seq<Vec<Option<TableEntry>>>,
    start: int,
    lo_s: int,
    hi_s: int,
    d: int,
) -> bool {
    exists|s: int| lo_s <= s <= hi_s && #[trigger] cell_at(rows, start, s, d) is Some
}

/// Find the first depth at which the whole span `[lo_s, hi_s]` is free.
fn find_free_depth(
    rows: &Vec<Vec<Option<TableEntry>>>,
    start: u64,
    lo_s: u64,
    hi_s: u64,
    depth: usize,
) -> (r: Option<usize>)
    requires
        rows_shaped(rows@, depth as int),
        rows@.len() > 0,
        depth == rows@[0]@.len(),
        start <= lo_s <= hi_s,
        hi_s < u64::MAX,
        hi_s - start < rows@.len(),
    ensures
        match r {
            Option::Some(d) => d < depth && forall|s: int|
                lo_s <= s <= hi_s ==> #[trigger] cell_at(rows@, start as int, s, d as int) is None,
            Option::None => forall|dd: int|
                0 <= dd < depth ==> #[trigger] span_occupied(
                    rows@,
                    start as int,
                    lo_s as int,
                    hi_s as int,
                    dd,
                ),
        },
{
    let mut d: usize = 0;
    while d < depth
        invariant
            rows_shaped(rows@, depth as int),
            rows@.len() > 0,
            depth == rows@[0]@.len(),
            start <= lo_s <= hi_s,
            hi_s < u64::MAX,
            hi_s - start < rows@.len(),
            0 <= d <= depth,
            forall|dd: int|
                0 <= dd < d ==> #[trigger] span_occupied(
                    rows@,
                    start as int,
                    lo_s as int,
                    hi_s as int,
                    dd,
                ),
        decreases depth - d,
    {
        if span_free(rows, start, lo_s, hi_s, d) {
            return Some(d);
        }
        proof {
            assert(span_occupied(rows@, start as int, lo_s as int, hi_s as int, d as int));
        }
        d += 1;
    }
    None
}

/// The votes are ordered by descending landed slot.
pub open spec fn sorted_by_landed_desc(metas: Seq<VoteMeta>) -> bool {
    forall|k1: int, k2: int|
        #![trigger metas[k1], metas[k2]]
        0 <= k1 <= k2 < metas.len() ==> metas[k1]@.landed_slot >= metas[k2]@.landed_slot
}

/// Every occupied cell of `rows` belongs to one of the first `upto` votes,
/// placed at its recorded depth, and shows that vote's classification.
pub open spec fn cell_from(
    metas: Seq<VoteMeta>,
    placed: Seq<int>,
    upto: int,
    e: TableEntryView,
    s: int,
    d: int,
) -> bool {
    exists|j: int|
        0 <= j < upto && #[trigger] placed[j] == d && metas[j]@ == e.vote_meta && in_span(
            metas[j]@,
            s,
        )
}

/// Vote `j` is fully placed at its recorded depth.
pub open spec fn placed_ok(
    metas: Seq<VoteMeta>,
    rows: Seq<Vec<Option<TableEntry>>>,
    start: int,
    depth: int,
    placed: Seq<int>,
    j: int,
) -> bool {
    &&& 0 <= placed[j] < depth
    &&& forall|s: int|
        in_span(metas[j]@, s) ==> #[trigger] cell_at(rows, start, s, placed[j]) == span_cell(
            metas[j]@,
            s,
        )
}

/// Vote `m` occupies some depth of table `t` across its whole span.
pub open spec fn placed_in(t: LandingTable, m: VoteMetaView) -> bool {
    exists|d: int|
        0 <= d < t.depth && #[trigger] t.cell(span_lo(m), d) == span_cell(m, span_lo(m))
}

impl LandingTable {
    /// Greedily pack each vote span at the first depth where its whole slot
    /// range is still free.  The table spans exactly the slots touched by
    /// some vote span; a vote that fits no depth below the bound is a fatal
    /// layout fault.
    pub fn pack(metas: &Vec<VoteMeta>, depth: usize) -> (r: Result<LandingTable, LayoutError>)
        requires
            metas@.len() > 0,
            depth > 0,
            forall|k: int| 0 <= k < metas@.len() ==> meta_wf(#[trigger] metas@[k]@),
            sorted_by_landed_desc(metas@),
            forall|k1: int, k2: int|
                #![trigger metas@[k1], metas@[k2]]
                0 <= k1 < metas@.len() && 0 <= k2 < metas@.len() ==> span_hi(metas@[k1]@) + 1
                    - span_lo(metas@[k2]@) <= usize::MAX,
        ensures
            match r {
                Result::Ok(t) => {
                    &&& t.wf()
                    &&& t.depth == depth
                    &&& forall|k: int|
                        0 <= k < metas@.len() ==> t.start <= span_lo(#[trigger] metas@[k]@)
                            && span_hi(metas@[k]@) < t.start + t.width()
                    &&& forall|k: int| 0 <= k < metas@.len() ==> placed_in(t, #[trigger] metas@[k]@)
                    &&& forall|s: int, d: int|
                        t.start <= s < t.start + t.width() && 0 <= d < depth
                            && #[trigger] t.cell(s, d) is Some ==> exists|k: int|
                            0 <= k < metas@.len() && #[trigger] metas@[k]@ == t.cell(s, d)->0.vote_meta
                },
                Result::Err(e) => e == LayoutError::DepthExceeded,
            },
            (forall|s: int| crate::extract::overlap_count(metas@, s) <= depth) ==> r is Ok,
    {
        // The table covers [lo, hi]: the extremes of the vote spans.
        let mut lo: u64 = metas[0].vote_slots[0];
        let mut hi: u64 = metas[0].landed_slot + 1;
        let mut k: usize = 1;
        while k < metas.len()
            invariant
                metas@.len() > 0,
                forall|k2: int| 0 <= k2 < metas@.len() ==> meta_wf(#[trigger] metas@[k2]@),
                1 <= k <= metas@.len(),
                forall|k2: int| 0 <= k2 < k ==> lo as int <= span_lo(#[trigger] metas@[k2]@),
                forall|k2: int| 0 <= k2 < k ==> span_hi(#[trigger] metas@[k2]@) <= hi as int,
                exists|k2: int| 0 <= k2 < k && lo as int == span_lo(#[trigger] metas@[k2]@),
                exists|k2: int| 0 <= k2 < k && hi as int == span_hi(#[trigger] metas@[k2]@),
                hi < u64::MAX,
            decreases metas@.len() - k,
        {
            proof {
                assert(meta_wf(metas@[k as int]@));
            }
            let v = metas[k].vote_slots[0];
            if v < lo {
                lo = v;
            }
            let h = metas[k].landed_slot + 1;
            if h > hi {
                hi = h;
            }
            k += 1;
        }
        proof {
            let kl = choose|k2: int| 0 <= k2 < metas@.len() && lo as int == span_lo(metas@[k2]@);
            assert(span_hi(metas@[kl]@) + 1 - span_lo(metas@[kl]@) <= usize::MAX);
            assert(lo <= hi);
            assert(hi + 1 - lo <= usize::MAX);
        }
        let width = ((hi - lo) + 1) as usize;
        let mut rows: Vec<Vec<Option<TableEntry>>> = Vec::new();
        while rows.len() < width
            invariant
                rows@.len() <= width,
                rows_shaped(rows@, depth as int),
                forall|i: int, dd: int|
                    0 <= i < rows@.len() && 0 <= dd < depth ==> #[trigger] rows@[i]@[dd] is None,
            decreases width - rows@.len(),
        {
            rows.push(blank_row(depth));
        }
        let ghost mut placed: Seq<int> = Seq::empty();
        let mut k: usize = 0;
        proof {
            assert forall|s: int, d2: int|
                lo <= s < lo + width && 0 <= d2 < depth && #[trigger] cell_at(
                    rows@,
                    lo as int,
                    s,
                    d2,
                ) is Some implies cell_from(metas@, placed, 0, cell_at(rows@, lo as int, s, d2)->0, s, d2) by {
                assert(rows@[s - lo]@[d2] is None);
            }
        }
        while k < metas.len()
            invariant
                metas@.len() > 0,
                depth > 0,
                forall|k2: int| 0 <= k2 < metas@.len() ==> meta_wf(#[trigger] metas@[k2]@),
                sorted_by_landed_desc(metas@),
                0 <= k <= metas@.len(),
                forall|k2: int| 0 <= k2 < metas@.len() ==> lo as int <= span_lo(
                    #[trigger] metas@[k2]@,
                ),
                forall|k2: int| 0 <= k2 < metas@.len() ==> span_hi(#[trigger] metas@[k2]@)
                    <= hi as int,
                hi < u64::MAX,
                lo <= hi,
                width == hi - lo + 1,
                rows@.len() == width,
                rows_shaped(rows@, depth as int),
                placed.len() == k,
                forall|j: int|
                    0 <= j < k ==> #[trigger] placed_ok(
                        metas@,
                        rows@,
                        lo as int,
                        depth as int,
                        placed,
                        j,
                    ),
                forall|s: int, d2: int|
                    lo <= s < lo + width && 0 <= d2 < depth && #[trigger] cell_at(
                        rows@,
                        lo as int,
                        s,
                        d2,
                    ) is Some ==> cell_from(
                        metas@,
                        placed,
                        k as int,
                        cell_at(rows@, lo as int, s, d2)->0,
                        s,
                        d2,
                    ),
            decreases metas@.len() - k,
        {
            let m = &metas[k];
            proof {
                assert(meta_wf(metas@[k as int]@));
            }
            let mlo: u64 = m.vote_slots[0];
            let mhi: u64 = m.landed_slot + 1;
            assert(lo as int <= span_lo(metas@[k as int]@));
            assert(span_hi(metas@[k as int]@) <= hi as int);
            let found = find_free_depth(&rows, lo, mlo, mhi, depth);
            let d = match found {
                Some(d) => d,
                None => {
                    // Every depth is blocked within this span.  Each blocking
                    // vote was placed earlier, so it landed no earlier and its
                    // span also covers this span's upper end: together with
                    // this vote, more spans cover that slot than the depth
                    // bound, so the bound was smaller than the true overlap.
                    proof {
                        assert forall|dd: int|
                            0 <= dd < depth && #[trigger] span_occupied(
                                rows@,
                                lo as int,
                                mlo as int,
                                mhi as int,
                                dd,
                            ) implies exists|j: int|
                            0 <= j < k && #[trigger] placed[j] == dd && in_span(
                            metas@[j]@,
                            mhi as int,
                        ) by {
                            let s = choose|s: int|
                                mlo <= s <= mhi && #[trigger] cell_at(
                                    rows@,
                                    lo as int,
                                    s,
                                    dd,
                                ) is Some;
                            assert(cell_from(
                                metas@,
                                placed,
                                k as int,
                                cell_at(rows@, lo as int, s, dd)->0,
                                s,
                                dd,
                            ));
                            let j = choose|j: int|
                                0 <= j < k && #[trigger] placed[j] == dd && metas@[j]@ == cell_at(
                                    rows@,
                                    lo as int,
                                    s,
                                    dd,
                                )->0.vote_meta && in_span(metas@[j]@, s);
                            assert(metas@[j]@.landed_slot >= metas@[k as int]@.landed_slot);
                            assert(span_hi(metas@[j]@) >= mhi);
                            assert(span_lo(metas@[j]@) <= s <= mhi);
                            assert(in_span(metas@[j]@, mhi as int));
                        }
                        let js = Seq::new(
                            (depth + 1) as nat,
                            |dd: int|
                                if dd < depth {
                                    choose|j: int|
                                        0 <= j < k && #[trigger] placed[j] == dd && in_span(
                                            metas@[j]@,
                                            mhi as int,
                                        )
                                } else {
                                    k as int
                                },
                        );
                        assert forall|a: int| 0 <= a < js.len() implies 0 <= #[trigger] js[a]
                            < metas@.len() && in_span(metas@[js[a]]@, mhi as int) by {
                            if a < depth {
                                assert(span_occupied(rows@, lo as int, mlo as int, mhi as int, a));
                                assert(exists|j: int|
                                    0 <= j < k && #[trigger] placed[j] == a && in_span(
                                        metas@[j]@,
                                        mhi as int,
                                    ));
                            } else {
                                assert(js[a] == k as int);
                                assert(in_span(metas@[k as int]@, mhi as int));
                            }
                        }
                        assert forall|a: int, b: int| 0 <= a < b < js.len() implies js[a]
                            != js[b] by {
                            assert(span_occupied(rows@, lo as int, mlo as int, mhi as int, a));
                            assert(exists|j: int|
                                0 <= j < k && #[trigger] placed[j] == a && in_span(
                                    metas@[j]@,
                                    mhi as int,
                                ));
                            if b < depth {
                                assert(span_occupied(rows@, lo as int, mlo as int, mhi as int, b));
                                assert(exists|j: int|
                                    0 <= j < k && #[trigger] placed[j] == b && in_span(
                                        metas@[j]@,
                                        mhi as int,
                                    ));
                                assert(placed[js[a]] == a && placed[js[b]] == b);
                            } else {
                                assert(js[b] == k as int && js[a] < k);
                            }
                        }
                        crate::extract::lemma_overlap_count_lower(metas@, mhi as int, js);
                        assert(crate::extract::overlap_count(metas@, mhi as int) >= depth + 1);
                    }
                    return Err(LayoutError::DepthExceeded);
                },
            };
            let ghost pre = rows@;
            place_span(&mut rows, lo, m, d);
            proof {
                let placed0 = placed;
                placed = placed.push(d as int);
                assert forall|j: int|
                    0 <= j < k + 1 implies #[trigger] placed_ok(
                        metas@,
                        rows@,
                        lo as int,
                        depth as int,
                        placed,
                        j,
                    ) by {
                    if j < k {
                        assert(placed_ok(metas@, pre, lo as int, depth as int, placed0, j));
                        assert(placed[j] == placed0[j]);
                        assert forall|s: int|
                            in_span(metas@[j]@, s) implies #[trigger] cell_at(
                                rows@,
                                lo as int,
                                s,
                                placed[j],
                            ) == span_cell(metas@[j]@, s) by {
                            assert(cell_at(pre, lo as int, s, placed0[j]) == span_cell(
                                metas@[j]@,
                                s,
                            ));
                            if placed0[j] == d && in_span(metas@[k as int]@, s) {
                                assert(cell_at(pre, lo as int, s, d as int) is None);
                                assert(false);
                            }
                            assert(rows@[s - lo]@[placed0[j]] == pre[s - lo]@[placed0[j]]);
                        }
                    } else {
                        assert(placed[j] == d as int);
                        assert forall|s: int|
                            in_span(metas@[j]@, s) implies #[trigger] cell_at(
                                rows@,
                                lo as int,
                                s,
                                placed[j],
                            ) == span_cell(metas@[j]@, s) by {
                            assert(cell_at(rows@, lo as int, s, d as int) == span_cell(
                                metas@[k as int]@,
                                s,
                            ));
                        }
                    }
                }
                assert forall|s: int, d2: int|
                    lo <= s < lo + width && 0 <= d2 < depth && #[trigger] cell_at(
                        rows@,
                        lo as int,
                        s,
                        d2,
                    ) is Some implies cell_from(
                        metas@,
                        placed,
                        k + 1,
                        cell_at(rows@, lo as int, s, d2)->0,
                        s,
                        d2,
                    ) by {
                    if d2 == d && in_span(metas@[k as int]@, s) {
                        assert(cell_at(rows@, lo as int, s, d2) == span_cell(metas@[k as int]@, s));
                        assert(placed[k as int] == d2 && metas@[k as int]@ == cell_at(
                            rows@,
                            lo as int,
                            s,
                            d2,
                        )->0.vote_meta);
                    } else {
                        assert(rows@[s - lo]@[d2] == pre[s - lo]@[d2]);
                        assert(cell_at(rows@, lo as int, s, d2) == cell_at(pre, lo as int, s, d2));
                        assert(cell_at(pre, lo as int, s, d2) is Some);
                        assert(cell_from(
                            metas@,
                            placed0,
                            k as int,
                            cell_at(pre, lo as int, s, d2)->0,
                            s,
                            d2,
                        ));
                        let j = choose|j: int|
                            0 <= j < k && #[trigger] placed0[j] == d2 && metas@[j]@ == cell_at(
                                pre,
                                lo as int,
                                s,
                                d2,
                            )->0.vote_meta && in_span(metas@[j]@, s);
                        assert(placed[j] == d2);
                    }
                }
            }
            k += 1;
        }
        let t = LandingTable { start: lo, rows, depth };
        proof {
            assert forall|s: int, d2: int|
                lo <= s < lo + t.rows@.len() && 0 <= d2 < depth && #[trigger] cell_at(
                    t.rows@,
                    lo as int,
                    s,
                    d2,
                ) is Some implies {
                let m = cell_at(t.rows@, lo as int, s, d2)->0.vote_meta;
                &&& meta_wf(m)
                &&& in_span(m, s)
                &&& lo <= span_lo(m)
                &&& span_hi(m) < lo + t.rows@.len()
                &&& cell_at(t.rows@, lo as int, s, d2) == span_cell(m, s)
                &&& forall|s2: int| in_span(m, s2) ==> #[trigger] cell_at(t.rows@, lo as int, s2, d2)
                    == span_cell(m, s2)
            } by {
                let e = cell_at(t.rows@, lo as int, s, d2)->0;
                let j = choose|j: int|
                    0 <= j < metas@.len() && #[trigger] placed[j] == d2 && metas@[j]@
                        == e.vote_meta && in_span(metas@[j]@, s);
                assert(placed_ok(metas@, t.rows@, lo as int, depth as int, placed, j));
                assert(cell_at(t.rows@, lo as int, s, d2) == span_cell(metas@[j]@, s));
            }
            assert(t.wf());
            assert forall|k2: int| 0 <= k2 < metas@.len() implies placed_in(
                t,
                #[trigger] metas@[k2]@,
            ) by {
                assert(placed_ok(metas@, t.rows@, lo as int, depth as int, placed, k2));
                assert(in_span(metas@[k2]@, span_lo(metas@[k2]@)));
                assert(t.cell(span_lo(metas@[k2]@), placed[k2]) == span_cell(
                    metas@[k2]@,
                    span_lo(metas@[k2]@),
                ));
            }
            assert forall|s: int, d2: int|
                t.start <= s < t.start + t.width() && 0 <= d2 < depth && #[trigger] t.cell(
                    s,
                    d2,
                ) is Some implies exists|k2: int|
                0 <= k2 < metas@.len() && #[trigger] metas@[k2]@ == t.cell(s, d2)->0.vote_meta by {
                let j = choose|j: int|
                    0 <= j < metas@.len() && #[trigger] placed[j] == d2 && metas@[j]@ == t.cell(
                        s,
                        d2,
                    )->0.vote_meta && in_span(metas@[j]@, s);
                assert(metas@[j]@ == t.cell(s, d2)->0.vote_meta);
            }
        }
        Ok(t)
    }
}

/// Order the votes by descending landed slot: the input of the packer.
/// The result holds exactly the input votes.
pub fn sort_by_landed_desc(v: Vec<VoteMeta>) -> (r: Vec<VoteMeta>)
    ensures
        r@.to_multiset() == v@.to_multiset(),
        r@.len() == v@.len(),
        sorted_by_landed_desc(r@),
        forall|i: int| 0 <= i < r@.len() ==> v@.contains(#[trigger] r@[i]),
{
    broadcast use vstd::seq_lib::group_to_multiset_ensures;

    let ghost orig = v@;
    let mut src = v;
    let mut out: Vec<VoteMeta> = Vec::new();
    while src.len() > 0
        invariant
            out@.to_multiset().add(src@.to_multiset()) =~= orig.to_multiset(),
            out@.len() + src@.len() == orig.len(),
            sorted_by_landed_desc(out@),
            forall|i: int, j: int|
                0 <= i < out@.len() && 0 <= j < src@.len() ==> out@[i]@.landed_slot
                    >= src@[j]@.landed_slot,
        decreases src.len(),
    {
        let mut mi: usize = 0;
        let mut j: usize = 1;
        while j < src.len()
            invariant
                mi < src@.len(),
                j <= src@.len(),
                forall|k: int| 0 <= k < j ==> src@[mi as int]@.landed_slot >= src@[k]@.landed_slot,
            decreases src.len() - j,
        {
            if src[j].landed_slot > src[mi].landed_slot {
                mi = j;
            }
            j += 1;
        }
        let ghost presrc = src@;
        let ghost preout = out@;
        let x = src.remove(mi);
        out.push(x);
        proof {
            presrc.to_multiset_ensures();
            preout.to_multiset_ensures();
            assert(src@ == presrc.remove(mi as int));
            assert(presrc.remove(mi as int).to_multiset() =~= presrc.to_multiset().remove(
                presrc[mi as int],
            ));
            assert(out@ == preout.push(out@[out@.len() - 1]));
            assert(preout.push(out@[out@.len() - 1]).to_multiset() =~= preout.to_multiset().insert(
                out@[out@.len() - 1],
            ));
            assert(out@.to_multiset().add(src@.to_multiset()) =~= orig.to_multiset());
            assert forall|i: int, j2: int|
                0 <= i < out@.len() && 0 <= j2 < src@.len() implies out@[i]@.landed_slot
                >= src@[j2]@.landed_slot by {
                if j2 < mi {
                    assert(src@[j2] == presrc[j2]);
                } else {
                    assert(src@[j2] == presrc[j2 + 1]);
                }
                if i == out@.len() - 1 {
                    assert(out@[i] == presrc[mi as int]);
                }
            }
        }
    }
    proof {
        orig.to_multiset_ensures();
        out@.to_multiset_ensures();
        assert(src@.to_multiset() =~= Multiset::<VoteMeta>::empty());
        assert(out@.to_multiset() =~= orig.to_multiset());
        assert forall|i: int| 0 <= i < out@.len() implies orig.contains(#[trigger] out@[i]) by {
            assert(out@.to_multiset().count(out@[i]) > 0);
            assert(orig.to_multiset().count(out@[i]) > 0);
        }
    }
    out
}

impl LandingTable {
    /// Discard the single highest-keyed row, a sentinel boundary marking
    /// one past the last landing, not an observed slot.
    pub fn drop_sentinel_row(&mut self)
        requires
            old(self).rows@.len() > 0,
        ensures
            final(self).start == old(self).start,
            final(self).depth == old(self).depth,
            final(self).rows@ == old(self).rows@.take(old(self).rows@.len() - 1),
    {
        let n = self.rows.len();
        self.rows.truncate(n - 1);
    }

    /// The whole historical layout: order the votes by descending landed
    /// slot, bound the depth by the overlap histogram's maximum, and pack
    /// greedily.  Every input vote ends up placed at some depth of the
    /// returned table across its whole span.
    pub fn build(metas: Vec<VoteMeta>) -> (r: Result<LandingTable, LayoutError>)
        requires
            metas@.len() > 0,
            forall|k: int| 0 <= k < metas@.len() ==> meta_wf(#[trigger] metas@[k]@),
            forall|k1: int, k2: int|
                #![trigger metas@[k1], metas@[k2]]
                0 <= k1 < metas@.len() && 0 <= k2 < metas@.len() ==> span_hi(metas@[k1]@) + 1
                    - span_lo(metas@[k2]@) <= usize::MAX,
        ensures
            match r {
                Result::Ok(t) => {
                    &&& t.wf()
                    &&& forall|k: int|
                        0 <= k < metas@.len() ==> t.start <= span_lo(#[trigger] metas@[k]@)
                            && span_hi(metas@[k]@) < t.start + t.width()
                    &&& forall|k: int| 0 <= k < metas@.len() ==> placed_in(t, #[trigger] metas@[k]@)
                },
                Result::Err(e) => e == LayoutError::DepthExceeded,
            },
            r is Ok,
    {
        let ghost orig = metas@;
        let sorted = sort_by_landed_desc(metas);
        proof {
            assert forall|k: int| 0 <= k < sorted@.len() implies meta_wf(
                #[trigger] sorted@[k]@,
            ) by {
                assert(orig.contains(sorted@[k]));
                let j = choose|j: int| 0 <= j < orig.len() && orig[j] == sorted@[k];
                assert(meta_wf(orig[j]@));
            }
            assert forall|k1: int, k2: int|
                #![trigger sorted@[k1], sorted@[k2]]
                0 <= k1 < sorted@.len() && 0 <= k2 < sorted@.len() implies span_hi(sorted@[k1]@) + 1
                - span_lo(sorted@[k2]@) <= usize::MAX by {
                assert(orig.contains(sorted@[k1]));
                assert(orig.contains(sorted@[k2]));
                let j1 = choose|j: int| 0 <= j < orig.len() && orig[j] == sorted@[k1];
                let j2 = choose|j: int| 0 <= j < orig.len() && orig[j] == sorted@[k2];
                assert(span_hi(orig[j1]@) + 1 - span_lo(orig[j2]@) <= usize::MAX);
            }
        }
        let (lo, counts, max_depth) = crate::extract::vote_histogram(&sorted);
        if max_depth == 0 {
            proof {
                assert(meta_wf(sorted@[0]@));
                assert(lo as int <= span_lo(sorted@[0]@) < lo + counts@.len());
                let i = span_lo(sorted@[0]@) - lo;
                crate::extract::lemma_overlap_count_positive(sorted@, 0, span_lo(sorted@[0]@));
                assert(counts@[i] == crate::extract::overlap_count(sorted@, lo + i));
                assert(false);
            }
        }
        proof {
            assert forall|s: int| crate::extract::overlap_count(sorted@, s) <= max_depth by {
                if lo <= s < lo + counts@.len() {
                    assert(counts@[s - lo] == crate::extract::overlap_count(sorted@, s));
                    assert(counts@[s - lo] <= max_depth);
                } else {
                    assert forall|k2: int| 0 <= k2 < sorted@.len() implies !in_span(
                        #[trigger] sorted@[k2]@,
                        s,
                    ) by {
                        assert(lo as int <= span_lo(sorted@[k2]@));
                        assert(span_hi(sorted@[k2]@) < lo + counts@.len());
                    }
                    crate::extract::lemma_overlap_count_zero_outside(sorted@, s);
                }
            }
        }
        let t = match LandingTable::pack(&sorted, max_depth) {
            Ok(t) => t,
            Err(e) => {
                proof {
                    assert(false);
                }
                return Err(e);
            },
        };
        proof {
            assert forall|k: int|
                0 <= k < orig.len() implies t.start <= span_lo(#[trigger] orig[k]@) && span_hi(
                orig[k]@,
            ) < t.start + t.width() && placed_in(t, orig[k]@) by {
                broadcast use vstd::seq_lib::group_to_multiset_ensures;

                assert(orig.to_multiset().count(orig[k]) > 0);
                assert(sorted@.to_multiset().count(orig[k]) > 0);
                assert(sorted@.contains(orig[k]));
                let j = choose|j: int| 0 <= j < sorted@.len() && sorted@[j] == orig[k];
                assert(t.start <= span_lo(sorted@[j]@));
                assert(placed_in(t, sorted@[j]@));
            }
        }
        Ok(t)
    }
}

} // verus!
