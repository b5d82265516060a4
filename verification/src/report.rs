use vstd::prelude::*;
use crate::meta::{TableEntry, TableEntryKind, VoteMeta};

verus! {

/// The confirmation status printed in front of one table row.
#[derive(Clone, Copy, Debug, PartialEq, Eq, Structural)]
pub enum RowStatus {
    Confirmed,
    Miss,
    Skip,
}

/// Whether some cell of the row is a successful literal vote.
pub open spec fn row_has_successful_vote(row: Seq<Option<TableEntry>>) -> bool {
    exists|i: int|
        0 <= i < row.len() && (#[trigger] row[i]) is Some && row[i]->0@.kind
            == TableEntryKind::Vote && row[i]->0@.vote_meta.success
}

/// The status of one slot row: an unconfirmed slot is a skip, never a miss;
/// a confirmed slot below the highest last-voted slot with no successful
/// vote cell is a miss; any other confirmed slot is plainly confirmed.
pub open spec fn row_status_spec(
    slot: u64,
    confirmed: bool,
    row: Seq<Option<TableEntry>>,
    max_last_vote_slot: u64,
) -> RowStatus {
    if !confirmed {
        RowStatus::Skip
    } else if slot < max_last_vote_slot && !row_has_successful_vote(row) {
        RowStatus::Miss
    } else {
        RowStatus::Confirmed
    }
}

/// Classify one slot row of the rendered table.
pub fn row_status(
    slot: u64,
    confirmed: bool,
    row: &Vec<Option<TableEntry>>,
    max_last_vote_slot: u64,
) -> (st: RowStatus)
    ensures
        st == row_status_spec(slot, confirmed, row@, max_last_vote_slot),
{
    if !confirmed {
        return RowStatus::Skip;
    }
    if slot >= max_last_vote_slot {
        return RowStatus::Confirmed;
    }
    let mut i: usize = 0;
    let mut found: bool = false;
    while i < row.len()
        invariant
            0 <= i <= row.len(),
            found == exists|k: int|
                0 <= k < i && (#[trigger] row@[k]) is Some && row@[k]->0@.kind
                    == TableEntryKind::Vote && row@[k]->0@.vote_meta.success,
        decreases row.len() - i,
    {
        match &row[i] {
            Some(e) => {
                if matches!(e.kind, TableEntryKind::Vote) && e.vote_meta.success {
                    found = true;
                }
            },
            None => {},
        }
        i += 1;
    }
    proof {
        assert(found == row_has_successful_vote(row@));
    }
    if found {
        RowStatus::Confirmed
    } else {
        RowStatus::Miss
    }
}

/// A confirmed slot below the highest last-voted slot whose row shows no
/// successful vote is reported as a miss; the same slot unconfirmed is
/// reported as a skip, never as a miss.
pub proof fn lemma_miss_skip(slot: u64, row: Seq<Option<TableEntry>>, max_last_vote_slot: u64)
    requires
        slot < max_last_vote_slot,
        !row_has_successful_vote(row),
    ensures
        row_status_spec(slot, true, row, max_last_vote_slot) == RowStatus::Miss,
        row_status_spec(slot, false, row, max_last_vote_slot) == RowStatus::Skip,
{
}

/// How many of the given statuses are misses.
pub open spec fn count_misses(sts: Seq<RowStatus>) -> int
    decreases sts.len(),
{
    if sts.len() == 0 {
        0
    } else {
        count_misses(sts.drop_last()) + if sts.last() == RowStatus::Miss {
            1int
        } else {
            0int
        }
    }
}

/// Count the miss rows among the given statuses.
pub fn miss_count(sts: &Vec<RowStatus>) -> (n: usize)
    ensures
        n == count_misses(sts@),
{
    let mut n: usize = 0;
    let mut i: usize = 0;
    while i < sts.len()
        invariant
            0 <= i <= sts.len(),
            n == count_misses(sts@.take(i as int)),
            n <= i,
        decreases sts.len() - i,
    {
        proof {
            assert(sts@.take(i + 1).drop_last() =~= sts@.take(i as int));
            assert(sts@.take(i + 1).last() == sts@[i as int]);
        }
        if matches!(sts[i], RowStatus::Miss) {
            n += 1;
        }
        i += 1;
    }
    proof {
        assert(sts@.take(sts@.len() as int) =~= sts@);
    }
    n
}

/// How many of the given votes failed.
pub open spec fn count_failures(metas: Seq<VoteMeta>) -> int
    decreases metas.len(),
{
    if metas.len() == 0 {
        0
    } else {
        count_failures(metas.drop_last()) + if !metas.last()@.success {
            1int
        } else {
            0int
        }
    }
}

/// Count the failed vote transactions among the given votes.
pub fn failed_vote_count(metas: &Vec<VoteMeta>) -> (n: usize)
    ensures
        n == count_failures(metas@),
{
    let mut n: usize = 0;
    let mut i: usize = 0;
    while i < metas.len()
        invariant
            0 <= i <= metas.len(),
            n == count_failures(metas@.take(i as int)),
            n <= i,
        decreases metas.len() - i,
    {
        proof {
            assert(metas@.take(i + 1).drop_last() =~= metas@.take(i as int));
            assert(metas@.take(i + 1).last() == metas@[i as int]);
        }
        if !metas[i].success {
            n += 1;
        }
        i += 1;
    }
    proof {
        assert(metas@.take(metas@.len() as int) =~= metas@);
    }
    n
}

} // verus!
