use vstd::prelude::*;

verus! {

/// The mathematical content of a historical vote transaction: its signature
/// text, whether it succeeded, the slots it voted for, and the slot the
/// transaction landed in.
#[verifier::ext_equal]
pub ghost struct VoteMetaView {
    pub signature: Seq<char>,
    pub success: bool,
    pub vote_slots: Seq<u64>,
    pub landed_slot: u64,
}

/// A normalized historical vote transaction.
pub struct VoteMeta {
    pub signature: String,
    pub success: bool,
    pub vote_slots: Vec<u64>,
    pub landed_slot: u64,
}

impl View for VoteMeta {
    type V = VoteMetaView;

    open spec fn view(&self) -> VoteMetaView {
        VoteMetaView {
            signature: self.signature@,
            success: self.success,
            vote_slots: self.vote_slots@,
            landed_slot: self.landed_slot,
        }
    }
}

/// A well-formed vote: at least one voted slot, slots sorted ascending, a
/// signature long enough to take a four-character prefix of, and a landed
/// slot low enough that the slot after its successor still fits a slot
/// number and whose successor does not precede the first voted slot.
pub open spec fn meta_wf(m: VoteMetaView) -> bool {
    &&& m.vote_slots.len() > 0
    &&& forall|i: int, j: int|
        0 <= i <= j < m.vote_slots.len() ==> m.vote_slots[i] <= m.vote_slots[j]
    &&& m.signature.len() >= 4
    &&& m.landed_slot + 1 < u64::MAX
    &&& m.vote_slots[0] <= m.landed_slot + 1
}

/// The first slot of the span a vote occupies in the landing table.
pub open spec fn span_lo(m: VoteMetaView) -> int {
    m.vote_slots[0] as int
}

/// The last slot of the span a vote occupies in the landing table: one past
/// the slot the transaction landed in.
pub open spec fn span_hi(m: VoteMetaView) -> int {
    m.landed_slot + 1
}

/// Whether slot `s` lies in the table span of vote `m`.
pub open spec fn in_span(m: VoteMetaView, s: int) -> bool {
    span_lo(m) <= s <= span_hi(m)
}

/// The highest slot the vote voted for.
pub open spec fn last_vote_slot(m: VoteMetaView) -> u64 {
    m.vote_slots[m.vote_slots.len() - 1]
}

/// What a landing-table cell shows for one slot of a placed vote span.
#[derive(Clone, Copy, Debug, PartialEq, Eq, Structural)]
pub enum TableEntryKind {
    Space,
    Vote,
    VoteGap,
    Waiting,
    Landed,
}

impl Default for TableEntryKind {
    /// An empty cell shows as blank space.
    fn default() -> (r: TableEntryKind)
        ensures
            r == TableEntryKind::Space,
    {
        TableEntryKind::Space
    }
}

/// The classification of slot `s` within the span of vote `m`: the landed
/// slot itself, a literally voted slot, a gap between voted slots, the wait
/// between the last voted slot and the landing, or blank space.
pub open spec fn classify_spec(m: VoteMetaView, s: u64) -> TableEntryKind {
    if s == m.landed_slot {
        TableEntryKind::Landed
    } else if m.vote_slots.contains(s) {
        TableEntryKind::Vote
    } else if s < last_vote_slot(m) {
        TableEntryKind::VoteGap
    } else if s < m.landed_slot {
        TableEntryKind::Waiting
    } else {
        TableEntryKind::Space
    }
}

/// One cell of the landing table: a classification together with the vote
/// it belongs to.
pub struct TableEntry {
    pub kind: TableEntryKind,
    pub vote_meta: VoteMeta,
}

#[verifier::ext_equal]
pub ghost struct TableEntryView {
    pub kind: TableEntryKind,
    pub vote_meta: VoteMetaView,
}

impl View for TableEntry {
    type V = TableEntryView;

    open spec fn view(&self) -> TableEntryView {
        TableEntryView { kind: self.kind, vote_meta: self.vote_meta@ }
    }
}

impl VoteMeta {
    /// An identical copy of this vote record.
    pub fn clone_meta(&self) -> (r: VoteMeta)
        ensures
            r@ == self@,
    {
        let mut vs: Vec<u64> = Vec::new();
        let mut i: usize = 0;
        while i < self.vote_slots.len()
            invariant
                0 <= i <= self.vote_slots.len(),
                vs@ == self.vote_slots@.take(i as int),
            decreases self.vote_slots.len() - i,
        {
            vs.push(self.vote_slots[i]);
            proof {
                assert(vs@ =~= self.vote_slots@.take(i + 1));
            }
            i += 1;
        }
        proof {
            assert(vs@ =~= self.vote_slots@);
        }
        let r = VoteMeta {
            signature: self.signature.clone(),
            success: self.success,
            vote_slots: vs,
            landed_slot: self.landed_slot,
        };
        proof {
            assert(r@ =~= self@);
        }
        r
    }

    /// The classification of slot `s` within this vote's span.
    pub fn classify(&self, s: u64) -> (k: TableEntryKind)
        requires
            meta_wf(self@),
        ensures
            k == classify_spec(self@, s),
    {
        if s == self.landed_slot {
            return TableEntryKind::Landed;
        }
        let mut i: usize = 0;
        let mut voted: bool = false;
        while i < self.vote_slots.len()
            invariant
                0 <= i <= self.vote_slots.len(),
                voted == exists|k: int| 0 <= k < i && self.vote_slots@[k] == s,
            decreases self.vote_slots.len() - i,
        {
            if self.vote_slots[i] == s {
                voted = true;
            }
            i += 1;
        }
        proof {
            assert(voted == self.vote_slots@.contains(s));
        }
        if voted {
            TableEntryKind::Vote
        } else if s < self.vote_slots[self.vote_slots.len() - 1] {
            TableEntryKind::VoteGap
        } else if s < self.landed_slot {
            TableEntryKind::Waiting
        } else {
            TableEntryKind::Space
        }
    }
}

/// The outcome of comparing two table entries.
#[derive(Clone, Copy, Debug, PartialEq, Eq, Structural)]
pub enum EntryOrder {
    Less,
    Equal,
    Greater,
}

/// Lexicographic order on character sequences.
pub open spec fn chars_cmp_spec(a: Seq<char>, b: Seq<char>) -> EntryOrder
    decreases a.len(),
{
    if a.len() == 0 && b.len() == 0 {
        EntryOrder::Equal
    } else if a.len() == 0 {
        EntryOrder::Less
    } else if b.len() == 0 {
        EntryOrder::Greater
    } else if a[0] < b[0] {
        EntryOrder::Less
    } else if b[0] < a[0] {
        EntryOrder::Greater
    } else {
        chars_cmp_spec(a.skip(1), b.skip(1))
    }
}

pub open spec fn u64_cmp_spec(x: u64, y: u64) -> EntryOrder {
    if x < y {
        EntryOrder::Less
    } else if y < x {
        EntryOrder::Greater
    } else {
        EntryOrder::Equal
    }
}

pub open spec fn bool_cmp_spec(x: bool, y: bool) -> EntryOrder {
    if !x && y {
        EntryOrder::Less
    } else if x && !y {
        EntryOrder::Greater
    } else {
        EntryOrder::Equal
    }
}

/// The order on table entries: by success flag, then first voted slot,
/// then landed slot, then signature text.
pub open spec fn entry_cmp_spec(a: TableEntryView, b: TableEntryView) -> EntryOrder {
    if bool_cmp_spec(a.vote_meta.success, b.vote_meta.success) != EntryOrder::Equal {
        bool_cmp_spec(a.vote_meta.success, b.vote_meta.success)
    } else if u64_cmp_spec(a.vote_meta.vote_slots[0], b.vote_meta.vote_slots[0])
        != EntryOrder::Equal {
        u64_cmp_spec(a.vote_meta.vote_slots[0], b.vote_meta.vote_slots[0])
    } else if u64_cmp_spec(a.vote_meta.landed_slot, b.vote_meta.landed_slot)
        != EntryOrder::Equal {
        u64_cmp_spec(a.vote_meta.landed_slot, b.vote_meta.landed_slot)
    } else {
        chars_cmp_spec(a.vote_meta.signature, b.vote_meta.signature)
    }
}

/// Compare two strings lexicographically by characters.
pub fn chars_cmp(a: &str, b: &str) -> (r: EntryOrder)
    ensures
        r == chars_cmp_spec(a@, b@),
{
    let na = a.unicode_len();
    let nb = b.unicode_len();
    let mut i: usize = 0;
    proof {
        assert(a@.skip(0) =~= a@);
        assert(b@.skip(0) =~= b@);
    }
    while i < na && i < nb
        invariant
            0 <= i <= na,
            i <= nb,
            na == a@.len(),
            nb == b@.len(),
            chars_cmp_spec(a@, b@) == chars_cmp_spec(a@.skip(i as int), b@.skip(i as int)),
        decreases na - i,
    {
        let ca = a.get_char(i);
        let cb = b.get_char(i);
        proof {
            assert(a@.skip(i as int)[0] == a@[i as int]);
            assert(b@.skip(i as int)[0] == b@[i as int]);
        }
        if (ca as u32) < (cb as u32) {
            return EntryOrder::Less;
        }
        if (cb as u32) < (ca as u32) {
            return EntryOrder::Greater;
        }
        proof {
            assert(a@.skip(i as int).skip(1) =~= a@.skip(i + 1));
            assert(b@.skip(i as int).skip(1) =~= b@.skip(i + 1));
        }
        i += 1;
    }
    proof {
        assert(a@.skip(i as int).len() == na - i);
        assert(b@.skip(i as int).len() == nb - i);
    }
    if na == nb {
        EntryOrder::Equal
    } else if na < nb {
        EntryOrder::Less
    } else {
        EntryOrder::Greater
    }
}

/// Compare two table entries: by success flag, then first voted slot, then
/// landed slot, then signature text.
pub fn compare_entries(a: &TableEntry, b: &TableEntry) -> (r: EntryOrder)
    requires
        meta_wf(a.vote_meta@),
        meta_wf(b.vote_meta@),
    ensures
        r == entry_cmp_spec(a@, b@),
{
    if !a.vote_meta.success && b.vote_meta.success {
        return EntryOrder::Less;
    }
    if a.vote_meta.success && !b.vote_meta.success {
        return EntryOrder::Greater;
    }
    let fa = a.vote_meta.vote_slots[0];
    let fb = b.vote_meta.vote_slots[0];
    if fa < fb {
        return EntryOrder::Less;
    }
    if fb < fa {
        return EntryOrder::Greater;
    }
    if a.vote_meta.landed_slot < b.vote_meta.landed_slot {
        return EntryOrder::Less;
    }
    if b.vote_meta.landed_slot < a.vote_meta.landed_slot {
        return EntryOrder::Greater;
    }
    chars_cmp(a.vote_meta.signature.as_str(), b.vote_meta.signature.as_str())
}

} // verus!
