use vote_view::ancestry::SlotAncestry;
use vote_view::correlator::{screen_vote, PendingVote, VoteBuffer, VoteScreen};
use vote_view::extract::{build_vote_meta, simple_vote_slots, sort_ascending, vote_histogram};
use vote_view::extract::{InstructionModel, TransactionModel};
use vote_view::glyph::{render_glyph, render_row_line, status_tag, u64_to_dec};
use vote_view::meta::{compare_entries, EntryOrder, TableEntry, TableEntryKind, VoteMeta};
use vote_view::report::{failed_vote_count, miss_count, row_status, RowStatus};
use vote_view::table::{sort_by_landed_desc, LandingTable, LayoutError};
use vote_view::tower::{is_locked_out, is_recent, slots_contain};

fn meta(signature: &str, success: bool, vote_slots: Vec<u64>, landed_slot: u64) -> VoteMeta {
    VoteMeta { signature: String::from(signature), success, vote_slots, landed_slot }
}

#[test]
fn ancestors_follow_parent_links() {
    let mut a = SlotAncestry::new(100);
    assert!(a.insert(5, 3));
    assert!(a.insert(3, 2));
    assert!(a.insert(2, 1));
    assert_eq!(a.ancestors_of(5), vec![3, 2, 1]);
    assert_eq!(a.ancestors_of(3), vec![2, 1]);
    assert_eq!(a.ancestors_of(7), Vec::<u64>::new());
    assert!(a.contains(5));
    assert!(!a.contains(7));
}

#[test]
fn insert_is_idempotent_and_refuses_upward_edges() {
    let mut a = SlotAncestry::new(100);
    assert!(a.insert(5, 3));
    assert!(!a.insert(5, 4));
    assert_eq!(a.ancestors_of(5), vec![3]);
    assert!(!a.insert(3, 3));
    assert!(!a.insert(3, 9));
    assert_eq!(a.len(), 1);
}

#[test]
fn eviction_removes_lowest_children_first() {
    let mut a = SlotAncestry::new(3);
    for c in [50u64, 10, 30, 20, 40] {
        assert!(a.insert(c, c - 1));
    }
    assert_eq!(a.len(), 5);
    a.evict();
    assert_eq!(a.len(), 3);
    assert!(!a.contains(10));
    assert!(!a.contains(20));
    assert!(a.contains(30));
    assert!(a.contains(40));
    assert!(a.contains(50));
    assert_eq!(a.lowest_child(), Some(30));
    assert_eq!(a.highest_child(), Some(50));
}

#[test]
fn recency_follows_last_voted_slot() {
    assert!(is_recent(None, 0));
    assert!(is_recent(Some(5), 6));
    assert!(!is_recent(Some(5), 5));
    assert!(!is_recent(Some(7), 5));
}

#[test]
fn lockout_check_flags_foreign_slots() {
    let ancestors = vec![3u64, 2, 1];
    assert!(!is_locked_out(&vec![3, 5], 5, &ancestors));
    assert!(is_locked_out(&vec![4, 5], 5, &ancestors));
    assert!(!is_locked_out(&vec![], 5, &ancestors));
    assert!(slots_contain(&ancestors, 2));
    assert!(!slots_contain(&ancestors, 9));
}

#[test]
fn screening_defers_then_rejects_stale() {
    let mut a = SlotAncestry::new(100);
    a.insert(5, 3);
    a.insert(3, 2);
    // Tower's lowest pending lockout slot is not in ancestry yet.
    assert_eq!(screen_vote(&a, 3, 5, Some(9), Some(2)), VoteScreen::Defer);
    // The vote's own lowest slot is missing.
    assert_eq!(screen_vote(&a, 4, 5, Some(3), Some(2)), VoteScreen::Defer);
    // Resolvable but the target does not exceed the last-voted slot.
    assert_eq!(screen_vote(&a, 3, 5, Some(3), Some(5)), VoteScreen::Stale);
    assert_eq!(screen_vote(&a, 3, 5, Some(3), Some(7)), VoteScreen::Stale);
    // Resolvable and recent.
    assert_eq!(screen_vote(&a, 3, 5, Some(3), Some(4)), VoteScreen::CheckLockout);
    assert_eq!(screen_vote(&a, 3, 5, None, None), VoteScreen::CheckLockout);
}

fn pending(identity: &str, slots: Vec<u64>) -> PendingVote {
    PendingVote {
        identity: String::from(identity),
        slots,
        hash: vec![0u8; 32],
        timestamp: None,
    }
}

#[test]
fn buffer_keys_votes_by_highest_slot() {
    let mut b = VoteBuffer::new();
    assert_eq!(b.buffer_vote(pending("v1", vec![])), None);
    assert_eq!(b.buffer_vote(pending("v1", vec![4, 9])), Some(9));
    assert_eq!(b.buffer_vote(pending("v2", vec![2, 5])), Some(5));
    assert_eq!(b.buffer_vote(pending("v3", vec![9])), Some(9));
    assert_eq!(b.len(), 2);
    let dropped = b.drop_below(6);
    assert_eq!(dropped.len(), 1);
    assert_eq!(dropped[0].0, 5);
    assert_eq!(dropped[0].1.len(), 1);
    assert_eq!(dropped[0].1[0].identity, "v2");
    let ready = b.take_ready(9);
    assert_eq!(ready.len(), 1);
    assert_eq!(ready[0].0, 9);
    assert_eq!(ready[0].1.len(), 2);
    assert_eq!(ready[0].1[0].identity, "v1");
    assert_eq!(ready[0].1[1].identity, "v3");
    assert_eq!(b.len(), 0);
}

#[test]
fn ready_buckets_come_in_ascending_order() {
    let mut b = VoteBuffer::new();
    b.buffer_vote(pending("a", vec![30]));
    b.buffer_vote(pending("b", vec![10]));
    b.buffer_vote(pending("c", vec![20]));
    let ready = b.take_ready(25);
    assert_eq!(ready.len(), 2);
    assert_eq!(ready[0].0, 10);
    assert_eq!(ready[1].0, 20);
    assert_eq!(b.len(), 1);
}

#[test]
fn sorting_slots_ascending() {
    assert_eq!(sort_ascending(&vec![11, 10, 12]), vec![10, 11, 12]);
    assert_eq!(sort_ascending(&vec![5, 5, 1]), vec![1, 5, 5]);
    assert_eq!(sort_ascending(&vec![]), Vec::<u64>::new());
}

#[test]
fn sorting_votes_by_landed_descending() {
    let sorted = sort_by_landed_desc(vec![
        meta("AAAA", true, vec![10, 11], 12),
        meta("BBBB", true, vec![11, 12], 13),
    ]);
    assert_eq!(sorted[0].landed_slot, 13);
    assert_eq!(sorted[1].landed_slot, 12);
}

#[test]
fn histogram_counts_span_overlap() {
    // Spans [10, 13] and [11, 14] overlap on slots 11 through 13.
    let metas = vec![
        meta("AAAA", true, vec![10, 11], 12),
        meta("BBBB", true, vec![11, 12], 13),
    ];
    let (lo, counts, max) = vote_histogram(&metas);
    assert_eq!(lo, 10);
    assert_eq!(counts, vec![1, 2, 2, 2, 1]);
    assert_eq!(max, 2);
}

#[test]
fn default_cell_kind_is_space() {
    assert_eq!(TableEntryKind::default(), TableEntryKind::Space);
}

#[test]
fn classification_of_span_slots() {
    let m = meta("AAAA", true, vec![10, 12], 14);
    assert_eq!(m.classify(10), TableEntryKind::Vote);
    assert_eq!(m.classify(11), TableEntryKind::VoteGap);
    assert_eq!(m.classify(12), TableEntryKind::Vote);
    assert_eq!(m.classify(13), TableEntryKind::Waiting);
    assert_eq!(m.classify(14), TableEntryKind::Landed);
    assert_eq!(m.classify(15), TableEntryKind::Space);
}

fn cell_kind(t: &LandingTable, slot: u64, depth: usize) -> Option<TableEntryKind> {
    t.rows[(slot - t.start) as usize][depth].as_ref().map(|e| e.kind)
}

fn cell_sig(t: &LandingTable, slot: u64, depth: usize) -> Option<String> {
    t.rows[(slot - t.start) as usize][depth].as_ref().map(|e| e.vote_meta.signature.clone())
}

#[test]
fn overlapping_votes_occupy_two_depths() {
    // Two votes with overlapping spans [10, 13] and [11, 14]: packing by
    // descending landed slot places the later-landing vote first at depth 0
    // and the other at depth 1; no cell holds two votes.
    let a = meta("AAAA", true, vec![10, 11], 12);
    let b = meta("BBBB", true, vec![11, 12], 13);
    let t = LandingTable::build(vec![a, b]).unwrap();
    assert_eq!(t.start, 10);
    assert_eq!(t.depth, 2);
    assert_eq!(t.rows.len(), 5);
    assert_eq!(cell_sig(&t, 11, 0).unwrap(), "BBBB");
    assert_eq!(cell_sig(&t, 11, 1).unwrap(), "AAAA");
    assert_eq!(cell_sig(&t, 12, 0).unwrap(), "BBBB");
    assert_eq!(cell_sig(&t, 12, 1).unwrap(), "AAAA");
    // The non-overlapping ends.
    assert_eq!(cell_kind(&t, 10, 0), None);
    assert_eq!(cell_sig(&t, 10, 1).unwrap(), "AAAA");
    assert_eq!(cell_sig(&t, 14, 0).unwrap(), "BBBB");
    assert_eq!(cell_kind(&t, 14, 1), None);
    // Classifications within the spans.
    assert_eq!(cell_kind(&t, 13, 0), Some(TableEntryKind::Landed));
    assert_eq!(cell_kind(&t, 12, 1), Some(TableEntryKind::Landed));
    assert_eq!(cell_kind(&t, 11, 0), Some(TableEntryKind::Vote));
    assert_eq!(cell_kind(&t, 14, 0), Some(TableEntryKind::Space));
}

#[test]
fn disjoint_votes_share_depth_zero() {
    let a = meta("AAAA", true, vec![10], 11);
    let b = meta("BBBB", true, vec![20], 21);
    let t = LandingTable::build(vec![a, b]).unwrap();
    assert_eq!(t.depth, 1);
    assert_eq!(cell_kind(&t, 10, 0), Some(TableEntryKind::Vote));
    assert_eq!(cell_kind(&t, 20, 0), Some(TableEntryKind::Vote));
    assert_eq!(cell_kind(&t, 15, 0), None);
}

#[test]
fn packing_beyond_depth_bound_is_refused() {
    let a = meta("AAAA", true, vec![10, 11], 12);
    let b = meta("BBBB", true, vec![11, 12], 13);
    let sorted = sort_by_landed_desc(vec![a, b]);
    match LandingTable::pack(&sorted, 1) {
        Err(e) => assert_eq!(e, LayoutError::DepthExceeded),
        Ok(_) => panic!("two overlapping spans cannot share one depth"),
    }
}

#[test]
fn sentinel_row_is_dropped() {
    let a = meta("AAAA", true, vec![10], 12);
    let mut t = LandingTable::build(vec![a]).unwrap();
    assert_eq!(t.rows.len(), 4);
    t.drop_sentinel_row();
    assert_eq!(t.rows.len(), 3);
    assert_eq!(t.start, 10);
}

#[test]
fn glyphs_have_the_fixed_shapes() {
    let entry = |kind| TableEntry { kind, vote_meta: meta("ABCDEF", true, vec![10], 12) };
    assert_eq!(render_glyph(None), "         ");
    assert_eq!(render_glyph(Some(&entry(TableEntryKind::Space))), "         ");
    assert_eq!(render_glyph(Some(&entry(TableEntryKind::VoteGap))), "   xx    ");
    assert_eq!(render_glyph(Some(&entry(TableEntryKind::Waiting))), "   ^^    ");
    assert_eq!(render_glyph(Some(&entry(TableEntryKind::Vote))), "+ ABCD..ABCD");
    assert_eq!(render_glyph(Some(&entry(TableEntryKind::Landed))), "= ABCD..ABCD");
    let failed = TableEntry { kind: TableEntryKind::Vote, vote_meta: meta("ABCDEF", false, vec![10], 12) };
    assert_eq!(render_glyph(Some(&failed)), "+!ABCD..ABCD");
    let landed_failed = TableEntry { kind: TableEntryKind::Landed, vote_meta: meta("WXYZ9", false, vec![10], 12) };
    assert_eq!(render_glyph(Some(&landed_failed)), "=!WXYZ..WXYZ");
}

#[test]
fn slot_numbers_render_in_decimal() {
    assert_eq!(u64_to_dec(0), "0");
    assert_eq!(u64_to_dec(7), "7");
    assert_eq!(u64_to_dec(12345678901), "12345678901");
    assert_eq!(status_tag(RowStatus::Confirmed), "      ");
    assert_eq!(status_tag(RowStatus::Miss), " MISS ");
    assert_eq!(status_tag(RowStatus::Skip), " SKIP ");
}

#[test]
fn table_lines_have_the_fixed_layout() {
    let entry = TableEntry { kind: TableEntryKind::Landed, vote_meta: meta("ABCDEF", true, vec![10], 12) };
    let row: Vec<Option<TableEntry>> = vec![Some(entry), None];
    assert_eq!(
        render_row_line(RowStatus::Miss, 123, &row),
        " MISS      123 MISS  = ABCD..ABCD |           | "
    );
    let empty_row: Vec<Option<TableEntry>> = vec![];
    assert_eq!(
        render_row_line(RowStatus::Skip, 123456789, &empty_row),
        " SKIP 123456789 SKIP  "
    );
}

#[test]
fn confirmed_slot_without_successful_vote_is_a_miss() {
    let good = TableEntry { kind: TableEntryKind::Vote, vote_meta: meta("AAAA", true, vec![10], 12) };
    let failed = TableEntry { kind: TableEntryKind::Vote, vote_meta: meta("BBBB", false, vec![10], 12) };
    let landed = TableEntry { kind: TableEntryKind::Landed, vote_meta: meta("CCCC", true, vec![10], 12) };
    // No successful literal vote in the row: confirmed means miss, unconfirmed means skip.
    let row_missing: Vec<Option<TableEntry>> = vec![None, Some(failed), Some(landed)];
    assert_eq!(row_status(10, true, &row_missing, 100), RowStatus::Miss);
    assert_eq!(row_status(10, false, &row_missing, 100), RowStatus::Skip);
    // A successful vote cell clears the miss.
    let row_good: Vec<Option<TableEntry>> = vec![None, Some(good)];
    assert_eq!(row_status(10, true, &row_good, 100), RowStatus::Confirmed);
    // At or above the highest last-voted slot nothing is a miss.
    let row_empty: Vec<Option<TableEntry>> = vec![None];
    assert_eq!(row_status(100, true, &row_empty, 100), RowStatus::Confirmed);
    assert_eq!(row_status(100, false, &row_empty, 100), RowStatus::Skip);
}

#[test]
fn entries_order_by_success_then_slots_then_signature() {
    let e = |sig: &str, success: bool, first: u64, landed: u64| TableEntry {
        kind: TableEntryKind::Vote,
        vote_meta: meta(sig, success, vec![first], landed),
    };
    assert_eq!(
        compare_entries(&e("AAAA", false, 10, 12), &e("AAAA", true, 10, 12)),
        EntryOrder::Less
    );
    assert_eq!(
        compare_entries(&e("AAAA", true, 11, 12), &e("AAAA", true, 10, 12)),
        EntryOrder::Greater
    );
    assert_eq!(
        compare_entries(&e("AAAA", true, 10, 12), &e("AAAA", true, 10, 13)),
        EntryOrder::Less
    );
    assert_eq!(
        compare_entries(&e("AAAB", true, 10, 12), &e("AAAA", true, 10, 12)),
        EntryOrder::Greater
    );
    assert_eq!(
        compare_entries(&e("AAAA", true, 10, 12), &e("AAAAZ", true, 10, 12)),
        EntryOrder::Less
    );
    assert_eq!(
        compare_entries(&e("AAAA", true, 10, 12), &e("AAAA", true, 10, 12)),
        EntryOrder::Equal
    );
}

#[test]
fn summary_counters() {
    let sts = vec![RowStatus::Miss, RowStatus::Confirmed, RowStatus::Miss, RowStatus::Skip];
    assert_eq!(miss_count(&sts), 2);
    let metas = vec![
        meta("AAAA", true, vec![10], 12),
        meta("BBBB", false, vec![11], 13),
        meta("CCCC", false, vec![12], 14),
    ];
    assert_eq!(failed_vote_count(&metas), 2);
}

fn vote_instruction_bytes(slots: Vec<u64>, switch: bool) -> Vec<u8> {
    let vote = solana_vote_interface::state::Vote {
        slots,
        hash: bincode::deserialize(&[0u8; 32]).unwrap(),
        timestamp: None,
    };
    let instruction = if switch {
        solana_vote_interface::instruction::VoteInstruction::VoteSwitch(
            vote,
            bincode::deserialize(&[0u8; 32]).unwrap(),
        )
    } else {
        solana_vote_interface::instruction::VoteInstruction::Vote(vote)
    };
    bincode::serialize(&instruction).unwrap()
}

fn vote_tx(program_id: Vec<u8>, data: Vec<u8>) -> TransactionModel {
    TransactionModel { instructions: vec![InstructionModel { program_id, data }] }
}

fn vote_program_id() -> Vec<u8> {
    solana_sdk_ids::vote::id().to_bytes().to_vec()
}

#[test]
fn simple_vote_transaction_is_decoded() {
    let tx = vote_tx(vote_program_id(), vote_instruction_bytes(vec![10, 11], false));
    assert_eq!(simple_vote_slots(&tx), Some(vec![10, 11]));
    let tx_switch = vote_tx(vote_program_id(), vote_instruction_bytes(vec![7], true));
    assert_eq!(simple_vote_slots(&tx_switch), Some(vec![7]));
}

#[test]
fn non_vote_transactions_are_ignored() {
    // Wrong program address.
    let tx = vote_tx(vec![0u8; 32], vote_instruction_bytes(vec![10], false));
    assert_eq!(simple_vote_slots(&tx), None);
    // More than one instruction.
    let data = vote_instruction_bytes(vec![10], false);
    let two = TransactionModel {
        instructions: vec![
            InstructionModel { program_id: vote_program_id(), data: data.clone() },
            InstructionModel { program_id: vote_program_id(), data },
        ],
    };
    assert_eq!(simple_vote_slots(&two), None);
    // A non-vote instruction of the vote program.
    let withdraw = bincode::serialize(
        &solana_vote_interface::instruction::VoteInstruction::Withdraw(5),
    )
    .unwrap();
    assert_eq!(simple_vote_slots(&vote_tx(vote_program_id(), withdraw)), None);
    // Garbage bytes.
    assert_eq!(simple_vote_slots(&vote_tx(vote_program_id(), vec![255, 255])), None);
}

#[test]
fn vote_meta_is_normalized_from_a_transaction() {
    let tx = vote_tx(vote_program_id(), vote_instruction_bytes(vec![11, 10], false));
    let m = build_vote_meta(String::from("SIGX"), true, 12, &tx).unwrap();
    assert_eq!(m.vote_slots, vec![10, 11]);
    assert_eq!(m.landed_slot, 12);
    assert!(m.success);
    assert_eq!(m.signature, "SIGX");
    // An empty vote gives no record.
    let empty = vote_tx(vote_program_id(), vote_instruction_bytes(vec![], false));
    assert!(build_vote_meta(String::from("SIGX"), true, 12, &empty).is_none());
    // A non-vote transaction gives no record.
    let other = vote_tx(vec![1u8; 32], vote_instruction_bytes(vec![10], false));
    assert!(build_vote_meta(String::from("SIGX"), true, 12, &other).is_none());
}
