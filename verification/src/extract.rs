use vstd::prelude::*;
use vstd::multiset::Multiset;
use crate::meta::{meta_wf, in_span, span_hi, span_lo, VoteMeta};

verus! {

/// Whether a 32-byte account address is the vote program's address.
pub uninterp spec fn is_vote_program_id(id: Seq<u8>) -> bool;

/// The voted slots carried by instruction data that decodes to a plain vote
/// or a vote-with-switch-proof, if it does.
pub uninterp spec fn decoded_vote_slots(data: Seq<u8>) -> Option<Seq<u64>>;

/// Relies on solana_sdk_ids::vote::id: whether these bytes are the vote
/// program's address.  The result depends on the bytes alone.
#[verifier::external_body]
fn check_vote_program_id(id: &Vec<u8>) -> (r: bool)
    ensures
        r == is_vote_program_id(id@),
{
    id.as_slice() == solana_sdk_ids::vote::id().as_ref()
}

/// Relies on solana_bincode::limited_deserialize of a
/// solana_vote_interface::instruction::VoteInstruction, bounded by the
/// 1232-byte packet size as the vote processor bounds it: the voted slots of
/// a vote or vote-with-switch instruction, a function of the bytes alone.
#[verifier::external_body]
fn decode_vote_slots(data: &Vec<u8>) -> (r: Option<Vec<u64>>)
    ensures
        match r {
            Option::Some(v) => decoded_vote_slots(data@) == Option::Some(v@),
            Option::None => decoded_vote_slots(data@) is None,
        },
{
    match solana_bincode::limited_deserialize::<solana_vote_interface::instruction::VoteInstruction>(
        data,
        1232,
    ) {
        Ok(solana_vote_interface::instruction::VoteInstruction::Vote(vote)) => Some(vote.slots),
        Ok(solana_vote_interface::instruction::VoteInstruction::VoteSwitch(vote, _)) => Some(
            vote.slots,
        ),
        _ => None,
    }
}

/// One decoded instruction of a fetched transaction: the address of the
/// program it calls and its data bytes.
pub struct InstructionModel {
    pub program_id: Vec<u8>,
    pub data: Vec<u8>,
}

/// A fetched transaction, reduced to what the vote test reads: its
/// instructions in order.
pub struct TransactionModel {
    pub instructions: Vec<InstructionModel>,
}

/// Whether a transaction is a simple vote: exactly one instruction,
/// addressed to the vote program, decoding to a vote payload.
pub open spec fn simple_vote_spec(tx: &TransactionModel) -> Option<Seq<u64>> {
    if tx.instructions@.len() == 1 && is_vote_program_id(tx.instructions@[0].program_id@) {
        decoded_vote_slots(tx.instructions@[0].data@)
    } else {
        Option::None
    }
}

/// The voted slots of a simple vote transaction: one instruction, addressed
/// to the vote program, decoding to a vote or vote-with-switch payload.
/// Any other shape yields nothing.
pub fn simple_vote_slots(tx: &TransactionModel) -> (r: Option<Vec<u64>>)
    ensures
        match r {
            Option::Some(v) => simple_vote_spec(tx) == Option::Some(v@),
            Option::None => simple_vote_spec(tx) is None,
        },
{
    if tx.instructions.len() != 1 {
        return None;
    }
    if !check_vote_program_id(&tx.instructions[0].program_id) {
        return None;
    }
    decode_vote_slots(&tx.instructions[0].data)
}

/// The elements of `r` are those of `v`, in ascending order.
pub open spec fn is_sorted_of(r: Seq<u64>, v: Seq<u64>) -> bool {
    &&& r.to_multiset() == v.to_multiset()
    &&& r.len() == v.len()
    &&& forall|i: int, j: int| 0 <= i <= j < r.len() ==> r[i] <= r[j]
}

/// Sort a slot list ascending.
pub fn sort_ascending(v: &Vec<u64>) -> (r: Vec<u64>)
    ensures
        is_sorted_of(r@, v@),
{
    broadcast use vstd::seq_lib::group_to_multiset_ensures;

    let mut src = v.clone();
    proof {
        assert(src@ =~= v@);
    }
    let mut out: Vec<u64> = Vec::new();
    while src.len() > 0
        invariant
            out@.to_multiset().add(src@.to_multiset()) =~= v@.to_multiset(),
            out@.len() + src@.len() == v@.len(),
            forall|i: int, j: int| 0 <= i <= j < out@.len() ==> out@[i] <= out@[j],
            forall|i: int, j: int|
                0 <= i < out@.len() && 0 <= j < src@.len() ==> out@[i] <= src@[j],
        decreases src.len(),
    {
        let mut mi: usize = 0;
        let mut j: usize = 1;
        while j < src.len()
            invariant
                0 <= mi < j <= src.len() || (mi == 0 && j <= src.len()),
                mi < src@.len(),
                j <= src@.len(),
                forall|k: int| 0 <= k < j ==> src@[mi as int] <= src@[k],
            decreases src.len() - j,
        {
            if src[j] < src[mi] {
                mi = j;
            }
            j += 1;
        }
        let ghost presrc = src@;
        let ghost preout = out@;
        let x = src.remove(mi);
        out.push(x);
        proof {
            presrc.to_multiset_ensures();
            preout.to_multiset_ensures();
            assert(src@ == presrc.remove(mi as int));
            assert(presrc.remove(mi as int).to_multiset() =~= presrc.to_multiset().remove(
                presrc[mi as int],
            ));
            assert(out@ == preout.push(x));
            assert(preout.push(x).to_multiset() =~= preout.to_multiset().insert(x));
            assert(src@.to_multiset() =~= presrc.to_multiset().remove(x));
            assert(out@.to_multiset() =~= preout.to_multiset().insert(x));
            assert(presrc.to_multiset().contains(x));
            assert(out@.to_multiset().add(src@.to_multiset()) =~= v@.to_multiset());
            assert forall|i: int, j2: int|
                0 <= i < out@.len() && 0 <= j2 < src@.len() implies out@[i] <= src@[j2] by {
                if i < preout.len() {
                    if j2 < mi {
                        assert(src@[j2] == presrc[j2]);
                    } else {
                        assert(src@[j2] == presrc[j2 + 1]);
                    }
                } else {
                    assert(out@[i] == x);
                    if j2 < mi {
                        assert(src@[j2] == presrc[j2] && x <= presrc[j2]);
                    } else {
                        assert(src@[j2] == presrc[j2 + 1] && x <= presrc[j2 + 1]);
                    }
                }
            }
        }
    }
    proof {
        assert(src@.to_multiset() =~= Multiset::<u64>::empty());
        assert(out@.to_multiset() =~= v@.to_multiset());
    }
    out
}

/// Normalize one fetched historical transaction into a vote record: it must
/// be a simple vote transaction with at least one voted slot, and its
/// sorted slots must begin no later than the slot after the landing slot.
/// The record's slots are the decoded slots in ascending order.
pub fn build_vote_meta(
    signature: String,
    success: bool,
    landed_slot: u64,
    tx: &TransactionModel,
) -> (r: Option<VoteMeta>)
    requires
        signature@.len() >= 4,
        landed_slot + 1 < u64::MAX,
    ensures
        match r {
            Option::Some(m) => {
                &&& meta_wf(m@)
                &&& m@.signature == signature@
                &&& m@.success == success
                &&& m@.landed_slot == landed_slot
                &&& simple_vote_spec(tx) is Some
                &&& is_sorted_of(m@.vote_slots, simple_vote_spec(tx)->0)
            },
            Option::None => simple_vote_spec(tx) is None || simple_vote_spec(tx)->0.len() == 0
                || !(exists|r2: Seq<u64>|
                is_sorted_of(r2, simple_vote_spec(tx)->0) && r2[0] <= landed_slot + 1),
        },
{
    let slots = match simple_vote_slots(tx) {
        Some(s) => s,
        None => {
            return None;
        },
    };
    if slots.len() == 0 {
        return None;
    }
    let sorted = sort_ascending(&slots);
    if sorted[0] > landed_slot + 1 {
        proof {
            assert forall|r2: Seq<u64>|
                is_sorted_of(r2, simple_vote_spec(tx)->0) implies !(r2[0] <= landed_slot + 1) by {
                broadcast use vstd::seq_lib::group_to_multiset_ensures;

                assert(r2.to_multiset() == sorted@.to_multiset());
                assert(r2.len() == sorted@.len());
                assert(r2.to_multiset().contains(r2[0]));
                assert(sorted@.contains(r2[0]));
                let i = choose|i: int| 0 <= i < sorted@.len() && sorted@[i] == r2[0];
                assert(sorted@[0] <= sorted@[i]);
            }
        }
        return None;
    }
    let m = VoteMeta { signature, success, vote_slots: sorted, landed_slot };
    Some(m)
}

/// How many of the given vote spans cover slot `s`.
pub open spec fn overlap_count(metas: Seq<VoteMeta>, s: int) -> int
    decreases metas.len(),
{
    if metas.len() == 0 {
        0
    } else {
        overlap_count(metas.drop_last(), s) + if in_span(metas.last()@, s) {
            1int
        } else {
            0int
        }
    }
}

/// The per-slot concurrency histogram of the vote spans, over the slot
/// range they touch, together with its maximum: the packing depth bound.
/// The count for slot `lo + i` is the number of spans covering it.
pub fn vote_histogram(metas: &Vec<VoteMeta>) -> (r: (u64, Vec<usize>, usize))
    requires
        metas@.len() > 0,
        forall|k: int| 0 <= k < metas@.len() ==> meta_wf(#[trigger] metas@[k]@),
        forall|k1: int, k2: int|
            #![trigger metas@[k1], metas@[k2]]
            0 <= k1 < metas@.len() && 0 <= k2 < metas@.len() ==> span_hi(metas@[k1]@) + 1 - span_lo(
                metas@[k2]@,
            ) <= usize::MAX,
    ensures
        forall|k: int|
            0 <= k < metas@.len() ==> r.0 as int <= span_lo(#[trigger] metas@[k]@) && span_hi(
                metas@[k]@,
            ) < r.0 + r.1@.len(),
        forall|i: int|
            0 <= i < r.1@.len() ==> #[trigger] r.1@[i] == overlap_count(metas@, r.0 + i),
        forall|i: int| 0 <= i < r.1@.len() ==> #[trigger] r.1@[i] <= r.2,
        exists|i: int| 0 <= i < r.1@.len() && #[trigger] r.1@[i] == r.2,
{
    let nmeta = metas.len();
    proof {
        assert(meta_wf(metas@[0]@));
    }
    let mut lo: u64 = metas[0].vote_slots[0];
    let mut hi: u64 = metas[0].landed_slot + 1;
    let mut k: usize = 1;
    while k < metas.len()
        invariant
            metas@.len() > 0,
            forall|k2: int| 0 <= k2 < metas@.len() ==> meta_wf(#[trigger] metas@[k2]@),
            1 <= k <= metas@.len(),
            forall|k2: int| 0 <= k2 < k ==> lo as int <= span_lo(#[trigger] metas@[k2]@),
            forall|k2: int| 0 <= k2 < k ==> span_hi(#[trigger] metas@[k2]@) <= hi as int,
            exists|k2: int| 0 <= k2 < k && lo as int == span_lo(#[trigger] metas@[k2]@),
            exists|k2: int| 0 <= k2 < k && hi as int == span_hi(#[trigger] metas@[k2]@),
            hi < u64::MAX,
            lo <= hi,
        decreases metas@.len() - k,
    {
        proof {
            assert(meta_wf(metas@[k as int]@));
        }
        let v = metas[k].vote_slots[0];
        if v < lo {
            lo = v;
        }
        let h = metas[k].landed_slot + 1;
        if h > hi {
            hi = h;
        }
        k += 1;
    }
    proof {
        let kl = choose|k2: int| 0 <= k2 < metas@.len() && lo as int == span_lo(metas@[k2]@);
        let kh = choose|k2: int| 0 <= k2 < metas@.len() && hi as int == span_hi(metas@[k2]@);
        assert(span_hi(metas@[kh]@) + 1 - span_lo(metas@[kl]@) <= usize::MAX);
        assert(hi + 1 - lo <= usize::MAX);
    }
    let width = ((hi - lo) + 1) as usize;
    let mut counts: Vec<usize> = Vec::new();
    while counts.len() < width
        invariant
            counts@.len() <= width,
            forall|i: int| 0 <= i < counts@.len() ==> #[trigger] counts@[i] == 0,
        decreases width - counts@.len(),
    {
        counts.push(0);
    }
    proof {
        assert(forall|i: int|
            0 <= i < counts@.len() ==> #[trigger] counts@[i] == overlap_count(metas@.take(0), lo
                + i));
    }
    let mut k: usize = 0;
    while k < metas.len()
        invariant
            metas@.len() > 0,
            metas@.len() == nmeta,
            forall|k2: int| 0 <= k2 < metas@.len() ==> meta_wf(#[trigger] metas@[k2]@),
            0 <= k <= metas@.len(),
            forall|k2: int| 0 <= k2 < metas@.len() ==> lo as int <= span_lo(#[trigger] metas@[k2]@),
            forall|k2: int| 0 <= k2 < metas@.len() ==> span_hi(#[trigger] metas@[k2]@) <= hi as int,
            hi < u64::MAX,
            lo <= hi,
            width == hi - lo + 1,
            counts@.len() == width,
            forall|i: int|
                0 <= i < counts@.len() ==> #[trigger] counts@[i] == overlap_count(
                    metas@.take(k as int),
                    lo + i,
                ),
            forall|i: int| 0 <= i < counts@.len() ==> #[trigger] counts@[i] <= k,
        decreases metas@.len() - k,
    {
        proof {
            assert(meta_wf(metas@[k as int]@));
        }
        let m = &metas[k];
        let mlo: u64 = m.vote_slots[0];
        let mhi: u64 = m.landed_slot + 1;
        proof {
            assert(lo as int <= span_lo(metas@[k as int]@));
            assert(span_hi(metas@[k as int]@) <= hi as int);
        }
        let mut s: u64 = mlo;
        proof {
            assert forall|i: int|
                0 <= i < counts@.len() && lo + i < mlo implies #[trigger] counts@[i]
                == overlap_count(metas@.take(k + 1), lo + i) by {
                lemma_overlap_count_step(metas@, k as int, lo + i);
            }
        }
        while s <= mhi
            invariant
                metas@.len() > 0,
                metas@.len() == nmeta,
                0 <= k < metas@.len(),
                forall|k2: int| 0 <= k2 < metas@.len() ==> meta_wf(#[trigger] metas@[k2]@),
                mlo == span_lo(metas@[k as int]@),
                mhi == span_hi(metas@[k as int]@),
                lo <= mlo <= s,
                s <= mhi + 1,
                mhi <= hi,
                hi < u64::MAX,
                width == hi - lo + 1,
                counts@.len() == width,
                forall|i: int|
                    0 <= i < counts@.len() && lo + i < s ==> #[trigger] counts@[i] == overlap_count(
                        metas@.take(k + 1),
                        lo + i,
                    ),
                forall|i: int|
                    0 <= i < counts@.len() && lo + i >= s ==> #[trigger] counts@[i]
                        == overlap_count(metas@.take(k as int), lo + i),
                forall|i: int|
                    0 <= i < counts@.len() && lo + i < s ==> #[trigger] counts@[i] <= k + 1,
                forall|i: int|
                    0 <= i < counts@.len() && lo + i >= s ==> #[trigger] counts@[i] <= k,
            decreases mhi + 1 - s,
        {
            let i = (s - lo) as usize;
            proof {
                assert(s - lo < width);
                assert(i as int == s - lo);
                assert(counts@[i as int] == overlap_count(metas@.take(k as int), s as int));
                assert(counts@[i as int] <= k);
                lemma_overlap_count_step(metas@, k as int, s as int);
                assert(in_span(metas@[k as int]@, s as int));
            }
            let c = counts[i];
            counts[i] = c + 1;
            s += 1;
        }
        proof {
            assert forall|i: int|
                0 <= i < counts@.len() && lo + i >= s implies #[trigger] counts@[i]
                == overlap_count(metas@.take(k + 1), lo + i) by {
                lemma_overlap_count_step(metas@, k as int, lo + i);
                assert(!in_span(metas@[k as int]@, lo + i));
            }
        }
        k += 1;
    }
    proof {
        assert(metas@.take(metas@.len() as int) =~= metas@);
        assert(forall|k2: int|
            0 <= k2 < metas@.len() ==> lo as int <= span_lo(#[trigger] metas@[k2]@) && span_hi(
                metas@[k2]@,
            ) < lo + counts@.len());
        assert(forall|i: int|
            0 <= i < counts@.len() ==> #[trigger] counts@[i] == overlap_count(metas@, lo + i));
    }
    let max = max_count(&counts);
    let ghost csnap = counts@;
    let r = (lo, counts, max);
    proof {
        assert(r.1@ == csnap);
        let wi = choose|i: int| 0 <= i < csnap.len() && csnap[i] == max;
        assert(r.1@[wi] == r.2);
    }
    r
}

/// The largest entry of a non-empty count list.
fn max_count(counts: &Vec<usize>) -> (max: usize)
    requires
        counts@.len() > 0,
    ensures
        forall|j: int| 0 <= j < counts@.len() ==> #[trigger] counts@[j] <= max,
        exists|j: int| 0 <= j < counts@.len() && #[trigger] counts@[j] == max,
{
    let mut max: usize = counts[0];
    let mut i: usize = 1;
    while i < counts.len()
        invariant
            counts@.len() > 0,
            1 <= i <= counts@.len(),
            forall|j: int| 0 <= j < i ==> #[trigger] counts@[j] <= max,
            exists|j: int| 0 <= j < i && #[trigger] counts@[j] == max,
        decreases counts@.len() - i,
    {
        if counts[i] > max {
            max = counts[i];
        }
        i += 1;
    }
    max
}

/// A slot inside some vote's span has a positive histogram count.
pub proof fn lemma_overlap_count_positive(metas: Seq<VoteMeta>, k: int, s: int)
    requires
        0 <= k < metas.len(),
        in_span(metas[k]@, s),
    ensures
        overlap_count(metas, s) >= 1,
    decreases metas.len(),
{
    if k == metas.len() - 1 {
        assert(metas.drop_last() =~= metas.take(metas.len() - 1));
        lemma_overlap_count_nonneg(metas.drop_last(), s);
    } else {
        lemma_overlap_count_positive(metas.drop_last(), k, s);
    }
}

/// Distinct votes whose spans all cover slot `s` are each counted, so the
/// histogram count at `s` is at least their number.
pub proof fn lemma_overlap_count_lower(metas: Seq<VoteMeta>, s: int, js: Seq<int>)
    requires
        forall|a: int| 0 <= a < js.len() ==> 0 <= #[trigger] js[a] < metas.len(),
        forall|a: int| 0 <= a < js.len() ==> in_span(metas[#[trigger] js[a]]@, s),
        forall|a: int, b: int| 0 <= a < b < js.len() ==> js[a] != js[b],
    ensures
        overlap_count(metas, s) >= js.len(),
    decreases metas.len(),
{
    if metas.len() == 0 {
        if js.len() > 0 {
            assert(0 <= js[0] < metas.len());
            assert(false);
        }
    } else {
        let n = metas.len() - 1;
        lemma_overlap_count_nonneg(metas.drop_last(), s);
        if exists|a: int| 0 <= a < js.len() && js[a] == n {
            let a0 = choose|a: int| 0 <= a < js.len() && js[a] == n;
            let js2 = js.remove(a0);
            assert forall|a: int| 0 <= a < js2.len() implies 0 <= #[trigger] js2[a] < n by {
                if a < a0 {
                    assert(js2[a] == js[a]);
                    assert(js[a] != js[a0]);
                } else {
                    assert(js2[a] == js[a + 1]);
                    assert(js[a + 1] != js[a0]);
                }
            }
            assert forall|a: int| 0 <= a < js2.len() implies in_span(
                metas.drop_last()[#[trigger] js2[a]]@,
                s,
            ) by {
                if a < a0 {
                    assert(js2[a] == js[a]);
                } else {
                    assert(js2[a] == js[a + 1]);
                }
                assert(metas.drop_last()[js2[a]] == metas[js2[a]]);
            }
            assert forall|a: int, b: int| 0 <= a < b < js2.len() implies js2[a] != js2[b] by {
                if b < a0 {
                    assert(js2[a] == js[a] && js2[b] == js[b]);
                } else if a < a0 {
                    assert(js2[a] == js[a] && js2[b] == js[b + 1]);
                } else {
                    assert(js2[a] == js[a + 1] && js2[b] == js[b + 1]);
                }
            }
            lemma_overlap_count_lower(metas.drop_last(), s, js2);
            assert(in_span(metas[n]@, s));
            assert(metas.last() == metas[n]);
            assert(overlap_count(metas, s) == overlap_count(metas.drop_last(), s) + 1);
        } else {
            assert forall|a: int| 0 <= a < js.len() implies 0 <= #[trigger] js[a] < n by {
                assert(js[a] != n);
            }
            assert forall|a: int| 0 <= a < js.len() implies in_span(
                metas.drop_last()[#[trigger] js[a]]@,
                s,
            ) by {
                assert(metas.drop_last()[js[a]] == metas[js[a]]);
            }
            lemma_overlap_count_lower(metas.drop_last(), s, js);
            assert(overlap_count(metas, s) >= overlap_count(metas.drop_last(), s));
        }
    }
}

/// A slot outside every vote's span has histogram count zero.
pub proof fn lemma_overlap_count_zero_outside(metas: Seq<VoteMeta>, s: int)
    requires
        forall|k: int| 0 <= k < metas.len() ==> !in_span(#[trigger] metas[k]@, s),
    ensures
        overlap_count(metas, s) == 0,
    decreases metas.len(),
{
    if metas.len() > 0 {
        assert(metas.drop_last() =~= metas.take(metas.len() - 1));
        assert(forall|k: int|
            0 <= k < metas.drop_last().len() ==> metas.drop_last()[k] == metas[k]);
        lemma_overlap_count_zero_outside(metas.drop_last(), s);
        assert(!in_span(metas[metas.len() - 1]@, s));
    }
}

/// Histogram counts are never negative.
pub proof fn lemma_overlap_count_nonneg(metas: Seq<VoteMeta>, s: int)
    ensures
        overlap_count(metas, s) >= 0,
    decreases metas.len(),
{
    if metas.len() > 0 {
        lemma_overlap_count_nonneg(metas.drop_last(), s);
    }
}

/// Taking one more vote into the histogram adds one exactly on the slots of
/// its span.
proof fn lemma_overlap_count_step(metas: Seq<VoteMeta>, k: int, s: int)
    requires
        0 <= k < metas.len(),
    ensures
        overlap_count(metas.take(k + 1), s) == overlap_count(metas.take(k), s) + if in_span(
            metas[k]@,
            s,
        ) {
            1int
        } else {
            0int
        },
{
    assert(metas.take(k + 1).drop_last() =~= metas.take(k));
    assert(metas.take(k + 1).last() == metas[k]);
}

} // verus!
