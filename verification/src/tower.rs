use vstd::prelude::*;

verus! {

/// True iff the tower records no vote yet, or `slot` is strictly newer than
/// the last slot voted for; equivalently, false iff the last-voted slot is
/// at least `slot`.
pub fn is_recent(last_voted: Option<u64>, slot: u64) -> (r: bool)
    ensures
        r == !(last_voted is Some && last_voted->0 >= slot),
{
    match last_voted {
        None => true,
        Some(lv) => slot > lv,
    }
}

/// Whether a simulated post-vote lockout stack shows a fork switch: some
/// lockout slot other than the voted slot itself lies outside the voted
/// slot's ancestor set.
pub open spec fn lockout_violation_spec(
    simulated: Seq<u64>,
    voted_slot: u64,
    ancestors: Seq<u64>,
) -> bool {
    exists|i: int|
        0 <= i < simulated.len() && simulated[i] != voted_slot && !ancestors.contains(
            #[trigger] simulated[i],
        )
}

/// Check a simulated lockout stack against the voted slot's ancestor set.
/// The simulation itself (applying the vote to a private copy of the tower)
/// is the external capability's work; this judges its outcome.
pub fn is_locked_out(simulated: &Vec<u64>, voted_slot: u64, ancestors: &Vec<u64>) -> (r: bool)
    ensures
        r == lockout_violation_spec(simulated@, voted_slot, ancestors@),
{
    let mut i: usize = 0;
    while i < simulated.len()
        invariant
            0 <= i <= simulated.len(),
            forall|k: int|
                0 <= k < i ==> #[trigger] simulated@[k] == voted_slot || ancestors@.contains(
                    simulated@[k],
                ),
        decreases simulated.len() - i,
    {
        let s = simulated[i];
        if s != voted_slot && !slots_contain(ancestors, s) {
            return true;
        }
        i += 1;
    }
    false
}

/// Whether the slot list contains `x`.
pub fn slots_contain(v: &Vec<u64>, x: u64) -> (r: bool)
    ensures
        r == v@.contains(x),
{
    let mut i: usize = 0;
    while i < v.len()
        invariant
            0 <= i <= v.len(),
            forall|k: int| 0 <= k < i ==> v@[k] != x,
        decreases v.len() - i,
    {
        if v[i] == x {
            return true;
        }
        i += 1;
    }
    proof {
        if v@.contains(x) {
            let k = choose|k: int| 0 <= k < v@.len() && v@[k] == x;
            assert(v@[k] != x);
        }
    }
    false
}

} // verus!
