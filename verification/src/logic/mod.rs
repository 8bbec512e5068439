use vstd::prelude::*;

pub mod accurate;
pub use accurate::LogicAccurate;

use crate::internal::block::InputRememberer;
use crate::internal::id::ID;

verus! {

/// Every input recorded in `ir`, at any depth, carries a distance.
pub open spec fn distances_known(ir: InputRememberer) -> bool
    decreases ir,
{
    forall|k: int|
        0 <= k < ir.internal_inputs@.len() ==> {
            &&& (#[trigger] ir.internal_inputs@[k]).2 is Some
            &&& match ir.internal_inputs@[k].1 {
                Some(d) => distances_known(d),
                None => true,
            }
        }
}

/// The closest input among the first `k` recorded inputs of `ir`: the path to
/// it and its distance. An input with something plugged into it counts through
/// the closest input of what is plugged in; an earlier input wins a tie.
pub open spec fn closest_upto(ir: InputRememberer, k: int) -> (Seq<(ID, usize)>, u64)
    decreases ir, k,
{
    if k <= 0 || k > ir.internal_inputs@.len() {
        (Seq::empty(), u64::MAX)
    } else {
        let prev = closest_upto(ir, k - 1);
        let e = ir.internal_inputs@[k - 1];
        match e.1 {
            Some(deeper) => {
                let d = closest_of(deeper);
                if d.1 < prev.1 {
                    (seq![(ir.own_id, e.0)] + d.0, d.1)
                } else {
                    prev
                }
            },
            None => {
                if e.2->0 < prev.1 {
                    (seq![(ir.own_id, e.0)], e.2->0)
                } else {
                    prev
                }
            },
        }
    }
}

/// The closest input recorded in `ir`, at any depth, and its distance.
pub open spec fn closest_of(ir: InputRememberer) -> (Seq<(ID, usize)>, u64)
    decreases ir, ir.internal_inputs@.len() + 1,
{
    closest_upto(ir, ir.internal_inputs@.len() as int)
}

fn closest_ref(inputs: &InputRememberer) -> (r: (Vec<(ID, usize)>, u64))
    requires
        distances_known(*inputs),
    ensures
        r.0@ == closest_of(*inputs).0,
        r.1 == closest_of(*inputs).1,
    decreases inputs,
{
    let mut smallest_path: Vec<(ID, usize)> = Vec::new();
    let mut smallest: u64 = u64::MAX;
    let mut i: usize = 0;
    while i < inputs.internal_inputs.len()
        invariant
            i <= inputs.internal_inputs@.len(),
            distances_known(*inputs),
            smallest_path@ == closest_upto(*inputs, i as int).0,
            smallest == closest_upto(*inputs, i as int).1,
        decreases inputs.internal_inputs@.len() - i,
    {
        let spot = inputs.internal_inputs[i].0;
        let distance = inputs.internal_inputs[i].2;
        assert(inputs.internal_inputs@[i as int].2 is Some);
        let distance = distance.unwrap();
        let mut current_path: Vec<(ID, usize)> = Vec::new();
        current_path.push((inputs.own_id, spot));
        match &inputs.internal_inputs[i].1 {
            Some(deeper) => {
                assert(distances_known(*deeper));
                let (mut deeper_path, deeper_distance) = closest_ref(deeper);
                if deeper_distance < smallest {
                    current_path.append(&mut deeper_path);
                    smallest_path = current_path;
                    smallest = deeper_distance;
                }
            },
            None => {
                if distance < smallest {
                    smallest = distance;
                    smallest_path = current_path;
                }
            },
        }
        i = i + 1;
    }
    (smallest_path, smallest)
}

/// The path to the closest input recorded in `inputs` (the block and the
/// position of each step) and its distance; an empty path and `u64::MAX`
/// where nothing was recorded.
pub fn get_closest_input(inputs: InputRememberer) -> (r: (Vec<(ID, usize)>, u64))
    requires
        distances_known(inputs),
    ensures
        r.0@ == closest_of(inputs).0,
        r.1 == closest_of(inputs).1,
{
    closest_ref(&inputs)
}


/// No input recorded without anything plugged into it, at any depth of `ir`,
/// lies closer than `x`.
pub open spec fn leaves_at_least(ir: InputRememberer, x: u64) -> bool
    decreases ir,
{
    forall|k: int|
        0 <= k < ir.internal_inputs@.len() ==> match (#[trigger] ir.internal_inputs@[k]).1 {
            Some(d) => leaves_at_least(d, x),
            None => ir.internal_inputs@[k].2->0 >= x,
        }
}

proof fn lemma_closest_upto_bounds(ir: InputRememberer, k: int)
    requires
        distances_known(ir),
        0 <= k <= ir.internal_inputs@.len(),
    ensures
        forall|j: int|
            0 <= j < k ==> match (#[trigger] ir.internal_inputs@[j]).1 {
                Some(d) => leaves_at_least(d, closest_upto(ir, k).1),
                None => ir.internal_inputs@[j].2->0 >= closest_upto(ir, k).1,
            },
        (closest_upto(ir, k).0.len() > 0) == (closest_upto(ir, k).1 < u64::MAX),
        closest_upto(ir, k).0.len() > 0 ==> closest_upto(ir, k).0[0].0 == ir.own_id,
    decreases ir, k,
{
    if k > 0 {
        lemma_closest_upto_bounds(ir, k - 1);
        let prev = closest_upto(ir, k - 1);
        let cur = closest_upto(ir, k);
        assert(cur.1 <= prev.1);
        let e = ir.internal_inputs@[k - 1];
        if let Some(deeper) = e.1 {
            assert(distances_known(deeper));
            lemma_closest_is_minimal(deeper);
        }
        assert forall|j: int| 0 <= j < k implies match (#[trigger] ir.internal_inputs@[j]).1 {
            Some(d) => leaves_at_least(d, cur.1),
            None => ir.internal_inputs@[j].2->0 >= cur.1,
        } by {
            if let Some(d) = ir.internal_inputs@[j].1 {
                assert(distances_known(d));
                if j < k - 1 {
                    assert(leaves_at_least(d, prev.1));
                }
                lemma_leaves_lower(d, if j < k - 1 { prev.1 } else { closest_of(d).1 }, cur.1);
            }
        }
    }
}

proof fn lemma_leaves_lower(ir: InputRememberer, x: u64, y: u64)
    requires
        leaves_at_least(ir, x),
        y <= x,
    ensures
        leaves_at_least(ir, y),
    decreases ir,
{
    assert forall|k: int| 0 <= k < ir.internal_inputs@.len() implies match (#[trigger] ir.internal_inputs@[k]).1 {
        Some(d) => leaves_at_least(d, y),
        None => ir.internal_inputs@[k].2->0 >= y,
    } by {
        if let Some(d) = ir.internal_inputs@[k].1 {
            lemma_leaves_lower(d, x, y);
        }
    }
}

/// The result `res` goes through entry `j` of `ir`: its first step is the
/// block of `ir` and the position that entry records, and it ends there at the
/// distance the entry records, or goes on as the closest input of what is
/// plugged into the entry.
pub open spec fn goes_through(ir: InputRememberer, j: int, res: (Seq<(ID, usize)>, u64)) -> bool {
    let e = ir.internal_inputs@[j];
    &&& res.0.len() > 0
    &&& res.0[0] == (ir.own_id, e.0)
    &&& match e.1 {
        None => res.0.len() == 1 && e.2 == Some(res.1),
        Some(deeper) => {
            &&& closest_of(deeper).0.len() > 0
            &&& res.0.drop_first() == closest_of(deeper).0
            &&& res.1 == closest_of(deeper).1
        },
    }
}

proof fn lemma_closest_upto_path(ir: InputRememberer, k: int)
    requires
        distances_known(ir),
        0 <= k <= ir.internal_inputs@.len(),
    ensures
        closest_upto(ir, k).0.len() > 0 ==> exists|j: int| 0 <= j < k && #[trigger] goes_through(ir, j, closest_upto(ir, k)),
    decreases k,
{
    if k > 0 {
        lemma_closest_upto_path(ir, k - 1);
        let prev = closest_upto(ir, k - 1);
        let cur = closest_upto(ir, k);
        let e = ir.internal_inputs@[k - 1];
        assert(e.2 is Some);
        if cur != prev {
            if let Some(deeper) = e.1 {
                assert(distances_known(deeper));
                lemma_closest_is_minimal(deeper);
                assert(cur.0.drop_first() =~= closest_of(deeper).0);
            }
            assert(goes_through(ir, k - 1, cur));
        } else if cur.0.len() > 0 {
            let j = choose|j: int| 0 <= j < k - 1 && #[trigger] goes_through(ir, j, prev);
            assert(goes_through(ir, j, cur));
        }
    }
}

/// Where `get_closest_input` reports a path, the path goes through one of the
/// entries recorded at the top level: it starts at the position that entry
/// records and ends there, at its recorded distance, or continues as the path
/// to the closest input of what is plugged into it, at that input's distance.
pub proof fn lemma_closest_path_recorded(ir: InputRememberer)
    requires
        distances_known(ir),
    ensures
        closest_of(ir).0.len() > 0 ==> exists|j: int|
            0 <= j < ir.internal_inputs@.len() && #[trigger] goes_through(ir, j, closest_of(ir)),
{
    lemma_closest_upto_path(ir, ir.internal_inputs@.len() as int);
}

/// The distance `get_closest_input` reports is no larger than that of any
/// input recorded without anything plugged into it, at any depth; it reports a
/// path exactly when that distance is below `u64::MAX`, and the path starts at
/// the block the record belongs to.
pub proof fn lemma_closest_is_minimal(ir: InputRememberer)
    requires
        distances_known(ir),
    ensures
        leaves_at_least(ir, closest_of(ir).1),
        (closest_of(ir).0.len() > 0) == (closest_of(ir).1 < u64::MAX),
        closest_of(ir).0.len() > 0 ==> closest_of(ir).0[0].0 == ir.own_id,
    decreases ir, ir.internal_inputs@.len() + 1,
{
    lemma_closest_upto_bounds(ir, ir.internal_inputs@.len() as int);
}

/// The entry at `k` takes part in the choice: it is not the one skipped, and
/// it has a key below `limit`.
pub open spec fn eligible(keys: Seq<Option<u64>>, limit: u64, skip: Option<usize>, k: int) -> bool {
    &&& skip != Some(k as usize)
    &&& keys[k] matches Some(d) && d < limit
}

/// Picks the closest of several candidates by the ordering keys of their
/// distances: among the entries that have a key below `limit` and are not the
/// one skipped, the first whose key is smallest; none where no entry qualifies.
pub fn closest_within(keys: &[Option<u64>], limit: u64, skip: Option<usize>) -> (r: Option<usize>)
    ensures
        r is None <==> forall|k: int| 0 <= k < keys@.len() ==> !#[trigger] eligible(keys@, limit, skip, k),
        r matches Some(i) ==> {
            &&& i < keys@.len()
            &&& eligible(keys@, limit, skip, i as int)
            &&& forall|k: int|
                0 <= k < keys@.len() && #[trigger] eligible(keys@, limit, skip, k) ==> keys@[i as int]->0
                    <= keys@[k]->0
            &&& forall|k: int|
                0 <= k < i && #[trigger] eligible(keys@, limit, skip, k) ==> keys@[i as int]->0 < keys@[k]->0
        },
{
    let mut closest: Option<usize> = None;
    let mut min_key: u64 = limit;
    let mut i: usize = 0;
    while i < keys.len()
        invariant
            i <= keys@.len(),
            closest is None ==> min_key == limit && forall|k: int| 0 <= k < i ==> !#[trigger] eligible(keys@, limit, skip, k),
            closest matches Some(c) ==> {
                &&& c < i
                &&& eligible(keys@, limit, skip, c as int)
                &&& keys@[c as int] == Some(min_key)
                &&& forall|k: int| 0 <= k < i && #[trigger] eligible(keys@, limit, skip, k) ==> min_key <= keys@[k]->0
                &&& forall|k: int| 0 <= k < c && #[trigger] eligible(keys@, limit, skip, k) ==> min_key < keys@[k]->0
            },
        decreases keys@.len() - i,
    {
        let skipped = match skip {
            Some(s) => s == i,
            None => false,
        };
        if !skipped {
            if let Some(d) = keys[i] {
                if d < min_key {
                    min_key = d;
                    closest = Some(i);
                }
            }
        }
        i = i + 1;
    }
    closest
}

} // verus!
