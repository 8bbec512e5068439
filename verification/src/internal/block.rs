use vstd::prelude::*;

use crate::custom::block_input::{clone_inputs, same_input, BlockInput};
use crate::coordinates::{map_non_sign_to_sign, map_sign_to_non_sign};
use crate::internal::id::{id_of, ID};
use crate::text::{placeholder_count, split_on_placeholders, split_placeholders};
use crate::internal::workspace::WorkSpace;

verus! {

/// A block of the workspace, linked to its neighbours by identifier.
#[derive(Clone, PartialEq, Debug)]
pub struct Block {
    pub name: Vec<String>,
    pub original_name: String,
    pub internal_name: String,
    pub x: u16,
    pub y: u16,
    pub block_type: u8,
    pub required_imports: Vec<String>,
    pub required_contexts: Vec<String>,
    pub file_versions: Vec<String>,
    pub output: String,
    pub inputs: Vec<BlockInput>,
    pub stored_inputs: Vec<Option<ID>>,
    pub block_color_id: usize,
    pub id: ID,
    pub connected_top: Option<ID>,
    pub connected_above: Option<ID>,
    pub connected_below: Option<ID>,
    pub possible_connection_above: Option<ID>,
    pub possible_connection_below: Option<ID>,
    pub recently_moved: bool,
}

/// First index at or after `i` whose block carries `id`.
pub open spec fn find_from(s: Seq<Block>, id: ID, i: int) -> Option<int>
    decreases s.len() - i,
{
    if i < 0 || i >= s.len() {
        None
    } else if s[i].id == id {
        Some(i)
    } else {
        find_from(s, id, i + 1)
    }
}

/// First index of the block that carries `id`.
pub open spec fn index_of(s: Seq<Block>, id: ID) -> Option<int> {
    find_from(s, id, 0)
}

pub proof fn lemma_find_from(s: Seq<Block>, id: ID, i: int)
    requires
        0 <= i,
    ensures
        find_from(s, id, i) matches Some(k) ==> i <= k < s.len() && s[k].id == id && forall|j: int|
            i <= j < k ==> s[j].id != id,
        find_from(s, id, i) is None ==> forall|j: int| i <= j < s.len() ==> s[j].id != id,
    decreases s.len() - i,
{
    if i < s.len() && s[i].id != id {
        lemma_find_from(s, id, i + 1);
    }
}

/// Index of the block that carries `id`, the first one where several do.
pub fn index_by_block_id(id: &ID, blocks: &Vec<Block>) -> (r: Option<usize>)
    ensures
        r matches Some(k) ==> index_of(blocks@, *id) == Some(k as int),
        r is None ==> index_of(blocks@, *id) is None,
        r matches Some(k) ==> k < blocks@.len() && blocks@[k as int].id == *id,
        r is None ==> forall|j: int| 0 <= j < blocks@.len() ==> blocks@[j].id != *id,
{
    proof {
        lemma_find_from(blocks@, *id, 0);
    }
    let mut i: usize = 0;
    while i < blocks.len()
        invariant
            i <= blocks@.len(),
            find_from(blocks@, *id, 0) == find_from(blocks@, *id, i as int),
        decreases blocks@.len() - i,
    {
        if blocks[i].id == *id {
            return Some(i);
        }
        i = i + 1;
    }
    None
}


/// Index of the block linked below block `i`, where that block is present.
pub open spec fn next_below(s: Seq<Block>, i: int) -> Option<int> {
    match s[i].connected_below {
        Some(id) => index_of(s, id),
        None => None,
    }
}

/// Index of the block linked above block `i`, where that block is present.
pub open spec fn next_above(s: Seq<Block>, i: int) -> Option<int> {
    match s[i].connected_above {
        Some(id) => index_of(s, id),
        None => None,
    }
}

/// Where `m` steps down the chain from `i` lead.
pub open spec fn walk_below(s: Seq<Block>, i: int, m: nat) -> Option<int>
    decreases m,
{
    if m == 0 {
        Some(i)
    } else {
        match next_below(s, i) {
            Some(j) => walk_below(s, j, (m - 1) as nat),
            None => None,
        }
    }
}

/// Where `m` steps up the chain from `i` lead.
pub open spec fn walk_above(s: Seq<Block>, i: int, m: nat) -> Option<int>
    decreases m,
{
    if m == 0 {
        Some(i)
    } else {
        match next_above(s, i) {
            Some(j) => walk_above(s, j, (m - 1) as nat),
            None => None,
        }
    }
}

/// Block `k` hangs below block `i` (or is `i` itself).
pub open spec fn in_below_chain(s: Seq<Block>, i: int, k: int) -> bool {
    exists|m: nat| walk_below(s, i, m) == Some(k)
}

/// Block `k` stands above block `i` (or is `i` itself).
pub open spec fn in_above_chain(s: Seq<Block>, i: int, k: int) -> bool {
    exists|m: nat| walk_above(s, i, m) == Some(k)
}

/// Following the links down from `i` stops within `n` steps.
pub open spec fn below_ends_within(s: Seq<Block>, i: int, n: nat) -> bool
    decreases n,
{
    match next_below(s, i) {
        None => true,
        Some(j) => n > 0 && below_ends_within(s, j, (n - 1) as nat),
    }
}

/// Following the links up from `i` stops within `n` steps.
pub open spec fn above_ends_within(s: Seq<Block>, i: int, n: nat) -> bool
    decreases n,
{
    match next_above(s, i) {
        None => true,
        Some(j) => n > 0 && above_ends_within(s, j, (n - 1) as nat),
    }
}

/// The chain below `i` is finite: it holds no cycle.
pub open spec fn below_chain_ends(s: Seq<Block>, i: int) -> bool {
    exists|n: nat| below_ends_within(s, i, n)
}

/// The chain above `i` is finite: it holds no cycle.
pub open spec fn above_chain_ends(s: Seq<Block>, i: int) -> bool {
    exists|n: nat| above_ends_within(s, i, n)
}

/// The two sequences agree on every identifier and downward link.
pub open spec fn same_below_links(s1: Seq<Block>, s2: Seq<Block>) -> bool {
    &&& s1.len() == s2.len()
    &&& forall|k: int|
        0 <= k < s1.len() ==> s1[k].id == s2[k].id && s1[k].connected_below == s2[k].connected_below
}

/// The two sequences agree on every identifier and upward link.
pub open spec fn same_above_links(s1: Seq<Block>, s2: Seq<Block>) -> bool {
    &&& s1.len() == s2.len()
    &&& forall|k: int|
        0 <= k < s1.len() ==> s1[k].id == s2[k].id && s1[k].connected_above == s2[k].connected_above
}

proof fn lemma_same_ids_find(s1: Seq<Block>, s2: Seq<Block>, id: ID, i: int)
    requires
        s1.len() == s2.len(),
        forall|k: int| 0 <= k < s1.len() ==> s1[k].id == s2[k].id,
    ensures
        find_from(s1, id, i) == find_from(s2, id, i),
    decreases s1.len() - i,
{
    if 0 <= i < s1.len() && s1[i].id != id {
        lemma_same_ids_find(s1, s2, id, i + 1);
    }
}

pub proof fn lemma_same_below_links(s1: Seq<Block>, s2: Seq<Block>)
    requires
        same_below_links(s1, s2),
    ensures
        forall|i: int| 0 <= i < s1.len() ==> #[trigger] next_below(s1, i) == next_below(s2, i),
        forall|i: int, m: nat| 0 <= i < s1.len() ==> #[trigger] walk_below(s1, i, m) == walk_below(s2, i, m),
        forall|i: int, n: nat| 0 <= i < s1.len() ==> #[trigger] below_ends_within(s1, i, n) == below_ends_within(s2, i, n),
        forall|id: ID| #[trigger] index_of(s1, id) == index_of(s2, id),
{
    assert forall|id: ID| #[trigger] index_of(s1, id) == index_of(s2, id) by {
        lemma_same_ids_find(s1, s2, id, 0);
    }
    assert forall|i: int, m: nat| 0 <= i < s1.len() implies #[trigger] walk_below(s1, i, m) == walk_below(s2, i, m) by {
        lemma_same_below_walk(s1, s2, i, m);
    }
    assert forall|i: int, n: nat| 0 <= i < s1.len() implies #[trigger] below_ends_within(s1, i, n) == below_ends_within(s2, i, n) by {
        lemma_same_below_ends(s1, s2, i, n);
    }
}

proof fn lemma_same_below_walk(s1: Seq<Block>, s2: Seq<Block>, i: int, m: nat)
    requires
        same_below_links(s1, s2),
        0 <= i < s1.len(),
    ensures
        walk_below(s1, i, m) == walk_below(s2, i, m),
    decreases m,
{
    lemma_same_ids_find(s1, s2, s1[i].connected_below->0, 0);
    lemma_find_from(s1, s1[i].connected_below->0, 0);
    if m > 0 {
        if let Some(j) = next_below(s1, i) {
            lemma_same_below_walk(s1, s2, j, (m - 1) as nat);
        }
    }
}

proof fn lemma_same_below_ends(s1: Seq<Block>, s2: Seq<Block>, i: int, n: nat)
    requires
        same_below_links(s1, s2),
        0 <= i < s1.len(),
    ensures
        below_ends_within(s1, i, n) == below_ends_within(s2, i, n),
    decreases n,
{
    lemma_same_ids_find(s1, s2, s1[i].connected_below->0, 0);
    lemma_find_from(s1, s1[i].connected_below->0, 0);
    if n > 0 {
        if let Some(j) = next_below(s1, i) {
            lemma_same_below_ends(s1, s2, j, (n - 1) as nat);
        }
    }
}

/// Block `b` once it takes `new_id` as the top of its chain.
pub open spec fn retop(b: Block, new_id: ID, set_moved: bool) -> Block {
    Block {
        connected_top: if b.id != new_id { Some(new_id) } else { None },
        recently_moved: set_moved || b.recently_moved,
        ..b
    }
}

/// The blocks after every block of the chain below `i` takes `new_id` as its top.
pub open spec fn set_topmost_spec(s: Seq<Block>, i: int, new_id: ID, set_moved: bool) -> Seq<Block> {
    Seq::new(
        s.len(),
        |k: int|
            if in_below_chain(s, i, k) {
                retop(s[k], new_id, set_moved)
            } else {
                s[k]
            },
    )
}


pub proof fn lemma_next_in_range(s: Seq<Block>, i: int)
    ensures
        next_below(s, i) matches Some(j) ==> 0 <= j < s.len() && s[j].id == s[i].connected_below->0,
        next_above(s, i) matches Some(j) ==> 0 <= j < s.len() && s[j].id == s[i].connected_above->0,
{
    lemma_find_from(s, s[i].connected_below->0, 0);
    lemma_find_from(s, s[i].connected_above->0, 0);
}

pub proof fn lemma_walk_below_split(s: Seq<Block>, i: int, a: nat, b: nat)
    ensures
        walk_below(s, i, a + b) == match walk_below(s, i, a) {
            Some(c) => walk_below(s, c, b),
            None => None,
        },
    decreases a,
{
    if a > 0 {
        if let Some(j) = next_below(s, i) {
            lemma_walk_below_split(s, j, (a - 1) as nat, b);
            assert((a + b - 1) as nat == (a - 1) as nat + b);
        }
    }
}

pub proof fn lemma_walk_above_split(s: Seq<Block>, i: int, a: nat, b: nat)
    ensures
        walk_above(s, i, a + b) == match walk_above(s, i, a) {
            Some(c) => walk_above(s, c, b),
            None => None,
        },
    decreases a,
{
    if a > 0 {
        if let Some(j) = next_above(s, i) {
            lemma_walk_above_split(s, j, (a - 1) as nat, b);
            assert((a + b - 1) as nat == (a - 1) as nat + b);
        }
    }
}

/// Once the chain stops at `c`, nothing lies past it.
proof fn lemma_walk_below_stops(s: Seq<Block>, i: int, m: nat, c: int, t: nat)
    requires
        walk_below(s, i, m) == Some(c),
        next_below(s, c) is None,
        t > m,
    ensures
        walk_below(s, i, t) is None,
{
    lemma_walk_below_split(s, i, m, (t - m) as nat);
    assert(m + (t - m) as nat == t);
}

/// The effect of `recursive_set_topmost` on one block.
proof fn lemma_retop_idempotent(b: Block, new_id: ID, set_moved: bool)
    ensures
        retop(retop(b, new_id, set_moved), new_id, set_moved) == retop(b, new_id, set_moved),
{
}

impl Block {
    /// Gives every block of the chain that starts at `idx` and runs down the
    /// `connected_below` links `new_id` as its top (none for the block that is
    /// `new_id` itself) and, where `set_moved` holds, marks it as recently moved.
    /// Returns whether the block at `idx` has a block below it.
    pub fn recursive_set_topmost(blocks: &mut Vec<Block>, idx: usize, new_id: ID, set_moved: bool) -> (r: bool)
        requires
            idx < old(blocks)@.len(),
            below_chain_ends(old(blocks)@, idx as int),
        ensures
            final(blocks)@ == set_topmost_spec(old(blocks)@, idx as int, new_id, set_moved),
            r == next_below(old(blocks)@, idx as int) is Some,
    {
        let ghost s = blocks@;
        let ghost n0: nat = choose|n: nat| below_ends_within(s, idx as int, n);
        let mut cur: usize = idx;
        let ghost mut m: nat = 0;
        let ghost mut fuel: nat = n0;
        let mut first = true;
        let mut r = false;
        loop
            invariant_except_break
                cur < s.len(),
                walk_below(s, idx as int, m) == Some(cur as int),
                below_ends_within(s, cur as int, fuel),
                first == (m == 0),
            invariant
                same_below_links(s, blocks@),
                idx < s.len(),
                forall|k: int|
                    0 <= k < s.len() ==> #[trigger] blocks@[k] == (if exists|m2: nat|
                        m2 < m && #[trigger] walk_below(s, idx as int, m2) == Some(k) {
                        retop(s[k], new_id, set_moved)
                    } else {
                        s[k]
                    }),
                !first ==> r == next_below(s, idx as int) is Some,
            ensures
                m > 0,
                !first,
                walk_below(s, idx as int, (m - 1) as nat) matches Some(c) && next_below(s, c) is None,
            decreases fuel,
        {
            proof {
                lemma_same_below_links(s, blocks@);
                lemma_next_in_range(s, cur as int);
            }
            let ghost before = blocks@;
            if set_moved {
                blocks[cur].recently_moved = true;
            }
            if blocks[cur].id != new_id {
                blocks[cur].connected_top = Some(new_id);
            } else {
                blocks[cur].connected_top = None;
            }
            proof {
                assert(blocks@[cur as int] == retop(before[cur as int], new_id, set_moved));
                assert forall|k: int|
                    0 <= k < s.len() implies #[trigger] blocks@[k] == (if exists|m2: nat|
                        m2 < m + 1 && #[trigger] walk_below(s, idx as int, m2) == Some(k) {
                        retop(s[k], new_id, set_moved)
                    } else {
                        s[k]
                    }) by {
                    if k == cur {
                        assert(walk_below(s, idx as int, m) == Some(k));
                        lemma_retop_idempotent(s[k], new_id, set_moved);
                    } else {
                        if exists|m2: nat| m2 < m + 1 && #[trigger] walk_below(s, idx as int, m2) == Some(k) {
                            let m2 = choose|m2: nat| m2 < m + 1 && #[trigger] walk_below(s, idx as int, m2) == Some(k);
                            assert(m2 < m);
                        }
                    }
                }
                assert(same_below_links(s, blocks@));
            }
            let next = match blocks[cur].connected_below {
                Some(b) => index_by_block_id(&b, blocks),
                None => None,
            };
            proof {
                lemma_same_below_links(s, blocks@);
                assert(next_below(s, cur as int) == next_below(blocks@, cur as int));
                lemma_next_in_range(blocks@, cur as int);
                assert(next matches Some(j) ==> next_below(s, cur as int) == Some(j as int));
                assert(next is None ==> next_below(s, cur as int) is None);
            }
            if first {
                r = next.is_some();
                first = false;
            }
            match next {
                Some(j) => {
                    proof {
                        lemma_walk_below_split(s, idx as int, m, 1);
                        assert(walk_below(s, j as int, 0) == Some(j as int));
                        assert(walk_below(s, cur as int, 1) == Some(j as int));
                        m = m + 1;
                        fuel = (fuel - 1) as nat;
                    }
                    cur = j;
                },
                None => {
                    proof {
                        m = m + 1;
                    }
                    break;
                },
            }
        }
        proof {
            let ghost c = walk_below(s, idx as int, (m - 1) as nat)->0;
            assert forall|k: int| 0 <= k < s.len() implies #[trigger] blocks@[k] == set_topmost_spec(s, idx as int, new_id, set_moved)[k] by {
                if in_below_chain(s, idx as int, k) {
                    let m2 = choose|m2: nat| walk_below(s, idx as int, m2) == Some(k);
                    if m2 >= m {
                        lemma_walk_below_stops(s, idx as int, (m - 1) as nat, c, m2);
                    }
                    assert(m2 < m && walk_below(s, idx as int, m2) == Some(k));
                } else {
                    assert(!(exists|m2: nat| m2 < m && #[trigger] walk_below(s, idx as int, m2) == Some(k)));
                }
            }
            assert(blocks@ =~= set_topmost_spec(s, idx as int, new_id, set_moved));
        }
        r
    }
}


/// The block at the top end of the chain above `i`.
pub open spec fn top_of(s: Seq<Block>, i: int) -> int {
    choose|k: int| in_above_chain(s, i, k) && next_above(s, k) is None
}

/// The block at the bottom end of the chain below `i`.
pub open spec fn bottom_of(s: Seq<Block>, i: int) -> int {
    choose|k: int| in_below_chain(s, i, k) && next_below(s, k) is None
}

proof fn lemma_walk_above_stops(s: Seq<Block>, i: int, m: nat, c: int, t: nat)
    requires
        walk_above(s, i, m) == Some(c),
        next_above(s, c) is None,
        t > m,
    ensures
        walk_above(s, i, t) is None,
{
    lemma_walk_above_split(s, i, m, (t - m) as nat);
    assert(m + (t - m) as nat == t);
}

/// A chain has one end only.
pub proof fn lemma_top_unique(s: Seq<Block>, i: int, k: int)
    requires
        in_above_chain(s, i, k),
        next_above(s, k) is None,
    ensures
        top_of(s, i) == k,
{
    let t = top_of(s, i);
    assert(in_above_chain(s, i, t) && next_above(s, t) is None);
    let a = choose|a: nat| walk_above(s, i, a) == Some(k);
    let b = choose|b: nat| walk_above(s, i, b) == Some(t);
    if a < b {
        lemma_walk_above_stops(s, i, a, k, b);
    } else if b < a {
        lemma_walk_above_stops(s, i, b, t, a);
    }
}

/// A chain has one end only.
pub proof fn lemma_bottom_unique(s: Seq<Block>, i: int, k: int)
    requires
        in_below_chain(s, i, k),
        next_below(s, k) is None,
    ensures
        bottom_of(s, i) == k,
{
    let t = bottom_of(s, i);
    assert(in_below_chain(s, i, t) && next_below(s, t) is None);
    let a = choose|a: nat| walk_below(s, i, a) == Some(k);
    let b = choose|b: nat| walk_below(s, i, b) == Some(t);
    if a < b {
        lemma_walk_below_stops(s, i, a, k, b);
    } else if b < a {
        lemma_walk_below_stops(s, i, b, t, a);
    }
}

/// Index of the top-most block of the chain that block `idx` belongs to,
/// following the `connected_above` links; `idx` itself where nothing is above it.
pub fn get_top_most_block_idx_or_self(blocks: &Vec<Block>, idx: usize) -> (r: usize)
    requires
        idx < blocks@.len(),
        above_chain_ends(blocks@, idx as int),
    ensures
        r < blocks@.len(),
        in_above_chain(blocks@, idx as int, r as int),
        next_above(blocks@, r as int) is None,
        r == top_of(blocks@, idx as int),
{
    let ghost s = blocks@;
    let ghost mut fuel: nat = choose|n: nat| above_ends_within(s, idx as int, n);
    let ghost mut m: nat = 0;
    let mut cur = idx;
    loop
        invariant
            cur < s.len(),
            s == blocks@,
            walk_above(s, idx as int, m) == Some(cur as int),
            above_ends_within(s, cur as int, fuel),
        decreases fuel,
    {
        proof {
            lemma_next_in_range(s, cur as int);
        }
        let next = match blocks[cur].connected_above {
            Some(a) => index_by_block_id(&a, blocks),
            None => None,
        };
        match next {
            Some(j) => {
                proof {
                    lemma_walk_above_split(s, idx as int, m, 1);
                    assert(walk_above(s, j as int, 0) == Some(j as int));
                    m = m + 1;
                    fuel = (fuel - 1) as nat;
                }
                cur = j;
            },
            None => {
                proof {
                    lemma_top_unique(s, idx as int, cur as int);
                }
                return cur;
            },
        }
    }
}

/// Index of the bottom-most block of the chain that block `idx` belongs to,
/// following the `connected_below` links; `idx` itself where nothing is below it.
pub fn get_bottom_most_block_idx_or_self(blocks: &Vec<Block>, idx: usize) -> (r: usize)
    requires
        idx < blocks@.len(),
        below_chain_ends(blocks@, idx as int),
    ensures
        r < blocks@.len(),
        in_below_chain(blocks@, idx as int, r as int),
        next_below(blocks@, r as int) is None,
        r == bottom_of(blocks@, idx as int),
{
    let ghost s = blocks@;
    let ghost mut fuel: nat = choose|n: nat| below_ends_within(s, idx as int, n);
    let ghost mut m: nat = 0;
    let mut cur = idx;
    loop
        invariant
            cur < s.len(),
            s == blocks@,
            walk_below(s, idx as int, m) == Some(cur as int),
            below_ends_within(s, cur as int, fuel),
        decreases fuel,
    {
        proof {
            lemma_next_in_range(s, cur as int);
        }
        let next = match blocks[cur].connected_below {
            Some(a) => index_by_block_id(&a, blocks),
            None => None,
        };
        match next {
            Some(j) => {
                proof {
                    lemma_walk_below_split(s, idx as int, m, 1);
                    assert(walk_below(s, j as int, 0) == Some(j as int));
                    m = m + 1;
                    fuel = (fuel - 1) as nat;
                }
                cur = j;
            },
            None => {
                proof {
                    lemma_bottom_unique(s, idx as int, cur as int);
                }
                return cur;
            },
        }
    }
}

/// Identifier of the top of the chain that the block at `i` belongs to, found
/// from the first block that carries the identifier of block `i`.
pub open spec fn chain_top_id(s: Seq<Block>, i: int) -> ID {
    s[top_of(s, index_of(s, s[i].id)->0)].id
}

/// The chains around block `i` are finite, so that its top can be recomputed.
pub open spec fn update_topmost_ok(s: Seq<Block>, i: int) -> bool {
    &&& above_chain_ends(s, index_of(s, s[i].id)->0)
    &&& below_chain_ends(s, i)
}

/// The blocks once the chain below block `i` takes the top of block `i` as its top.
pub open spec fn update_topmost_spec(s: Seq<Block>, i: int, set_moved: bool) -> Seq<Block> {
    set_topmost_spec(s, i, chain_top_id(s, i), set_moved)
}

impl Block {
    /// Recomputes the top of the chain that the block at `idx` belongs to and
    /// hands it to every block from `idx` downwards.
    pub fn update_topmost(blocks: &mut Vec<Block>, idx: usize, set_moved: bool)
        requires
            idx < old(blocks)@.len(),
            update_topmost_ok(old(blocks)@, idx as int),
        ensures
            final(blocks)@ == update_topmost_spec(old(blocks)@, idx as int, set_moved),
    {
        let ghost s = blocks@;
        let own_id = blocks[idx].id;
        let first = index_by_block_id(&own_id, blocks);
        proof {
            lemma_find_from(s, own_id, 0);
            assert(first is Some);
        }
        let first = first.unwrap();
        let top = get_top_most_block_idx_or_self(blocks, first);
        let new_id = blocks[top].id;
        Block::recursive_set_topmost(blocks, idx, new_id, set_moved);
    }
}


/// Block `b` with another `connected_top`.
pub open spec fn with_top(b: Block, t: Option<ID>) -> Block {
    Block { connected_top: t, ..b }
}

/// Block `b` with another `connected_above`.
pub open spec fn with_above(b: Block, a: Option<ID>) -> Block {
    Block { connected_above: a, ..b }
}

/// Block `b` with another `connected_below`.
pub open spec fn with_below(b: Block, a: Option<ID>) -> Block {
    Block { connected_below: a, ..b }
}

/// The blocks once block `j` loses its top and the link to the block above it.
pub open spec fn detach_spec(s: Seq<Block>, j: int) -> Seq<Block> {
    s.update(j, with_above(with_top(s[j], None), None))
}

/// What `disconnect_below` needs: the block below, where one is named, is
/// present, and its chains are finite once it is detached.
pub open spec fn disconnect_below_ok(s: Seq<Block>, idx: int) -> bool {
    s[idx].connected_below is Some ==> match next_below(s, idx) {
        Some(j) => update_topmost_ok(detach_spec(s, j), j),
        None => false,
    }
}

/// The blocks after `disconnect_below` on block `idx`.
pub open spec fn disconnect_below_spec(s: Seq<Block>, idx: int) -> Seq<Block> {
    match next_below(s, idx) {
        Some(j) => update_topmost_spec(detach_spec(s, j), j, true),
        None => s,
    }
}

/// The blocks once block `idx` and the block above it no longer point at each other.
pub open spec fn unlink_above_spec(s: Seq<Block>, idx: int) -> Seq<Block> {
    match next_above(s, idx) {
        Some(a) => {
            let t = s.update(a, with_below(s[a], None));
            t.update(idx, with_above(t[idx], None))
        },
        None => s,
    }
}

/// The blocks after `disconnect_above` on block `idx`.
pub open spec fn disconnect_above_spec(s: Seq<Block>, idx: int) -> Seq<Block> {
    set_topmost_spec(unlink_above_spec(s, idx), idx, s[idx].id, true)
}

impl Block {
    /// Detaches the block below the block at `idx` from it: the block below
    /// loses its top and its link upwards, and becomes the top of its own chain.
    /// The block at `idx` keeps its `connected_below`.
    pub fn disconnect_below(blocks: &mut Vec<Block>, idx: usize)
        requires
            idx < old(blocks)@.len(),
            disconnect_below_ok(old(blocks)@, idx as int),
        ensures
            final(blocks)@ == disconnect_below_spec(old(blocks)@, idx as int),
    {
        let ghost s = blocks@;
        proof {
            lemma_next_in_range(s, idx as int);
        }
        if let Some(below) = blocks[idx].connected_below {
            let j = index_by_block_id(&below, blocks).unwrap();
            blocks[j].connected_top = None;
            blocks[j].connected_above = None;
            assert(blocks@ =~= detach_spec(s, j as int));
            Block::update_topmost(blocks, j, true);
        }
    }

    /// Sets `connected_below` of the block above the block at `idx` to none,
    /// drops the link upwards of the block at `idx`, and makes it the top of
    /// every block below it, marking them all as recently moved.
    pub fn disconnect_above(blocks: &mut Vec<Block>, idx: usize)
        requires
            idx < old(blocks)@.len(),
            below_chain_ends(unlink_above_spec(old(blocks)@, idx as int), idx as int),
        ensures
            final(blocks)@ == disconnect_above_spec(old(blocks)@, idx as int),
    {
        let ghost s = blocks@;
        proof {
            lemma_next_in_range(s, idx as int);
        }
        if let Some(above) = blocks[idx].connected_above {
            if let Some(a) = index_by_block_id(&above, blocks) {
                blocks[a].connected_below = None;
                blocks[idx].connected_above = None;
            }
        }
        assert(blocks@ =~= unlink_above_spec(s, idx as int));
        let own_id = blocks[idx].id;
        Block::recursive_set_topmost(blocks, idx, own_id, true);
    }
}


/// The blocks once the block at `idx` is cut out of its chain and the blocks
/// at `ai` (above it) and `bi` (below it) are linked to each other.
pub open spec fn bridge_spec(s: Seq<Block>, idx: int, ai: int, bi: int) -> Seq<Block> {
    let s1 = s.update(idx, with_below(with_above(with_top(s[idx], None), None), None));
    let s2 = s1.update(ai, with_below(s1[ai], Some(s[bi].id)));
    s2.update(bi, with_above(s2[bi], Some(s[ai].id)))
}

/// What `connect_below_to_above` needs in each of its cases.
pub open spec fn connect_below_to_above_ok(s: Seq<Block>, idx: int) -> bool {
    if s[idx].connected_above is None {
        disconnect_below_ok(s, idx)
    } else if s[idx].connected_below is None {
        below_chain_ends(unlink_above_spec(s, idx), idx)
    } else {
        match (next_above(s, idx), next_below(s, idx)) {
            (Some(ai), Some(bi)) => update_topmost_ok(bridge_spec(s, idx, ai, bi), bi),
            _ => true,
        }
    }
}

/// The blocks after `connect_below_to_above` on block `idx`.
pub open spec fn connect_below_to_above_spec(s: Seq<Block>, idx: int) -> Seq<Block> {
    if s[idx].connected_above is None {
        disconnect_below_spec(s, idx)
    } else if s[idx].connected_below is None {
        disconnect_above_spec(s, idx)
    } else {
        match (next_above(s, idx), next_below(s, idx)) {
            (Some(ai), Some(bi)) => update_topmost_spec(bridge_spec(s, idx, ai, bi), bi, true),
            _ => s,
        }
    }
}

impl Block {
    /// Takes the block at `idx` out of its chain and joins the block above it to
    /// the block below it. Where it has nothing above, the block below is
    /// detached; where it has nothing below, it is detached from the block above.
    /// Returns whether the two neighbours were joined.
    pub fn connect_below_to_above(blocks: &mut Vec<Block>, idx: usize) -> (r: bool)
        requires
            idx < old(blocks)@.len(),
            connect_below_to_above_ok(old(blocks)@, idx as int),
        ensures
            final(blocks)@ == connect_below_to_above_spec(old(blocks)@, idx as int),
            r == (old(blocks)@[idx as int].connected_above is Some
                && old(blocks)@[idx as int].connected_below is Some
                && next_above(old(blocks)@, idx as int) is Some
                && next_below(old(blocks)@, idx as int) is Some),
    {
        let ghost s = blocks@;
        proof {
            lemma_next_in_range(s, idx as int);
        }
        if blocks[idx].connected_above.is_none() {
            Block::disconnect_below(blocks, idx);
            return false;
        }
        if blocks[idx].connected_below.is_none() {
            Block::disconnect_above(blocks, idx);
            return false;
        }
        let above_id = blocks[idx].connected_above.unwrap();
        if let Some(ai) = index_by_block_id(&above_id, blocks) {
            let below_id = blocks[idx].connected_below.unwrap();
            if let Some(bi) = index_by_block_id(&below_id, blocks) {
                let above_block_id = blocks[ai].id;
                let below_block_id = blocks[bi].id;
                blocks[idx].connected_top = None;
                blocks[idx].connected_above = None;
                blocks[idx].connected_below = None;
                blocks[ai].connected_below = Some(below_block_id);
                blocks[bi].connected_above = Some(above_block_id);
                assert(blocks@ =~= bridge_spec(s, idx as int, ai as int, bi as int));
                Block::update_topmost(blocks, bi, true);
                return true;
            }
        }
        false
    }
}

/// The blocks once the block at `idx` hangs directly below the block at `above`.
pub open spec fn attach_spec(s: Seq<Block>, idx: int, above: int) -> Seq<Block> {
    let s1 = s.update(above, with_below(s[above], Some(s[idx].id)));
    let s2 = s1.update(idx, with_above(s1[idx], Some(s[above].id)));
    s2.update(idx, with_top(s2[idx], s2[above].connected_top))
}

/// The bottom of the chain that hangs below the first block carrying the
/// identifier of block `idx`.
pub open spec fn attach_bottom(s: Seq<Block>, idx: int) -> int {
    bottom_of(s, index_of(s, s[idx].id)->0)
}

/// What `connect_to_block` needs: where a block was below the block at `above`,
/// the chain below the block that is attached must be finite.
pub open spec fn connect_to_block_ok(s: Seq<Block>, idx: int, above: int) -> bool {
    next_below(s, above) is Some ==> below_chain_ends(
        attach_spec(s, idx, above),
        index_of(attach_spec(s, idx, above), s[idx].id)->0,
    )
}

/// The blocks after `connect_to_block`: the block at `idx` is attached below
/// the block at `above`, and what hung below that block before now hangs below
/// the bottom of the chain of the block at `idx`.
pub open spec fn connect_to_block_spec(s: Seq<Block>, idx: int, above: int) -> Seq<Block> {
    let s2 = attach_spec(s, idx, above);
    match next_below(s, above) {
        Some(bi) => {
            let bot = attach_bottom(s2, idx);
            let s3 = s2.update(bot, with_below(s2[bot], s[above].connected_below));
            s3.update(bi, with_above(s3[bi], Some(s[idx].id)))
        },
        None => s2,
    }
}

impl Block {
    /// Attaches the block at `idx` below the block at `block_idx`. What hung
    /// below that block before is attached below the bottom of the chain that
    /// starts at the block at `idx`.
    pub fn connect_to_block(blocks: &mut Vec<Block>, idx: usize, block_idx: usize)
        requires
            idx < old(blocks)@.len(),
            block_idx < old(blocks)@.len(),
            connect_to_block_ok(old(blocks)@, idx as int, block_idx as int),
        ensures
            final(blocks)@ == connect_to_block_spec(old(blocks)@, idx as int, block_idx as int),
    {
        let ghost s = blocks@;
        let block_below_id = blocks[block_idx].connected_below;
        let own_id = blocks[idx].id;
        let above_id = blocks[block_idx].id;
        blocks[block_idx].connected_below = Some(own_id);
        blocks[idx].connected_above = Some(above_id);
        let top = blocks[block_idx].connected_top;
        blocks[idx].connected_top = top;
        let ghost s2 = blocks@;
        assert(s2 =~= attach_spec(s, idx as int, block_idx as int));
        proof {
            lemma_next_in_range(s, block_idx as int);
            lemma_find_from(s, block_below_id->0, 0);
            lemma_same_ids_find(s, s2, block_below_id->0, 0);
        }
        if let Some(block_below_id) = block_below_id {
            if let Some(block_below_idx) = index_by_block_id(&block_below_id, blocks) {
                let first = index_by_block_id(&own_id, blocks);
                proof {
                    lemma_find_from(s2, own_id, 0);
                }
                let first = first.unwrap();
                let bottom = get_bottom_most_block_idx_or_self(blocks, first);
                blocks[bottom].connected_below = Some(block_below_id);
                blocks[block_below_idx].connected_above = Some(own_id);
                assert(blocks@ =~= connect_to_block_spec(s, idx as int, block_idx as int));
            }
        }
    }

    /// Attaches the block at `idx` below the block it was found to be close to
    /// (`possible_connection_above`), where that block is present.
    pub fn connect_to_possibly_above(blocks: &mut Vec<Block>, idx: usize)
        requires
            idx < old(blocks)@.len(),
            old(blocks)@[idx as int].possible_connection_above matches Some(c) && index_of(old(blocks)@, c) matches Some(a)
                ==> connect_to_block_ok(old(blocks)@, idx as int, a),
        ensures
            final(blocks)@ == match old(blocks)@[idx as int].possible_connection_above {
                Some(c) => match index_of(old(blocks)@, c) {
                    Some(a) => connect_to_block_spec(old(blocks)@, idx as int, a),
                    None => old(blocks)@,
                },
                None => old(blocks)@,
            },
    {
        if let Some(connection_id) = blocks[idx].possible_connection_above {
            if let Some(a) = index_by_block_id(&connection_id, blocks) {
                Block::connect_to_block(blocks, idx, a);
            }
        }
    }
}


/// Every stored input names a present block whose own inputs nest less than
/// `n` levels deep.
pub open spec fn inputs_resolve(s: Seq<Block>, st: Seq<Option<ID>>, n: nat) -> bool
    decreases n, 1nat,
{
    forall|k: int|
        0 <= k < st.len() ==> match #[trigger] st[k] {
            Some(id) => match index_of(s, id) {
                Some(j) => input_tree_ok(s, j, n),
                None => false,
            },
            None => true,
        }
}

/// The inputs of block `i` nest less than `n` levels deep and all are present.
pub open spec fn input_tree_ok(s: Seq<Block>, i: int, n: nat) -> bool
    decreases n, 0nat,
{
    n > 0 && inputs_resolve(s, s[i].stored_inputs@, (n - 1) as nat)
}

/// The identifiers of the blocks plugged into `st`, each followed by those
/// plugged into it, in order.
pub open spec fn stored_ids(s: Seq<Block>, st: Seq<Option<ID>>, n: nat) -> Seq<ID>
    decreases n, st.len() + 1,
{
    if st.len() == 0 {
        Seq::empty()
    } else {
        stored_ids(s, st.drop_last(), n) + match st.last() {
            Some(id) => seq![id] + input_ids(s, index_of(s, id)->0, n),
            None => Seq::empty(),
        }
    }
}

/// The identifiers of all blocks plugged, at any depth, into block `i`.
pub open spec fn input_ids(s: Seq<Block>, i: int, n: nat) -> Seq<ID>
    decreases n, 0nat,
{
    if n == 0 {
        Seq::empty()
    } else {
        stored_ids(s, s[i].stored_inputs@, (n - 1) as nat)
    }
}


pub proof fn lemma_stored_ids_fuel(s: Seq<Block>, st: Seq<Option<ID>>, n: nat, n2: nat)
    requires
        inputs_resolve(s, st, n),
        n <= n2,
    ensures
        inputs_resolve(s, st, n2),
        stored_ids(s, st, n) == stored_ids(s, st, n2),
    decreases n, st.len() + 1,
{
    if st.len() > 0 {
        let init = st.drop_last();
        assert forall|k: int| 0 <= k < init.len() implies match #[trigger] init[k] {
            Some(id) => match index_of(s, id) {
                Some(j) => input_tree_ok(s, j, n),
                None => false,
            },
            None => true,
        } by {
            assert(init[k] == st[k]);
        }
        lemma_stored_ids_fuel(s, init, n, n2);
        let last = st.last();
        assert(st[st.len() - 1] == last);
        if let Some(id) = last {
            let j = index_of(s, id)->0;
            lemma_input_ids_fuel(s, j, n, n2);
        }
        assert forall|k: int| 0 <= k < st.len() implies match #[trigger] st[k] {
            Some(id) => match index_of(s, id) {
                Some(j) => input_tree_ok(s, j, n2),
                None => false,
            },
            None => true,
        } by {
            if k < st.len() - 1 {
                assert(init[k] == st[k]);
            }
        }
    }
}

pub proof fn lemma_input_ids_fuel(s: Seq<Block>, i: int, n: nat, n2: nat)
    requires
        input_tree_ok(s, i, n),
        n <= n2,
    ensures
        input_tree_ok(s, i, n2),
        input_ids(s, i, n) == input_ids(s, i, n2),
    decreases n, 0nat,
{
    lemma_stored_ids_fuel(s, s[i].stored_inputs@, (n - 1) as nat, (n2 - 1) as nat);
}

/// The identifiers plugged into `stored`, at any depth, for inputs nesting
/// less than `n` levels deep.
fn ids_of_stored(stored: &Vec<Option<ID>>, blocks: &Vec<Block>, Ghost(n): Ghost<nat>) -> (r: Vec<ID>)
    requires
        inputs_resolve(blocks@, stored@, n),
    ensures
        r@ == stored_ids(blocks@, stored@, n),
    decreases n,
{
    let ghost s = blocks@;
    let mut found: Vec<ID> = Vec::new();
    let mut i: usize = 0;
    while i < stored.len()
        invariant
            i <= stored@.len(),
            inputs_resolve(s, stored@, n),
            s == blocks@,
            found@ == stored_ids(s, stored@.take(i as int), n),
        decreases stored@.len() - i,
    {
        let ghost pre = stored@.take(i as int);
        assert(stored@.take(i + 1).drop_last() =~= pre);
        assert(stored@.take(i + 1).last() == stored@[i as int]);
        assert(stored@.take(0) =~= Seq::<Option<ID>>::empty());
        if let Some(some_id) = stored[i] {
            proof {
                assert(match stored@[i as int] {
                    Some(id) => match index_of(s, id) {
                        Some(j) => input_tree_ok(s, j, n),
                        None => false,
                    },
                    None => true,
                });
                lemma_find_from(s, some_id, 0);
            }
            found.push(some_id);
            let index = index_by_block_id(&some_id, blocks).unwrap();
            let mut deeper = ids_of_stored(&blocks[index].stored_inputs, blocks, Ghost((n - 1) as nat));
            found.append(&mut deeper);
            assert(input_ids(s, index as int, n) == stored_ids(s, s[index as int].stored_inputs@, (n - 1) as nat));
            assert(stored_ids(s, stored@.take(i + 1), n) == stored_ids(s, pre, n) + (seq![some_id] + input_ids(s, index as int, n)));
        } else {
            assert(stored_ids(s, stored@.take(i + 1), n) == stored_ids(s, pre, n));
        }
        i = i + 1;
    }
    assert(stored@.take(stored@.len() as int) =~= stored@);
    found
}

impl Block {
    /// The identifiers of every block plugged into this block's inputs, each
    /// followed by those plugged into it, in the order of the inputs.
    pub fn get_all_ids_of_all_inputs(&self, blocks: &Vec<Block>) -> (r: Vec<ID>)
        requires
            exists|n: nat| inputs_resolve(blocks@, self.stored_inputs@, n),
        ensures
            forall|n: nat|
                inputs_resolve(blocks@, self.stored_inputs@, n) ==> r@ == #[trigger] stored_ids(
                    blocks@,
                    self.stored_inputs@,
                    n,
                ),
    {
        let ghost n0 = choose|n: nat| inputs_resolve(blocks@, self.stored_inputs@, n);
        let r = ids_of_stored(&self.stored_inputs, blocks, Ghost(n0));
        proof {
            assert forall|n: nat| inputs_resolve(blocks@, self.stored_inputs@, n) implies r@ == #[trigger] stored_ids(
                blocks@,
                self.stored_inputs@,
                n,
            ) by {
                if n0 <= n {
                    lemma_stored_ids_fuel(blocks@, self.stored_inputs@, n0, n);
                } else {
                    lemma_stored_ids_fuel(blocks@, self.stored_inputs@, n, n0);
                }
            }
        }
        r
    }
}


/// For each input of a block, in order: its position, what is plugged into it
/// where something is, and the ordering key of its distance to a point where
/// one was measured. A larger key stands for a larger distance; `u64::MAX`
/// stands for the largest distance, and an input at that key is never taken
/// as the closest.
pub struct InputRememberer {
    pub internal_inputs: Vec<(usize, Option<InputRememberer>, Option<u64>)>,
    pub own_id: ID,
}

/// `entries` remember, in order, the filled positions among `st`, each with
/// what is plugged into it and no distance.
pub open spec fn remembers_stored(
    entries: Seq<(usize, Option<InputRememberer>, Option<u64>)>,
    s: Seq<Block>,
    st: Seq<Option<ID>>,
) -> bool
    decreases entries, st.len(),
{
    if st.len() == 0 {
        entries.len() == 0
    } else {
        match st.last() {
            Some(id) => {
                &&& entries.len() > 0
                &&& remembers_stored(entries.drop_last(), s, st.drop_last())
                &&& entries.last().0 == st.len() - 1
                &&& entries.last().2 is None
                &&& match entries.last().1 {
                    Some(sub) => remembers(sub, s, index_of(s, id)->0),
                    None => false,
                }
            },
            None => remembers_stored(entries, s, st.drop_last()),
        }
    }
}

/// `r` remembers the inputs plugged into block `i`, at any depth.
pub open spec fn remembers(r: InputRememberer, s: Seq<Block>, i: int) -> bool
    decreases r, 0nat,
{
    &&& r.own_id == s[i].id
    &&& remembers_stored(r.internal_inputs@, s, s[i].stored_inputs@)
}

fn remember_stored(stored: &Vec<Option<ID>>, blocks: &Vec<Block>, Ghost(n): Ghost<nat>) -> (r: Vec<(usize, Option<InputRememberer>, Option<u64>)>)
    requires
        inputs_resolve(blocks@, stored@, n),
    ensures
        remembers_stored(r@, blocks@, stored@),
    decreases n,
{
    let ghost s = blocks@;
    let mut found: Vec<(usize, Option<InputRememberer>, Option<u64>)> = Vec::new();
    let mut i: usize = 0;
    while i < stored.len()
        invariant
            i <= stored@.len(),
            inputs_resolve(s, stored@, n),
            s == blocks@,
            remembers_stored(found@, s, stored@.take(i as int)),
        decreases stored@.len() - i,
    {
        let ghost pre = stored@.take(i as int);
        assert(stored@.take(i + 1).drop_last() =~= pre);
        assert(stored@.take(i + 1).last() == stored@[i as int]);
        if let Some(id) = stored[i] {
            proof {
                assert(match stored@[i as int] {
                    Some(id) => match index_of(s, id) {
                        Some(j) => input_tree_ok(s, j, n),
                        None => false,
                    },
                    None => true,
                });
                lemma_find_from(s, id, 0);
            }
            let index = index_by_block_id(&id, blocks).unwrap();
            let deeper = remember_stored(&blocks[index].stored_inputs, blocks, Ghost((n - 1) as nat));
            let sub = InputRememberer { internal_inputs: deeper, own_id: blocks[index].id };
            let ghost old_found = found@;
            assert(remembers(sub, s, index as int));
            found.push((i, Some(sub), None));
            assert(found@.drop_last() =~= old_found);
            assert(found@.last() == (i, Some(sub), None::<u64>));
            assert(remembers_stored(found@, s, stored@.take(i + 1)));
        } else {
            assert(remembers_stored(found@, s, stored@.take(i + 1)));
        }
        i = i + 1;
    }
    assert(stored@.take(stored@.len() as int) =~= stored@);
    found
}

impl Block {
    /// Records, for every filled input of this block in order, its position and
    /// what is plugged into it, at any depth; no distances are recorded.
    pub fn create_input_rememberer(&self, blocks: &Vec<Block>) -> (r: InputRememberer)
        requires
            exists|n: nat| inputs_resolve(blocks@, self.stored_inputs@, n),
        ensures
            r.own_id == self.id,
            remembers_stored(r.internal_inputs@, blocks@, self.stored_inputs@),
    {
        let ghost n0 = choose|n: nat| inputs_resolve(blocks@, self.stored_inputs@, n);
        let found = remember_stored(&self.stored_inputs, blocks, Ghost(n0));
        InputRememberer { own_id: self.id, internal_inputs: found }
    }
}


/// `names` holds `output` at position `k` and nowhere before it.
pub open spec fn first_name_at(names: Seq<String>, output: Seq<char>, k: int) -> bool {
    &&& 0 <= k < names.len()
    &&& names[k]@ == output
    &&& forall|j: int| 0 <= j < k ==> names[j]@ != output
}

/// What `Block::new` needs: the output names a colour, the name holds one
/// placeholder per input, and an identifier can still be handed out.
pub open spec fn new_block_ok<'a, L>(
    name: Seq<char>,
    output: Seq<char>,
    n_inputs: nat,
    output_color_names: Seq<String>,
    workspace: WorkSpace<'a, L>,
    overwrite_id: Option<ID>,
) -> bool {
    &&& exists|k: int| 0 <= k < output_color_names.len() && output_color_names[k]@ == output
    &&& placeholder_count(name) == n_inputs
    &&& overwrite_id is None ==> workspace.counter() < usize::MAX
}

/// Position of the first colour name equal to `output`.
pub(crate) fn find_color(output_color_names: &[String], output: &String) -> (r: usize)
    requires
        exists|k: int| 0 <= k < output_color_names@.len() && output_color_names@[k]@ == output@,
    ensures
        first_name_at(output_color_names@, output@, r as int),
{
    let mut i: usize = 0;
    while i < output_color_names.len()
        invariant
            i <= output_color_names@.len(),
            forall|j: int| 0 <= j < i ==> output_color_names@[j]@ != output@,
            exists|k: int| 0 <= k < output_color_names@.len() && output_color_names@[k]@ == output@,
        decreases output_color_names@.len() - i,
    {
        if output_color_names[i] == *output {
            return i;
        }
        i = i + 1;
    }
    proof {
        let k = choose|k: int| 0 <= k < output_color_names@.len() && output_color_names@[k]@ == output@;
        assert(output_color_names@[k]@ != output@);
    }
    0
}

impl Block {
    /// A new block, unlinked and not moved, named by the pieces of `name`
    /// between its placeholders, with one empty slot per input, its colour
    /// taken from the position of `output` among `output_color_names`, its
    /// coordinates moved into the unsigned range, and the identifier
    /// `overwrite_id` or else the next one the workspace hands out.
    pub fn new<'a, L>(
        name: String,
        internal_name: String,
        x: i16,
        y: i16,
        block_type: u8,
        required_imports: Vec<String>,
        required_contexts: Vec<String>,
        file_versions: Vec<String>,
        output: String,
        inputs: Vec<BlockInput>,
        output_color_names: &[String],
        workspace: &mut WorkSpace<'a, L>,
        overwrite_id: Option<ID>,
    ) -> (b: Block)
        requires
            new_block_ok(name@, output@, inputs@.len(), output_color_names@, *old(workspace), overwrite_id),
        ensures
            b.name@.map_values(|p: String| p@) == split_placeholders(name@),
            b.name@.len() == inputs@.len() + 1,
            b.original_name == name,
            b.internal_name == internal_name,
            b.x == x + 32768,
            b.y == y + 32768,
            b.block_type == block_type,
            b.required_imports == required_imports,
            b.required_contexts == required_contexts,
            b.file_versions == file_versions,
            b.output == output,
            b.inputs == inputs,
            b.stored_inputs@ == Seq::new(inputs@.len(), |k: int| None::<ID>),
            first_name_at(output_color_names@, output@, b.block_color_id as int),
            b.id == match overwrite_id {
                Some(id) => id,
                None => id_of((old(workspace).counter() + 1) as usize),
            },
            final(workspace).counter() == match overwrite_id {
                Some(_) => old(workspace).counter(),
                None => (old(workspace).counter() + 1) as usize,
            },
            final(workspace).spec_blocks() == old(workspace).spec_blocks(),
            final(workspace).spec_camera() == old(workspace).spec_camera(),
            final(workspace).spec_logic() == old(workspace).spec_logic(),
            b.connected_top is None,
            b.connected_above is None,
            b.connected_below is None,
            b.possible_connection_above is None,
            b.possible_connection_below is None,
            !b.recently_moved,
    {
        let color_id = find_color(output_color_names, &output);
        let x = map_sign_to_non_sign(x);
        let y = map_sign_to_non_sign(y);
        let text_between_inputs = split_on_placeholders(&name);
        proof {
            assert(text_between_inputs@.map_values(|p: String| p@).len() == text_between_inputs@.len());
        }
        let mut stored: Vec<Option<ID>> = Vec::new();
        let mut i: usize = 0;
        while i < inputs.len()
            invariant
                i <= inputs@.len(),
                stored@ == Seq::new(i as nat, |k: int| None::<ID>),
            decreases inputs@.len() - i,
        {
            stored.push(None);
            i = i + 1;
            assert(stored@ =~= Seq::new(i as nat, |k: int| None::<ID>));
        }
        let id = match overwrite_id {
            Some(overwrite_id) => overwrite_id,
            None => ID::from(workspace.increment_block_id()),
        };
        Block {
            name: text_between_inputs,
            original_name: name,
            internal_name,
            x,
            y,
            block_type,
            required_imports,
            required_contexts,
            file_versions,
            output,
            inputs,
            stored_inputs: stored,
            block_color_id: color_id,
            id,
            connected_top: None,
            connected_above: None,
            connected_below: None,
            possible_connection_above: None,
            possible_connection_below: None,
            recently_moved: false,
        }
    }
}


fn clone_strings(v: &Vec<String>) -> (r: Vec<String>)
    ensures
        r@ == v@,
{
    let r = v.clone();
    proof {
        assert forall|i: int| 0 <= i < v@.len() implies r@[i] == v@[i] by {
            assert(cloned::<String>(v[i], r[i]));
        }
        assert(v@ =~= r@);
    }
    r
}

impl Block {
    /// A copy of this block built as `Block::new` builds one, from its unsplit
    /// name and its other defining fields, at the same coordinates, unlinked and
    /// with the next identifier of the workspace.
    pub fn duplicate<'a, L>(&self, output_color_names: &[String], workspace: &mut WorkSpace<'a, L>) -> (b: Self)
        requires
            new_block_ok(self.original_name@, self.output@, self.inputs@.len(), output_color_names@, *old(workspace), None),
        ensures
            b.name@.map_values(|p: String| p@) == split_placeholders(self.original_name@),
            b.original_name@ == self.original_name@,
            b.internal_name@ == self.internal_name@,
            b.x == self.x,
            b.y == self.y,
            b.block_type == self.block_type,
            b.required_imports@ == self.required_imports@,
            b.required_contexts@ == self.required_contexts@,
            b.file_versions@ == self.file_versions@,
            b.output@ == self.output@,
            b.inputs@.len() == self.inputs@.len(),
            forall|i: int| 0 <= i < self.inputs@.len() ==> #[trigger] same_input(b.inputs@[i], self.inputs@[i]),
            b.stored_inputs@ == Seq::new(self.inputs@.len(), |k: int| None::<ID>),
            first_name_at(output_color_names@, self.output@, b.block_color_id as int),
            b.id == id_of((old(workspace).counter() + 1) as usize),
            final(workspace).counter() == old(workspace).counter() + 1,
            final(workspace).spec_blocks() == old(workspace).spec_blocks(),
            final(workspace).spec_camera() == old(workspace).spec_camera(),
            final(workspace).spec_logic() == old(workspace).spec_logic(),
            b.connected_top is None,
            b.connected_above is None,
            b.connected_below is None,
            b.possible_connection_above is None,
            b.possible_connection_below is None,
            !b.recently_moved,
    {
        let x = map_non_sign_to_sign(self.x);
        let y = map_non_sign_to_sign(self.y);
        let inputs = clone_inputs(&self.inputs);
        Self::new(
            self.original_name.clone(),
            self.internal_name.clone(),
            x,
            y,
            self.block_type,
            clone_strings(&self.required_imports),
            clone_strings(&self.required_contexts),
            clone_strings(&self.file_versions),
            self.output.clone(),
            inputs,
            output_color_names,
            workspace,
            None,
        )
    }
}


/// The two sequences hold the same blocks with the same identifiers and the
/// same links up and down.
pub open spec fn links_kept(s1: Seq<Block>, s2: Seq<Block>) -> bool {
    &&& s1.len() == s2.len()
    &&& forall|k: int|
        0 <= k < s1.len() ==> {
            &&& (#[trigger] s2[k]).id == s1[k].id
            &&& s2[k].connected_above == s1[k].connected_above
            &&& s2[k].connected_below == s1[k].connected_below
        }
}

/// Handing a chain a new top changes no identifier and no link up or down.
pub proof fn lemma_set_topmost_keeps_links(s: Seq<Block>, i: int, new_id: ID, set_moved: bool)
    ensures
        links_kept(s, set_topmost_spec(s, i, new_id, set_moved)),
{
}

/// Recomputing the top of a chain changes no identifier and no link up or down.
pub proof fn lemma_update_topmost_keeps_links(s: Seq<Block>, i: int, set_moved: bool)
    ensures
        links_kept(s, update_topmost_spec(s, i, set_moved)),
{
}

/// Every identifier names one block only.
pub open spec fn unique_ids(s: Seq<Block>) -> bool {
    forall|a: int, b: int| 0 <= a < s.len() && 0 <= b < s.len() && a != b ==> s[a].id != s[b].id
}

pub proof fn lemma_unique_index_of(s: Seq<Block>, k: int)
    requires
        unique_ids(s),
        0 <= k < s.len(),
    ensures
        index_of(s, s[k].id) == Some(k),
{
    lemma_find_from(s, s[k].id, 0);
    if let Some(j) = index_of(s, s[k].id) {
        assert(j == k);
    }
}

/// After `disconnect_above`, the block that was above no longer points down,
/// the block itself points neither up nor at a top, and every other block
/// below it takes it as its top.
pub proof fn lemma_disconnect_above_effect(s: Seq<Block>, idx: int)
    requires
        0 <= idx < s.len(),
    ensures
        ({
            let r = disconnect_above_spec(s, idx);
            let u = unlink_above_spec(s, idx);
            &&& r.len() == s.len()
            &&& next_above(s, idx) matches Some(a) ==> r[a].connected_below is None && r[idx].connected_above is None
            &&& r[idx].connected_top is None
            &&& r[idx].recently_moved
            &&& forall|k: int|
                0 <= k < s.len() && in_below_chain(u, idx, k) && s[k].id != s[idx].id ==> (#[trigger] r[k]).connected_top
                    == Some(s[idx].id)
        }),
{
    lemma_next_in_range(s, idx);
    let u = unlink_above_spec(s, idx);
    assert(walk_below(u, idx, 0) == Some(idx));
    assert(in_below_chain(u, idx, idx));
    assert(u[idx].id == s[idx].id);
    assert forall|k: int| 0 <= k < s.len() implies (#[trigger] u[k]).id == s[k].id by {}
}

/// After `disconnect_below` on a block whose block below is the first to
/// carry its identifier, that block below stands alone at the top of its own
/// chain: it points neither up nor at a top, and every other block below it
/// takes it as its top.
pub proof fn lemma_disconnect_below_effect(s: Seq<Block>, idx: int)
    requires
        0 <= idx < s.len(),
        disconnect_below_ok(s, idx),
        next_below(s, idx) matches Some(j) && index_of(s, s[j].id) == Some(j),
    ensures
        ({
            let j = next_below(s, idx)->0;
            let r = disconnect_below_spec(s, idx);
            &&& r.len() == s.len()
            &&& r[j].connected_above is None
            &&& r[j].connected_top is None
            &&& forall|k: int|
                0 <= k < s.len() && in_below_chain(detach_spec(s, j), j, k) && s[k].id != s[j].id ==> (#[trigger] r[k]).connected_top
                    == Some(s[j].id)
        }),
{
    lemma_next_in_range(s, idx);
    let j = next_below(s, idx)->0;
    let d = detach_spec(s, j);
    lemma_same_ids_find(s, d, s[j].id, 0);
    assert(index_of(d, d[j].id) == Some(j));
    assert(next_above(d, j) is None);
    assert(walk_above(d, j, 0) == Some(j));
    assert(in_above_chain(d, j, j));
    lemma_top_unique(d, j, j);
    assert(chain_top_id(d, j) == s[j].id);
    assert(walk_below(d, j, 0) == Some(j));
    assert(in_below_chain(d, j, j));
    assert forall|k: int| 0 <= k < s.len() implies (#[trigger] d[k]).id == s[k].id by {}
}


proof fn lemma_links_kept_ids(s1: Seq<Block>, s2: Seq<Block>)
    requires
        links_kept(s1, s2),
    ensures
        unique_ids(s1) ==> unique_ids(s2),
        forall|id: ID| #[trigger] index_of(s2, id) == index_of(s1, id),
{
    assert forall|id: ID| #[trigger] index_of(s2, id) == index_of(s1, id) by {
        lemma_same_ids_find(s1, s2, id, 0);
    }
    if unique_ids(s1) {
        assert forall|a: int, b: int| 0 <= a < s2.len() && 0 <= b < s2.len() && a != b implies s2[a].id != s2[b].id by {
            assert(s1[a].id != s1[b].id);
        }
    }
}

/// Where nothing hangs below a block, connecting to it is possible and the
/// chain below the attached block is the block alone.
proof fn lemma_attach_lone(s: Seq<Block>, idx: int, above: int)
    requires
        unique_ids(s),
        0 <= idx < s.len(),
        0 <= above < s.len(),
        idx != above,
        s[idx].connected_below is None,
    ensures
        index_of(attach_spec(s, idx, above), s[idx].id) == Some(idx),
        next_below(attach_spec(s, idx, above), idx) is None,
        attach_bottom(attach_spec(s, idx, above), idx) == idx,
        connect_to_block_ok(s, idx, above),
{
    let s2 = attach_spec(s, idx, above);
    assert(links_kept(s, s2) || true);
    assert forall|k: int| 0 <= k < s.len() implies (#[trigger] s2[k]).id == s[k].id by {}
    lemma_same_ids_find(s, s2, s[idx].id, 0);
    lemma_unique_index_of(s, idx);
    assert(next_below(s2, idx) is None);
    assert(walk_below(s2, idx, 0) == Some(idx));
    lemma_bottom_unique(s2, idx, idx);
    assert(below_ends_within(s2, idx, 0));
}

/// Connecting a block with nothing below it to a block that had a block below
/// puts it between the two, linked both ways to each, and changes no other
/// link.
pub proof fn lemma_connect_to_block_inserts(s: Seq<Block>, idx: int, above: int)
    requires
        unique_ids(s),
        0 <= idx < s.len(),
        0 <= above < s.len(),
        idx != above,
        s[idx].connected_below is None,
        next_below(s, above) matches Some(bi) && bi != idx && bi != above,
    ensures
        connect_to_block_ok(s, idx, above),
        ({
            let bi = next_below(s, above)->0;
            let r = connect_to_block_spec(s, idx, above);
            &&& r.len() == s.len()
            &&& r[above].connected_below == Some(s[idx].id)
            &&& r[idx].connected_above == Some(s[above].id)
            &&& r[idx].connected_below == Some(s[bi].id)
            &&& r[bi].connected_above == Some(s[idx].id)
            &&& forall|k: int|
                0 <= k < s.len() && k != idx && k != above && k != bi ==> #[trigger] r[k] == s[k]
            &&& r[above].connected_above == s[above].connected_above
            &&& r[bi].connected_below == s[bi].connected_below
            &&& forall|k: int| 0 <= k < s.len() ==> (#[trigger] r[k]).id == s[k].id
        }),
{
    lemma_attach_lone(s, idx, above);
    lemma_next_in_range(s, above);
}

/// Taking a block out of the middle of a chain and connecting it again below
/// the block that was above it restores every link up and down as it was.
pub proof fn lemma_cut_and_reconnect_restores_links(s: Seq<Block>, idx: int)
    requires
        unique_ids(s),
        0 <= idx < s.len(),
        next_above(s, idx) matches Some(ai) && next_below(s, idx) matches Some(bi) && {
            &&& ai != idx
            &&& bi != idx
            &&& ai != bi
            &&& s[ai].connected_below == Some(s[idx].id)
            &&& s[bi].connected_above == Some(s[idx].id)
        },
        connect_below_to_above_ok(s, idx),
    ensures
        ({
            let ai = next_above(s, idx)->0;
            let t = connect_below_to_above_spec(s, idx);
            &&& connect_to_block_ok(t, idx, ai)
            &&& links_kept(s, connect_to_block_spec(t, idx, ai))
        }),
{
    lemma_next_in_range(s, idx);
    let ai = next_above(s, idx)->0;
    let bi = next_below(s, idx)->0;
    let b = bridge_spec(s, idx, ai, bi);
    assert forall|k: int| 0 <= k < s.len() implies (#[trigger] b[k]).id == s[k].id by {}
    lemma_same_ids_find(s, b, s[bi].id, 0);
    let t = connect_below_to_above_spec(s, idx);
    assert(t == update_topmost_spec(b, bi, true));
    lemma_update_topmost_keeps_links(b, bi, true);
    assert(unique_ids(b)) by {
        assert forall|x: int, y: int| 0 <= x < b.len() && 0 <= y < b.len() && x != y implies b[x].id != b[y].id by {
            assert(s[x].id != s[y].id);
        }
    }
    lemma_links_kept_ids(b, t);
    lemma_same_ids_find(s, b, s[idx].id, 0);
    lemma_unique_index_of(s, bi);
    assert(t[ai].connected_below == Some(s[bi].id));
    assert(index_of(t, s[bi].id) == Some(bi));
    assert(next_below(t, ai) == Some(bi));
    assert(t[idx].connected_below is None);
    lemma_attach_lone(t, idx, ai);
    let u = connect_to_block_spec(t, idx, ai);
    assert forall|k: int| 0 <= k < s.len() implies {
        &&& (#[trigger] u[k]).id == s[k].id
        &&& u[k].connected_above == s[k].connected_above
        &&& u[k].connected_below == s[k].connected_below
    } by {
        if k != idx && k != ai && k != bi {
            assert(b[k] == s[k]);
        }
    }
}


/// The two blocks agree in every field but their top, their links up and down
/// and whether they were recently moved.
pub open spec fn same_content(a: Block, b: Block) -> bool {
    a == Block {
        connected_top: a.connected_top,
        connected_above: a.connected_above,
        connected_below: a.connected_below,
        recently_moved: a.recently_moved,
        ..b
    }
}

/// Every block of `s2` agrees with the block at the same place in `s1` in every
/// field but its top, its links and whether it was recently moved.
pub open spec fn contents_kept(s1: Seq<Block>, s2: Seq<Block>) -> bool {
    &&& s1.len() == s2.len()
    &&& forall|k: int| 0 <= k < s1.len() ==> same_content(#[trigger] s2[k], s1[k])
}

proof fn lemma_contents_kept_trans(s1: Seq<Block>, s2: Seq<Block>, s3: Seq<Block>)
    requires
        contents_kept(s1, s2),
        contents_kept(s2, s3),
    ensures
        contents_kept(s1, s3),
{
    assert forall|k: int| 0 <= k < s1.len() implies same_content(#[trigger] s3[k], s1[k]) by {
        assert(same_content(s2[k], s1[k]));
        assert(same_content(s3[k], s2[k]));
    }
}

proof fn lemma_set_topmost_contents(s: Seq<Block>, i: int, new_id: ID, set_moved: bool)
    ensures
        contents_kept(s, set_topmost_spec(s, i, new_id, set_moved)),
{
}

proof fn lemma_update_contents(s: Seq<Block>, j: int, b: Block)
    requires
        0 <= j < s.len(),
        same_content(b, s[j]),
    ensures
        contents_kept(s, s.update(j, b)),
{
}

/// The chain below `i`, when it stops within `n` steps, ends at a block of
/// the sequence.
proof fn lemma_below_end_exists(s: Seq<Block>, i: int, n: nat)
    requires
        0 <= i < s.len(),
        below_ends_within(s, i, n),
    ensures
        exists|k: int| in_below_chain(s, i, k) && next_below(s, k) is None,
        0 <= bottom_of(s, i) < s.len(),
        in_below_chain(s, i, bottom_of(s, i)),
    decreases n,
{
    lemma_next_in_range(s, i);
    match next_below(s, i) {
        None => {
            assert(walk_below(s, i, 0) == Some(i));
            assert(in_below_chain(s, i, i));
        },
        Some(j) => {
            lemma_below_end_exists(s, j, (n - 1) as nat);
            let k = choose|k: int| in_below_chain(s, j, k) && next_below(s, k) is None;
            let m = choose|m: nat| walk_below(s, j, m) == Some(k);
            lemma_walk_below_split(s, i, 1, m);
            assert(walk_below(s, j, 0) == Some(j));
            assert(walk_below(s, i, 1) == Some(j));
            assert(walk_below(s, i, 1 + m) == Some(k));
            assert(in_below_chain(s, i, k));
        },
    }
    let b = bottom_of(s, i);
    let m = choose|m: nat| walk_below(s, i, m) == Some(b);
    lemma_walk_in_range(s, i, m);
}

proof fn lemma_walk_in_range(s: Seq<Block>, i: int, m: nat)
    requires
        0 <= i < s.len(),
    ensures
        walk_below(s, i, m) matches Some(k) ==> 0 <= k < s.len(),
    decreases m,
{
    lemma_next_in_range(s, i);
    if m > 0 {
        if let Some(j) = next_below(s, i) {
            lemma_walk_in_range(s, j, (m - 1) as nat);
        }
    }
}

/// No operation on links changes anything of a block but its top, its links
/// up and down and whether it was recently moved, nor the number of blocks.
pub proof fn lemma_link_operations_keep_contents(s: Seq<Block>, idx: int, above: int, new_id: ID, set_moved: bool)
    requires
        0 <= idx < s.len(),
        0 <= above < s.len(),
    ensures
        contents_kept(s, set_topmost_spec(s, idx, new_id, set_moved)),
        contents_kept(s, update_topmost_spec(s, idx, set_moved)),
        contents_kept(s, disconnect_below_spec(s, idx)),
        contents_kept(s, disconnect_above_spec(s, idx)),
        contents_kept(s, connect_below_to_above_spec(s, idx)),
        connect_to_block_ok(s, idx, above) ==> contents_kept(s, connect_to_block_spec(s, idx, above)),
{
    lemma_next_in_range(s, idx);
    lemma_next_in_range(s, above);
    lemma_set_topmost_contents(s, idx, new_id, set_moved);
    lemma_set_topmost_contents(s, idx, chain_top_id(s, idx), set_moved);
    if let Some(j) = next_below(s, idx) {
        let d = detach_spec(s, j);
        lemma_update_contents(s, j, with_above(with_top(s[j], None), None));
        lemma_set_topmost_contents(d, j, chain_top_id(d, j), true);
        lemma_contents_kept_trans(s, d, disconnect_below_spec(s, idx));
    }
    let u = unlink_above_spec(s, idx);
    if let Some(a) = next_above(s, idx) {
        let t = s.update(a, with_below(s[a], None));
        lemma_update_contents(s, a, with_below(s[a], None));
        lemma_update_contents(t, idx, with_above(t[idx], None));
        lemma_contents_kept_trans(s, t, u);
    }
    assert(contents_kept(s, u));
    lemma_set_topmost_contents(u, idx, s[idx].id, true);
    lemma_contents_kept_trans(s, u, disconnect_above_spec(s, idx));
    if s[idx].connected_above is Some && s[idx].connected_below is Some {
        if let (Some(ai), Some(bi)) = (next_above(s, idx), next_below(s, idx)) {
            let s1 = s.update(idx, with_below(with_above(with_top(s[idx], None), None), None));
            let s2 = s1.update(ai, with_below(s1[ai], Some(s[bi].id)));
            let b = bridge_spec(s, idx, ai, bi);
            lemma_update_contents(s, idx, with_below(with_above(with_top(s[idx], None), None), None));
            lemma_update_contents(s1, ai, with_below(s1[ai], Some(s[bi].id)));
            lemma_update_contents(s2, bi, with_above(s2[bi], Some(s[ai].id)));
            lemma_contents_kept_trans(s, s1, s2);
            lemma_contents_kept_trans(s, s2, b);
            lemma_set_topmost_contents(b, bi, chain_top_id(b, bi), true);
            lemma_contents_kept_trans(s, b, connect_below_to_above_spec(s, idx));
        }
    }
    if connect_to_block_ok(s, idx, above) {
        let s1 = s.update(above, with_below(s[above], Some(s[idx].id)));
        let s2a = s1.update(idx, with_above(s1[idx], Some(s[above].id)));
        let s2 = attach_spec(s, idx, above);
        lemma_update_contents(s, above, with_below(s[above], Some(s[idx].id)));
        lemma_update_contents(s1, idx, with_above(s1[idx], Some(s[above].id)));
        lemma_update_contents(s2a, idx, with_top(s2a[idx], s2a[above].connected_top));
        lemma_contents_kept_trans(s, s1, s2a);
        lemma_contents_kept_trans(s, s2a, s2);
        if let Some(bi) = next_below(s, above) {
            assert forall|k: int| 0 <= k < s.len() implies (#[trigger] s2[k]).id == s[k].id by {
                assert(same_content(s2[k], s[k]));
            }
            lemma_same_ids_find(s, s2, s[idx].id, 0);
            lemma_find_from(s, s[idx].id, 0);
            let first = index_of(s2, s[idx].id)->0;
            let n = choose|n: nat| below_ends_within(s2, first, n);
            lemma_below_end_exists(s2, first, n);
            let bot = attach_bottom(s2, idx);
            let s3 = s2.update(bot, with_below(s2[bot], s[above].connected_below));
            lemma_update_contents(s2, bot, with_below(s2[bot], s[above].connected_below));
            lemma_update_contents(s3, bi, with_above(s3[bi], Some(s[idx].id)));
            lemma_contents_kept_trans(s, s2, s3);
            lemma_contents_kept_trans(s, s3, connect_to_block_spec(s, idx, above));
        }
    }
}

/// Walking down from `i` goes the same way in two sequences that carry the
/// same identifiers and agree on the downward link of every block below `i`.
proof fn lemma_walk_agree(s: Seq<Block>, s2: Seq<Block>, i: int, m: nat)
    requires
        s2.len() == s.len(),
        forall|k: int| 0 <= k < s.len() ==> (#[trigger] s2[k]).id == s[k].id,
        0 <= i < s.len(),
        forall|k: int| in_below_chain(s, i, k) ==> (#[trigger] s2[k]).connected_below == s[k].connected_below,
    ensures
        walk_below(s2, i, m) == walk_below(s, i, m),
    decreases m,
{
    if m > 0 {
        assert(walk_below(s, i, 0) == Some(i));
        assert(s2[i].connected_below == s[i].connected_below);
        lemma_same_ids_find(s, s2, s[i].connected_below->0, 0);
        lemma_next_in_range(s, i);
        if let Some(j) = next_below(s, i) {
            assert forall|k: int| in_below_chain(s, j, k) implies (#[trigger] s2[k]).connected_below == s[k].connected_below by {
                let m2 = choose|m2: nat| walk_below(s, j, m2) == Some(k);
                assert(walk_below(s, i, m2 + 1) == walk_below(s, j, m2));
                assert(in_below_chain(s, i, k));
            }
            lemma_walk_agree(s, s2, j, (m - 1) as nat);
        }
    }
}

/// Connecting the block at `idx`, with the blocks hanging below it, under the
/// block at `above` that had a block below it puts the whole stack between the
/// two: `above` now points down at `idx`, `idx` points up at `above`, every
/// block of the stack but its bottom keeps its link down, the bottom of the
/// stack points down at the block that was below `above`, and that block
/// points up at `idx`.
pub proof fn lemma_connect_to_block_stack(s: Seq<Block>, idx: int, above: int)
    requires
        unique_ids(s),
        0 <= idx < s.len(),
        0 <= above < s.len(),
        idx != above,
        below_chain_ends(s, idx),
        !in_below_chain(s, idx, above),
        next_below(s, above) matches Some(bi) && bi != idx,
    ensures
        connect_to_block_ok(s, idx, above),
        ({
            let bi = next_below(s, above)->0;
            let r = connect_to_block_spec(s, idx, above);
            &&& r.len() == s.len()
            &&& r[above].connected_below == Some(s[idx].id)
            &&& r[idx].connected_above == Some(s[above].id)
            &&& r[bi].connected_above == Some(s[idx].id)
            &&& forall|k: int|
                #![trigger in_below_chain(s, idx, k)]
                in_below_chain(s, idx, k) ==> {
                    &&& next_below(s, k) is Some ==> r[k].connected_below == s[k].connected_below
                    &&& next_below(s, k) is None ==> r[k].connected_below == Some(s[bi].id)
                }
        }),
{
    lemma_next_in_range(s, above);
    let bi = next_below(s, above)->0;
    let s2 = attach_spec(s, idx, above);
    assert forall|k: int| 0 <= k < s.len() implies (#[trigger] s2[k]).id == s[k].id by {}
    assert forall|k: int| in_below_chain(s, idx, k) implies (#[trigger] s2[k]).connected_below == s[k].connected_below by {
        let mk = choose|mk: nat| walk_below(s, idx, mk) == Some(k);
        lemma_walk_in_range(s, idx, mk);
    }
    assert forall|m: nat| #[trigger] walk_below(s2, idx, m) == walk_below(s, idx, m) by {
        lemma_walk_agree(s, s2, idx, m);
    }
    lemma_same_ids_find(s, s2, s[idx].id, 0);
    lemma_unique_index_of(s, idx);
    assert(index_of(s2, s[idx].id) == Some(idx));
    let n = choose|n: nat| below_ends_within(s, idx, n);
    lemma_below_end_exists(s, idx, n);
    let bot = bottom_of(s, idx);
    let mb = choose|mb: nat| walk_below(s, idx, mb) == Some(bot);
    assert(walk_below(s2, idx, mb) == Some(bot));
    assert(in_below_chain(s2, idx, bot));
    assert(s2[bot].connected_below == s[bot].connected_below);
    lemma_same_ids_find(s, s2, s[bot].connected_below->0, 0);
    assert(next_below(s2, bot) == next_below(s, bot));
    lemma_bottom_unique(s2, idx, bot);
    assert(attach_bottom(s2, idx) == bot);
    // the chain below idx in s2 ends within n steps
    assert(below_chain_ends(s2, idx)) by {
        let nn = (mb + 1) as nat;
        lemma_ends_from_walk(s2, idx, mb, bot);
    }
    let r = connect_to_block_spec(s, idx, above);
    assert forall|k: int|
        #![trigger in_below_chain(s, idx, k)]
        in_below_chain(s, idx, k) implies {
            &&& next_below(s, k) is Some ==> r[k].connected_below == s[k].connected_below
            &&& next_below(s, k) is None ==> r[k].connected_below == Some(s[bi].id)
        } by {
        let mk = choose|mk: nat| walk_below(s, idx, mk) == Some(k);
        lemma_walk_in_range(s, idx, mk);
        if next_below(s, k) is None {
            lemma_bottom_unique(s, idx, k);
        } else if k == bot {
        }
    }
}

/// A chain that reaches an end within `m` steps ends within `m` steps.
proof fn lemma_ends_from_walk(s: Seq<Block>, i: int, m: nat, c: int)
    requires
        walk_below(s, i, m) == Some(c),
        next_below(s, c) is None,
    ensures
        below_ends_within(s, i, m),
        below_chain_ends(s, i),
    decreases m,
{
    if m > 0 {
        if let Some(j) = next_below(s, i) {
            lemma_ends_from_walk(s, j, (m - 1) as nat, c);
        }
    }
    assert(below_ends_within(s, i, m));
}

/// Taking a block out of the middle of a chain joins the block that was above
/// it and the block that was below it to each other both ways, leaves the block
/// with no link up or down, and changes no other link.
pub proof fn lemma_connect_below_to_above_joins(s: Seq<Block>, idx: int)
    requires
        0 <= idx < s.len(),
        next_above(s, idx) matches Some(ai) && next_below(s, idx) matches Some(bi) && ai != idx && bi != idx
            && ai != bi,
    ensures
        ({
            let ai = next_above(s, idx)->0;
            let bi = next_below(s, idx)->0;
            let r = connect_below_to_above_spec(s, idx);
            &&& r.len() == s.len()
            &&& r[idx].connected_above is None
            &&& r[idx].connected_below is None
            &&& r[ai].connected_below == Some(s[bi].id)
            &&& r[bi].connected_above == Some(s[ai].id)
            &&& forall|k: int|
                0 <= k < s.len() && k != idx && k != ai && k != bi ==> (#[trigger] r[k]).connected_above
                    == s[k].connected_above && r[k].connected_below == s[k].connected_below
        }),
{
    lemma_next_in_range(s, idx);
    let ai = next_above(s, idx)->0;
    let bi = next_below(s, idx)->0;
    lemma_update_topmost_keeps_links(bridge_spec(s, idx, ai, bi), bi, true);
}

/// Recomputing the top of the chain of block `i`, where `i` is the first block
/// carrying its identifier, hands the identifier of the block at the top end of
/// the chain above `i` to every block from `i` downwards (none to that block
/// itself), and changes no other block.
pub proof fn lemma_update_topmost_hands_down_top(s: Seq<Block>, i: int, t: int, set_moved: bool)
    requires
        0 <= i < s.len(),
        index_of(s, s[i].id) == Some(i),
        in_above_chain(s, i, t),
        next_above(s, t) is None,
    ensures
        ({
            let r = update_topmost_spec(s, i, set_moved);
            &&& r.len() == s.len()
            &&& forall|k: int|
                0 <= k < s.len() && #[trigger] in_below_chain(s, i, k) ==> r[k].connected_top == (if s[k].id == s[t].id {
                    None
                } else {
                    Some(s[t].id)
                })
            &&& forall|k: int| 0 <= k < s.len() && !#[trigger] in_below_chain(s, i, k) ==> r[k] == s[k]
        }),
{
    lemma_top_unique(s, i, t);
}

} // verus!
