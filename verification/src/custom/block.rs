use vstd::prelude::*;

use crate::custom::block_input::BlockInput;
use crate::custom::workspace::WorkSpace;
use crate::custom_id::{id_of, ID};
use crate::internal::block::{find_color, first_name_at};
use crate::text::{placeholder_count, split_on_placeholders, split_placeholders};

verus! {

/// A block of the first version of the workspace, linked to its neighbours by identifier.
#[derive(Clone, PartialEq, Debug)]
pub struct Block {
    pub name: Vec<String>,
    pub internal_name: String,
    pub x: u16,
    pub y: u16,
    pub block_type: u8,
    pub required_imports: Vec<String>,
    pub required_contexts: Vec<String>,
    pub file_versions: Vec<String>,
    pub output: String,
    pub inputs: Vec<BlockInput>,
    pub stored_inputs: Vec<Option<ID>>,
    pub block_color_id: usize,
    pub id: ID,
    pub connected_top: Option<ID>,
    pub connected_above: Option<ID>,
    pub connected_below: Option<ID>,
    pub possible_connection_above: Option<ID>,
    pub possible_connection_below: Option<ID>,
    pub recently_moved: bool,
}

/// First index at or after `i` whose block carries `id`.
pub open spec fn find_from(s: Seq<Block>, id: ID, i: int) -> Option<int>
    decreases s.len() - i,
{
    if i < 0 || i >= s.len() {
        None
    } else if s[i].id == id {
        Some(i)
    } else {
        find_from(s, id, i + 1)
    }
}

/// First index of the block that carries `id`.
pub open spec fn index_of(s: Seq<Block>, id: ID) -> Option<int> {
    find_from(s, id, 0)
}

pub proof fn lemma_find_from(s: Seq<Block>, id: ID, i: int)
    requires
        0 <= i,
    ensures
        find_from(s, id, i) matches Some(k) ==> i <= k < s.len() && s[k].id == id && forall|j: int|
            i <= j < k ==> s[j].id != id,
        find_from(s, id, i) is None ==> forall|j: int| i <= j < s.len() ==> s[j].id != id,
    decreases s.len() - i,
{
    if i < s.len() && s[i].id != id {
        lemma_find_from(s, id, i + 1);
    }
}

/// Index of the block that carries `id`, the first one where several do.
pub fn index_by_block_id(id: &ID, blocks: &Vec<Block>) -> (r: Option<usize>)
    ensures
        r matches Some(k) ==> index_of(blocks@, *id) == Some(k as int),
        r is None ==> index_of(blocks@, *id) is None,
        r matches Some(k) ==> k < blocks@.len() && blocks@[k as int].id == *id,
        r is None ==> forall|j: int| 0 <= j < blocks@.len() ==> blocks@[j].id != *id,
{
    proof {
        lemma_find_from(blocks@, *id, 0);
    }
    let mut i: usize = 0;
    while i < blocks.len()
        invariant
            i <= blocks@.len(),
            find_from(blocks@, *id, 0) == find_from(blocks@, *id, i as int),
        decreases blocks@.len() - i,
    {
        if blocks[i].id == *id {
            return Some(i);
        }
        i = i + 1;
    }
    None
}


/// Index of the block linked below block `i`, where that block is present.
pub open spec fn next_below(s: Seq<Block>, i: int) -> Option<int> {
    match s[i].connected_below {
        Some(id) => index_of(s, id),
        None => None,
    }
}

/// Index of the block linked above block `i`, where that block is present.
pub open spec fn next_above(s: Seq<Block>, i: int) -> Option<int> {
    match s[i].connected_above {
        Some(id) => index_of(s, id),
        None => None,
    }
}

/// Where `m` steps down the chain from `i` lead.
pub open spec fn walk_below(s: Seq<Block>, i: int, m: nat) -> Option<int>
    decreases m,
{
    if m == 0 {
        Some(i)
    } else {
        match next_below(s, i) {
            Some(j) => walk_below(s, j, (m - 1) as nat),
            None => None,
        }
    }
}

/// Where `m` steps up the chain from `i` lead.
pub open spec fn walk_above(s: Seq<Block>, i: int, m: nat) -> Option<int>
    decreases m,
{
    if m == 0 {
        Some(i)
    } else {
        match next_above(s, i) {
            Some(j) => walk_above(s, j, (m - 1) as nat),
            None => None,
        }
    }
}

/// Block `k` hangs below block `i` (or is `i` itself).
pub open spec fn in_below_chain(s: Seq<Block>, i: int, k: int) -> bool {
    exists|m: nat| walk_below(s, i, m) == Some(k)
}

/// Block `k` stands above block `i` (or is `i` itself).
pub open spec fn in_above_chain(s: Seq<Block>, i: int, k: int) -> bool {
    exists|m: nat| walk_above(s, i, m) == Some(k)
}

/// Following the links down from `i` stops within `n` steps.
pub open spec fn below_ends_within(s: Seq<Block>, i: int, n: nat) -> bool
    decreases n,
{
    match next_below(s, i) {
        None => true,
        Some(j) => n > 0 && below_ends_within(s, j, (n - 1) as nat),
    }
}

/// Following the links up from `i` stops within `n` steps.
pub open spec fn above_ends_within(s: Seq<Block>, i: int, n: nat) -> bool
    decreases n,
{
    match next_above(s, i) {
        None => true,
        Some(j) => n > 0 && above_ends_within(s, j, (n - 1) as nat),
    }
}

/// The chain below `i` is finite: it holds no cycle.
pub open spec fn below_chain_ends(s: Seq<Block>, i: int) -> bool {
    exists|n: nat| below_ends_within(s, i, n)
}

/// The chain above `i` is finite: it holds no cycle.
pub open spec fn above_chain_ends(s: Seq<Block>, i: int) -> bool {
    exists|n: nat| above_ends_within(s, i, n)
}

/// The two sequences agree on every identifier and downward link.
pub open spec fn same_below_links(s1: Seq<Block>, s2: Seq<Block>) -> bool {
    &&& s1.len() == s2.len()
    &&& forall|k: int|
        0 <= k < s1.len() ==> s1[k].id == s2[k].id && s1[k].connected_below == s2[k].connected_below
}

/// The two sequences agree on every identifier and upward link.
pub open spec fn same_above_links(s1: Seq<Block>, s2: Seq<Block>) -> bool {
    &&& s1.len() == s2.len()
    &&& forall|k: int|
        0 <= k < s1.len() ==> s1[k].id == s2[k].id && s1[k].connected_above == s2[k].connected_above
}

proof fn lemma_same_ids_find(s1: Seq<Block>, s2: Seq<Block>, id: ID, i: int)
    requires
        s1.len() == s2.len(),
        forall|k: int| 0 <= k < s1.len() ==> s1[k].id == s2[k].id,
    ensures
        find_from(s1, id, i) == find_from(s2, id, i),
    decreases s1.len() - i,
{
    if 0 <= i < s1.len() && s1[i].id != id {
        lemma_same_ids_find(s1, s2, id, i + 1);
    }
}

pub proof fn lemma_same_below_links(s1: Seq<Block>, s2: Seq<Block>)
    requires
        same_below_links(s1, s2),
    ensures
        forall|i: int| 0 <= i < s1.len() ==> #[trigger] next_below(s1, i) == next_below(s2, i),
        forall|i: int, m: nat| 0 <= i < s1.len() ==> #[trigger] walk_below(s1, i, m) == walk_below(s2, i, m),
        forall|i: int, n: nat| 0 <= i < s1.len() ==> #[trigger] below_ends_within(s1, i, n) == below_ends_within(s2, i, n),
        forall|id: ID| #[trigger] index_of(s1, id) == index_of(s2, id),
{
    assert forall|id: ID| #[trigger] index_of(s1, id) == index_of(s2, id) by {
        lemma_same_ids_find(s1, s2, id, 0);
    }
    assert forall|i: int, m: nat| 0 <= i < s1.len() implies #[trigger] walk_below(s1, i, m) == walk_below(s2, i, m) by {
        lemma_same_below_walk(s1, s2, i, m);
    }
    assert forall|i: int, n: nat| 0 <= i < s1.len() implies #[trigger] below_ends_within(s1, i, n) == below_ends_within(s2, i, n) by {
        lemma_same_below_ends(s1, s2, i, n);
    }
}

proof fn lemma_same_below_walk(s1: Seq<Block>, s2: Seq<Block>, i: int, m: nat)
    requires
        same_below_links(s1, s2),
        0 <= i < s1.len(),
    ensures
        walk_below(s1, i, m) == walk_below(s2, i, m),
    decreases m,
{
    lemma_same_ids_find(s1, s2, s1[i].connected_below->0, 0);
    lemma_find_from(s1, s1[i].connected_below->0, 0);
    if m > 0 {
        if let Some(j) = next_below(s1, i) {
            lemma_same_below_walk(s1, s2, j, (m - 1) as nat);
        }
    }
}

proof fn lemma_same_below_ends(s1: Seq<Block>, s2: Seq<Block>, i: int, n: nat)
    requires
        same_below_links(s1, s2),
        0 <= i < s1.len(),
    ensures
        below_ends_within(s1, i, n) == below_ends_within(s2, i, n),
    decreases n,
{
    lemma_same_ids_find(s1, s2, s1[i].connected_below->0, 0);
    lemma_find_from(s1, s1[i].connected_below->0, 0);
    if n > 0 {
        if let Some(j) = next_below(s1, i) {
            lemma_same_below_ends(s1, s2, j, (n - 1) as nat);
        }
    }
}

/// Block `b` once it takes `new_id` as the top of its chain; the block that is
/// `new_id` itself keeps the top it had.
pub open spec fn retop(b: Block, new_id: ID, set_moved: bool) -> Block {
    Block {
        connected_top: if b.id != new_id { Some(new_id) } else { b.connected_top },
        recently_moved: set_moved || b.recently_moved,
        ..b
    }
}

/// The blocks after every block of the chain below `i` takes `new_id` as its top.
pub open spec fn set_topmost_spec(s: Seq<Block>, i: int, new_id: ID, set_moved: bool) -> Seq<Block> {
    Seq::new(
        s.len(),
        |k: int|
            if in_below_chain(s, i, k) {
                retop(s[k], new_id, set_moved)
            } else {
                s[k]
            },
    )
}


pub proof fn lemma_next_in_range(s: Seq<Block>, i: int)
    ensures
        next_below(s, i) matches Some(j) ==> 0 <= j < s.len() && s[j].id == s[i].connected_below->0,
        next_above(s, i) matches Some(j) ==> 0 <= j < s.len() && s[j].id == s[i].connected_above->0,
{
    lemma_find_from(s, s[i].connected_below->0, 0);
    lemma_find_from(s, s[i].connected_above->0, 0);
}

pub proof fn lemma_walk_below_split(s: Seq<Block>, i: int, a: nat, b: nat)
    ensures
        walk_below(s, i, a + b) == match walk_below(s, i, a) {
            Some(c) => walk_below(s, c, b),
            None => None,
        },
    decreases a,
{
    if a > 0 {
        if let Some(j) = next_below(s, i) {
            lemma_walk_below_split(s, j, (a - 1) as nat, b);
            assert((a + b - 1) as nat == (a - 1) as nat + b);
        }
    }
}

pub proof fn lemma_walk_above_split(s: Seq<Block>, i: int, a: nat, b: nat)
    ensures
        walk_above(s, i, a + b) == match walk_above(s, i, a) {
            Some(c) => walk_above(s, c, b),
            None => None,
        },
    decreases a,
{
    if a > 0 {
        if let Some(j) = next_above(s, i) {
            lemma_walk_above_split(s, j, (a - 1) as nat, b);
            assert((a + b - 1) as nat == (a - 1) as nat + b);
        }
    }
}

/// Once the chain stops at `c`, nothing lies past it.
proof fn lemma_walk_below_stops(s: Seq<Block>, i: int, m: nat, c: int, t: nat)
    requires
        walk_below(s, i, m) == Some(c),
        next_below(s, c) is None,
        t > m,
    ensures
        walk_below(s, i, t) is None,
{
    lemma_walk_below_split(s, i, m, (t - m) as nat);
    assert(m + (t - m) as nat == t);
}

/// The effect of `recursive_set_topmost` on one block.
proof fn lemma_retop_idempotent(b: Block, new_id: ID, set_moved: bool)
    ensures
        retop(retop(b, new_id, set_moved), new_id, set_moved) == retop(b, new_id, set_moved),
{
}

/// Following the links down from `i`, every block named is present and the
/// chain stops within `n` steps.
pub open spec fn below_resolves_within(s: Seq<Block>, i: int, n: nat) -> bool
    decreases n,
{
    match s[i].connected_below {
        None => true,
        Some(id) => match index_of(s, id) {
            Some(j) => n > 0 && below_resolves_within(s, j, (n - 1) as nat),
            None => false,
        },
    }
}

/// The chain below `i` is finite and every block it names is present.
pub open spec fn below_chain_resolves(s: Seq<Block>, i: int) -> bool {
    exists|n: nat| below_resolves_within(s, i, n)
}

proof fn lemma_same_below_resolves(s1: Seq<Block>, s2: Seq<Block>, i: int, n: nat)
    requires
        same_below_links(s1, s2),
        0 <= i < s1.len(),
    ensures
        below_resolves_within(s1, i, n) == below_resolves_within(s2, i, n),
    decreases n,
{
    lemma_same_ids_find(s1, s2, s1[i].connected_below->0, 0);
    lemma_find_from(s1, s1[i].connected_below->0, 0);
    if n > 0 {
        if let Some(j) = next_below(s1, i) {
            lemma_same_below_resolves(s1, s2, j, (n - 1) as nat);
        }
    }
}

impl Block {
    /// Gives every block of the chain that starts at `idx` and runs down the
    /// `connected_below` links `id` as its top (the block that is `id` itself
    /// keeps its top) and, where `set_moved` holds, marks it as recently moved.
    pub fn recursive_set_topmost(blocks: &mut Vec<Block>, idx: usize, id: ID, set_moved: bool)
        requires
            idx < old(blocks)@.len(),
            below_chain_resolves(old(blocks)@, idx as int),
        ensures
            final(blocks)@ == set_topmost_spec(old(blocks)@, idx as int, id, set_moved),
    {
        let ghost s = blocks@;
        let ghost n0: nat = choose|n: nat| below_resolves_within(s, idx as int, n);
        let mut cur: usize = idx;
        let ghost mut m: nat = 0;
        let ghost mut fuel: nat = n0;
        loop
            invariant_except_break
                cur < s.len(),
                walk_below(s, idx as int, m) == Some(cur as int),
                below_resolves_within(s, cur as int, fuel),
            invariant
                same_below_links(s, blocks@),
                idx < s.len(),
                forall|k: int|
                    0 <= k < s.len() ==> #[trigger] blocks@[k] == (if exists|m2: nat|
                        m2 < m && #[trigger] walk_below(s, idx as int, m2) == Some(k) {
                        retop(s[k], id, set_moved)
                    } else {
                        s[k]
                    }),
            ensures
                m > 0,
                walk_below(s, idx as int, (m - 1) as nat) matches Some(c) && next_below(s, c) is None,
            decreases fuel,
        {
            proof {
                lemma_same_below_links(s, blocks@);
                lemma_next_in_range(s, cur as int);
                lemma_find_from(s, s[cur as int].connected_below->0, 0);
            }
            let ghost before = blocks@;
            if set_moved {
                blocks[cur].recently_moved = true;
            }
            if blocks[cur].id != id {
                blocks[cur].connected_top = Some(id);
            }
            proof {
                assert(blocks@[cur as int] == retop(before[cur as int], id, set_moved));
                assert forall|k: int|
                    0 <= k < s.len() implies #[trigger] blocks@[k] == (if exists|m2: nat|
                        m2 < m + 1 && #[trigger] walk_below(s, idx as int, m2) == Some(k) {
                        retop(s[k], id, set_moved)
                    } else {
                        s[k]
                    }) by {
                    if k == cur {
                        assert(walk_below(s, idx as int, m) == Some(k));
                        lemma_retop_idempotent(s[k], id, set_moved);
                    } else {
                        if exists|m2: nat| m2 < m + 1 && #[trigger] walk_below(s, idx as int, m2) == Some(k) {
                            let m2 = choose|m2: nat| m2 < m + 1 && #[trigger] walk_below(s, idx as int, m2) == Some(k);
                            assert(m2 < m);
                        }
                    }
                }
                assert(same_below_links(s, blocks@));
                lemma_same_below_links(s, blocks@);
            }
            let next = match blocks[cur].connected_below {
                Some(below) => {
                    let j = index_by_block_id(&below, blocks);
                    Some(j.unwrap())
                },
                None => None,
            };
            proof {
                assert(next_below(s, cur as int) == next_below(blocks@, cur as int));
                lemma_next_in_range(blocks@, cur as int);
            }
            match next {
                Some(j) => {
                    proof {
                        assert(next_below(s, cur as int) == Some(j as int));
                        lemma_walk_below_split(s, idx as int, m, 1);
                        assert(walk_below(s, j as int, 0) == Some(j as int));
                        assert(walk_below(s, cur as int, 1) == Some(j as int));
                        m = m + 1;
                        fuel = (fuel - 1) as nat;
                    }
                    cur = j;
                },
                None => {
                    proof {
                        m = m + 1;
                    }
                    break;
                },
            }
        }
        proof {
            let ghost c = walk_below(s, idx as int, (m - 1) as nat)->0;
            assert forall|k: int| 0 <= k < s.len() implies #[trigger] blocks@[k] == set_topmost_spec(s, idx as int, id, set_moved)[k] by {
                if in_below_chain(s, idx as int, k) {
                    let m2 = choose|m2: nat| walk_below(s, idx as int, m2) == Some(k);
                    if m2 >= m {
                        lemma_walk_below_stops(s, idx as int, (m - 1) as nat, c, m2);
                    }
                    assert(m2 < m && walk_below(s, idx as int, m2) == Some(k));
                } else {
                    assert(!(exists|m2: nat| m2 < m && #[trigger] walk_below(s, idx as int, m2) == Some(k)));
                }
            }
            assert(blocks@ =~= set_topmost_spec(s, idx as int, id, set_moved));
        }
    }
}

/// The block at the top end of the chain above `i`.
pub open spec fn top_of(s: Seq<Block>, i: int) -> int {
    choose|k: int| in_above_chain(s, i, k) && next_above(s, k) is None
}

/// The block at the bottom end of the chain below `i`.
pub open spec fn bottom_of(s: Seq<Block>, i: int) -> int {
    choose|k: int| in_below_chain(s, i, k) && next_below(s, k) is None
}

proof fn lemma_walk_above_stops(s: Seq<Block>, i: int, m: nat, c: int, t: nat)
    requires
        walk_above(s, i, m) == Some(c),
        next_above(s, c) is None,
        t > m,
    ensures
        walk_above(s, i, t) is None,
{
    lemma_walk_above_split(s, i, m, (t - m) as nat);
    assert(m + (t - m) as nat == t);
}

/// A chain has one end only.
pub proof fn lemma_top_unique(s: Seq<Block>, i: int, k: int)
    requires
        in_above_chain(s, i, k),
        next_above(s, k) is None,
    ensures
        top_of(s, i) == k,
{
    let t = top_of(s, i);
    assert(in_above_chain(s, i, t) && next_above(s, t) is None);
    let a = choose|a: nat| walk_above(s, i, a) == Some(k);
    let b = choose|b: nat| walk_above(s, i, b) == Some(t);
    if a < b {
        lemma_walk_above_stops(s, i, a, k, b);
    } else if b < a {
        lemma_walk_above_stops(s, i, b, t, a);
    }
}

/// A chain has one end only.
pub proof fn lemma_bottom_unique(s: Seq<Block>, i: int, k: int)
    requires
        in_below_chain(s, i, k),
        next_below(s, k) is None,
    ensures
        bottom_of(s, i) == k,
{
    let t = bottom_of(s, i);
    assert(in_below_chain(s, i, t) && next_below(s, t) is None);
    let a = choose|a: nat| walk_below(s, i, a) == Some(k);
    let b = choose|b: nat| walk_below(s, i, b) == Some(t);
    if a < b {
        lemma_walk_below_stops(s, i, a, k, b);
    } else if b < a {
        lemma_walk_below_stops(s, i, b, t, a);
    }
}

/// Index of the top-most block of the chain that block `idx` belongs to,
/// following the `connected_above` links; `idx` itself where nothing is above it.
pub fn get_top_most_block_idx_or_self(blocks: &Vec<Block>, idx: usize) -> (r: usize)
    requires
        idx < blocks@.len(),
        above_chain_ends(blocks@, idx as int),
    ensures
        r < blocks@.len(),
        in_above_chain(blocks@, idx as int, r as int),
        next_above(blocks@, r as int) is None,
        r == top_of(blocks@, idx as int),
{
    let ghost s = blocks@;
    let ghost mut fuel: nat = choose|n: nat| above_ends_within(s, idx as int, n);
    let ghost mut m: nat = 0;
    let mut cur = idx;
    loop
        invariant
            cur < s.len(),
            s == blocks@,
            walk_above(s, idx as int, m) == Some(cur as int),
            above_ends_within(s, cur as int, fuel),
        decreases fuel,
    {
        proof {
            lemma_next_in_range(s, cur as int);
        }
        let next = match blocks[cur].connected_above {
            Some(a) => index_by_block_id(&a, blocks),
            None => None,
        };
        match next {
            Some(j) => {
                proof {
                    lemma_walk_above_split(s, idx as int, m, 1);
                    assert(walk_above(s, j as int, 0) == Some(j as int));
                    m = m + 1;
                    fuel = (fuel - 1) as nat;
                }
                cur = j;
            },
            None => {
                proof {
                    lemma_top_unique(s, idx as int, cur as int);
                }
                return cur;
            },
        }
    }
}

/// Identifier of the top of the chain that the block at `i` belongs to, found
/// from the first block that carries the identifier of block `i`.
pub open spec fn chain_top_id(s: Seq<Block>, i: int) -> ID {
    s[top_of(s, index_of(s, s[i].id)->0)].id
}

/// The chains around block `i` are finite, and every block named below it
/// present, so that its top can be recomputed.
pub open spec fn update_topmost_ok(s: Seq<Block>, i: int) -> bool {
    &&& above_chain_ends(s, index_of(s, s[i].id)->0)
    &&& below_chain_resolves(s, i)
}

/// The blocks once the chain below block `i` takes the top of block `i` as its top.
pub open spec fn update_topmost_spec(s: Seq<Block>, i: int, set_moved: bool) -> Seq<Block> {
    set_topmost_spec(s, i, chain_top_id(s, i), set_moved)
}

/// Identifier of the top-most block of the chain that block `idx` belongs to,
/// following the `connected_above` links; that of `idx` itself where nothing
/// is above it.
pub fn get_top_most_block_id_or_self(blocks: &Vec<Block>, idx: usize) -> (r: ID)
    requires
        idx < blocks@.len(),
        above_chain_ends(blocks@, idx as int),
    ensures
        r == blocks@[top_of(blocks@, idx as int)].id,
{
    let top = get_top_most_block_idx_or_self(blocks, idx);
    blocks[top].id
}

impl Block {
    /// Recomputes the top of the chain that the block at `idx` belongs to and
    /// hands it to every block from `idx` downwards.
    pub fn update_topmost(blocks: &mut Vec<Block>, idx: usize, set_moved: bool)
        requires
            idx < old(blocks)@.len(),
            update_topmost_ok(old(blocks)@, idx as int),
        ensures
            final(blocks)@ == update_topmost_spec(old(blocks)@, idx as int, set_moved),
    {
        let ghost s = blocks@;
        let own_id = blocks[idx].id;
        let first = index_by_block_id(&own_id, blocks);
        proof {
            lemma_find_from(s, own_id, 0);
        }
        let new_id = get_top_most_block_id_or_self(blocks, first.unwrap());
        Block::recursive_set_topmost(blocks, idx, new_id, set_moved);
    }
}

/// Block `b` with another `connected_top`.
pub open spec fn with_top(b: Block, t: Option<ID>) -> Block {
    Block { connected_top: t, ..b }
}

/// Block `b` with another `connected_above`.
pub open spec fn with_above(b: Block, a: Option<ID>) -> Block {
    Block { connected_above: a, ..b }
}

/// Block `b` with another `connected_below`.
pub open spec fn with_below(b: Block, a: Option<ID>) -> Block {
    Block { connected_below: a, ..b }
}

/// The blocks once block `j` loses its top and the link to the block above it.
pub open spec fn detach_spec(s: Seq<Block>, j: int) -> Seq<Block> {
    s.update(j, with_above(with_top(s[j], None), None))
}

/// What `disconnect_below` needs: the block below, where one is named, is
/// present, and its top can be recomputed once it is detached.
pub open spec fn disconnect_below_ok(s: Seq<Block>, idx: int) -> bool {
    s[idx].connected_below is Some ==> match next_below(s, idx) {
        Some(j) => update_topmost_ok(detach_spec(s, j), j),
        None => false,
    }
}

/// The blocks after `disconnect_below` on block `idx`.
pub open spec fn disconnect_below_spec(s: Seq<Block>, idx: int) -> Seq<Block> {
    match next_below(s, idx) {
        Some(j) => update_topmost_spec(detach_spec(s, j), j, true),
        None => s,
    }
}

/// The blocks once block `idx` and the block above it no longer point at each other.
pub open spec fn unlink_above_spec(s: Seq<Block>, idx: int) -> Seq<Block> {
    match next_above(s, idx) {
        Some(a) => {
            let t = s.update(a, with_below(s[a], None));
            t.update(idx, with_above(t[idx], None))
        },
        None => s,
    }
}

/// What `disconnect_above` needs: the block above, where one is named, is present.
pub open spec fn disconnect_above_ok(s: Seq<Block>, idx: int) -> bool {
    s[idx].connected_above is Some ==> next_above(s, idx) is Some
}

/// The blocks after `disconnect_above` on block `idx`.
pub open spec fn disconnect_above_spec(s: Seq<Block>, idx: int) -> Seq<Block> {
    let u = unlink_above_spec(s, idx);
    u.update(idx, with_top(u[idx], None))
}

impl Block {
    /// Detaches the block below the block at `idx` from it: the block below
    /// loses its top and its link upwards, and becomes the top of its own chain.
    /// The block at `idx` keeps its `connected_below`.
    pub fn disconnect_below(blocks: &mut Vec<Block>, idx: usize)
        requires
            idx < old(blocks)@.len(),
            disconnect_below_ok(old(blocks)@, idx as int),
        ensures
            final(blocks)@ == disconnect_below_spec(old(blocks)@, idx as int),
    {
        let ghost s = blocks@;
        proof {
            lemma_next_in_range(s, idx as int);
        }
        if let Some(below) = blocks[idx].connected_below {
            let j = index_by_block_id(&below, blocks).unwrap();
            blocks[j].connected_top = None;
            blocks[j].connected_above = None;
            assert(blocks@ =~= detach_spec(s, j as int));
            Block::update_topmost(blocks, j, true);
        }
    }

    /// Sets `connected_below` of the block above the block at `idx` to none,
    /// drops the link upwards of the block at `idx`, and drops its top.
    pub fn disconnect_above(blocks: &mut Vec<Block>, idx: usize)
        requires
            idx < old(blocks)@.len(),
            disconnect_above_ok(old(blocks)@, idx as int),
        ensures
            final(blocks)@ == disconnect_above_spec(old(blocks)@, idx as int),
    {
        let ghost s = blocks@;
        proof {
            lemma_next_in_range(s, idx as int);
        }
        if let Some(above) = blocks[idx].connected_above {
            let a = index_by_block_id(&above, blocks).unwrap();
            blocks[a].connected_below = None;
            blocks[idx].connected_above = None;
        }
        assert(blocks@ =~= unlink_above_spec(s, idx as int));
        blocks[idx].connected_top = None;
    }
}

/// The blocks once the block at `idx` is cut out of its chain and the blocks
/// at `ai` (above it) and `bi` (below it) are linked to each other.
pub open spec fn bridge_spec(s: Seq<Block>, idx: int, ai: int, bi: int) -> Seq<Block> {
    let s1 = s.update(idx, with_below(with_above(with_top(s[idx], None), None), None));
    let s2 = s1.update(ai, with_below(s1[ai], Some(s[bi].id)));
    s2.update(bi, with_above(s2[bi], Some(s[ai].id)))
}

/// What `connect_below_to_above` needs in each of its cases.
pub open spec fn connect_below_to_above_ok(s: Seq<Block>, idx: int) -> bool {
    if s[idx].connected_above is None {
        disconnect_below_ok(s, idx)
    } else if s[idx].connected_below is None {
        disconnect_above_ok(s, idx)
    } else {
        match (next_above(s, idx), next_below(s, idx)) {
            (Some(ai), Some(bi)) => update_topmost_ok(bridge_spec(s, idx, ai, bi), bi),
            _ => false,
        }
    }
}

/// The blocks after `connect_below_to_above` on block `idx`.
pub open spec fn connect_below_to_above_spec(s: Seq<Block>, idx: int) -> Seq<Block> {
    if s[idx].connected_above is None {
        disconnect_below_spec(s, idx)
    } else if s[idx].connected_below is None {
        disconnect_above_spec(s, idx)
    } else {
        update_topmost_spec(bridge_spec(s, idx, next_above(s, idx)->0, next_below(s, idx)->0), next_below(s, idx)->0, true)
    }
}

impl Block {
    /// Takes the block at `idx` out of its chain and joins the block above it to
    /// the block below it. Where it has nothing above, the block below is
    /// detached; where it has nothing below, it is detached from the block above.
    pub fn connect_below_to_above(blocks: &mut Vec<Block>, idx: usize)
        requires
            idx < old(blocks)@.len(),
            connect_below_to_above_ok(old(blocks)@, idx as int),
        ensures
            final(blocks)@ == connect_below_to_above_spec(old(blocks)@, idx as int),
    {
        let ghost s = blocks@;
        proof {
            lemma_next_in_range(s, idx as int);
        }
        if blocks[idx].connected_above.is_none() {
            Block::disconnect_below(blocks, idx);
            return;
        }
        if blocks[idx].connected_below.is_none() {
            Block::disconnect_above(blocks, idx);
            return;
        }
        let above_id = blocks[idx].connected_above.unwrap();
        let below_id = blocks[idx].connected_below.unwrap();
        let ai = index_by_block_id(&above_id, blocks).unwrap();
        let bi = index_by_block_id(&below_id, blocks).unwrap();
        let above_block_id = blocks[ai].id;
        let below_block_id = blocks[bi].id;
        blocks[idx].connected_top = None;
        blocks[idx].connected_above = None;
        blocks[idx].connected_below = None;
        blocks[ai].connected_below = Some(below_block_id);
        blocks[bi].connected_above = Some(above_block_id);
        assert(blocks@ =~= bridge_spec(s, idx as int, ai as int, bi as int));
        Block::update_topmost(blocks, bi, true);
    }
}

/// Every stored input names a present block whose own inputs nest less than
/// `n` levels deep.
pub open spec fn inputs_resolve(s: Seq<Block>, st: Seq<Option<ID>>, n: nat) -> bool
    decreases n, 1nat,
{
    forall|k: int|
        0 <= k < st.len() ==> match #[trigger] st[k] {
            Some(id) => match index_of(s, id) {
                Some(j) => input_tree_ok(s, j, n),
                None => false,
            },
            None => true,
        }
}

/// The inputs of block `i` nest less than `n` levels deep and all are present.
pub open spec fn input_tree_ok(s: Seq<Block>, i: int, n: nat) -> bool
    decreases n, 0nat,
{
    n > 0 && inputs_resolve(s, s[i].stored_inputs@, (n - 1) as nat)
}

/// The identifiers of the blocks plugged into `st`, each followed by those
/// plugged into it, in order.
pub open spec fn stored_ids(s: Seq<Block>, st: Seq<Option<ID>>, n: nat) -> Seq<ID>
    decreases n, st.len() + 1,
{
    if st.len() == 0 {
        Seq::empty()
    } else {
        stored_ids(s, st.drop_last(), n) + match st.last() {
            Some(id) => seq![id] + input_ids(s, index_of(s, id)->0, n),
            None => Seq::empty(),
        }
    }
}

/// The identifiers of all blocks plugged, at any depth, into block `i`.
pub open spec fn input_ids(s: Seq<Block>, i: int, n: nat) -> Seq<ID>
    decreases n, 0nat,
{
    if n == 0 {
        Seq::empty()
    } else {
        stored_ids(s, s[i].stored_inputs@, (n - 1) as nat)
    }
}


pub proof fn lemma_stored_ids_fuel(s: Seq<Block>, st: Seq<Option<ID>>, n: nat, n2: nat)
    requires
        inputs_resolve(s, st, n),
        n <= n2,
    ensures
        inputs_resolve(s, st, n2),
        stored_ids(s, st, n) == stored_ids(s, st, n2),
    decreases n, st.len() + 1,
{
    if st.len() > 0 {
        let init = st.drop_last();
        assert forall|k: int| 0 <= k < init.len() implies match #[trigger] init[k] {
            Some(id) => match index_of(s, id) {
                Some(j) => input_tree_ok(s, j, n),
                None => false,
            },
            None => true,
        } by {
            assert(init[k] == st[k]);
        }
        lemma_stored_ids_fuel(s, init, n, n2);
        let last = st.last();
        assert(st[st.len() - 1] == last);
        if let Some(id) = last {
            let j = index_of(s, id)->0;
            lemma_input_ids_fuel(s, j, n, n2);
        }
        assert forall|k: int| 0 <= k < st.len() implies match #[trigger] st[k] {
            Some(id) => match index_of(s, id) {
                Some(j) => input_tree_ok(s, j, n2),
                None => false,
            },
            None => true,
        } by {
            if k < st.len() - 1 {
                assert(init[k] == st[k]);
            }
        }
    }
}

pub proof fn lemma_input_ids_fuel(s: Seq<Block>, i: int, n: nat, n2: nat)
    requires
        input_tree_ok(s, i, n),
        n <= n2,
    ensures
        input_tree_ok(s, i, n2),
        input_ids(s, i, n) == input_ids(s, i, n2),
    decreases n, 0nat,
{
    lemma_stored_ids_fuel(s, s[i].stored_inputs@, (n - 1) as nat, (n2 - 1) as nat);
}

/// The identifiers plugged into `stored`, at any depth, for inputs nesting
/// less than `n` levels deep.
fn ids_of_stored(stored: &Vec<Option<ID>>, blocks: &Vec<Block>, Ghost(n): Ghost<nat>) -> (r: Vec<ID>)
    requires
        inputs_resolve(blocks@, stored@, n),
    ensures
        r@ == stored_ids(blocks@, stored@, n),
    decreases n,
{
    let ghost s = blocks@;
    let mut found: Vec<ID> = Vec::new();
    let mut i: usize = 0;
    while i < stored.len()
        invariant
            i <= stored@.len(),
            inputs_resolve(s, stored@, n),
            s == blocks@,
            found@ == stored_ids(s, stored@.take(i as int), n),
        decreases stored@.len() - i,
    {
        let ghost pre = stored@.take(i as int);
        assert(stored@.take(i + 1).drop_last() =~= pre);
        assert(stored@.take(i + 1).last() == stored@[i as int]);
        assert(stored@.take(0) =~= Seq::<Option<ID>>::empty());
        if let Some(some_id) = stored[i] {
            proof {
                assert(match stored@[i as int] {
                    Some(id) => match index_of(s, id) {
                        Some(j) => input_tree_ok(s, j, n),
                        None => false,
                    },
                    None => true,
                });
                lemma_find_from(s, some_id, 0);
            }
            found.push(some_id);
            let index = index_by_block_id(&some_id, blocks).unwrap();
            let mut deeper = ids_of_stored(&blocks[index].stored_inputs, blocks, Ghost((n - 1) as nat));
            found.append(&mut deeper);
            assert(input_ids(s, index as int, n) == stored_ids(s, s[index as int].stored_inputs@, (n - 1) as nat));
            assert(stored_ids(s, stored@.take(i + 1), n) == stored_ids(s, pre, n) + (seq![some_id] + input_ids(s, index as int, n)));
        } else {
            assert(stored_ids(s, stored@.take(i + 1), n) == stored_ids(s, pre, n));
        }
        i = i + 1;
    }
    assert(stored@.take(stored@.len() as int) =~= stored@);
    found
}

impl Block {
    /// The identifiers of every block plugged into this block's inputs, each
    /// followed by those plugged into it, in the order of the inputs.
    pub fn get_all_ids_of_all_inputs(&self, blocks: &Vec<Block>) -> (r: Vec<ID>)
        requires
            exists|n: nat| inputs_resolve(blocks@, self.stored_inputs@, n),
        ensures
            forall|n: nat|
                inputs_resolve(blocks@, self.stored_inputs@, n) ==> r@ == #[trigger] stored_ids(
                    blocks@,
                    self.stored_inputs@,
                    n,
                ),
    {
        let ghost n0 = choose|n: nat| inputs_resolve(blocks@, self.stored_inputs@, n);
        let r = ids_of_stored(&self.stored_inputs, blocks, Ghost(n0));
        proof {
            assert forall|n: nat| inputs_resolve(blocks@, self.stored_inputs@, n) implies r@ == #[trigger] stored_ids(
                blocks@,
                self.stored_inputs@,
                n,
            ) by {
                if n0 <= n {
                    lemma_stored_ids_fuel(blocks@, self.stored_inputs@, n0, n);
                } else {
                    lemma_stored_ids_fuel(blocks@, self.stored_inputs@, n, n0);
                }
            }
        }
        r
    }
}


/// For each input of a block, in order: its position, what is plugged into it
/// where something is, and the ordering key of its distance to a point where
/// one was measured. A larger key stands for a larger distance; `u64::MAX`
/// stands for the largest distance.
pub struct InputRememberer {
    pub internal_inputs: Vec<(usize, Option<InputRememberer>, Option<u64>)>,
    pub own_id: ID,
}

/// `entries` remember, in order, the filled positions among `st`, each with
/// what is plugged into it and no distance.
pub open spec fn remembers_stored(
    entries: Seq<(usize, Option<InputRememberer>, Option<u64>)>,
    s: Seq<Block>,
    st: Seq<Option<ID>>,
) -> bool
    decreases entries, st.len(),
{
    if st.len() == 0 {
        entries.len() == 0
    } else {
        match st.last() {
            Some(id) => {
                &&& entries.len() > 0
                &&& remembers_stored(entries.drop_last(), s, st.drop_last())
                &&& entries.last().0 == st.len() - 1
                &&& entries.last().2 is None
                &&& match entries.last().1 {
                    Some(sub) => remembers(sub, s, index_of(s, id)->0),
                    None => false,
                }
            },
            None => remembers_stored(entries, s, st.drop_last()),
        }
    }
}

/// `r` remembers the inputs plugged into block `i`, at any depth.
pub open spec fn remembers(r: InputRememberer, s: Seq<Block>, i: int) -> bool
    decreases r, 0nat,
{
    &&& r.own_id == s[i].id
    &&& remembers_stored(r.internal_inputs@, s, s[i].stored_inputs@)
}

fn remember_stored(stored: &Vec<Option<ID>>, blocks: &Vec<Block>, Ghost(n): Ghost<nat>) -> (r: Vec<(usize, Option<InputRememberer>, Option<u64>)>)
    requires
        inputs_resolve(blocks@, stored@, n),
    ensures
        remembers_stored(r@, blocks@, stored@),
    decreases n,
{
    let ghost s = blocks@;
    let mut found: Vec<(usize, Option<InputRememberer>, Option<u64>)> = Vec::new();
    let mut i: usize = 0;
    while i < stored.len()
        invariant
            i <= stored@.len(),
            inputs_resolve(s, stored@, n),
            s == blocks@,
            remembers_stored(found@, s, stored@.take(i as int)),
        decreases stored@.len() - i,
    {
        let ghost pre = stored@.take(i as int);
        assert(stored@.take(i + 1).drop_last() =~= pre);
        assert(stored@.take(i + 1).last() == stored@[i as int]);
        if let Some(id) = stored[i] {
            proof {
                assert(match stored@[i as int] {
                    Some(id) => match index_of(s, id) {
                        Some(j) => input_tree_ok(s, j, n),
                        None => false,
                    },
                    None => true,
                });
                lemma_find_from(s, id, 0);
            }
            let index = index_by_block_id(&id, blocks).unwrap();
            let deeper = remember_stored(&blocks[index].stored_inputs, blocks, Ghost((n - 1) as nat));
            let sub = InputRememberer { internal_inputs: deeper, own_id: blocks[index].id };
            let ghost old_found = found@;
            assert(remembers(sub, s, index as int));
            found.push((i, Some(sub), None));
            assert(found@.drop_last() =~= old_found);
            assert(found@.last() == (i, Some(sub), None::<u64>));
            assert(remembers_stored(found@, s, stored@.take(i + 1)));
        } else {
            assert(remembers_stored(found@, s, stored@.take(i + 1)));
        }
        i = i + 1;
    }
    assert(stored@.take(stored@.len() as int) =~= stored@);
    found
}

impl Block {
    /// Records, for every filled input of this block in order, its position and
    /// what is plugged into it, at any depth; no distances are recorded.
    pub fn create_input_rememberer(&self, blocks: &Vec<Block>) -> (r: InputRememberer)
        requires
            exists|n: nat| inputs_resolve(blocks@, self.stored_inputs@, n),
        ensures
            r.own_id == self.id,
            remembers_stored(r.internal_inputs@, blocks@, self.stored_inputs@),
    {
        let ghost n0 = choose|n: nat| inputs_resolve(blocks@, self.stored_inputs@, n);
        let found = remember_stored(&self.stored_inputs, blocks, Ghost(n0));
        InputRememberer { own_id: self.id, internal_inputs: found }
    }
}


/// What `Block::new` needs: the output names a colour, the name holds one
/// placeholder per input, an identifier can still be handed out, and the
/// coordinates are at most zero, so that moving them by 32767 stays within `i16`.
pub open spec fn new_block_ok<'a, L>(
    name: Seq<char>,
    output: Seq<char>,
    n_inputs: nat,
    output_color_names: Seq<String>,
    workspace: WorkSpace<'a, L>,
    x: i16,
    y: i16,
) -> bool {
    &&& exists|k: int| 0 <= k < output_color_names.len() && output_color_names[k]@ == output
    &&& placeholder_count(name) == n_inputs
    &&& workspace.counter() < usize::MAX
    &&& x <= 0
    &&& y <= 0
}

impl Block {
    /// A new block, unlinked and not moved, named by the pieces of `name`
    /// between its placeholders, with one empty slot per input, its colour
    /// taken from the position of `output` among `output_color_names`, its
    /// coordinates moved by 32767 and read as unsigned, and the next
    /// identifier the workspace hands out.
    pub fn new<'a, L>(
        name: String,
        internal_name: String,
        x: i16,
        y: i16,
        block_type: u8,
        required_imports: Vec<String>,
        required_contexts: Vec<String>,
        file_versions: Vec<String>,
        output: String,
        inputs: Vec<BlockInput>,
        output_color_names: &[String],
        workspace: &mut WorkSpace<'a, L>,
    ) -> (b: Block)
        requires
            new_block_ok(name@, output@, inputs@.len(), output_color_names@, *old(workspace), x, y),
        ensures
            b.name@.map_values(|p: String| p@) == split_placeholders(name@),
            b.name@.len() == inputs@.len() + 1,
            b.internal_name == internal_name,
            b.x == (32767 + x) as u16,
            b.y == (32767 + y) as u16,
            b.block_type == block_type,
            b.required_imports == required_imports,
            b.required_contexts == required_contexts,
            b.file_versions == file_versions,
            b.output == output,
            b.inputs == inputs,
            b.stored_inputs@ == Seq::new(inputs@.len(), |k: int| None::<ID>),
            first_name_at(output_color_names@, output@, b.block_color_id as int),
            b.id == id_of((old(workspace).counter() + 1) as usize),
            final(workspace).counter() == old(workspace).counter() + 1,
            final(workspace).spec_action_blocks() == old(workspace).spec_action_blocks(),
            final(workspace).spec_inline_blocks() == old(workspace).spec_inline_blocks(),
            final(workspace).spec_camera() == old(workspace).spec_camera(),
            final(workspace).spec_logic() == old(workspace).spec_logic(),
            b.connected_top is None,
            b.connected_above is None,
            b.connected_below is None,
            b.possible_connection_above is None,
            b.possible_connection_below is None,
            !b.recently_moved,
    {
        let color_id = find_color(output_color_names, &output);
        let x = ((u16::MAX / 2) as i16 + x) as u16;
        let y = ((u16::MAX / 2) as i16 + y) as u16;
        let text_between_inputs = split_on_placeholders(&name);
        proof {
            assert(text_between_inputs@.map_values(|p: String| p@).len() == text_between_inputs@.len());
        }
        let mut stored: Vec<Option<ID>> = Vec::new();
        let mut i: usize = 0;
        while i < inputs.len()
            invariant
                i <= inputs@.len(),
                stored@ == Seq::new(i as nat, |k: int| None::<ID>),
            decreases inputs@.len() - i,
        {
            stored.push(None);
            i = i + 1;
            assert(stored@ =~= Seq::new(i as nat, |k: int| None::<ID>));
        }
        let id = ID::from(workspace.increment_block_id());
        Block {
            name: text_between_inputs,
            internal_name,
            x,
            y,
            block_type,
            required_imports,
            required_contexts,
            file_versions,
            output,
            inputs,
            stored_inputs: stored,
            block_color_id: color_id,
            id,
            connected_top: None,
            connected_above: None,
            connected_below: None,
            possible_connection_above: None,
            possible_connection_below: None,
            recently_moved: false,
        }
    }
}

/// The two sequences hold the same blocks with the same identifiers and the
/// same links up and down.
pub open spec fn links_kept(s1: Seq<Block>, s2: Seq<Block>) -> bool {
    &&& s1.len() == s2.len()
    &&& forall|k: int|
        0 <= k < s1.len() ==> {
            &&& (#[trigger] s2[k]).id == s1[k].id
            &&& s2[k].connected_above == s1[k].connected_above
            &&& s2[k].connected_below == s1[k].connected_below
        }
}

/// Recomputing the top of a chain changes no identifier and no link up or down.
pub proof fn lemma_update_topmost_keeps_links(s: Seq<Block>, i: int, set_moved: bool)
    ensures
        links_kept(s, update_topmost_spec(s, i, set_moved)),
{
}

/// Recomputing the top of the chain of block `i`, where `i` is the first block
/// carrying its identifier, hands the identifier of the block at the top end of
/// the chain above `i` to every block from `i` downwards (a block that is that
/// top keeps its own), and changes no other block.
pub proof fn lemma_update_topmost_hands_down_top(s: Seq<Block>, i: int, t: int, set_moved: bool)
    requires
        0 <= i < s.len(),
        index_of(s, s[i].id) == Some(i),
        in_above_chain(s, i, t),
        next_above(s, t) is None,
    ensures
        ({
            let r = update_topmost_spec(s, i, set_moved);
            &&& r.len() == s.len()
            &&& forall|k: int|
                0 <= k < s.len() && #[trigger] in_below_chain(s, i, k) ==> r[k].connected_top == (if s[k].id == s[t].id {
                    s[k].connected_top
                } else {
                    Some(s[t].id)
                })
            &&& forall|k: int| 0 <= k < s.len() && !#[trigger] in_below_chain(s, i, k) ==> r[k] == s[k]
        }),
{
    lemma_top_unique(s, i, t);
}

/// Taking a block with blocks above and below it out of its chain leaves it
/// with no link, joins its neighbours to each other both ways, and changes no
/// other link.
pub proof fn lemma_connect_below_to_above_joins(s: Seq<Block>, idx: int)
    requires
        0 <= idx < s.len(),
        next_above(s, idx) matches Some(ai) && next_below(s, idx) matches Some(bi) && ai != idx && bi != idx
            && ai != bi,
    ensures
        ({
            let ai = next_above(s, idx)->0;
            let bi = next_below(s, idx)->0;
            let r = connect_below_to_above_spec(s, idx);
            &&& r.len() == s.len()
            &&& r[idx].connected_above is None
            &&& r[idx].connected_below is None
            &&& r[ai].connected_below == Some(s[bi].id)
            &&& r[bi].connected_above == Some(s[ai].id)
            &&& forall|k: int|
                0 <= k < s.len() && k != idx && k != ai && k != bi ==> (#[trigger] r[k]).connected_above
                    == s[k].connected_above && r[k].connected_below == s[k].connected_below
        }),
{
    lemma_next_in_range(s, idx);
    let ai = next_above(s, idx)->0;
    let bi = next_below(s, idx)->0;
    lemma_update_topmost_keeps_links(bridge_spec(s, idx, ai, bi), bi, true);
}

} // verus!
