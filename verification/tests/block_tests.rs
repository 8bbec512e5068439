use procedure_crafter::custom::BlockInput;
use procedure_crafter::internal::block::{
    get_bottom_most_block_idx_or_self, get_top_most_block_idx_or_self, index_by_block_id,
};
use procedure_crafter::internal::{Block, WorkSpace, ID};
use procedure_crafter::logic::LogicAccurate;

fn colors() -> Vec<String> {
    vec!["action".to_string(), "number".to_string()]
}

fn input() -> BlockInput {
    BlockInput::new("number".to_string(), None, vec![], vec![]).unwrap()
}

fn make(ws: &mut WorkSpace<LogicAccurate>, name: &str, n_inputs: usize) -> Block {
    let mut inputs = Vec::new();
    for _ in 0..n_inputs {
        inputs.push(input());
    }
    Block::new(
        name.to_string(),
        format!("internal_{}", name),
        0,
        0,
        0,
        vec![],
        vec![],
        vec![],
        "action".to_string(),
        inputs,
        &colors(),
        ws,
        None,
    )
}

/// Three blocks a -> b -> c, linked both ways, b and c taking a as their top.
fn chain_of_three() -> Vec<Block> {
    let logic = LogicAccurate::new();
    let mut ws = WorkSpace::new(&logic);
    let a = make(&mut ws, "a", 0);
    let mut b = make(&mut ws, "b", 0);
    let mut c = make(&mut ws, "c", 0);
    let mut a = a;
    a.connected_below = Some(b.id);
    b.connected_above = Some(a.id);
    b.connected_below = Some(c.id);
    b.connected_top = Some(a.id);
    c.connected_above = Some(b.id);
    c.connected_top = Some(a.id);
    vec![a, b, c]
}

#[test]
fn new_block_splits_name_and_takes_fresh_ids() {
    let logic = LogicAccurate::new();
    let mut ws = WorkSpace::new(&logic);
    let b1 = make(&mut ws, "move {} steps to {}", 2);
    let b2 = make(&mut ws, "stop", 0);
    assert_eq!(b1.name, vec!["move ".to_string(), " steps to ".to_string(), "".to_string()]);
    assert_eq!(b1.original_name, "move {} steps to {}");
    assert_eq!(b1.stored_inputs, vec![None, None]);
    assert_eq!(b1.x, 32768);
    assert_eq!(b1.y, 32768);
    assert_eq!(usize::from(b1.id), 1);
    assert_eq!(usize::from(b2.id), 2);
    assert_eq!(b2.name, vec!["stop".to_string()]);
    assert_eq!(b1.block_color_id, 0);
    assert!(b1.connected_top.is_none() && b1.connected_above.is_none() && b1.connected_below.is_none());
    assert!(!b1.recently_moved);
}

#[test]
fn new_block_takes_color_and_coordinates() {
    let logic = LogicAccurate::new();
    let mut ws = WorkSpace::new(&logic);
    let b = Block::new(
        "{}".to_string(),
        "value".to_string(),
        -32768,
        100,
        1,
        vec![],
        vec![],
        vec![],
        "number".to_string(),
        vec![input()],
        &colors(),
        &mut ws,
        Some(ID::from(42)),
    );
    assert_eq!(b.block_color_id, 1);
    assert_eq!(b.x, 0);
    assert_eq!(b.y, 32868);
    assert_eq!(usize::from(b.id), 42);
    assert_eq!(b.name, vec!["".to_string(), "".to_string()]);
    // the overwritten identifier leaves the counter untouched
    let next = make(&mut ws, "x", 0);
    assert_eq!(usize::from(next.id), 1);
}

#[test]
fn duplicate_copies_position_with_fresh_id() {
    let logic = LogicAccurate::new();
    let mut ws = WorkSpace::new(&logic);
    let b = Block::new(
        "say {}".to_string(),
        "say".to_string(),
        -5,
        7,
        0,
        vec!["io".to_string()],
        vec![],
        vec!["1".to_string()],
        "action".to_string(),
        vec![input()],
        &colors(),
        &mut ws,
        None,
    );
    let d = b.duplicate(&colors(), &mut ws);
    assert_eq!(d.x, b.x);
    assert_eq!(d.y, b.y);
    assert_eq!(d.name, b.name);
    assert_eq!(d.required_imports, b.required_imports);
    assert_eq!(d.file_versions, b.file_versions);
    assert_eq!(usize::from(d.id), 2);
    assert_eq!(d.inputs.len(), 1);
}

#[test]
fn index_by_block_id_finds_first() {
    let blocks = chain_of_three();
    assert_eq!(index_by_block_id(&blocks[2].id, &blocks), Some(2));
    assert_eq!(index_by_block_id(&ID::from(99), &blocks), None);
}

#[test]
fn top_and_bottom_of_chain() {
    let blocks = chain_of_three();
    assert_eq!(get_top_most_block_idx_or_self(&blocks, 2), 0);
    assert_eq!(get_top_most_block_idx_or_self(&blocks, 0), 0);
    assert_eq!(get_bottom_most_block_idx_or_self(&blocks, 0), 2);
    assert_eq!(get_bottom_most_block_idx_or_self(&blocks, 2), 2);
}

#[test]
fn recursive_set_topmost_marks_chain() {
    let mut blocks = chain_of_three();
    let id_b = blocks[1].id;
    let r = Block::recursive_set_topmost(&mut blocks, 1, id_b, true);
    assert!(r);
    assert_eq!(blocks[1].connected_top, None);
    assert_eq!(blocks[2].connected_top, Some(id_b));
    assert!(blocks[1].recently_moved && blocks[2].recently_moved);
    assert!(!blocks[0].recently_moved);
    let r = Block::recursive_set_topmost(&mut blocks, 2, id_b, false);
    assert!(!r);
}

#[test]
fn disconnect_above_makes_block_a_top() {
    let mut blocks = chain_of_three();
    Block::disconnect_above(&mut blocks, 1);
    assert_eq!(blocks[0].connected_below, None);
    assert_eq!(blocks[1].connected_above, None);
    assert_eq!(blocks[1].connected_top, None);
    assert_eq!(blocks[2].connected_top, Some(blocks[1].id));
    assert!(blocks[1].recently_moved && blocks[2].recently_moved);
}

#[test]
fn disconnect_below_detaches_the_block_below() {
    let mut blocks = chain_of_three();
    Block::disconnect_below(&mut blocks, 0);
    assert_eq!(blocks[1].connected_above, None);
    assert_eq!(blocks[1].connected_top, None);
    assert_eq!(blocks[2].connected_top, Some(blocks[1].id));
    // the block above keeps its link down
    assert_eq!(blocks[0].connected_below, Some(blocks[1].id));
}

#[test]
fn connect_below_to_above_joins_neighbours() {
    let mut blocks = chain_of_three();
    let joined = Block::connect_below_to_above(&mut blocks, 1);
    assert!(joined);
    assert_eq!(blocks[0].connected_below, Some(blocks[2].id));
    assert_eq!(blocks[2].connected_above, Some(blocks[0].id));
    assert_eq!(blocks[2].connected_top, Some(blocks[0].id));
    assert_eq!(blocks[1].connected_above, None);
    assert_eq!(blocks[1].connected_below, None);
    assert_eq!(blocks[1].connected_top, None);
}

#[test]
fn connect_below_to_above_at_the_ends() {
    let mut blocks = chain_of_three();
    assert!(!Block::connect_below_to_above(&mut blocks, 2));
    assert_eq!(blocks[1].connected_below, None);
    let mut blocks = chain_of_three();
    assert!(!Block::connect_below_to_above(&mut blocks, 0));
    assert_eq!(blocks[1].connected_above, None);
}

#[test]
fn cut_and_reconnect_restores_links() {
    let before = chain_of_three();
    let mut blocks = chain_of_three();
    Block::connect_below_to_above(&mut blocks, 1);
    Block::connect_to_block(&mut blocks, 1, 0);
    for k in 0..3 {
        assert_eq!(blocks[k].id, before[k].id);
        assert_eq!(blocks[k].connected_above, before[k].connected_above);
        assert_eq!(blocks[k].connected_below, before[k].connected_below);
    }
}

#[test]
fn connect_to_block_inserts_between() {
    let logic = LogicAccurate::new();
    let mut ws = WorkSpace::new(&logic);
    let mut a = make(&mut ws, "a", 0);
    let mut c = make(&mut ws, "c", 0);
    let b = make(&mut ws, "b", 0);
    a.connected_below = Some(c.id);
    c.connected_above = Some(a.id);
    let mut blocks = vec![a, c, b];
    Block::connect_to_block(&mut blocks, 2, 0);
    assert_eq!(blocks[0].connected_below, Some(blocks[2].id));
    assert_eq!(blocks[2].connected_above, Some(blocks[0].id));
    assert_eq!(blocks[2].connected_below, Some(blocks[1].id));
    assert_eq!(blocks[1].connected_above, Some(blocks[2].id));
}

#[test]
fn connect_to_possibly_above_uses_candidate() {
    let logic = LogicAccurate::new();
    let mut ws = WorkSpace::new(&logic);
    let a = make(&mut ws, "a", 0);
    let mut b = make(&mut ws, "b", 0);
    b.possible_connection_above = Some(a.id);
    let mut blocks = vec![a, b];
    Block::connect_to_possibly_above(&mut blocks, 1);
    assert_eq!(blocks[0].connected_below, Some(blocks[1].id));
    assert_eq!(blocks[1].connected_above, Some(blocks[0].id));
    blocks[1].possible_connection_above = Some(ID::from(77));
    blocks[1].connected_above = None;
    Block::connect_to_possibly_above(&mut blocks, 1);
    assert_eq!(blocks[1].connected_above, None);
}

#[test]
fn update_topmost_hands_down_the_top() {
    let mut blocks = chain_of_three();
    blocks[2].connected_top = None;
    Block::update_topmost(&mut blocks, 1, false);
    assert_eq!(blocks[1].connected_top, Some(blocks[0].id));
    assert_eq!(blocks[2].connected_top, Some(blocks[0].id));
    assert!(!blocks[2].recently_moved);
}

#[test]
fn inputs_are_collected_in_order() {
    let logic = LogicAccurate::new();
    let mut ws = WorkSpace::new(&logic);
    let mut outer = make(&mut ws, "{} and {}", 2);
    let mut inner = make(&mut ws, "not {}", 1);
    let leaf = make(&mut ws, "true", 0);
    let other = make(&mut ws, "false", 0);
    inner.stored_inputs[0] = Some(leaf.id);
    outer.stored_inputs[0] = Some(inner.id);
    outer.stored_inputs[1] = Some(other.id);
    let blocks = vec![outer, inner, leaf, other];
    let ids = blocks[0].get_all_ids_of_all_inputs(&blocks);
    assert_eq!(ids, vec![blocks[1].id, blocks[2].id, blocks[3].id]);
    let r = blocks[0].create_input_rememberer(&blocks);
    assert_eq!(r.own_id, blocks[0].id);
    assert_eq!(r.internal_inputs.len(), 2);
    assert_eq!(r.internal_inputs[0].0, 0);
    assert_eq!(r.internal_inputs[1].0, 1);
    assert!(r.internal_inputs[0].2.is_none());
    let deeper = r.internal_inputs[0].1.as_ref().unwrap();
    assert_eq!(deeper.own_id, blocks[1].id);
    assert_eq!(deeper.internal_inputs.len(), 1);
    assert_eq!(deeper.internal_inputs[0].1.as_ref().unwrap().internal_inputs.len(), 0);
}

#[test]
fn empty_inputs_are_skipped() {
    let logic = LogicAccurate::new();
    let mut ws = WorkSpace::new(&logic);
    let mut outer = make(&mut ws, "{} or {}", 2);
    let leaf = make(&mut ws, "x", 0);
    outer.stored_inputs[1] = Some(leaf.id);
    let blocks = vec![outer, leaf];
    assert_eq!(blocks[0].get_all_ids_of_all_inputs(&blocks), vec![blocks[1].id]);
    let r = blocks[0].create_input_rememberer(&blocks);
    assert_eq!(r.internal_inputs.len(), 1);
    assert_eq!(r.internal_inputs[0].0, 1);
}
