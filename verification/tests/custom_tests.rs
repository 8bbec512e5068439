use procedure_crafter::custom::block::get_top_most_block_id_or_self;
use procedure_crafter::custom::{Block, BlockInput, Camera, WorkSpace, ID};
use procedure_crafter::logic::LogicAccurate;

fn make(ws: &mut WorkSpace<LogicAccurate>, name: &str, n_inputs: usize, x: i16, y: i16) -> Block {
    let mut inputs = Vec::new();
    for _ in 0..n_inputs {
        inputs.push(BlockInput::new("number".to_string(), None, vec![], vec![]).unwrap());
    }
    Block::new(
        name.to_string(),
        name.to_string(),
        x,
        y,
        0,
        vec![],
        vec![],
        vec![],
        "action".to_string(),
        inputs,
        &["event".to_string(), "action".to_string()],
        ws,
    )
}

fn chain_of_three() -> Vec<Block> {
    let logic = LogicAccurate::new();
    let mut ws = WorkSpace::new(&logic);
    let mut a = make(&mut ws, "a", 0, 0, 0);
    let mut b = make(&mut ws, "b", 0, 0, 0);
    let mut c = make(&mut ws, "c", 0, 0, 0);
    a.connected_below = Some(b.id);
    b.connected_above = Some(a.id);
    b.connected_below = Some(c.id);
    b.connected_top = Some(a.id);
    c.connected_above = Some(b.id);
    c.connected_top = Some(a.id);
    vec![a, b, c]
}

#[test]
fn first_version_new_block() {
    let logic = LogicAccurate::new();
    let mut ws = WorkSpace::new(&logic);
    let b = make(&mut ws, "set {} to {}", 2, -10, 0);
    assert_eq!(b.x, 32757);
    assert_eq!(b.y, 32767);
    assert_eq!(b.block_color_id, 1);
    assert_eq!(b.name, vec!["set ", " to ", ""]);
    assert_eq!(b.stored_inputs, vec![None, None]);
    assert_eq!(usize::from(b.id), 1);
    let low = make(&mut ws, "x", 0, -32768, -32767);
    assert_eq!(low.x, 65535);
    assert_eq!(low.y, 0);
    assert_eq!(usize::from(low.id), 2);
}

#[test]
fn first_version_workspace() {
    let logic = LogicAccurate::new();
    let mut ws = WorkSpace::new(&logic);
    assert!(ws.action_blocks.is_empty() && ws.inline_blocks.is_empty());
    assert_eq!(ws.increment_block_id(), 1);
    assert_eq!(ws.increment_block_id(), 2);
    let cam = Camera::new();
    assert_eq!((cam.x, cam.y), (32767, 32767));
}

#[test]
fn first_version_disconnect_above_drops_top_only() {
    let mut blocks = chain_of_three();
    Block::disconnect_above(&mut blocks, 1);
    assert_eq!(blocks[0].connected_below, None);
    assert_eq!(blocks[1].connected_above, None);
    assert_eq!(blocks[1].connected_top, None);
    // the blocks below keep the top they had
    assert_eq!(blocks[2].connected_top, Some(blocks[0].id));
    assert!(!blocks[2].recently_moved);
}

#[test]
fn first_version_recursive_set_topmost_keeps_own_top() {
    let mut blocks = chain_of_three();
    let id_b = blocks[1].id;
    Block::recursive_set_topmost(&mut blocks, 1, id_b, true);
    assert_eq!(blocks[1].connected_top, Some(blocks[0].id));
    assert_eq!(blocks[2].connected_top, Some(id_b));
    assert!(blocks[1].recently_moved && blocks[2].recently_moved);
}

#[test]
fn first_version_connect_below_to_above() {
    let mut blocks = chain_of_three();
    Block::connect_below_to_above(&mut blocks, 1);
    assert_eq!(blocks[0].connected_below, Some(blocks[2].id));
    assert_eq!(blocks[2].connected_above, Some(blocks[0].id));
    assert_eq!(blocks[1].connected_above, None);
    assert_eq!(blocks[1].connected_below, None);
    assert_eq!(blocks[1].connected_top, None);
    assert!(blocks[2].recently_moved);
}

#[test]
fn first_version_disconnect_below() {
    let mut blocks = chain_of_three();
    Block::disconnect_below(&mut blocks, 1);
    assert_eq!(blocks[2].connected_above, None);
    assert_eq!(blocks[2].connected_top, None);
    assert!(blocks[2].recently_moved);
}

#[test]
fn first_version_top_id() {
    let blocks = chain_of_three();
    assert_eq!(get_top_most_block_id_or_self(&blocks, 2), blocks[0].id);
    assert_eq!(get_top_most_block_id_or_self(&blocks, 0), blocks[0].id);
}

#[test]
fn first_version_update_topmost() {
    let mut blocks = chain_of_three();
    blocks[1].connected_top = None;
    blocks[2].connected_top = None;
    Block::update_topmost(&mut blocks, 1, false);
    assert_eq!(blocks[1].connected_top, Some(blocks[0].id));
    assert_eq!(blocks[2].connected_top, Some(blocks[0].id));
}

#[test]
fn first_version_inputs() {
    let logic = LogicAccurate::new();
    let mut ws = WorkSpace::new(&logic);
    let mut outer = make(&mut ws, "{} + {}", 2, 0, 0);
    let leaf = make(&mut ws, "one", 0, 0, 0);
    outer.stored_inputs[0] = Some(leaf.id);
    let blocks = vec![outer, leaf];
    assert_eq!(blocks[0].get_all_ids_of_all_inputs(&blocks), vec![ID::from(2)]);
    let r = blocks[0].create_input_rememberer(&blocks);
    assert_eq!(r.own_id, blocks[0].id);
    assert_eq!(r.internal_inputs.len(), 1);
    assert_eq!(r.internal_inputs[0].0, 0);
}
