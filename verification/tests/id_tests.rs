use procedure_crafter::custom_id;
use procedure_crafter::internal::id::UsizeGetID;
use procedure_crafter::internal::{Block, WorkSpace, ID};
use procedure_crafter::logic::LogicAccurate;

#[test]
fn id_round_trip() {
    let id = ID::from(17);
    assert_eq!(usize::from(id), 17);
    assert_eq!(ID::from(usize::from(id)), id);
    let old = custom_id::ID::from(5);
    assert_eq!(usize::from(old), 5);
}

#[test]
fn id_displays_in_decimal() {
    assert_eq!(ID::from(0).to_string(), "0");
    assert_eq!(ID::from(7).to_string(), "7");
    assert_eq!(ID::from(10).to_string(), "10");
    assert_eq!(ID::from(12345).to_string(), "12345");
    assert_eq!(custom_id::ID::from(908).to_string(), "908");
}

#[test]
fn id_of_index() {
    let logic = LogicAccurate::new();
    let mut ws = WorkSpace::new(&logic);
    let colors = vec!["c".to_string()];
    let mut blocks = Vec::new();
    for name in ["a", "b"] {
        blocks.push(Block::new(
            name.to_string(),
            name.to_string(),
            0,
            0,
            0,
            vec![],
            vec![],
            vec![],
            "c".to_string(),
            vec![],
            &colors,
            &mut ws,
            None,
        ));
    }
    assert_eq!(1usize.get_id_of_idx(&blocks), blocks[1].id);
    assert_eq!(usize::from(0usize.get_id_of_idx(&blocks)), 1);
}

#[test]
fn workspace_hands_out_increasing_ids() {
    let logic = LogicAccurate::new();
    let mut ws = WorkSpace::new(&logic);
    let a = ws.increment_block_id();
    let b = ws.increment_block_id();
    assert_eq!(a, 1);
    assert_eq!(b, 2);
    assert!(ws.blocks.is_empty());
    assert_eq!(ws.camera.x, 32767);
    assert_eq!(ws.camera.y, 32767);
}
