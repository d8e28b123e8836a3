use btree_store::layout::{
    COMMON_NODE_HEADER_SIZE, LEAF_NODE_CELL_SIZE, LEAF_NODE_HEADER_SIZE,
    LEAF_NODE_LEFT_SPLIT_COUNT, LEAF_NODE_MAX_CELLS, LEAF_NODE_RIGHT_SPLIT_COUNT, ROW_SIZE,
};

#[test]
fn layout_constants_have_their_values() {
    assert_eq!(ROW_SIZE, 293);
    assert_eq!(COMMON_NODE_HEADER_SIZE, 6);
    assert_eq!(LEAF_NODE_HEADER_SIZE, 14);
    assert_eq!(LEAF_NODE_CELL_SIZE, 297);
    assert_eq!(LEAF_NODE_MAX_CELLS, 13);
    assert_eq!(LEAF_NODE_LEFT_SPLIT_COUNT, 7);
    assert_eq!(LEAF_NODE_RIGHT_SPLIT_COUNT, 7);
}
