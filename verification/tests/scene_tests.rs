use wasm_scene::array_scene::{ArrayScene, SceneError};

fn identity() -> Vec<i32> {
    vec![1, 0, 0, 0, 0, 1, 0, 0, 0, 0, 1, 0, 0, 0, 0, 1]
}

fn translate_x(d: i32) -> Vec<i32> {
    vec![1, 0, 0, 0, 0, 1, 0, 0, 0, 0, 1, 0, d, 0, 0, 1]
}

#[test]
fn allocate_sizes_and_zeroes_every_buffer() {
    let mut scene = ArrayScene::new();
    assert_eq!(scene.allocate(4), Ok(()));
    assert_eq!(scene.node_capacity(), 4);
    assert_eq!(scene.local_transform_buffer().len(), 4 * 16);
    assert_eq!(scene.local_position_buffer().len(), 4 * 3);
    assert_eq!(scene.world_transform_buffer().len(), 4 * 16);
    assert_eq!(scene.world_aabb_buffer().len(), 4 * 12);
    assert_eq!(scene.world_bsphere_buffer().len(), 4 * 4);
    assert_eq!(scene.nodes_indexs_buffer().len(), 4 * 4);
    assert!(scene.local_transform_buffer().iter().all(|&w| w == 0));
    assert!(scene.local_position_buffer().iter().all(|&w| w == 0));
    assert!(scene.world_transform_buffer().iter().all(|&w| w == 0));
    assert!(scene.world_aabb_buffer().iter().all(|&w| w == 0));
    assert!(scene.world_bsphere_buffer().iter().all(|&w| w == 0));
    assert!(scene.nodes_indexs_buffer().iter().all(|&e| e == -1));
}

#[test]
fn allocate_zero_capacity_fails() {
    let mut scene = ArrayScene::new();
    assert_eq!(scene.allocate(0), Err(SceneError::AllocationFailure));
}

#[test]
fn reallocation_overwrites_previous_contents() {
    let mut scene = ArrayScene::new();
    assert_eq!(scene.allocate(2), Ok(()));
    assert_eq!(scene.write_local_transform(1, &translate_x(7)), Ok(()));
    assert_eq!(scene.allocate(3), Ok(()));
    assert_eq!(scene.node_capacity(), 3);
    assert!(scene.local_transform_buffer().iter().all(|&w| w == 0));
    assert!(scene.nodes_indexs_buffer().iter().all(|&e| e == -1));
}

#[test]
fn root_with_one_translated_child() {
    // root (index 0, parent -1) with one child (index 1, parent 0, no
    // siblings); child local = translate(1,0,0), root local = identity.
    let mut scene = ArrayScene::new();
    assert_eq!(scene.allocate(2), Ok(()));
    assert_eq!(scene.write_local_transform(0, &identity()), Ok(()));
    assert_eq!(scene.write_local_transform(1, &translate_x(1)), Ok(()));
    assert_eq!(scene.insert_child(0, 1), Ok(()));
    let table = scene.nodes_indexs_buffer();
    assert_eq!(&table[0..4], &[-1, -1, -1, 1]);
    assert_eq!(&table[4..8], &[0, -1, -1, -1]);
    scene.batch_renderlist();
    assert_eq!(scene.read_world_transform(0), Ok(identity()));
    assert_eq!(scene.read_world_transform(1), Ok(translate_x(1)));
}

#[test]
fn world_transforms_compose_down_the_tree() {
    let mut scene = ArrayScene::new();
    assert_eq!(scene.allocate(3), Ok(()));
    assert_eq!(scene.write_local_transform(0, &translate_x(2)), Ok(()));
    assert_eq!(scene.write_local_transform(1, &translate_x(3)), Ok(()));
    assert_eq!(scene.write_local_transform(2, &translate_x(4)), Ok(()));
    assert_eq!(scene.insert_child(0, 1), Ok(()));
    assert_eq!(scene.insert_child(1, 2), Ok(()));
    scene.batch_renderlist();
    assert_eq!(scene.read_world_transform(0), Ok(translate_x(2)));
    assert_eq!(scene.read_world_transform(1), Ok(translate_x(5)));
    assert_eq!(scene.read_world_transform(2), Ok(translate_x(9)));
}

#[test]
fn two_passes_give_identical_world_buffers() {
    let mut scene = ArrayScene::new();
    assert_eq!(scene.allocate(3), Ok(()));
    assert_eq!(scene.write_local_transform(0, &identity()), Ok(()));
    assert_eq!(scene.write_local_transform(1, &translate_x(5)), Ok(()));
    assert_eq!(scene.write_local_transform(2, &translate_x(-2)), Ok(()));
    assert_eq!(scene.insert_child(0, 1), Ok(()));
    assert_eq!(scene.insert_child(1, 2), Ok(()));
    scene.batch_renderlist();
    let first = scene.world_transform_buffer().clone();
    scene.batch_renderlist();
    assert_eq!(scene.world_transform_buffer(), &first);
}

#[test]
fn non_live_slots_are_never_visited() {
    let mut scene = ArrayScene::new();
    assert_eq!(scene.allocate(3), Ok(()));
    // Node 2 stays outside the hierarchy; a pass that visited it would
    // copy its local transform into its world slot.
    assert_eq!(scene.write_local_transform(2, &translate_x(9)), Ok(()));
    assert_eq!(scene.insert_child(0, 1), Ok(()));
    assert!(!scene.is_live(2));
    scene.batch_renderlist();
    assert_eq!(scene.read_world_transform(2), Ok(vec![0; 16]));
}

#[test]
fn insert_child_rejects_bad_arguments() {
    let mut scene = ArrayScene::new();
    assert_eq!(scene.allocate(3), Ok(()));
    assert_eq!(scene.insert_child(0, 3), Err(SceneError::OutOfRangeIndex));
    assert_eq!(scene.insert_child(-2, 1), Err(SceneError::OutOfRangeIndex));
    // the root can never become a child
    assert_eq!(scene.insert_child(1, 0), Err(SceneError::InvalidTopology));
    // node 2 is not live, so it cannot adopt
    assert_eq!(scene.insert_child(2, 1), Err(SceneError::InvalidTopology));
    assert_eq!(scene.insert_child(0, 1), Ok(()));
    // node 1 is no longer a bare slot
    assert_eq!(scene.insert_child(0, 1), Err(SceneError::InvalidTopology));
}

#[test]
fn detach_unlinks_a_leaf() {
    let mut scene = ArrayScene::new();
    assert_eq!(scene.allocate(3), Ok(()));
    assert_eq!(scene.insert_child(0, 1), Ok(()));
    assert_eq!(scene.insert_child(0, 2), Ok(()));
    // 2 was inserted last, so it heads the child chain
    assert_eq!(scene.nodes_indexs_buffer()[3], 2);
    assert!(scene.is_live(1) && scene.is_live(2));
    assert_eq!(scene.detach(2), Ok(()));
    assert!(!scene.is_live(2));
    assert_eq!(scene.nodes_indexs_buffer()[3], 1);
    // the detached slot is bare again
    assert_eq!(&scene.nodes_indexs_buffer()[8..12], &[-1, -1, -1, -1]);
    // and can be adopted anew
    assert_eq!(scene.insert_child(1, 2), Ok(()));
    assert!(scene.is_live(2));
}

#[test]
fn detach_rejects_bad_arguments() {
    let mut scene = ArrayScene::new();
    assert_eq!(scene.allocate(3), Ok(()));
    assert_eq!(scene.insert_child(0, 1), Ok(()));
    assert_eq!(scene.insert_child(1, 2), Ok(()));
    assert_eq!(scene.detach(3), Err(SceneError::OutOfRangeIndex));
    assert_eq!(scene.detach(0), Err(SceneError::InvalidTopology));
    // node 1 still has a child
    assert_eq!(scene.detach(1), Err(SceneError::InvalidTopology));
    // a failed edit leaves the table unchanged
    assert_eq!(&scene.nodes_indexs_buffer()[4..8], &[0, -1, -1, 2]);
}

#[test]
fn set_parent_moves_a_leaf() {
    let mut scene = ArrayScene::new();
    assert_eq!(scene.allocate(3), Ok(()));
    assert_eq!(scene.write_local_transform(0, &identity()), Ok(()));
    assert_eq!(scene.write_local_transform(1, &translate_x(1)), Ok(()));
    assert_eq!(scene.write_local_transform(2, &translate_x(1)), Ok(()));
    assert_eq!(scene.insert_child(0, 1), Ok(()));
    assert_eq!(scene.insert_child(0, 2), Ok(()));
    scene.batch_renderlist();
    assert_eq!(scene.read_world_transform(2), Ok(translate_x(1)));
    // move 2 under 1: its world transform now composes both translations
    assert_eq!(scene.set_parent(2, 1), Ok(()));
    scene.batch_renderlist();
    assert_eq!(scene.read_world_transform(2), Ok(translate_x(2)));
    // a bare slot can be adopted through set_parent as well
    assert_eq!(scene.detach(2), Ok(()));
    assert_eq!(scene.set_parent(2, 0), Ok(()));
    assert!(scene.is_live(2));
}

#[test]
fn set_parent_rejects_bad_arguments() {
    let mut scene = ArrayScene::new();
    assert_eq!(scene.allocate(3), Ok(()));
    assert_eq!(scene.insert_child(0, 1), Ok(()));
    assert_eq!(scene.set_parent(1, 3), Err(SceneError::OutOfRangeIndex));
    assert_eq!(scene.set_parent(0, 1), Err(SceneError::InvalidTopology));
    assert_eq!(scene.set_parent(1, 1), Err(SceneError::InvalidTopology));
    // node 2 is neither live nor needed: a non-live parent is refused
    assert_eq!(scene.set_parent(1, 2), Err(SceneError::InvalidTopology));
}

#[test]
fn out_of_range_transform_access_fails() {
    let mut scene = ArrayScene::new();
    assert_eq!(scene.allocate(2), Ok(()));
    assert_eq!(
        scene.write_local_transform(2, &identity()),
        Err(SceneError::OutOfRangeIndex)
    );
    assert_eq!(
        scene.read_world_transform(-1),
        Err(SceneError::OutOfRangeIndex)
    );
    assert_eq!(
        scene.read_local_transform(5),
        Err(SceneError::OutOfRangeIndex)
    );
}

#[test]
fn wrapping_products_do_not_panic() {
    let mut scene = ArrayScene::new();
    assert_eq!(scene.allocate(2), Ok(()));
    let extreme = vec![i32::MAX; 16];
    assert_eq!(scene.write_local_transform(0, &extreme), Ok(()));
    assert_eq!(scene.write_local_transform(1, &extreme), Ok(()));
    assert_eq!(scene.insert_child(0, 1), Ok(()));
    scene.batch_renderlist();
    // the root copies its local words; the child's are wrapped products
    assert_eq!(scene.read_world_transform(0), Ok(extreme));
    assert!(scene.read_world_transform(1).is_ok());
}
