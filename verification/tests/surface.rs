use voxel_engine::derived::surface::{affected_keys, input_keys, summarize_world, InputSnapshot};
use voxel_engine::world::{MaterialId, VoxelCoord, World, WorldError};

fn world() -> (World, MaterialId) {
    (World::new(), MaterialId { id: 0 })
}

#[test]
fn single_and_adjacent_voxels() {
    let (mut w, m) = world();
    w.set(VoxelCoord::new(3, 3, 3), Some(m)).unwrap();
    let k = VoxelCoord::new(3, 3, 3).split().0;
    assert_eq!(summarize_world(&w, k).unwrap().total, 6);
    w.set(VoxelCoord::new(4, 3, 3), Some(m)).unwrap();
    assert_eq!(summarize_world(&w, k).unwrap().total, 10);
}

#[test]
fn neighbour_brick_hides_boundary_faces() {
    let (mut w, m) = world();
    w.set(VoxelCoord::new(7, 0, 0), Some(m)).unwrap();
    let k = VoxelCoord::new(7, 0, 0).split().0;
    assert_eq!(summarize_world(&w, k).unwrap().total, 6);
    w.set(VoxelCoord::new(8, 0, 0), Some(m)).unwrap(); // in the +x neighbour brick
    assert_eq!(summarize_world(&w, k).unwrap().total, 5);
    assert!(affected_keys(VoxelCoord::new(8, 0, 0)).contains(&k), "boundary edit must mark the neighbour");
    // The job path sees the same thing from its copies.
    assert_eq!(InputSnapshot::capture(&w, k).summarize(), summarize_world(&w, k));
}

#[test]
fn affected_keys_interior_edge_and_corner() {
    assert_eq!(affected_keys(VoxelCoord::new(3, 3, 3)).len(), 1);
    assert_eq!(affected_keys(VoxelCoord::new(0, 3, 3)).len(), 2);
    assert_eq!(affected_keys(VoxelCoord::new(7, 0, 15)).len(), 4);
    // Negative coordinates: -1 is local 7 of its brick, so +x is the neighbour.
    let a = affected_keys(VoxelCoord::new(-1, 3, 3));
    assert_eq!(a[1], VoxelCoord::new(0, 3, 3).split().0);
}

#[test]
fn dependency_check_is_exact_not_brick_granular() {
    let (mut w, m) = world();
    w.set(VoxelCoord::new(3, 3, 3), Some(m)).unwrap();
    let k = VoxelCoord::new(3, 3, 3).split().0;
    let deps = InputSnapshot::capture(&w, k).dependencies();
    assert_eq!(deps.first_changed(&w), None);
    // Creating the -x neighbour brick away from the shared face changes its version, not the result.
    w.set(VoxelCoord::new(-3, 3, 3), Some(m)).unwrap();
    assert_eq!(deps.record.first_version_change(&w), Some(k.offset(-1, 0, 0)));
    assert_eq!(deps.first_changed(&w), None, "face layer x = -1 is unchanged");
    // A voxel on the shared face layer does change it.
    w.set(VoxelCoord::new(-1, 3, 3), Some(m)).unwrap();
    assert_eq!(deps.first_changed(&w), Some(k.offset(-1, 0, 0)));
    // A target change is always a change.
    let deps = InputSnapshot::capture(&w, k).dependencies();
    w.set(VoxelCoord::new(5, 5, 5), Some(m)).unwrap();
    assert_eq!(deps.first_changed(&w), Some(k));
}

#[test]
fn inputs_are_the_brick_and_its_face_neighbours() {
    let k = VoxelCoord::new(-9, 17, 0).split().0;
    let want = [k, k.offset(-1, 0, 0), k.offset(1, 0, 0), k.offset(0, -1, 0), k.offset(0, 1, 0), k.offset(0, 0, -1), k.offset(0, 0, 1)];
    assert_eq!(input_keys(k), want);
}

#[test]
fn the_world_refuses_voxels_out_of_bounds_and_keeps_edits_apart() {
    let (mut w, m) = world();
    assert_eq!(w.set(VoxelCoord::new(i32::MAX, 0, 0), Some(m)), Err(WorldError::OutOfBounds));
    assert_eq!(w.version().number, 0);
    assert_eq!(w.set(VoxelCoord::new(1, 2, 3), Some(m)), Ok(true));
    assert_eq!(w.set(VoxelCoord::new(1, 2, 3), Some(m)), Ok(false));
    assert_eq!(w.version().number, 1);
    assert_eq!(w.get(VoxelCoord::new(1, 2, 3)), Some(m));
    assert_eq!(w.get(VoxelCoord::new(1, 2, 4)), None);
    assert_eq!(w.set(VoxelCoord::new(1, 2, 3), None), Ok(true));
    assert!(w.brick_keys().is_empty(), "an empty brick is not stored");
}
