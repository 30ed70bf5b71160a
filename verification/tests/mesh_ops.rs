use rizmo::geometry::{Vec3, Rgba, COORD_ONE};
use rizmo::errors::EditError;
use rizmo::mesh::{DynamicMesh, decompose_meta_index, BLOCK_SIZE};

fn v(x: i64, y: i64, z: i64) -> Vec3 {
    Vec3 { x, y, z }
}

#[test]
fn seed_shape_buffers() {
    let mesh = DynamicMesh::new();
    assert_eq!(mesh.indices, vec![0, 2, 1, 0, 1, 3, 0, 3, 2, 3, 1, 2]);
    assert_eq!(mesh.connections, vec![8, 10, 3, 2, 9, 6, 5, 11, 0, 4, 1, 7]);
    assert_eq!(mesh.live_vertex_count(), 4);
    assert_eq!(mesh.positions.len(), BLOCK_SIZE);
    assert_eq!(mesh.colors.len(), BLOCK_SIZE);
    assert_eq!(mesh.positions[0], v(0, 0, 0));
    assert_eq!(mesh.positions[1], v(0, 0, COORD_ONE));
    assert_eq!(mesh.positions[2], v(0, COORD_ONE, 0));
    assert_eq!(mesh.positions[3], v(COORD_ONE, 0, 0));
    assert_eq!(mesh.positions[63], v(0, 0, 0));
    assert_eq!(mesh.colors[0], Rgba { r: 0, g: 0, b: 0, a: 0 });
}

#[test]
fn seed_connectivity_is_symmetric() {
    let mesh = DynamicMesh::new();
    for c in 0..mesh.connections.len() {
        assert_eq!(mesh.connections[mesh.connections[c]], c);
    }
}

#[test]
fn decompose_meta_index_splits_corner() {
    assert_eq!(decompose_meta_index(0), (0, 0));
    assert_eq!(decompose_meta_index(5), (3, 2));
    assert_eq!(decompose_meta_index(7), (6, 1));
}

#[test]
fn track_index_rejects_out_of_range_corner() {
    let mut mesh = DynamicMesh::new();
    assert_eq!(mesh.track_index(12), Err(EditError::CornerOutOfRange));
    assert_eq!(mesh.track_index(11), Ok(0));
    assert_eq!(mesh.track_index(0), Ok(1));
    assert_eq!(mesh.get_meta_index(1), Ok(0));
    assert_eq!(mesh.get_meta_index(2), Err(EditError::UnknownHandle));
}

#[test]
fn traverse_connection_crosses_edge() {
    let mut mesh = DynamicMesh::new();
    let h = mesh.track_index(0).unwrap();
    mesh.traverse_connection(h).unwrap();
    assert_eq!(mesh.get_meta_index(h), Ok(8));
    mesh.traverse_connection(h).unwrap();
    assert_eq!(mesh.get_meta_index(h), Ok(0));
}

#[test]
fn modify_vertex_updates_whole_ring() {
    let mut mesh = DynamicMesh::new();
    let h = mesh.track_index(0).unwrap();
    let p = v(7, 8, 9);
    mesh.modify_vertex(h, p).unwrap();
    // corners 0, 3 and 6 all reference vertex 0: one slot, one write target
    assert_eq!(mesh.positions[0], p);
    assert_eq!(mesh.positions[1], v(0, 0, COORD_ONE));
    assert_eq!(mesh.positions[2], v(0, COORD_ONE, 0));
    assert_eq!(mesh.positions[3], v(COORD_ONE, 0, 0));
    assert_eq!(mesh.modify_vertex(99, p), Err(EditError::UnknownHandle));
}

#[test]
fn get_face_positions_rotates_to_handle() {
    let mut mesh = DynamicMesh::new();
    let h = mesh.track_index(1).unwrap();
    // face 0 is [0, 2, 1]; starting at offset 1 the rotation is v2, v1, v0
    let (a, b, c) = mesh.get_face_positions(h).unwrap();
    assert_eq!(a, v(0, COORD_ONE, 0));
    assert_eq!(b, v(0, 0, COORD_ONE));
    assert_eq!(c, v(0, 0, 0));
}

#[test]
fn add_vertex_grows_in_blocks() {
    let mut mesh = DynamicMesh::new();
    for i in 0..60 {
        let idx = mesh.add_vertex(v(i, i, i)).unwrap();
        assert_eq!(idx, 4 + i as usize);
    }
    assert_eq!(mesh.live_vertex_count(), 64);
    assert_eq!(mesh.positions.len(), 64);
    // crossing the block boundary allocates another block
    let idx = mesh.add_vertex(v(1, 2, 3)).unwrap();
    assert_eq!(idx, 64);
    assert_eq!(mesh.positions.len(), 128);
    assert_eq!(mesh.colors.len(), 128);
    assert_eq!(mesh.positions[64], v(1, 2, 3));
}

#[test]
fn delete_vertex_rejects_bad_slots() {
    let mut mesh = DynamicMesh::new();
    // every seed vertex is referenced by some corner
    assert_eq!(mesh.delete_vertex(0), Err(EditError::VertexInUse));
    assert_eq!(mesh.delete_vertex(4), Err(EditError::UnknownVertex));
    let s = mesh.add_vertex(v(1, 1, 1)).unwrap();
    assert_eq!(mesh.delete_vertex(s), Ok(()));
    assert_eq!(mesh.delete_vertex(s), Err(EditError::AlreadyDeleted));
}

#[test]
fn clean_compacts_with_tail_swap() {
    let mut mesh = DynamicMesh::new();
    let a = mesh.add_vertex(v(10, 0, 0)).unwrap(); // slot 4
    let b = mesh.add_vertex(v(20, 0, 0)).unwrap(); // slot 5
    assert_eq!((a, b), (4, 5));
    mesh.delete_vertex(a).unwrap();
    mesh.clean();
    // the tail vertex moved down into the freed slot
    assert_eq!(mesh.live_vertex_count(), 5);
    assert_eq!(mesh.positions[4], v(20, 0, 0));
    assert_eq!(mesh.positions.len(), 64);
}

#[test]
fn clean_skips_deletion_already_at_tail() {
    let mut mesh = DynamicMesh::new();
    let a = mesh.add_vertex(v(10, 0, 0)).unwrap(); // slot 4
    let b = mesh.add_vertex(v(20, 0, 0)).unwrap(); // slot 5, the tail
    assert_eq!((a, b), (4, 5));
    mesh.delete_vertex(b).unwrap();
    mesh.clean();
    assert_eq!(mesh.live_vertex_count(), 5);
    assert_eq!(mesh.positions[4], v(10, 0, 0));
}

#[test]
fn clean_without_pending_deletions_is_noop() {
    let mut mesh = DynamicMesh::new();
    let before_positions = mesh.positions.clone();
    let before_indices = mesh.indices.clone();
    mesh.clean();
    assert_eq!(mesh.positions, before_positions);
    assert_eq!(mesh.indices, before_indices);
    assert_eq!(mesh.live_vertex_count(), 4);
}

#[test]
fn clean_shrinks_storage_to_block_size() {
    let mut mesh = DynamicMesh::new();
    for i in 0..61 {
        mesh.add_vertex(v(i, 0, 0)).unwrap();
    }
    assert_eq!(mesh.positions.len(), 128);
    // drop the last two vertices; 63 live vertices fit back in one block
    mesh.delete_vertex(64).unwrap();
    mesh.delete_vertex(63).unwrap();
    mesh.clean();
    assert_eq!(mesh.live_vertex_count(), 63);
    assert_eq!(mesh.positions.len(), 64);
    assert_eq!(mesh.colors.len(), 64);
}
