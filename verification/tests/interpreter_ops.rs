use rizmo::geometry::{Vec3, Rgba, COORD_ONE, RATIO_ONE};
use rizmo::errors::EditError;
use rizmo::interpreter::{Command, Interpreter};

fn v(x: i64, y: i64, z: i64) -> Vec3 {
    Vec3 { x, y, z }
}

const HALF: u32 = RATIO_ONE / 2;

#[test]
fn fresh_session_selects_corner_zero() {
    let interp = Interpreter::new();
    assert_eq!(interp.selections, vec![0]);
    assert_eq!(interp.mesh.get_meta_index(0), Ok(0));
    assert_eq!(interp.mesh.live_vertex_count(), 4);
    assert!(interp.log.is_empty());
}

#[test]
fn split_half_creates_midpoint_vertex() {
    // Seed mesh has 4 faces; splitting the edge at corner 0 gives 6 faces,
    // 5 vertices, and the new vertex at the average of the edge's endpoints.
    let mut interp = Interpreter::new();
    interp.split(HALF).unwrap();
    assert_eq!(interp.mesh.indices.len(), 18);
    assert_eq!(interp.mesh.connections.len(), 18);
    assert_eq!(interp.mesh.live_vertex_count(), 5);
    // the edge at corner 0 joins vertex 0 at (0,0,0) and vertex 2 at (0,1,0)
    assert_eq!(interp.mesh.positions[4], v(0, COORD_ONE / 2, 0));
    // exact post-split wiring
    assert_eq!(
        interp.mesh.indices,
        vec![0, 4, 1, 0, 1, 3, 4, 3, 2, 3, 1, 2, 4, 2, 1, 4, 0, 3]
    );
    assert_eq!(
        interp.mesh.connections,
        vec![15, 14, 3, 2, 9, 16, 17, 11, 12, 4, 13, 7, 8, 10, 1, 0, 5, 6]
    );
}

#[test]
fn split_quarter_interpolates_exactly() {
    let mut interp = Interpreter::new();
    interp.split(RATIO_ONE / 4).unwrap();
    assert_eq!(interp.mesh.positions[4], v(0, COORD_ONE / 4, 0));
}

#[test]
fn split_rejects_ratio_above_one() {
    let mut interp = Interpreter::new();
    assert_eq!(interp.split(RATIO_ONE + 1), Err(EditError::RatioOutOfRange));
    assert!(interp.log.is_empty());
    assert_eq!(interp.mesh.indices.len(), 12);
}

#[test]
fn pull_extrudes_and_rewires() {
    let mut interp = Interpreter::new();
    interp.pull().unwrap();
    assert_eq!(interp.mesh.live_vertex_count(), 5);
    assert_eq!(
        interp.mesh.indices,
        vec![4, 2, 1, 0, 1, 3, 0, 3, 2, 3, 1, 2, 0, 4, 1, 4, 0, 2]
    );
    assert_eq!(
        interp.mesh.connections,
        vec![17, 10, 13, 14, 9, 6, 5, 11, 16, 4, 1, 7, 15, 2, 3, 12, 8, 0]
    );
    // the duplicate sits exactly on the original vertex
    assert_eq!(interp.mesh.positions[4], interp.mesh.positions[0]);
}

#[test]
fn pull_then_translate_moves_only_extruded_vertex() {
    // The extruded vertex (and the corners tied to it) moves; the original
    // face's other vertices stay put.
    let mut interp = Interpreter::new();
    interp.pull().unwrap();
    let delta = v(100, 200, 300);
    interp.translate(delta).unwrap();
    assert_eq!(interp.mesh.positions[4], delta);
    assert_eq!(interp.mesh.positions[0], v(0, 0, 0));
    assert_eq!(interp.mesh.positions[1], v(0, 0, COORD_ONE));
    assert_eq!(interp.mesh.positions[2], v(0, COORD_ONE, 0));
    assert_eq!(interp.mesh.positions[3], v(COORD_ONE, 0, 0));
}

#[test]
fn translate_moves_seed_vertex() {
    let mut interp = Interpreter::new();
    interp.translate(v(5, -6, 7)).unwrap();
    assert_eq!(interp.mesh.positions[0], v(5, -6, 7));
    interp.translate(v(1, 1, 1)).unwrap();
    assert_eq!(interp.mesh.positions[0], v(6, -5, 8));
}

#[test]
fn translate_overflow_is_rejected_and_unlogged() {
    let mut interp = Interpreter::new();
    interp.translate(v(i64::MAX, 0, 0)).unwrap();
    assert_eq!(
        interp.translate(v(1, 0, 0)),
        Err(EditError::PositionOverflow)
    );
    assert_eq!(interp.log.len(), 1);
    assert_eq!(interp.mesh.positions[0], v(i64::MAX, 0, 0));
}

#[test]
fn color_sets_selected_vertex_only() {
    let mut interp = Interpreter::new();
    let c = Rgba { r: 9, g: 8, b: 7, a: 6 };
    interp.color(c).unwrap();
    assert_eq!(interp.mesh.colors[0], c);
    assert_eq!(interp.mesh.colors[1], Rgba { r: 0, g: 0, b: 0, a: 0 });
}

#[test]
fn selection_moves_within_and_across_faces() {
    let mut interp = Interpreter::new();
    interp.move_edge_selection().unwrap();
    assert_eq!(interp.mesh.get_meta_index(0), Ok(1));
    interp.move_edge_selection().unwrap();
    assert_eq!(interp.mesh.get_meta_index(0), Ok(2));
    interp.move_edge_selection().unwrap();
    assert_eq!(interp.mesh.get_meta_index(0), Ok(0));
    interp.move_face_selection().unwrap();
    assert_eq!(interp.mesh.get_meta_index(0), Ok(8));
}

#[test]
fn selection_stack_push_and_pop() {
    let mut interp = Interpreter::new();
    interp.push_selection().unwrap();
    assert_eq!(interp.selections, vec![0, 0]);
    interp.pop_selection().unwrap();
    assert_eq!(interp.selections, vec![0]);
    interp.pop_selection().unwrap();
    assert!(interp.selections.is_empty());
    // with an empty stack every command is a precondition violation,
    // and the rejected command is never logged
    assert_eq!(interp.pull(), Err(EditError::EmptySelection));
    assert_eq!(interp.log.len(), 3);
}

#[test]
fn command_keys_are_sequential_and_never_reused() {
    let mut interp = Interpreter::new();
    let k0 = interp.push_selection().unwrap();
    let k1 = interp.pop_selection().unwrap();
    let k2 = interp.split(HALF).unwrap();
    assert_eq!((k0, k1, k2), (0, 1, 2));
    interp.undo(1).unwrap();
    let k3 = interp.pull().unwrap();
    assert_eq!(k3, 3);
}

#[test]
fn command_names_match_observers() {
    assert_eq!(Command::PushSelection.name(), "Push Selection");
    assert_eq!(Command::PopSelection.name(), "Pop Selection");
    assert_eq!(Command::MoveFaceSelection.name(), "Move Face Selection");
    assert_eq!(Command::MoveEdgeSelection.name(), "Move Edge Selection");
    assert_eq!(Command::Translate(v(0, 0, 0)).name(), "Translate");
    assert_eq!(Command::Split(0).name(), "Split");
    assert_eq!(Command::Pull.name(), "Pull");
    assert_eq!(Command::Color(Rgba { r: 0, g: 0, b: 0, a: 0 }).name(), "Color");
}

#[test]
fn commands_export_in_log_order() {
    let mut interp = Interpreter::new();
    interp.split(HALF).unwrap();
    interp.pull().unwrap();
    interp.color(Rgba { r: 1, g: 2, b: 3, a: 4 }).unwrap();
    assert_eq!(
        interp.commands(),
        vec![
            Command::Split(HALF),
            Command::Pull,
            Command::Color(Rgba { r: 1, g: 2, b: 3, a: 4 }),
        ]
    );
}

#[test]
fn load_commands_applies_batch_with_fresh_keys() {
    let mut direct = Interpreter::new();
    direct.split(HALF).unwrap();
    direct.pull().unwrap();

    let mut loaded = Interpreter::new();
    let keys = loaded
        .load_commands(&vec![Command::Split(HALF), Command::Pull])
        .unwrap();
    assert_eq!(keys, vec![0, 1]);
    assert_eq!(loaded.mesh.positions, direct.mesh.positions);
    assert_eq!(loaded.mesh.colors, direct.mesh.colors);
    assert_eq!(loaded.mesh.indices, direct.mesh.indices);
    assert_eq!(loaded.mesh.connections, direct.mesh.connections);
}
