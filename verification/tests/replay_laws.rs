use rizmo::geometry::{Vec3, Rgba, RATIO_ONE};
use rizmo::errors::EditError;
use rizmo::interpreter::{Command, Interpreter};

fn v(x: i64, y: i64, z: i64) -> Vec3 {
    Vec3 { x, y, z }
}

const HALF: u32 = RATIO_ONE / 2;

fn buffers(interp: &Interpreter) -> (Vec<Vec3>, Vec<Rgba>, Vec<usize>, Vec<usize>) {
    (
        interp.mesh.positions.clone(),
        interp.mesh.colors.clone(),
        interp.mesh.indices.clone(),
        interp.mesh.connections.clone(),
    )
}

fn check_symmetry(interp: &Interpreter) {
    assert_eq!(interp.mesh.indices.len(), interp.mesh.connections.len());
    assert_eq!(interp.mesh.indices.len() % 3, 0);
    for c in 0..interp.mesh.connections.len() {
        assert_eq!(interp.mesh.connections[interp.mesh.connections[c]], c);
    }
}

#[test]
fn connectivity_symmetric_after_edit_sequence() {
    let mut interp = Interpreter::new();
    check_symmetry(&interp);
    interp.split(HALF).unwrap();
    check_symmetry(&interp);
    interp.pull().unwrap();
    check_symmetry(&interp);
    interp.move_face_selection().unwrap();
    interp.move_edge_selection().unwrap();
    interp.split(RATIO_ONE / 3).unwrap();
    check_symmetry(&interp);
    interp.pull().unwrap();
    interp.translate(v(10, 20, 30)).unwrap();
    interp.color(Rgba { r: 1, g: 1, b: 1, a: 1 }).unwrap();
    check_symmetry(&interp);
}

#[test]
fn triple_invariant_after_every_edit() {
    let mut interp = Interpreter::new();
    let edits = [
        Command::Split(HALF),
        Command::Pull,
        Command::MoveEdgeSelection,
        Command::MoveFaceSelection,
        Command::Pull,
        Command::Translate(v(1, 2, 3)),
    ];
    for cmd in edits.iter() {
        cmd.call(&mut interp.mesh, &mut interp.selections).unwrap();
        assert_eq!(interp.mesh.indices.len(), interp.mesh.connections.len());
        assert_eq!(interp.mesh.indices.len() % 3, 0);
    }
}

#[test]
fn replaying_the_same_log_is_byte_identical() {
    let mut interp = Interpreter::new();
    interp.split(HALF).unwrap();
    interp.pull().unwrap();
    interp.translate(v(7, 7, 7)).unwrap();
    interp.color(Rgba { r: 3, g: 4, b: 5, a: 6 }).unwrap();
    let live = buffers(&interp);
    interp.reset().unwrap();
    let first_replay = buffers(&interp);
    interp.reset().unwrap();
    let second_replay = buffers(&interp);
    assert_eq!(live, first_replay);
    assert_eq!(first_replay, second_replay);
}

#[test]
fn split_keeps_untouched_connections() {
    // The corners away from the split edge keep their pre-split
    // connections into faces the split never touched.
    let mut interp = Interpreter::new();
    let before = interp.mesh.connections.clone();
    interp.split(HALF).unwrap();
    let after = &interp.mesh.connections;
    // corner 2 (third corner of face 0) and corner 7 (third corner of face
    // 2) and their partners keep their old wiring
    assert_eq!(after[2], before[2]);
    assert_eq!(after[3], before[3]);
    assert_eq!(after[7], before[7]);
    assert_eq!(after[11], before[11]);
    check_symmetry(&interp);
}

#[test]
fn undo_converges_to_fresh_replay() {
    // Log [A, B, C]; undoing B must equal a fresh session running [A, C].
    let mut interp = Interpreter::new();
    let _a = interp.split(HALF).unwrap();
    let b = interp.translate(v(50, 0, 0)).unwrap();
    let _c = interp.pull().unwrap();
    interp.undo(b).unwrap();

    let mut fresh = Interpreter::new();
    fresh.split(HALF).unwrap();
    fresh.pull().unwrap();

    assert_eq!(buffers(&interp), buffers(&fresh));
    assert_eq!(interp.commands(), fresh.commands());
}

#[test]
fn undo_unknown_key_is_an_error() {
    let mut interp = Interpreter::new();
    interp.split(HALF).unwrap();
    let before = buffers(&interp);
    assert_eq!(interp.undo(42), Err(EditError::UnknownKey));
    assert_eq!(buffers(&interp), before);
    assert_eq!(interp.log.len(), 1);
}

#[test]
fn update_command_replays_with_new_payload() {
    let mut interp = Interpreter::new();
    let key = interp.translate(v(10, 0, 0)).unwrap();
    interp.pull().unwrap();
    assert_eq!(interp.update_command(key, Command::Translate(v(0, 99, 0))), Ok(true));

    let mut fresh = Interpreter::new();
    fresh.translate(v(0, 99, 0)).unwrap();
    fresh.pull().unwrap();
    assert_eq!(buffers(&interp), buffers(&fresh));
}

#[test]
fn update_command_with_mismatched_kind_is_noop() {
    let mut interp = Interpreter::new();
    let key = interp.translate(v(10, 0, 0)).unwrap();
    let before = buffers(&interp);
    assert_eq!(interp.update_command(key, Command::Pull), Ok(false));
    assert_eq!(buffers(&interp), before);
    assert_eq!(interp.commands(), vec![Command::Translate(v(10, 0, 0))]);
    assert_eq!(
        interp.update_command(77, Command::Pull),
        Err(EditError::UnknownKey)
    );
}

#[test]
fn tied_vertex_ring_closes_within_face_count() {
    // Walk the tied-vertex ring by hand from every corner: it must return
    // to its start within one step per face.
    let interp = {
        let mut i = Interpreter::new();
        i.split(HALF).unwrap();
        i.pull().unwrap();
        i
    };
    let conn = &interp.mesh.connections;
    let n = conn.len();
    for start in 0..n {
        let mut cur = start;
        let mut steps = 0usize;
        loop {
            let d = conn[cur];
            cur = d - d % 3 + (d % 3 + 1) % 3;
            steps += 1;
            if cur == start {
                break;
            }
            assert!(steps <= n / 3, "ring from corner {start} did not close");
        }
        assert!(steps <= n / 3);
    }
}

#[test]
fn undo_color_restores_default_color() {
    // A replay rebuilds the color buffer from scratch, so an undone color
    // edit leaves no trace behind.
    let mut interp = Interpreter::new();
    let c = Rgba { r: 11, g: 22, b: 33, a: 44 };
    let key = interp.color(c).unwrap();
    assert_eq!(interp.mesh.colors[0], c);
    interp.undo(key).unwrap();
    assert_eq!(interp.mesh.colors[0], Rgba { r: 0, g: 0, b: 0, a: 0 });
    assert!(interp.commands().is_empty());
}
