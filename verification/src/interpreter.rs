//! The command interpreter: a keyed log of edit commands, a selection stack,
//! and full-replay semantics.
//!
//! Every edit is applied immediately to the live mesh and appended to the
//! log under a fresh sequential key. Undo and parameter edits never patch
//! the mesh in place: they modify the log and then rebuild the whole state
//! by replaying the surviving commands from the seed shape, so the state is
//! always the one a canonical replay would produce.

use vstd::prelude::*;
use vstd::pervasive::VecAdditionalExecFns;
use crate::errors::EditError;
use crate::geometry::{
    Vec3, Rgba, RATIO_ONE, vec3_add, vec3_add_in_range, checked_vec3_add, lerp_vec3,
    lerp_vec3_spec,
};
use crate::mesh::{
    DynamicMesh, MeshModel, BLOCK_SIZE, add_faces_model, add_vertex_model, add_vertex_ok,
    adjacency_ok, as_ints, connections_symmetric, face_start, faces_nondegenerate,
    next_in_face, modify_vertex_model,
    lemma_ring_closes_within_face_count, patch_connections, ring_closes_within,
    rings_follow_vertex, seed_mesh, step_corner, decompose_meta_index,
};

verus! {

/// One edit command: selection-stack manipulation, relative selection moves,
/// structural model mutations, or a vertex-attribute edit.
#[derive(Clone, Copy, Debug, PartialEq, Eq, Structural)]
pub enum Command {
    /// Duplicate the top of the selection stack.
    PushSelection,
    /// Remove the top of the selection stack.
    PopSelection,
    /// Move the top selection across the shared edge into the adjacent face.
    MoveFaceSelection,
    /// Move the top selection to the next corner within the same face.
    MoveEdgeSelection,
    /// Move the selected vertex (and all vertices tied to it) by a delta.
    Translate(Vec3),
    /// Split the selected edge at a ratio over `RATIO_ONE`, subdividing the
    /// two faces that share it.
    Split(u32),
    /// Extrude: duplicate the selected vertex and connect old and new with
    /// two side faces.
    Pull,
    /// Set the color of the vertex at the selected corner.
    Color(Rgba),
}

impl Command {
    /// Whether two commands are of the same kind, payload aside.
    pub open spec fn same_kind(self, other: Command) -> bool {
        match (self, other) {
            (Command::PushSelection, Command::PushSelection) => true,
            (Command::PopSelection, Command::PopSelection) => true,
            (Command::MoveFaceSelection, Command::MoveFaceSelection) => true,
            (Command::MoveEdgeSelection, Command::MoveEdgeSelection) => true,
            (Command::Translate(_), Command::Translate(_)) => true,
            (Command::Split(_), Command::Split(_)) => true,
            (Command::Pull, Command::Pull) => true,
            (Command::Color(_), Command::Color(_)) => true,
            _ => false,
        }
    }

    /// Executable kind comparison.
    pub fn kind_matches(&self, other: &Command) -> (r: bool)
        ensures
            r == self.same_kind(*other),
    {
        match (self, other) {
            (Command::PushSelection, Command::PushSelection) => true,
            (Command::PopSelection, Command::PopSelection) => true,
            (Command::MoveFaceSelection, Command::MoveFaceSelection) => true,
            (Command::MoveEdgeSelection, Command::MoveEdgeSelection) => true,
            (Command::Translate(_), Command::Translate(_)) => true,
            (Command::Split(_), Command::Split(_)) => true,
            (Command::Pull, Command::Pull) => true,
            (Command::Color(_), Command::Color(_)) => true,
            _ => false,
        }
    }

    /// The command's display name, as reported to event observers.
    pub fn name(&self) -> (r: &'static str)
        ensures
            self is PushSelection ==> r@ == "Push Selection"@,
            self is PopSelection ==> r@ == "Pop Selection"@,
            self is MoveFaceSelection ==> r@ == "Move Face Selection"@,
            self is MoveEdgeSelection ==> r@ == "Move Edge Selection"@,
            self is Translate ==> r@ == "Translate"@,
            self is Split ==> r@ == "Split"@,
            self is Pull ==> r@ == "Pull"@,
            self is Color ==> r@ == "Color"@,
    {
        match self {
            Command::PushSelection => "Push Selection",
            Command::PopSelection => "Pop Selection",
            Command::MoveFaceSelection => "Move Face Selection",
            Command::MoveEdgeSelection => "Move Edge Selection",
            Command::Translate(_) => "Translate",
            Command::Split(_) => "Split",
            Command::Pull => "Pull",
            Command::Color(_) => "Color",
        }
    }
}

/// The state a command acts on: the mesh and the selection stack.
pub ghost struct EditState {
    pub mesh: MeshModel,
    pub selections: Seq<int>,
}

impl EditState {
    /// Well-formedness: the mesh is well-formed and every stacked selection
    /// names an allocated handle.
    pub open spec fn wf(self) -> bool {
        &&& self.mesh.wf()
        &&& forall|i: int|
            0 <= i < self.selections.len() ==> 0 <= #[trigger] self.selections[i]
                < self.mesh.handles.len()
    }
}

/// Every command needs a selected handle: the stack must be non-empty and
/// its top must name an allocated handle.
pub open spec fn apply_guard(s: EditState) -> bool {
    &&& s.selections.len() > 0
    &&& 0 <= s.selections.last() < s.mesh.handles.len()
}

/// The corner the top-of-stack handle is bound to.
pub open spec fn selected_corner(s: EditState) -> int {
    s.mesh.handles[s.selections.last()]
}

/// Whether a split can be applied: the ratio is a fraction in `[0, 1]` and
/// the arrays can still grow.
pub open spec fn split_ok(s: EditState, amount: int) -> bool {
    &&& 0 <= amount <= RATIO_ONE as int
    &&& s.mesh.indices.len() + 6 <= usize::MAX
    &&& add_vertex_ok(s.mesh)
}

/// Whether a pull can be applied: the arrays can still grow.
pub open spec fn pull_ok(s: EditState) -> bool {
    &&& s.mesh.indices.len() + 6 <= usize::MAX
    &&& add_vertex_ok(s.mesh)
}

/// The mesh after splitting the edge at `corner` with ratio
/// `amount / RATIO_ONE`: a new vertex interpolated between the edge's two
/// endpoints, two new faces subdividing the two faces sharing the edge, and
/// the rewiring that keeps every connection on the matching edge.
pub open spec fn split_model(m: MeshModel, corner: int, amount: int) -> MeshModel {
    let start_a = face_start(corner);
    let offset_a = corner % 3;
    let pm = m.connections[corner];
    let start_b = face_start(pm);
    let offset_b = pm % 3;
    let first = m.positions[m.indices[corner]];
    let second = m.positions[m.indices[pm]];
    let ni = m.vertex_count;
    let m1 = add_vertex_model(m, lerp_vec3_spec(first, second, amount));
    let a1 = start_a + (offset_a + 1) % 3;
    let a2 = start_a + (offset_a + 2) % 3;
    let b1 = start_b + (offset_b + 1) % 3;
    let b2 = start_b + (offset_b + 2) % 3;
    let fidx = seq![ni, m.indices[a1], m.indices[a2], ni, m.indices[b1], m.indices[b2]];
    let fconn = seq![pm, m.connections[a1], a1, corner, m.connections[b1], b1];
    let m2 = add_faces_model(m1, fidx, fconn);
    MeshModel { indices: m2.indices.update(a1, ni).update(b1, ni), ..m2 }
}

/// The mesh after extruding at `corner`: the vertex is duplicated, the face
/// is redirected to the duplicate, and two side faces connect the old and
/// new vertices to the face's other two corners.
pub open spec fn pull_model(m: MeshModel, corner: int) -> MeshModel {
    let start = face_start(corner);
    let offset = corner % 3;
    let old_vertex = m.indices[corner];
    let ni = m.vertex_count;
    let base = m.indices.len() as int;
    let m1 = add_vertex_model(m, m.positions[old_vertex]);
    let m2 = MeshModel { indices: m1.indices.update(corner, ni), ..m1 };
    let a1 = start + (offset + 1) % 3;
    let a2 = start + (offset + 2) % 3;
    let fidx = seq![old_vertex, ni, m.indices[a2], ni, old_vertex, m.indices[a1]];
    let fconn = seq![base + 3, a2, m.connections[a2], base, m.connections[corner], corner];
    add_faces_model(m2, fidx, fconn)
}

/// The meaning of one command: `Some` of the state after applying it, or
/// `None` when a precondition is violated (empty stack, unknown handle,
/// ratio out of range, coordinate overflow, unclosed tied-vertex ring) or a
/// machine limit would be exceeded. A failing command changes nothing.
pub open spec fn apply_model(s: EditState, cmd: Command) -> Option<EditState> {
    if !apply_guard(s) {
        Option::None
    } else {
        let sel = s.selections.last();
        let corner = selected_corner(s);
        match cmd {
            Command::PushSelection => Option::Some(
                EditState { selections: s.selections.push(sel), ..s },
            ),
            Command::PopSelection => Option::Some(
                EditState { selections: s.selections.drop_last(), ..s },
            ),
            Command::MoveFaceSelection => Option::Some(
                EditState {
                    mesh: MeshModel {
                        handles: s.mesh.handles.update(sel, s.mesh.connections[corner]),
                        ..s.mesh
                    },
                    ..s
                },
            ),
            Command::MoveEdgeSelection => Option::Some(
                EditState {
                    mesh: MeshModel {
                        handles: s.mesh.handles.update(sel, next_in_face(corner)),
                        ..s.mesh
                    },
                    ..s
                },
            ),
            Command::Translate(delta) => {
                let p = s.mesh.positions[s.mesh.indices[corner]];
                if vec3_add_in_range(p, delta) && ring_closes_within(
                    s.mesh.connections,
                    corner,
                    s.mesh.connections.len() as int,
                ) {
                    Option::Some(
                        EditState {
                            mesh: modify_vertex_model(s.mesh, corner, vec3_add(p, delta)),
                            ..s
                        },
                    )
                } else {
                    Option::None
                }
            },
            Command::Split(amount) => if split_ok(s, amount as int) {
                Option::Some(EditState { mesh: split_model(s.mesh, corner, amount as int), ..s })
            } else {
                Option::None
            },
            Command::Pull => if pull_ok(s) {
                Option::Some(EditState { mesh: pull_model(s.mesh, corner), ..s })
            } else {
                Option::None
            },
            Command::Color(color) => Option::Some(
                EditState {
                    mesh: MeshModel {
                        colors: s.mesh.colors.update(s.mesh.indices[corner], color),
                        ..s.mesh
                    },
                    ..s
                },
            ),
        }
    }
}

impl Command {
    /// Applies this command against the live mesh and selection stack. On
    /// any precondition violation the state is left untouched and the
    /// violation is reported; this matches `apply_model` exactly.
    pub fn call(&self, mesh: &mut DynamicMesh, selections: &mut Vec<usize>) -> (r: Result<
        (),
        EditError,
    >)
        requires
            old(mesh).wf(),
        ensures
            final(mesh).wf(),
            ({
                let s0 = EditState { mesh: old(mesh)@, selections: as_ints(old(selections)@) };
                let post = apply_model(s0, *self);
                &&& (r is Ok <==> post is Some)
                &&& (r is Ok ==> final(mesh)@ == post->0.mesh && as_ints(final(selections)@)
                    == post->0.selections)
                &&& (r is Err ==> final(mesh)@ == old(mesh)@ && final(selections)@ == old(
                    selections,
                )@)
            }),
            old(selections)@.len() == 0 ==> r == Err::<(), EditError>(EditError::EmptySelection),
    {
        let ghost s0 = EditState { mesh: old(mesh)@, selections: as_ints(old(selections)@) };
        if selections.len() == 0 {
            return Err(EditError::EmptySelection);
        }
        let selection = selections[selections.len() - 1];
        proof {
            assert(selection as int == s0.selections.last());
        }
        let meta_index = match mesh.get_meta_index(selection) {
            Ok(c) => c,
            Err(e) => { return Err(e) },
        };
        proof {
            assert(apply_guard(s0));
            assert(meta_index as int == selected_corner(s0));
            assert(meta_index < mesh.indices@.len());
        }
        match self {
            Command::PushSelection => {
                selections.push(selection);
                proof {
                    assert(as_ints(selections@) =~= s0.selections.push(selection as int));
                }
                Ok(())
            },
            Command::PopSelection => {
                let _ = selections.pop();
                proof {
                    assert(as_ints(selections@) =~= s0.selections.drop_last());
                }
                Ok(())
            },
            Command::MoveFaceSelection => {
                match mesh.traverse_connection(selection) {
                    Ok(()) => Ok(()),
                    Err(e) => Err(e),
                }
            },
            Command::MoveEdgeSelection => {
                let len = mesh.indices.len();
                proof {
                    assert(meta_index < len);
                    assert(meta_index as int - meta_index as int % 3 + 2 < len as int);
                }
                let (start, offset) = decompose_meta_index(meta_index);
                let next = start + (offset + 1) % 3;
                proof {
                    assert(next as int == next_in_face(meta_index as int));
                }
                match mesh.rebind_handle(selection, next) {
                    Ok(()) => Ok(()),
                    Err(e) => Err(e),
                }
            },
            Command::Translate(delta) => {
                let v = mesh.indices[meta_index];
                proof {
                    assert(v as int == s0.mesh.indices[meta_index as int]);
                    assert((v as int) < s0.mesh.positions.len());
                }
                let p = mesh.positions[v];
                let np = match checked_vec3_add(p, *delta) {
                    Some(np) => np,
                    None => { return Err(EditError::PositionOverflow) },
                };
                match mesh.modify_vertex(selection, np) {
                    Ok(()) => Ok(()),
                    Err(e) => Err(e),
                }
            },
            Command::Split(amount) => {
                let amount = *amount;
                if amount > RATIO_ONE {
                    return Err(EditError::RatioOutOfRange);
                }
                match apply_split(mesh, selection, amount) {
                    Ok(()) => Ok(()),
                    Err(e) => Err(e),
                }
            },
            Command::Pull => {
                match apply_pull(mesh, selection) {
                    Ok(()) => Ok(()),
                    Err(e) => Err(e),
                }
            },
            Command::Color(color) => {
                let v = mesh.indices[meta_index];
                proof {
                    assert(v as int == s0.mesh.indices[meta_index as int]);
                    assert((v as int) < s0.mesh.colors.len());
                }
                mesh.colors.set(v, *color);
                proof {
                    assert(mesh@.colors =~= s0.mesh.colors.update(
                        s0.mesh.indices[selected_corner(s0)],
                        *color,
                    ));
                    assert(mesh@.wf());
                }
                Ok(())
            },
        }
    }
}

/// Applies a split at the corner the handle is bound to. The caller has
/// already validated the handle and the ratio.
fn apply_split(mesh: &mut DynamicMesh, selection: usize, amount: u32) -> (r: Result<
    (),
    EditError,
>)
    requires
        old(mesh).wf(),
        selection < old(mesh)@.handles.len(),
        amount <= RATIO_ONE,
    ensures
        final(mesh).wf(),
        r is Ok <==> old(mesh)@.indices.len() + 6 <= usize::MAX && add_vertex_ok(old(mesh)@),
        r is Ok ==> final(mesh)@ == split_model(
            old(mesh)@,
            old(mesh)@.handles[selection as int],
            amount as int,
        ),
        r is Err ==> final(mesh)@ == old(mesh)@ && r->Err_0 == EditError::CapacityExceeded,
{
    let num_indices = mesh.indices.len();
    if num_indices > usize::MAX - 6 {
        return Err(EditError::CapacityExceeded);
    }
    if mesh.vertex_count % BLOCK_SIZE == 0 && mesh.positions.len() > usize::MAX - BLOCK_SIZE {
        return Err(EditError::CapacityExceeded);
    }
    let ghost m0 = mesh@;
    let meta_index = mesh.handle_table[selection];
    proof {
        assert(meta_index as int == m0.handles[selection as int]);
        assert(meta_index < num_indices);
        assert(meta_index as int - meta_index as int % 3 + 2 < num_indices as int);
    }
    let (start_a, offset_a) = decompose_meta_index(meta_index);
    let pm = mesh.connections[meta_index];
    proof {
        assert(pm as int == m0.connections[meta_index as int]);
        assert(pm < num_indices);
        assert(pm as int - pm as int % 3 + 2 < num_indices as int);
    }
    let (start_b, offset_b) = decompose_meta_index(pm);
    let a1 = start_a + (offset_a + 1) % 3;
    let a2 = start_a + (offset_a + 2) % 3;
    let b1 = start_b + (offset_b + 1) % 3;
    let b2 = start_b + (offset_b + 2) % 3;
    let va = mesh.indices[meta_index];
    let vb = mesh.indices[pm];
    proof {
        assert(va as int == m0.indices[meta_index as int]);
        assert(vb as int == m0.indices[pm as int]);
        assert((va as int) < m0.positions.len());
        assert((vb as int) < m0.positions.len());
    }
    let first = mesh.positions[va];
    let second = mesh.positions[vb];
    let new_position = lerp_vec3(first, second, amount);
    let new_index = match mesh.add_vertex(new_position) {
        Ok(i) => i,
        Err(e) => { return Err(e) },
    };
    let ghost m1 = add_vertex_model(m0, lerp_vec3_spec(first, second, amount as int));
    proof {
        assert(mesh@ == m1);
        assert(new_index as int == m0.vertex_count);
    }
    let iv_a1 = mesh.indices[a1];
    let iv_a2 = mesh.indices[a2];
    let iv_b1 = mesh.indices[b1];
    let iv_b2 = mesh.indices[b2];
    let cv_a1 = mesh.connections[a1];
    let cv_b1 = mesh.connections[b1];
    let face_indices = [new_index, iv_a1, iv_a2, new_index, iv_b1, iv_b2];
    let face_connections = [pm, cv_a1, a1, meta_index, cv_b1, b1];
    let ghost fidx = seq![
        m0.vertex_count,
        m0.indices[a1 as int],
        m0.indices[a2 as int],
        m0.vertex_count,
        m0.indices[b1 as int],
        m0.indices[b2 as int],
    ];
    let ghost fconn = seq![
        pm as int,
        m0.connections[a1 as int],
        a1 as int,
        meta_index as int,
        m0.connections[b1 as int],
        b1 as int,
    ];
    proof {
        assert(as_ints(face_indices@) =~= fidx);
        assert(as_ints(face_connections@) =~= fconn);
        assert forall|j: int|
            0 <= j < 6 implies (#[trigger] face_indices@[j] as int) < mesh@.vertex_count by {
            assert(m1.vertex_count == m0.vertex_count + 1);
        }
        assert forall|j: int, k: int|
            #![trigger face_indices@[j], mesh@.deleted[k]]
            0 <= j < 6 && 0 <= k < mesh@.deleted.len() implies face_indices@[j] as int
                != mesh@.deleted[k] by {
            assert(mesh@.deleted[k] == m0.deleted[k]);
            assert(m0.deleted[k] < m0.vertex_count);
        }
    }
    match mesh.add_faces(face_indices, face_connections) {
        Ok(()) => {},
        Err(e) => { return Err(e) },
    }
    let ghost m2 = add_faces_model(m1, fidx, fconn);
    proof {
        assert(mesh@ == m2);
        assert((a1 as int) < m2.indices.len());
        assert(a1 < mesh.indices@.len());
        assert(b1 < mesh.indices@.len());
    }
    let ghost before_a = mesh.indices@;
    mesh.indices.set(a1, new_index);
    proof {
        assert(as_ints(mesh.indices@) =~= m2.indices.update(a1 as int, m0.vertex_count));
    }
    let ghost before_b = mesh.indices@;
    mesh.indices.set(b1, new_index);
    proof {
        assert(as_ints(mesh.indices@) =~= m2.indices.update(a1 as int, m0.vertex_count).update(
            b1 as int,
            m0.vertex_count,
        ));
        assert(final(mesh)@ == split_model(m0, meta_index as int, amount as int));
        let fm = final(mesh)@;
        assert forall|c: int|
            0 <= c < fm.indices.len() implies 0 <= #[trigger] fm.indices[c]
                < fm.vertex_count by {
            if c != a1 as int && c != b1 as int {
                assert(fm.indices[c] == m2.indices[c]);
            }
        }
        assert forall|c: int, k: int|
            #![trigger fm.indices[c], fm.deleted[k]]
            0 <= c < fm.indices.len() && 0 <= k < fm.deleted.len() implies fm.indices[c]
                != fm.deleted[k] by {
            if c != a1 as int && c != b1 as int {
                assert(fm.indices[c] == m2.indices[c]);
            } else {
                assert(fm.deleted[k] == m0.deleted[k]);
                assert(m0.deleted[k] < m0.vertex_count);
            }
        }
        assert(fm.wf());
    }
    Ok(())
}

/// Applies an extrusion at the corner the handle is bound to. The caller
/// has already validated the handle.
fn apply_pull(mesh: &mut DynamicMesh, selection: usize) -> (r: Result<(), EditError>)
    requires
        old(mesh).wf(),
        selection < old(mesh)@.handles.len(),
    ensures
        final(mesh).wf(),
        r is Ok <==> old(mesh)@.indices.len() + 6 <= usize::MAX && add_vertex_ok(old(mesh)@),
        r is Ok ==> final(mesh)@ == pull_model(
            old(mesh)@,
            old(mesh)@.handles[selection as int],
        ),
        r is Err ==> final(mesh)@ == old(mesh)@ && r->Err_0 == EditError::CapacityExceeded,
{
    let num_indices = mesh.indices.len();
    if num_indices > usize::MAX - 6 {
        return Err(EditError::CapacityExceeded);
    }
    if mesh.vertex_count % BLOCK_SIZE == 0 && mesh.positions.len() > usize::MAX - BLOCK_SIZE {
        return Err(EditError::CapacityExceeded);
    }
    let ghost m0 = mesh@;
    let meta_index = mesh.handle_table[selection];
    proof {
        assert(meta_index as int == m0.handles[selection as int]);
        assert(meta_index < num_indices);
        assert(meta_index as int - meta_index as int % 3 + 2 < num_indices as int);
    }
    let old_index = mesh.indices[meta_index];
    proof {
        assert(old_index as int == m0.indices[meta_index as int]);
        assert((old_index as int) < m0.positions.len());
    }
    let p = mesh.positions[old_index];
    let new_index = match mesh.add_vertex(p) {
        Ok(i) => i,
        Err(e) => { return Err(e) },
    };
    let ghost m1 = add_vertex_model(m0, m0.positions[old_index as int]);
    proof {
        assert(mesh@ == m1);
        assert(new_index as int == m0.vertex_count);
        assert(meta_index < mesh.indices@.len());
    }
    mesh.indices.set(meta_index, new_index);
    let ghost m2 = MeshModel { indices: m1.indices.update(meta_index as int, m0.vertex_count), ..m1 };
    proof {
        assert(as_ints(mesh.indices@) =~= m2.indices);
        assert(mesh@ == m2);
        let fm2 = mesh@;
        assert forall|c: int|
            0 <= c < fm2.indices.len() implies 0 <= #[trigger] fm2.indices[c]
                < fm2.vertex_count by {
            if c != meta_index as int {
                assert(fm2.indices[c] == m0.indices[c]);
            }
        }
        assert forall|c: int, k: int|
            #![trigger fm2.indices[c], fm2.deleted[k]]
            0 <= c < fm2.indices.len() && 0 <= k < fm2.deleted.len() implies fm2.indices[c]
                != fm2.deleted[k] by {
            assert(fm2.deleted[k] == m0.deleted[k]);
            assert(m0.deleted[k] < m0.vertex_count);
            if c != meta_index as int {
                assert(fm2.indices[c] == m0.indices[c]);
            }
        }
        assert(mesh@.wf());
    }
    let (start, offset) = decompose_meta_index(meta_index);
    let a1 = start + (offset + 1) % 3;
    let a2 = start + (offset + 2) % 3;
    let iv_a1 = mesh.indices[a1];
    let iv_a2 = mesh.indices[a2];
    let cv_a2 = mesh.connections[a2];
    let cv_m = mesh.connections[meta_index];
    proof {
        assert(a1 as int != meta_index as int && a2 as int != meta_index as int);
        assert(iv_a1 as int == m0.indices[a1 as int]);
        assert(iv_a2 as int == m0.indices[a2 as int]);
        assert(cv_a2 as int == m0.connections[a2 as int]);
        assert(cv_m as int == m0.connections[meta_index as int]);
    }
    let face_indices = [old_index, new_index, iv_a2, new_index, old_index, iv_a1];
    let face_connections = [num_indices + 3, a2, cv_a2, num_indices, cv_m, meta_index];
    let ghost fidx = seq![
        m0.indices[meta_index as int],
        m0.vertex_count,
        m0.indices[a2 as int],
        m0.vertex_count,
        m0.indices[meta_index as int],
        m0.indices[a1 as int],
    ];
    let ghost fconn = seq![
        m0.indices.len() as int + 3,
        a2 as int,
        m0.connections[a2 as int],
        m0.indices.len() as int,
        m0.connections[meta_index as int],
        meta_index as int,
    ];
    proof {
        assert(as_ints(face_indices@) =~= fidx);
        assert(as_ints(face_connections@) =~= fconn);
        assert forall|j: int|
            0 <= j < 6 implies (#[trigger] face_indices@[j] as int) < mesh@.vertex_count by {
            assert(mesh@.vertex_count == m0.vertex_count + 1);
        }
        assert forall|j: int, k: int|
            #![trigger face_indices@[j], mesh@.deleted[k]]
            0 <= j < 6 && 0 <= k < mesh@.deleted.len() implies face_indices@[j] as int
                != mesh@.deleted[k] by {
            assert(mesh@.deleted[k] == m0.deleted[k]);
            assert(m0.deleted[k] < m0.vertex_count);
            assert(m0.indices[meta_index as int] != m0.deleted[k]);
            assert(m0.indices[a1 as int] != m0.deleted[k]);
            assert(m0.indices[a2 as int] != m0.deleted[k]);
        }
    }
    match mesh.add_faces(face_indices, face_connections) {
        Ok(()) => {},
        Err(e) => { return Err(e) },
    }
    proof {
        assert(mesh@ == add_faces_model(m2, fidx, fconn));
        assert(final(mesh)@ == pull_model(m0, meta_index as int));
    }
    Ok(())
}

/// One entry of the command log: a never-reused key and its command.
#[derive(Clone, Copy, Debug, PartialEq, Eq, Structural)]
pub struct LogEntry {
    pub key: u64,
    pub command: Command,
}

/// The mathematical state of an interpreter: the editing state, the keyed
/// log, and the next key to assign.
pub ghost struct InterpModel {
    pub mesh: MeshModel,
    pub selections: Seq<int>,
    pub log: Seq<LogEntry>,
    pub next_key: int,
}

impl InterpModel {
    /// The part of the state that commands act on.
    pub open spec fn edit_state(self) -> EditState {
        EditState { mesh: self.mesh, selections: self.selections }
    }

    /// Well-formedness: the editing state is well-formed, log keys strictly
    /// increase in log order (so keys are unique), and every key was
    /// assigned below the counter.
    pub open spec fn wf(self) -> bool {
        &&& self.edit_state().wf()
        &&& adjacency_ok(self.mesh)
        &&& faces_nondegenerate(self.mesh)
        &&& rings_follow_vertex(self.mesh)
        &&& forall|i: int, j: int|
            #![trigger self.log[i], self.log[j]]
            0 <= i < j < self.log.len() ==> self.log[i].key < self.log[j].key
        &&& forall|i: int| 0 <= i < self.log.len() ==> (#[trigger] self.log[i].key as int) < self.next_key
        &&& 0 <= self.next_key <= u64::MAX
    }
}

/// The state a fresh session starts in, and the state every replay restarts
/// from: the seed mesh with one handle bound to corner 0, selected.
pub open spec fn initial_state() -> EditState {
    EditState {
        mesh: MeshModel { handles: seq![0], ..seed_mesh() },
        selections: seq![0],
    }
}

/// The commands of a log, in log order.
pub open spec fn commands_of(log: Seq<LogEntry>) -> Seq<Command> {
    log.map_values(|e: LogEntry| e.command)
}

/// Replays a command sequence from `s`: commands apply in order; the first
/// failing command stops the replay, leaving the state it found. Returns the
/// final state and whether every command applied.
pub open spec fn run_model(s: EditState, cmds: Seq<Command>) -> (EditState, bool)
    decreases cmds.len(),
{
    if cmds.len() == 0 {
        (s, true)
    } else {
        match apply_model(s, cmds[0]) {
            Option::Some(s2) => run_model(s2, cmds.drop_first()),
            Option::None => (s, false),
        }
    }
}

/// Full replay of a log from the seed state.
pub open spec fn replay_model(log: Seq<LogEntry>) -> (EditState, bool) {
    run_model(initial_state(), commands_of(log))
}

/// The log without the entries keyed `key`, in unchanged order.
pub open spec fn remove_key_model(log: Seq<LogEntry>, key: u64) -> Seq<LogEntry>
    decreases log.len(),
{
    if log.len() == 0 {
        Seq::empty()
    } else {
        let rest = remove_key_model(log.drop_first(), key);
        if log[0].key == key {
            rest
        } else {
            seq![log[0]] + rest
        }
    }
}

/// Whether some log entry carries `key`.
pub open spec fn log_has_key(log: Seq<LogEntry>, key: u64) -> bool {
    exists|i: int| 0 <= i < log.len() && #[trigger] log[i].key == key
}

/// The position of the entry keyed `key` (unique when keys are unique).
pub open spec fn key_position(log: Seq<LogEntry>, key: u64) -> int {
    choose|i: int| 0 <= i < log.len() && #[trigger] log[i].key == key
}

/// Recording one command: it must apply, and a fresh key must be available;
/// the applied command is appended to the log under that key.
pub open spec fn record_model(im: InterpModel, cmd: Command) -> Option<InterpModel> {
    if im.next_key == u64::MAX as int {
        Option::None
    } else {
        match apply_model(im.edit_state(), cmd) {
            Option::None => Option::None,
            Option::Some(s2) => Option::Some(
                InterpModel {
                    mesh: s2.mesh,
                    selections: s2.selections,
                    log: im.log.push(LogEntry { key: im.next_key as u64, command: cmd }),
                    next_key: im.next_key + 1,
                },
            ),
        }
    }
}

/// Recording a batch of commands, stopping at the first failure.
#[verifier::opaque]
pub open spec fn load_model(im: InterpModel, cmds: Seq<Command>) -> (InterpModel, bool)
    decreases cmds.len(),
{
    if cmds.len() == 0 {
        (im, true)
    } else {
        match record_model(im, cmds[0]) {
            Option::None => (im, false),
            Option::Some(im2) => load_model(im2, cmds.drop_first()),
        }
    }
}

/// Pointwise description of `patch_connections` when the patched targets
/// are pairwise distinct: each new entry naming an old corner rewires that
/// corner to point back at the new one; everything else is untouched.
#[verifier::rlimit(100)]
proof fn lemma_patch_pointwise(
    conn0: Seq<int>,
    f0: int,
    f1: int,
    f2: int,
    f3: int,
    f4: int,
    f5: int,
    base: int,
)
    requires
        0 <= base,
        conn0.len() == base + 6,
        conn0[base + 0] == f0,
        conn0[base + 1] == f1,
        conn0[base + 2] == f2,
        conn0[base + 3] == f3,
        conn0[base + 4] == f4,
        conn0[base + 5] == f5,
        0 <= f0 < base && 0 <= f1 < base ==> f0 != f1,
        0 <= f0 < base && 0 <= f2 < base ==> f0 != f2,
        0 <= f0 < base && 0 <= f3 < base ==> f0 != f3,
        0 <= f0 < base && 0 <= f4 < base ==> f0 != f4,
        0 <= f0 < base && 0 <= f5 < base ==> f0 != f5,
        0 <= f1 < base && 0 <= f2 < base ==> f1 != f2,
        0 <= f1 < base && 0 <= f3 < base ==> f1 != f3,
        0 <= f1 < base && 0 <= f4 < base ==> f1 != f4,
        0 <= f1 < base && 0 <= f5 < base ==> f1 != f5,
        0 <= f2 < base && 0 <= f3 < base ==> f2 != f3,
        0 <= f2 < base && 0 <= f4 < base ==> f2 != f4,
        0 <= f2 < base && 0 <= f5 < base ==> f2 != f5,
        0 <= f3 < base && 0 <= f4 < base ==> f3 != f4,
        0 <= f3 < base && 0 <= f5 < base ==> f3 != f5,
        0 <= f4 < base && 0 <= f5 < base ==> f4 != f5,
    ensures
        ({
            let fresh = seq![f0, f1, f2, f3, f4, f5];
            let r = patch_connections(conn0, fresh, base, 0);
            &&& r.len() == base + 6
            &&& (0 <= f0 < base ==> r[f0] == base + 0)
            &&& (0 <= f1 < base ==> r[f1] == base + 1)
            &&& (0 <= f2 < base ==> r[f2] == base + 2)
            &&& (0 <= f3 < base ==> r[f3] == base + 3)
            &&& (0 <= f4 < base ==> r[f4] == base + 4)
            &&& (0 <= f5 < base ==> r[f5] == base + 5)
            &&& r[base + 0] == f0
            &&& r[base + 1] == f1
            &&& r[base + 2] == f2
            &&& r[base + 3] == f3
            &&& r[base + 4] == f4
            &&& r[base + 5] == f5
            &&& forall|c: int|
                0 <= c < base && c != f0 && c != f1 && c != f2 && c != f3 && c != f4 && c != f5
                    ==> #[trigger] r[c] == conn0[c]
        }),
{
    let fresh = seq![f0, f1, f2, f3, f4, f5];
    assert(fresh[0] == f0 && fresh[1] == f1 && fresh[2] == f2 && fresh[3] == f3 && fresh[4] == f4
        && fresh[5] == f5);
    let t0 = conn0;
    let t1 = if 0 <= f0 < base {
        t0.update(f0, base + 0)
    } else {
        t0
    };
    let t2 = if 0 <= f1 < base {
        t1.update(f1, base + 1)
    } else {
        t1
    };
    let t3 = if 0 <= f2 < base {
        t2.update(f2, base + 2)
    } else {
        t2
    };
    let t4 = if 0 <= f3 < base {
        t3.update(f3, base + 3)
    } else {
        t3
    };
    let t5 = if 0 <= f4 < base {
        t4.update(f4, base + 4)
    } else {
        t4
    };
    let t6 = if 0 <= f5 < base {
        t5.update(f5, base + 5)
    } else {
        t5
    };
    assert(patch_connections(conn0, fresh, base, 0) == patch_connections(t1, fresh, base, 1));
    assert(patch_connections(t1, fresh, base, 1) == patch_connections(t2, fresh, base, 2));
    assert(patch_connections(t2, fresh, base, 2) == patch_connections(t3, fresh, base, 3));
    assert(patch_connections(t3, fresh, base, 3) == patch_connections(t4, fresh, base, 4));
    assert(patch_connections(t4, fresh, base, 4) == patch_connections(t5, fresh, base, 5));
    assert(patch_connections(t5, fresh, base, 5) == patch_connections(t6, fresh, base, 6));
    assert(patch_connections(t6, fresh, base, 6) == t6);
}

/// Splitting an edge preserves the adjacency invariant: the six rewired
/// connections pair the two original faces with the two new faces edge for
/// edge, and symmetry, face-crossing and neighbor-distinctness all survive.
#[verifier::rlimit(100)]
pub proof fn lemma_split_preserves_adjacency(m: MeshModel, corner: int, amount: int)
    requires
        m.wf(),
        adjacency_ok(m),
        0 <= corner < m.connections.len(),
    ensures
        adjacency_ok(split_model(m, corner, amount)),
        split_model(m, corner, amount).connections.len() == m.connections.len() + 6,
        ({
            let conn = m.connections;
            let L = conn.len() as int;
            let pm = conn[corner];
            let a1 = next_in_face(corner);
            let b1 = next_in_face(pm);
            let cf = split_model(m, corner, amount).connections;
            &&& cf[corner] == L + 3 && cf[L + 3] == corner
            &&& cf[pm] == L && cf[L] == pm
            &&& cf[a1] == L + 2 && cf[L + 2] == a1
            &&& cf[b1] == L + 5 && cf[L + 5] == b1
            &&& cf[conn[a1]] == L + 1 && cf[L + 1] == conn[a1]
            &&& cf[conn[b1]] == L + 4 && cf[L + 4] == conn[b1]
            &&& forall|c: int|
                0 <= c < L && c != corner && c != pm && c != a1 && c != conn[a1] && c != b1
                    && c != conn[b1] ==> #[trigger] cf[c] == conn[c]
        }),
{
    let conn = m.connections;
    let L = conn.len() as int;
    let start_a = face_start(corner);
    let offset_a = corner % 3;
    let pm = conn[corner];
    let start_b = face_start(pm);
    let offset_b = pm % 3;
    let a1 = start_a + (offset_a + 1) % 3;
    let b1 = start_b + (offset_b + 1) % 3;
    let pa1 = conn[a1];
    let pb1 = conn[b1];
    let m2 = split_model(m, corner, amount);
    let cf = m2.connections;

    assert(L % 3 == 0);
    assert(0 <= pm < L);
    assert(start_a % 3 == 0 && start_a <= corner < L);
    assert(start_a + 2 < L);
    assert(start_b % 3 == 0 && start_b + 2 < L);
    assert(0 <= a1 < L && face_start(a1) == start_a && a1 != corner);
    assert(0 <= b1 < L && face_start(b1) == start_b && b1 != pm);
    assert(0 <= pa1 < L && 0 <= pb1 < L);

    // faces of the six corners, pairwise relations
    assert(start_b != start_a);  // connections cross faces at `corner`
    assert(face_start(pa1) != start_a);  // cross at a1
    assert(face_start(pa1) != start_b);  // distinct neighbors of face A at corner and a1
    assert(face_start(pb1) != start_b);  // cross at b1
    assert(conn[pm] == corner);  // symmetry
    assert(face_start(conn[pm]) == start_a);
    assert(face_start(pb1) != start_a);  // distinct neighbors of face B at pm and b1
    assert(pa1 != pb1) by {
        if pa1 == pb1 {
            assert(conn[pa1] == a1 && conn[pb1] == b1);
        }
    }

    // the patch: new connections are conn + fconn with six back-patches
    let fconn = seq![pm, pa1, a1, corner, pb1, b1];
    let conn0 = conn + fconn;
    assert(split_model(m, corner, amount).connections == patch_connections(conn0, fconn, L, 0));
    assert(conn0[L + 0] == pm && conn0[L + 1] == pa1 && conn0[L + 2] == a1 && conn0[L + 3]
        == corner && conn0[L + 4] == pb1 && conn0[L + 5] == b1);
    lemma_patch_pointwise(conn0, pm, pa1, a1, corner, pb1, b1, L);
    assert(cf.len() == L + 6);
    assert(cf[L + 0] == pm && cf[L + 1] == pa1 && cf[L + 2] == a1 && cf[L + 3] == corner && cf[L
        + 4] == pb1 && cf[L + 5] == b1);
    assert(cf[pm] == L + 0 && cf[pa1] == L + 1 && cf[a1] == L + 2 && cf[corner] == L + 3
        && cf[pb1] == L + 4 && cf[b1] == L + 5);
    assert forall|c: int|
        0 <= c < L && c != pm && c != pa1 && c != a1 && c != corner && c != pb1 && c != b1
        implies #[trigger] cf[c] == conn[c] by {
        assert(cf[c] == conn0[c]);
        assert(conn0[c] == conn[c]);
    }

    assert(face_start(L + 0) == L && face_start(L + 1) == L && face_start(L + 2) == L
        && face_start(L + 3) == L + 3 && face_start(L + 4) == L + 3 && face_start(L + 5) == L
        + 3);

    // symmetry
    assert forall|c: int| 0 <= c < cf.len() implies cf[#[trigger] cf[c]] == c by {
        if c >= L {
        } else if c == pm || c == pa1 || c == a1 || c == corner || c == pb1 || c == b1 {
        } else {
            assert(cf[c] == conn[c]);
            assert(conn[conn[c]] == c);
            if conn[c] == pm {
                assert(c == corner);
                assert(false);
            }
            if conn[c] == corner {
                assert(conn[conn[c]] == conn[corner]);
                assert(c == pm);
                assert(false);
            }
            if conn[c] == pa1 {
                assert(conn[pa1] == a1);
                assert(c == a1);
                assert(false);
            }
            if conn[c] == a1 {
                assert(c == conn[a1]);
                assert(false);
            }
            if conn[c] == pb1 {
                assert(conn[pb1] == b1);
                assert(c == b1);
                assert(false);
            }
            if conn[c] == b1 {
                assert(c == conn[b1]);
                assert(false);
            }
            assert(cf[conn[c]] == conn[conn[c]]);
        }
    }

    // connections always cross into another face
    assert forall|c: int| 0 <= c < cf.len() implies face_start(#[trigger] cf[c]) != face_start(
        c,
    ) by {
        if c >= L {
            assert(face_start(cf[c]) <= cf[c] < L);
            assert(face_start(c) >= L);
        } else if c == pm || c == pa1 || c == a1 || c == corner || c == pb1 || c == b1 {
            assert(cf[c] >= L);
            assert(face_start(cf[c]) >= L);
            assert(face_start(c) <= c < L);
        } else {
            assert(cf[c] == conn[c]);
        }
    }

    // three distinct neighboring faces per face
    assert forall|c: int, d: int|
        #![trigger cf[c], cf[d]]
        0 <= c < cf.len() && 0 <= d < cf.len() && c != d && face_start(c) == face_start(d)
        implies face_start(cf[c]) != face_start(cf[d]) by {
        if c >= L || d >= L {
            assert(c >= L && d >= L);
        } else {
            let c_in = c == pm || c == pa1 || c == a1 || c == corner || c == pb1 || c == b1;
            let d_in = d == pm || d == pa1 || d == a1 || d == corner || d == pb1 || d == b1;
            if c_in && d_in {
                assert(face_start(L + 0) != face_start(L + 3));
            } else if c_in {
                assert(cf[c] >= L && face_start(cf[c]) >= L);
                assert(cf[d] == conn[d] && face_start(cf[d]) < L);
            } else if d_in {
                assert(cf[d] >= L && face_start(cf[d]) >= L);
                assert(cf[c] == conn[c] && face_start(cf[c]) < L);
            } else {
                assert(cf[c] == conn[c] && cf[d] == conn[d]);
            }
        }
    }
}

/// Extruding preserves the adjacency invariant: the two side faces wire to
/// each other along the extruded edge, to the original face, and to the two
/// faces that previously neighbored it across the reused edges.
#[verifier::rlimit(100)]
pub proof fn lemma_pull_preserves_adjacency(m: MeshModel, corner: int)
    requires
        m.wf(),
        adjacency_ok(m),
        0 <= corner < m.connections.len(),
    ensures
        adjacency_ok(pull_model(m, corner)),
        pull_model(m, corner).connections.len() == m.connections.len() + 6,
        ({
            let conn = m.connections;
            let L = conn.len() as int;
            let pm = conn[corner];
            let a2 = next_in_face(next_in_face(corner));
            let pa2 = conn[a2];
            let cf = pull_model(m, corner).connections;
            &&& cf[L + 0] == L + 3 && cf[L + 3] == L
            &&& cf[a2] == L + 1 && cf[L + 1] == a2
            &&& cf[pa2] == L + 2 && cf[L + 2] == pa2
            &&& cf[pm] == L + 4 && cf[L + 4] == pm
            &&& cf[corner] == L + 5 && cf[L + 5] == corner
            &&& forall|c: int|
                0 <= c < L && c != corner && c != pm && c != a2 && c != pa2
                    ==> #[trigger] cf[c] == conn[c]
        }),
{
    let conn = m.connections;
    let L = conn.len() as int;
    let start = face_start(corner);
    let offset = corner % 3;
    let pm = conn[corner];
    let a2 = start + (offset + 2) % 3;
    let pa2 = conn[a2];
    let m2 = pull_model(m, corner);
    let cf = m2.connections;

    assert(a2 == next_in_face(next_in_face(corner)));
    assert(L % 3 == 0);
    assert(0 <= pm < L);
    assert(start % 3 == 0 && start <= corner < L);
    assert(start + 2 < L);
    assert(0 <= a2 < L && face_start(a2) == start && a2 != corner);
    assert(0 <= pa2 < L);
    assert(face_start(pm) != start);  // cross at corner
    assert(face_start(pa2) != start);  // cross at a2
    assert(face_start(pm) != face_start(pa2));  // distinct neighbors of the face
    assert(conn[pm] == corner && conn[pa2] == a2);  // symmetry
    assert(pm != pa2) by {
        if pm == pa2 {
            assert(conn[pm] == conn[pa2]);
        }
    }

    let fconn = seq![L + 3, a2, pa2, L, pm, corner];
    let conn0 = conn + fconn;
    assert(pull_model(m, corner).connections == patch_connections(conn0, fconn, L, 0));
    assert(conn0[L + 0] == L + 3 && conn0[L + 1] == a2 && conn0[L + 2] == pa2 && conn0[L + 3] == L
        && conn0[L + 4] == pm && conn0[L + 5] == corner);
    lemma_patch_pointwise(conn0, L + 3, a2, pa2, L, pm, corner, L);
    assert(cf.len() == L + 6);
    assert(cf[L + 0] == L + 3 && cf[L + 1] == a2 && cf[L + 2] == pa2 && cf[L + 3] == L && cf[L
        + 4] == pm && cf[L + 5] == corner);
    assert(cf[a2] == L + 1 && cf[pa2] == L + 2 && cf[pm] == L + 4 && cf[corner] == L + 5);
    assert forall|c: int|
        0 <= c < L && c != a2 && c != pa2 && c != pm && c != corner implies #[trigger] cf[c]
        == conn[c] by {
        assert(cf[c] == conn0[c]);
        assert(conn0[c] == conn[c]);
    }

    assert(face_start(L + 0) == L && face_start(L + 1) == L && face_start(L + 2) == L
        && face_start(L + 3) == L + 3 && face_start(L + 4) == L + 3 && face_start(L + 5) == L
        + 3);

    // symmetry
    assert forall|c: int| 0 <= c < cf.len() implies cf[#[trigger] cf[c]] == c by {
        if c >= L {
        } else if c == a2 || c == pa2 || c == pm || c == corner {
        } else {
            assert(cf[c] == conn[c]);
            assert(conn[conn[c]] == c);
            if conn[c] == pm {
                assert(c == corner);
                assert(false);
            }
            if conn[c] == corner {
                assert(conn[conn[c]] == conn[corner]);
                assert(c == pm);
                assert(false);
            }
            if conn[c] == pa2 {
                assert(c == a2);
                assert(false);
            }
            if conn[c] == a2 {
                assert(c == conn[a2]);
                assert(false);
            }
            assert(cf[conn[c]] == conn[conn[c]]);
        }
    }

    // connections always cross into another face
    assert forall|c: int| 0 <= c < cf.len() implies face_start(#[trigger] cf[c]) != face_start(
        c,
    ) by {
        if c == L + 0 || c == L + 3 {
            assert(face_start(L + 3) == L + 3 && face_start(L) == L);
        } else if c >= L {
            assert(face_start(cf[c]) <= cf[c] < L);
            assert(face_start(c) >= L);
        } else if c == a2 || c == pa2 || c == pm || c == corner {
            assert(cf[c] >= L);
            assert(face_start(cf[c]) >= L);
            assert(face_start(c) <= c < L);
        } else {
            assert(cf[c] == conn[c]);
        }
    }

    // three distinct neighboring faces per face
    assert forall|c: int, d: int|
        #![trigger cf[c], cf[d]]
        0 <= c < cf.len() && 0 <= d < cf.len() && c != d && face_start(c) == face_start(d)
        implies face_start(cf[c]) != face_start(cf[d]) by {
        if c >= L || d >= L {
            assert(c >= L && d >= L);
            assert(face_start(L + 3) == L + 3);
        } else {
            let c_in = c == a2 || c == pa2 || c == pm || c == corner;
            let d_in = d == a2 || d == pa2 || d == pm || d == corner;
            if c_in && d_in {
                assert(face_start(L + 1) == L && face_start(L + 5) == L + 3);
            } else if c_in {
                assert(cf[c] >= L && face_start(cf[c]) >= L);
                assert(cf[d] == conn[d] && face_start(cf[d]) < L);
            } else if d_in {
                assert(cf[d] >= L && face_start(cf[d]) >= L);
                assert(cf[c] == conn[c] && face_start(cf[c]) < L);
            } else {
                assert(cf[c] == conn[c] && cf[d] == conn[d]);
            }
        }
    }
}

/// Split adjacency frame: after a split, adjacency is symmetric — in
/// particular the two halves of the split edge pair the original faces with
/// the two new faces — and the original faces' third corners, with their
/// neighbors across the edges the split did not touch, keep their pre-split
/// connections.
#[verifier::rlimit(50)]
pub proof fn lemma_split_adjacency_frame(m: MeshModel, corner: int, amount: int)
    requires
        m.wf(),
        adjacency_ok(m),
        0 <= corner < m.connections.len(),
    ensures
        connections_symmetric(split_model(m, corner, amount).connections),
        ({
            let conn = m.connections;
            let pm = conn[corner];
            let a2 = next_in_face(next_in_face(corner));
            let b2 = next_in_face(next_in_face(pm));
            let cf = split_model(m, corner, amount).connections;
            &&& cf[a2] == conn[a2] && cf[conn[a2]] == conn[conn[a2]]
            &&& cf[b2] == conn[b2] && cf[conn[b2]] == conn[conn[b2]]
        }),
{
    lemma_split_preserves_adjacency(m, corner, amount);
    let conn = m.connections;
    let L = conn.len() as int;
    let start_a = face_start(corner);
    let pm = conn[corner];
    let start_b = face_start(pm);
    let a1 = next_in_face(corner);
    let b1 = next_in_face(pm);
    let a2 = next_in_face(a1);
    let b2 = next_in_face(b1);
    let pa1 = conn[a1];
    let pb1 = conn[b1];
    let pa2 = conn[a2];
    let pb2 = conn[b2];

    assert(L % 3 == 0);
    assert(start_a % 3 == 0 && start_a + 2 < L);
    assert(start_b % 3 == 0 && start_b + 2 < L);
    assert(0 <= a1 < L && face_start(a1) == start_a);
    assert(0 <= a2 < L && face_start(a2) == start_a);
    assert(0 <= b1 < L && face_start(b1) == start_b);
    assert(0 <= b2 < L && face_start(b2) == start_b);
    assert(a2 != corner && a2 != a1 && b2 != pm && b2 != b1);
    assert(start_b != start_a);
    assert(face_start(pa1) != start_a && face_start(pa1) != start_b);
    assert(conn[pm] == corner);
    assert(face_start(conn[pm]) == start_a);
    assert(face_start(pb1) != start_b && face_start(pb1) != start_a);
    assert(face_start(pa2) != start_a);  // cross at a2
    assert(face_start(pa2) != start_b);  // distinct neighbors of face A at corner and a2
    assert(face_start(pb2) != start_b);  // cross at b2
    assert(face_start(pb2) != start_a);  // distinct neighbors of face B at pm and b2
    assert(conn[pa1] == a1 && conn[pb1] == b1 && conn[pa2] == a2 && conn[pb2] == b2);
    assert(pa2 != pa1) by {
        if pa2 == pa1 {
            assert(conn[pa2] == conn[pa1]);
        }
    }
    assert(pa2 != pb1) by {
        if pa2 == pb1 {
            assert(conn[pa2] == conn[pb1]);
        }
    }
    assert(pb2 != pa1) by {
        if pb2 == pa1 {
            assert(conn[pb2] == conn[pa1]);
        }
    }
    assert(pb2 != pb1) by {
        if pb2 == pb1 {
            assert(conn[pb2] == conn[pb1]);
        }
    }
}

/// Splitting keeps every face nondegenerate: the subdivided faces and the
/// two new faces each reference three distinct vertex slots.
#[verifier::rlimit(100)]
proof fn lemma_split_faces_nondegenerate(m: MeshModel, corner: int, amount: int)
    requires
        m.wf(),
        adjacency_ok(m),
        faces_nondegenerate(m),
        0 <= corner < m.connections.len(),
    ensures
        faces_nondegenerate(split_model(m, corner, amount)),
{
    lemma_split_preserves_adjacency(m, corner, amount);
    let conn = m.connections;
    let idx = m.indices;
    let L = conn.len() as int;
    let ni = m.vertex_count;
    let start_a = face_start(corner);
    let pm = conn[corner];
    let start_b = face_start(pm);
    let a1 = next_in_face(corner);
    let a2 = next_in_face(a1);
    let b1 = next_in_face(pm);
    let b2 = next_in_face(b1);
    let pa1 = conn[a1];
    let pb1 = conn[b1];
    let m2 = split_model(m, corner, amount);
    let cf = m2.connections;
    let idxf = m2.indices;

    assert(L % 3 == 0);
    assert(0 <= pm < L);
    assert(start_a % 3 == 0 && start_a + 2 < L);
    assert(start_b % 3 == 0 && start_b + 2 < L);
    assert(0 <= a1 < L && face_start(a1) == start_a);
    assert(0 <= a2 < L && face_start(a2) == start_a);
    assert(0 <= b1 < L && face_start(b1) == start_b);
    assert(0 <= b2 < L && face_start(b2) == start_b);
    assert(next_in_face(a2) == corner);
    assert(next_in_face(b2) == pm);
    assert(start_b != start_a);
    assert(0 <= pa1 < L && 0 <= pb1 < L);
    assert(face_start(pa1) != start_a && face_start(pa1) != start_b);
    assert(conn[pm] == corner);
    assert(face_start(conn[pm]) == start_a);
    assert(face_start(pb1) != start_b && face_start(pb1) != start_a);
    assert(a1 != b1 && a1 != corner && a1 != a2 && b1 != pm && b1 != b2);

    // the new face-corner array, pointwise
    let fidx = seq![ni, idx[a1], idx[a2], ni, idx[b1], idx[b2]];
    assert(idxf == (idx + fidx).update(a1, ni).update(b1, ni));
    assert(idxf.len() == L + 6);
    assert(idxf[a1] == ni && idxf[b1] == ni);
    assert(idxf[L + 0] == ni && idxf[L + 1] == idx[a1] && idxf[L + 2] == idx[a2] && idxf[L + 3]
        == ni && idxf[L + 4] == idx[b1] && idxf[L + 5] == idx[b2]);
    assert forall|c: int| 0 <= c < L && c != a1 && c != b1 implies #[trigger] idxf[c]
        == idx[c] by {
        assert((idx + fidx)[c] == idx[c]);
    }
    assert(idxf[corner] == idx[corner] && idxf[a2] == idx[a2] && idxf[pm] == idx[pm] && idxf[b2]
        == idx[b2]);
    assert(forall|c: int| 0 <= c < L ==> #[trigger] idx[c] < ni);

    // faces stay nondegenerate
    assert forall|c: int, d: int|
        #![trigger idxf[c], idxf[d]]
        0 <= c < idxf.len() && 0 <= d < idxf.len() && c != d && face_start(c) == face_start(d)
        implies idxf[c] != idxf[d] by {
        if c < L && d < L {
            if c == a1 || c == b1 {
                assert(d != a1 && d != b1);
                assert(idxf[d] == idx[d]);
            } else if d == a1 || d == b1 {
                assert(idxf[c] == idx[c]);
            } else {
                assert(idxf[c] == idx[c] && idxf[d] == idx[d]);
            }
        } else if c >= L && d >= L {
            assert(idx[a1] != idx[a2]);
            assert(idx[b1] != idx[b2]);
        } else {
            assert(face_start(c) == face_start(d));
            if c < L {
                assert(face_start(c) <= c < L && face_start(d) >= L);
            } else {
                assert(face_start(d) <= d < L && face_start(c) >= L);
            }
        }
    }

}

/// The ring-following argument for a split's rewiring, over the raw arrays:
/// given the pointwise wiring of the six rewired connections and the new
/// face-corner entries, every step of the tied-vertex walk still lands on a
/// corner referencing the vertex it left.
#[verifier::rlimit(100)]
proof fn lemma_split_rewire_follows_vertex(
    conn: Seq<int>,
    idx: Seq<int>,
    cf: Seq<int>,
    idxf: Seq<int>,
    corner: int,
    ni: int,
)
    requires
        conn.len() == idx.len(),
        conn.len() % 3 == 0,
        0 <= corner < conn.len(),
        forall|c: int| 0 <= c < conn.len() ==> 0 <= #[trigger] conn[c] < conn.len(),
        connections_symmetric(conn),
        forall|c: int| 0 <= c < conn.len() ==> idx[#[trigger] step_corner(conn, c)] == idx[c],
        cf.len() == conn.len() + 6,
        idxf.len() == idx.len() + 6,
        ({
            let L = conn.len() as int;
            let pm = conn[corner];
            let a1 = next_in_face(corner);
            let b1 = next_in_face(pm);
            let pa1 = conn[a1];
            let pb1 = conn[b1];
            &&& face_start(pm) != face_start(corner)
            &&& face_start(pa1) != face_start(corner) && face_start(pa1) != face_start(pm)
            &&& face_start(pb1) != face_start(corner) && face_start(pb1) != face_start(pm)
            &&& cf[corner] == L + 3 && cf[L + 3] == corner
            &&& cf[pm] == L + 0 && cf[L + 0] == pm
            &&& cf[a1] == L + 2 && cf[L + 2] == a1
            &&& cf[b1] == L + 5 && cf[L + 5] == b1
            &&& cf[pa1] == L + 1 && cf[L + 1] == pa1
            &&& cf[pb1] == L + 4 && cf[L + 4] == pb1
            &&& (forall|c: int|
                0 <= c < L && c != corner && c != pm && c != a1 && c != pa1 && c != b1 && c
                    != pb1 ==> #[trigger] cf[c] == conn[c])
            &&& idxf[a1] == ni && idxf[b1] == ni
            &&& idxf[L + 0] == ni && idxf[L + 1] == idx[a1] && idxf[L + 2] == idx[next_in_face(
                a1,
            )] && idxf[L + 3] == ni && idxf[L + 4] == idx[b1] && idxf[L + 5] == idx[next_in_face(
                b1,
            )]
            &&& (forall|c: int|
                0 <= c < L && c != a1 && c != b1 ==> #[trigger] idxf[c] == idx[c])
        }),
    ensures
        forall|c: int| 0 <= c < cf.len() ==> idxf[#[trigger] step_corner(cf, c)] == idxf[c],
{
    let L = conn.len() as int;
    let start_a = face_start(corner);
    let pm = conn[corner];
    let start_b = face_start(pm);
    let a1 = next_in_face(corner);
    let a2 = next_in_face(a1);
    let b1 = next_in_face(pm);
    let b2 = next_in_face(b1);
    let pa1 = conn[a1];
    let pb1 = conn[b1];

    assert(0 <= pm < L);
    assert(start_a % 3 == 0 && start_a + 2 < L);
    assert(start_b % 3 == 0 && start_b + 2 < L);
    assert(0 <= a1 < L && face_start(a1) == start_a);
    assert(0 <= a2 < L && face_start(a2) == start_a);
    assert(0 <= b1 < L && face_start(b1) == start_b);
    assert(0 <= b2 < L && face_start(b2) == start_b);
    assert(next_in_face(a2) == corner);
    assert(next_in_face(b2) == pm);
    assert(start_b != start_a);
    assert(0 <= pa1 < L && 0 <= pb1 < L);
    assert(conn[pm] == corner);
    assert(a1 != b1 && a1 != corner && a1 != a2 && b1 != pm && b1 != b2);
    assert(idxf[corner] == idx[corner] && idxf[a2] == idx[a2] && idxf[pm] == idx[pm] && idxf[b2]
        == idx[b2]);

    assert forall|c: int| 0 <= c < cf.len() implies idxf[#[trigger] step_corner(cf, c)]
        == idxf[c] by {
        if c == corner {
            assert(cf[c] == L + 3);
            assert(step_corner(cf, c) == L + 4);
            assert(step_corner(conn, corner) == b1);
            assert(idx[b1] == idx[corner]);
        } else if c == pm {
            assert(cf[c] == L + 0);
            assert(step_corner(cf, c) == L + 1);
            assert(step_corner(conn, pm) == a1);
            assert(idx[a1] == idx[pm]);
        } else if c == a1 {
            assert(cf[c] == L + 2);
            assert(step_corner(cf, c) == L + 0);
        } else if c == b1 {
            assert(cf[c] == L + 5);
            assert(step_corner(cf, c) == L + 3);
        } else if c == pa1 {
            assert(cf[c] == L + 1);
            assert(step_corner(cf, c) == L + 2);
            assert(step_corner(conn, pa1) == next_in_face(a1));
            assert(idx[a2] == idx[pa1]);
            assert(idxf[pa1] == idx[pa1]);
        } else if c == pb1 {
            assert(cf[c] == L + 4);
            assert(step_corner(cf, c) == L + 5);
            assert(step_corner(conn, pb1) == next_in_face(b1));
            assert(idx[b2] == idx[pb1]);
            assert(idxf[pb1] == idx[pb1]);
        } else if c == L + 0 {
            assert(cf[c] == pm);
            assert(step_corner(cf, c) == b1);
        } else if c == L + 1 {
            assert(cf[c] == pa1);
            let t = next_in_face(pa1);
            assert(step_corner(cf, c) == t);
            assert(face_start(t) == face_start(pa1));
            assert(pa1 - pa1 % 3 + 2 < L);
            assert(0 <= t < L);
            assert(t != a1 && t != b1);
            assert(idxf[t] == idx[t]);
            assert(step_corner(conn, a1) == t);
            assert(idx[t] == idx[a1]);
        } else if c == L + 2 {
            assert(cf[c] == a1);
            assert(step_corner(cf, c) == a2);
            assert(idxf[a2] == idx[a2]);
        } else if c == L + 3 {
            assert(cf[c] == corner);
            assert(step_corner(cf, c) == a1);
        } else if c == L + 4 {
            assert(cf[c] == pb1);
            let t = next_in_face(pb1);
            assert(step_corner(cf, c) == t);
            assert(face_start(t) == face_start(pb1));
            assert(pb1 - pb1 % 3 + 2 < L);
            assert(0 <= t < L);
            assert(t != a1 && t != b1);
            assert(idxf[t] == idx[t]);
            assert(step_corner(conn, b1) == t);
            assert(idx[t] == idx[b1]);
        } else if c == L + 5 {
            assert(cf[c] == b1);
            assert(step_corner(cf, c) == b2);
            assert(idxf[b2] == idx[b2]);
        } else {
            assert(0 <= c < L);
            assert(cf[c] == conn[c]);
            assert(step_corner(cf, c) == step_corner(conn, c));
            let t = step_corner(conn, c);
            assert(0 <= conn[c] < L);
            assert(conn[c] - conn[c] % 3 + 2 < L);
            assert(face_start(t) == face_start(conn[c]));
            assert(0 <= t < L);
            if t == a1 {
                assert(face_start(conn[c]) == start_a);
                assert(conn[c] == corner);
                assert(conn[conn[c]] == c);
                assert(false);
            }
            if t == b1 {
                assert(face_start(conn[c]) == start_b);
                assert(conn[c] == pm);
                assert(conn[conn[c]] == c);
                assert(false);
            }
            assert(idxf[t] == idx[t]);
            assert(idx[t] == idx[c]);
            assert(idxf[c] == idx[c]);
        }
    }
}

/// Splitting keeps the tied-vertex walk on a single vertex slot: every
/// rewired edge still crosses between corners that reference one vertex.
#[verifier::rlimit(100)]
proof fn lemma_split_rings_follow(m: MeshModel, corner: int, amount: int)
    requires
        m.wf(),
        adjacency_ok(m),
        rings_follow_vertex(m),
        0 <= corner < m.connections.len(),
    ensures
        rings_follow_vertex(split_model(m, corner, amount)),
{
    lemma_split_preserves_adjacency(m, corner, amount);
    let conn = m.connections;
    let idx = m.indices;
    let L = conn.len() as int;
    let ni = m.vertex_count;
    let start_a = face_start(corner);
    let pm = conn[corner];
    let start_b = face_start(pm);
    let a1 = next_in_face(corner);
    let a2 = next_in_face(a1);
    let b1 = next_in_face(pm);
    let b2 = next_in_face(b1);
    let m2 = split_model(m, corner, amount);
    let cf = m2.connections;
    let idxf = m2.indices;

    assert(L % 3 == 0);
    assert(0 <= pm < L);
    assert(start_a % 3 == 0 && start_a + 2 < L);
    assert(start_b % 3 == 0 && start_b + 2 < L);
    assert(0 <= a1 < L && 0 <= a2 < L && 0 <= b1 < L && 0 <= b2 < L);
    assert(face_start(a1) == start_a && face_start(b1) == start_b);
    assert(start_b != start_a);
    assert(a1 != b1);

    let fidx = seq![ni, idx[a1], idx[a2], ni, idx[b1], idx[b2]];
    assert(idxf == (idx + fidx).update(a1, ni).update(b1, ni));
    assert(idxf.len() == L + 6);
    assert(idxf[a1] == ni && idxf[b1] == ni);
    assert(idxf[L + 0] == ni && idxf[L + 1] == idx[a1] && idxf[L + 2] == idx[a2] && idxf[L + 3]
        == ni && idxf[L + 4] == idx[b1] && idxf[L + 5] == idx[b2]);
    assert forall|c: int| 0 <= c < L && c != a1 && c != b1 implies #[trigger] idxf[c]
        == idx[c] by {
        assert((idx + fidx)[c] == idx[c]);
    }
    assert forall|c: int| 0 <= c < conn.len() implies idx[#[trigger] step_corner(conn, c)]
        == idx[c] by {
        assert(idx[step_corner(m.connections, c)] == idx[c]);
    }
    assert(face_start(pm) != face_start(corner));
    assert(face_start(conn[a1]) != face_start(a1));
    assert(face_start(conn[b1]) != face_start(b1));
    assert(conn[pm] == corner);
    assert(face_start(conn[pm]) == face_start(corner));
    assert(face_start(conn[a1]) != face_start(conn[corner]));
    assert(face_start(conn[b1]) != face_start(conn[pm]));
    lemma_split_rewire_follows_vertex(conn, idx, cf, idxf, corner, ni);
    assert forall|c: int|
        0 <= c < m2.connections.len() implies m2.indices[#[trigger] step_corner(
        m2.connections,
        c,
    )] == m2.indices[c] by {
        assert(idxf[step_corner(cf, c)] == idxf[c]);
    }
}

pub proof fn lemma_split_preserves_vertex_structure(m: MeshModel, corner: int, amount: int)
    requires
        m.wf(),
        adjacency_ok(m),
        faces_nondegenerate(m),
        rings_follow_vertex(m),
        0 <= corner < m.connections.len(),
    ensures
        faces_nondegenerate(split_model(m, corner, amount)),
        rings_follow_vertex(split_model(m, corner, amount)),
{
    lemma_split_faces_nondegenerate(m, corner, amount);
    lemma_split_rings_follow(m, corner, amount);
}

/// Extruding preserves the vertex structure: faces stay nondegenerate and
/// the tied-vertex walk still follows a single vertex slot — in particular
/// the ring through the extruded corner follows the duplicated vertex.
#[verifier::rlimit(100)]
pub proof fn lemma_pull_preserves_vertex_structure(m: MeshModel, corner: int)
    requires
        m.wf(),
        adjacency_ok(m),
        faces_nondegenerate(m),
        rings_follow_vertex(m),
        0 <= corner < m.connections.len(),
    ensures
        faces_nondegenerate(pull_model(m, corner)),
        rings_follow_vertex(pull_model(m, corner)),
{
    lemma_pull_preserves_adjacency(m, corner);
    let conn = m.connections;
    let idx = m.indices;
    let L = conn.len() as int;
    let ni = m.vertex_count;
    let old_v = idx[corner];
    let start = face_start(corner);
    let pm = conn[corner];
    let a1 = next_in_face(corner);
    let a2 = next_in_face(a1);
    let pa2 = conn[a2];
    let m2 = pull_model(m, corner);
    let cf = m2.connections;
    let idxf = m2.indices;

    assert(L % 3 == 0);
    assert(0 <= pm < L);
    assert(start % 3 == 0 && start + 2 < L);
    assert(0 <= a1 < L && face_start(a1) == start);
    assert(0 <= a2 < L && face_start(a2) == start);
    assert(next_in_face(a2) == corner);
    assert(a1 != corner && a2 != corner && a1 != a2);
    assert(0 <= pa2 < L);
    assert(face_start(pm) != start);
    assert(face_start(pa2) != start);
    assert(conn[pm] == corner && conn[pa2] == a2);

    // the new face-corner array, pointwise
    let fidx = seq![old_v, ni, idx[a2], ni, old_v, idx[a1]];
    assert(idxf == idx.update(corner, ni) + fidx);
    assert(idxf.len() == L + 6);
    assert(idxf[corner] == ni);
    assert(idxf[L + 0] == old_v && idxf[L + 1] == ni && idxf[L + 2] == idx[a2] && idxf[L + 3]
        == ni && idxf[L + 4] == old_v && idxf[L + 5] == idx[a1]);
    assert forall|c: int| 0 <= c < L && c != corner implies #[trigger] idxf[c] == idx[c] by {
        assert(idxf[c] == idx.update(corner, ni)[c]);
    }
    assert(idxf[a1] == idx[a1] && idxf[a2] == idx[a2] && idxf[pm] == idx[pm] && idxf[pa2]
        == idx[pa2]);
    assert(forall|c: int| 0 <= c < L ==> #[trigger] idx[c] < ni);

    // faces stay nondegenerate
    assert forall|c: int, d: int|
        #![trigger idxf[c], idxf[d]]
        0 <= c < idxf.len() && 0 <= d < idxf.len() && c != d && face_start(c) == face_start(d)
        implies idxf[c] != idxf[d] by {
        if c < L && d < L {
            if c == corner {
                assert(idxf[d] == idx[d]);
            } else if d == corner {
                assert(idxf[c] == idx[c]);
            } else {
                assert(idxf[c] == idx[c] && idxf[d] == idx[d]);
            }
        } else if c >= L && d >= L {
            assert(old_v != idx[a2]);
            assert(old_v != idx[a1]);
        } else {
            assert(face_start(c) == face_start(d));
            if c < L {
                assert(face_start(c) <= c < L && face_start(d) >= L);
            } else {
                assert(face_start(d) <= d < L && face_start(c) >= L);
            }
        }
    }

    // the walk still follows one vertex slot
    assert forall|c: int| 0 <= c < cf.len() implies idxf[#[trigger] step_corner(cf, c)]
        == idxf[c] by {
        if c == corner {
            assert(cf[c] == L + 5);
            assert(step_corner(cf, c) == L + 3);
        } else if c == pm {
            assert(cf[c] == L + 4);
            assert(step_corner(cf, c) == L + 5);
            assert(step_corner(conn, pm) == a1);
            assert(idx[a1] == idx[pm]);
        } else if c == a2 {
            assert(cf[c] == L + 1);
            assert(step_corner(cf, c) == L + 2);
        } else if c == pa2 {
            assert(cf[c] == L + 2);
            assert(step_corner(cf, c) == L + 0);
            assert(step_corner(conn, pa2) == next_in_face(a2));
            assert(idx[corner] == idx[pa2]);
            assert(idxf[pa2] == idx[pa2]);
        } else if c == L + 0 {
            assert(cf[c] == L + 3);
            assert(step_corner(cf, c) == L + 4);
        } else if c == L + 1 {
            assert(cf[c] == a2);
            assert(step_corner(cf, c) == corner);
        } else if c == L + 2 {
            assert(cf[c] == pa2);
            let t = next_in_face(pa2);
            assert(step_corner(cf, c) == t);
            assert(face_start(t) == face_start(pa2));
            assert(pa2 - pa2 % 3 + 2 < L);
            assert(0 <= t < L);
            assert(t != corner);
            assert(idxf[t] == idx[t]);
            assert(step_corner(conn, a2) == t);
            assert(idx[t] == idx[a2]);
        } else if c == L + 3 {
            assert(cf[c] == L + 0);
            assert(step_corner(cf, c) == L + 1);
        } else if c == L + 4 {
            assert(cf[c] == pm);
            let t = next_in_face(pm);
            assert(step_corner(cf, c) == t);
            assert(face_start(t) == face_start(pm));
            assert(pm - pm % 3 + 2 < L);
            assert(0 <= t < L);
            assert(t != corner);
            assert(idxf[t] == idx[t]);
            assert(step_corner(conn, corner) == t);
            assert(idx[t] == idx[corner]);
        } else if c == L + 5 {
            assert(cf[c] == corner);
            assert(step_corner(cf, c) == a1);
            assert(idxf[a1] == idx[a1]);
        } else {
            assert(0 <= c < L);
            assert(cf[c] == conn[c]);
            assert(step_corner(cf, c) == step_corner(conn, c));
            let t = step_corner(conn, c);
            assert(0 <= conn[c] < L);
            assert(conn[c] - conn[c] % 3 + 2 < L);
            assert(face_start(t) == face_start(conn[c]));
            assert(0 <= t < L);
            if t == corner {
                assert(face_start(conn[c]) == start);
                assert(conn[c] == a2);
                assert(conn[conn[c]] == c);
                assert(false);
            }
            assert(idxf[t] == idx[t]);
            assert(idx[t] == idx[c]);
            assert(idxf[c] == idx[c]);
        }
    }
}

/// The seed shape satisfies the adjacency invariant.
pub proof fn lemma_seed_adjacency()
    ensures
        adjacency_ok(seed_mesh()),
{
    let conn = seed_mesh().connections;
    assert(conn[0] == 8 && conn[1] == 10 && conn[2] == 3 && conn[3] == 2 && conn[4] == 9
        && conn[5] == 6 && conn[6] == 5 && conn[7] == 11 && conn[8] == 0 && conn[9] == 4
        && conn[10] == 1 && conn[11] == 7);
    assert forall|c: int| 0 <= c < conn.len() implies conn[#[trigger] conn[c]] == c by {
        if c == 0 {
        } else if c == 1 {
        } else if c == 2 {
        } else if c == 3 {
        } else if c == 4 {
        } else if c == 5 {
        } else if c == 6 {
        } else if c == 7 {
        } else if c == 8 {
        } else if c == 9 {
        } else if c == 10 {
        } else {
            assert(c == 11);
        }
    }
    assert forall|c: int| 0 <= c < conn.len() implies face_start(#[trigger] conn[c])
        != face_start(c) by {
        if c == 0 {
        } else if c == 1 {
        } else if c == 2 {
        } else if c == 3 {
        } else if c == 4 {
        } else if c == 5 {
        } else if c == 6 {
        } else if c == 7 {
        } else if c == 8 {
        } else if c == 9 {
        } else if c == 10 {
        } else {
            assert(c == 11);
        }
    }
    assert forall|c: int, d: int|
        #![trigger conn[c], conn[d]]
        0 <= c < conn.len() && 0 <= d < conn.len() && c != d && face_start(c) == face_start(d)
        implies face_start(conn[c]) != face_start(conn[d]) by {
        assert(face_start(c) == 3 * (c / 3));
        assert(face_start(d) == 3 * (d / 3));
    }
}

/// The seed shape satisfies the vertex-structure invariant: its faces are
/// nondegenerate and its tied-vertex rings follow single vertex slots.
pub proof fn lemma_seed_vertex_structure()
    ensures
        faces_nondegenerate(seed_mesh()),
        rings_follow_vertex(seed_mesh()),
{
    let m = seed_mesh();
    let idx = m.indices;
    let conn = m.connections;
    assert(idx[0] == 0 && idx[1] == 2 && idx[2] == 1 && idx[3] == 0 && idx[4] == 1 && idx[5] == 3
        && idx[6] == 0 && idx[7] == 3 && idx[8] == 2 && idx[9] == 3 && idx[10] == 1 && idx[11]
        == 2);
    assert(conn[0] == 8 && conn[1] == 10 && conn[2] == 3 && conn[3] == 2 && conn[4] == 9
        && conn[5] == 6 && conn[6] == 5 && conn[7] == 11 && conn[8] == 0 && conn[9] == 4
        && conn[10] == 1 && conn[11] == 7);
    assert forall|c: int, d: int|
        #![trigger idx[c], idx[d]]
        0 <= c < idx.len() && 0 <= d < idx.len() && c != d && face_start(c) == face_start(d)
        implies idx[c] != idx[d] by {
        assert(face_start(c) == 3 * (c / 3));
        assert(face_start(d) == 3 * (d / 3));
    }
    assert forall|c: int| 0 <= c < conn.len() implies idx[#[trigger] step_corner(conn, c)]
        == idx[c] by {
        if c == 0 {
            assert(step_corner(conn, 0) == 6);
        } else if c == 1 {
            assert(step_corner(conn, 1) == 11);
        } else if c == 2 {
            assert(step_corner(conn, 2) == 4);
        } else if c == 3 {
            assert(step_corner(conn, 3) == 0);
        } else if c == 4 {
            assert(step_corner(conn, 4) == 10);
        } else if c == 5 {
            assert(step_corner(conn, 5) == 7);
        } else if c == 6 {
            assert(step_corner(conn, 6) == 3);
        } else if c == 7 {
            assert(step_corner(conn, 7) == 9);
        } else if c == 8 {
            assert(step_corner(conn, 8) == 1);
        } else if c == 9 {
            assert(step_corner(conn, 9) == 5);
        } else if c == 10 {
            assert(step_corner(conn, 10) == 2);
        } else {
            assert(c == 11);
            assert(step_corner(conn, 11) == 8);
        }
    }
}

/// Every command that applies preserves the vertex structure: faces stay
/// nondegenerate and tied-vertex rings keep following single vertex slots.
pub proof fn lemma_apply_preserves_vertex_structure(s: EditState, cmd: Command)
    requires
        s.wf(),
        adjacency_ok(s.mesh),
        faces_nondegenerate(s.mesh),
        rings_follow_vertex(s.mesh),
        apply_model(s, cmd) is Some,
    ensures
        faces_nondegenerate(apply_model(s, cmd)->0.mesh),
        rings_follow_vertex(apply_model(s, cmd)->0.mesh),
{
    let s2 = apply_model(s, cmd)->0;
    let corner = selected_corner(s);
    match cmd {
        Command::Split(amount) => {
            lemma_split_preserves_vertex_structure(s.mesh, corner, amount as int);
        },
        Command::Pull => {
            lemma_pull_preserves_vertex_structure(s.mesh, corner);
        },
        _ => {
            assert(s2.mesh.indices == s.mesh.indices);
            assert(s2.mesh.connections == s.mesh.connections);
        },
    }
}

/// Every command that applies preserves the adjacency invariant: after any
/// sequence of edits, `connections[connections[c]] == c` for every corner,
/// every connection crosses into another face, and each face's three
/// neighbors are distinct.
pub proof fn lemma_apply_preserves_adjacency(s: EditState, cmd: Command)
    requires
        s.wf(),
        adjacency_ok(s.mesh),
        apply_model(s, cmd) is Some,
    ensures
        adjacency_ok(apply_model(s, cmd)->0.mesh),
{
    let s2 = apply_model(s, cmd)->0;
    let corner = selected_corner(s);
    match cmd {
        Command::Split(amount) => {
            lemma_split_preserves_adjacency(s.mesh, corner, amount as int);
        },
        Command::Pull => {
            lemma_pull_preserves_adjacency(s.mesh, corner);
        },
        _ => {
            assert(s2.mesh.connections == s.mesh.connections);
        },
    }
}

/// Tied-vertex termination in every reachable editor state: the walk that
/// `modifyVertex` performs returns to its starting corner within at most one
/// step per face — `len(indices) / 3` steps — because every state an edit
/// sequence can reach keeps connections symmetric, faces nondegenerate, and
/// rings on a single vertex slot.
pub proof fn lemma_edit_state_rings_close(im: InterpModel, start: int)
    requires
        im.wf(),
        0 <= start < im.mesh.connections.len(),
    ensures
        ring_closes_within(
            im.mesh.connections,
            start,
            im.mesh.connections.len() as int / 3,
        ),
{
    lemma_ring_closes_within_face_count(im.mesh, start);
}

/// Replay determinism: replaying a log depends only on its commands in
/// order. Two logs carrying the same command sequence — for instance the
/// same log replayed twice, or a re-keyed import of the same history —
/// replay from the seed to identical states: byte-identical position, color
/// and index buffers, and the same success or failure.
pub proof fn lemma_replay_deterministic(log1: Seq<LogEntry>, log2: Seq<LogEntry>)
    requires
        commands_of(log1) == commands_of(log2),
    ensures
        replay_model(log1) == replay_model(log2),
{
}

/// Undo convergence: after removing a keyed command, the replayed state
/// equals that of a fresh session replaying only the surviving commands,
/// whatever keys that fresh session assigned them.
pub proof fn lemma_undo_convergence(log: Seq<LogEntry>, key: u64, fresh: Seq<LogEntry>)
    requires
        commands_of(fresh) == commands_of(remove_key_model(log, key)),
    ensures
        replay_model(fresh) == replay_model(remove_key_model(log, key)),
{
    lemma_replay_deterministic(fresh, remove_key_model(log, key));
}

/// One step of a batch load: a command that records advances the fold.
proof fn lemma_load_model_step_ok(pre: InterpModel, post: InterpModel, cmds: Seq<Command>, i: int)
    requires
        0 <= i < cmds.len(),
        record_model(pre, cmds[i]) == Option::Some(post),
    ensures
        load_model(pre, cmds.skip(i)) == load_model(post, cmds.skip(i + 1)),
{
    reveal(load_model);
    assert(cmds.skip(i)[0] == cmds[i]);
    assert(cmds.skip(i).len() > 0);
    assert(cmds.skip(i).drop_first() =~= cmds.skip(i + 1));
}

/// One step of a batch load: a command that fails to record stops the fold.
proof fn lemma_load_model_step_err(pre: InterpModel, cmds: Seq<Command>, i: int)
    requires
        0 <= i < cmds.len(),
        record_model(pre, cmds[i]) is None,
    ensures
        load_model(pre, cmds.skip(i)) == (pre, false),
{
    reveal(load_model);
    assert(cmds.skip(i)[0] == cmds[i]);
    assert(cmds.skip(i).len() > 0);
}

/// An exhausted batch leaves the fold at its current state.
proof fn lemma_load_model_empty(im: InterpModel, cmds: Seq<Command>)
    requires
        cmds.len() == 0,
    ensures
        load_model(im, cmds) == (im, true),
{
    reveal(load_model);
}

/// A command that applies keeps every stacked selection valid: handles are
/// never removed, and the only stack changes duplicate or drop the top.
proof fn lemma_apply_selections_valid(s: EditState, cmd: Command)
    requires
        apply_model(s, cmd) is Some,
        forall|i: int|
            0 <= i < s.selections.len() ==> 0 <= #[trigger] s.selections[i]
                < s.mesh.handles.len(),
    ensures
        ({
            let s2 = apply_model(s, cmd)->0;
            &&& s2.mesh.handles.len() == s.mesh.handles.len()
            &&& forall|i: int|
                0 <= i < s2.selections.len() ==> 0 <= #[trigger] s2.selections[i]
                    < s2.mesh.handles.len()
        }),
{
    let s2 = apply_model(s, cmd)->0;
    match cmd {
        Command::PushSelection => {
            assert forall|i: int|
                0 <= i < s2.selections.len() implies 0 <= #[trigger] s2.selections[i]
                < s2.mesh.handles.len() by {
                if i < s.selections.len() {
                    assert(s2.selections[i] == s.selections[i]);
                } else {
                    assert(s2.selections[i] == s.selections.last());
                }
            }
        },
        Command::PopSelection => {
            assert forall|i: int|
                0 <= i < s2.selections.len() implies 0 <= #[trigger] s2.selections[i]
                < s2.mesh.handles.len() by {
                assert(s2.selections[i] == s.selections[i]);
            }
        },
        _ => {
            assert(s2.selections == s.selections);
            assert(s2.mesh.handles.len() == s.mesh.handles.len());
        },
    }
}

/// The live command interpreter: the mesh it edits, the selection stack, the
/// keyed command log, and the key counter.
pub struct Interpreter {
    pub mesh: DynamicMesh,
    pub selections: Vec<usize>,
    pub log: Vec<LogEntry>,
    pub next_key: u64,
}

impl View for Interpreter {
    type V = InterpModel;

    open spec fn view(&self) -> InterpModel {
        InterpModel {
            mesh: self.mesh@,
            selections: as_ints(self.selections@),
            log: self.log@,
            next_key: self.next_key as int,
        }
    }
}

impl Interpreter {
    /// Whether this interpreter is in a well-formed state.
    pub open spec fn wf(&self) -> bool {
        self@.wf()
    }

    /// A fresh editing session: the seed mesh, one handle bound to corner 0
    /// on the selection stack, an empty log.
    pub fn new() -> (r: Interpreter)
        ensures
            r.wf(),
            r@.mesh == initial_state().mesh,
            r@.selections == initial_state().selections,
            r@.log == Seq::<LogEntry>::empty(),
            r@.next_key == 0,
    {
        let mut mesh = DynamicMesh::new();
        let handle = match mesh.track_index(0) {
            Ok(h) => h,
            Err(_) => { unreached() },
        };
        let mut selections: Vec<usize> = Vec::new();
        selections.push(handle);
        let interp = Interpreter { mesh, selections, log: Vec::new(), next_key: 0 };
        proof {
            assert(interp@.mesh.handles =~= initial_state().mesh.handles);
            assert(interp@.mesh =~= initial_state().mesh);
            assert(interp@.selections =~= initial_state().selections);
            lemma_seed_adjacency();
            lemma_seed_vertex_structure();
            assert(interp@.mesh.connections == seed_mesh().connections);
            assert(interp@.mesh.indices == seed_mesh().indices);
        }
        interp
    }

    /// Applies a command to the live state and, if it applied, appends it to
    /// the log under a fresh sequential key, which is returned. A command
    /// that does not apply is reported and leaves everything unchanged —
    /// including the log, so a failed edit never reaches a replay.
    fn record(&mut self, command: Command) -> (r: Result<u64, EditError>)
        requires
            old(self).wf(),
        ensures
            final(self).wf(),
            r is Ok <==> record_model(old(self)@, command) is Some,
            r is Ok ==> final(self)@ == record_model(old(self)@, command)->0 && r->Ok_0 == old(
                self,
            )@.next_key,
            r is Err ==> final(self)@ == old(self)@,
    {
        if self.next_key == u64::MAX {
            return Err(EditError::CapacityExceeded);
        }
        let key = self.next_key;
        match command.call(&mut self.mesh, &mut self.selections) {
            Ok(()) => {},
            Err(e) => { return Err(e) },
        }
        self.log.push(LogEntry { key, command });
        self.next_key = key + 1;
        proof {
            let im0 = old(self)@;
            lemma_apply_selections_valid(im0.edit_state(), command);
            lemma_apply_preserves_adjacency(im0.edit_state(), command);
            lemma_apply_preserves_vertex_structure(im0.edit_state(), command);
            assert(final(self)@ == record_model(im0, command)->0);
            let fm = final(self)@;
            assert forall|i: int, j: int|
                #![trigger fm.log[i], fm.log[j]]
                0 <= i < j < fm.log.len() implies fm.log[i].key < fm.log[j].key by {
                if j < im0.log.len() {
                    assert(fm.log[i] == im0.log[i] && fm.log[j] == im0.log[j]);
                } else {
                    assert(fm.log[j].key == key);
                    assert(fm.log[i] == im0.log[i]);
                }
            }
            assert(fm.wf());
        }
        Ok(key)
    }

    /// Duplicates the top of the selection stack.
    pub fn push_selection(&mut self) -> (r: Result<u64, EditError>)
        requires
            old(self).wf(),
        ensures
            final(self).wf(),
            r is Ok <==> record_model(old(self)@, Command::PushSelection) is Some,
            r is Ok ==> final(self)@ == record_model(old(self)@, Command::PushSelection)->0
                && r->Ok_0 == old(self)@.next_key,
            r is Err ==> final(self)@ == old(self)@,
    {
        self.record(Command::PushSelection)
    }

    /// Removes the top of the selection stack.
    pub fn pop_selection(&mut self) -> (r: Result<u64, EditError>)
        requires
            old(self).wf(),
        ensures
            final(self).wf(),
            r is Ok <==> record_model(old(self)@, Command::PopSelection) is Some,
            r is Ok ==> final(self)@ == record_model(old(self)@, Command::PopSelection)->0
                && r->Ok_0 == old(self)@.next_key,
            r is Err ==> final(self)@ == old(self)@,
    {
        self.record(Command::PopSelection)
    }

    /// Moves the top selection across the shared edge into the adjacent face.
    pub fn move_face_selection(&mut self) -> (r: Result<u64, EditError>)
        requires
            old(self).wf(),
        ensures
            final(self).wf(),
            r is Ok <==> record_model(old(self)@, Command::MoveFaceSelection) is Some,
            r is Ok ==> final(self)@ == record_model(old(self)@, Command::MoveFaceSelection)->0
                && r->Ok_0 == old(self)@.next_key,
            r is Err ==> final(self)@ == old(self)@,
    {
        self.record(Command::MoveFaceSelection)
    }

    /// Moves the top selection to the next corner within the same face.
    pub fn move_edge_selection(&mut self) -> (r: Result<u64, EditError>)
        requires
            old(self).wf(),
        ensures
            final(self).wf(),
            r is Ok <==> record_model(old(self)@, Command::MoveEdgeSelection) is Some,
            r is Ok ==> final(self)@ == record_model(old(self)@, Command::MoveEdgeSelection)->0
                && r->Ok_0 == old(self)@.next_key,
            r is Err ==> final(self)@ == old(self)@,
    {
        self.record(Command::MoveEdgeSelection)
    }

    /// Moves the selected vertex, and every vertex tied to it, by `delta`.
    pub fn translate(&mut self, delta: Vec3) -> (r: Result<u64, EditError>)
        requires
            old(self).wf(),
        ensures
            final(self).wf(),
            r is Ok <==> record_model(old(self)@, Command::Translate(delta)) is Some,
            r is Ok ==> final(self)@ == record_model(old(self)@, Command::Translate(delta))->0
                && r->Ok_0 == old(self)@.next_key,
            r is Err ==> final(self)@ == old(self)@,
    {
        self.record(Command::Translate(delta))
    }

    /// Splits the selected edge at `amount / RATIO_ONE`, subdividing the two
    /// faces that share it; the new vertex sits at the interpolated point.
    pub fn split(&mut self, amount: u32) -> (r: Result<u64, EditError>)
        requires
            old(self).wf(),
        ensures
            final(self).wf(),
            r is Ok <==> record_model(old(self)@, Command::Split(amount)) is Some,
            r is Ok ==> final(self)@ == record_model(old(self)@, Command::Split(amount))->0
                && r->Ok_0 == old(self)@.next_key,
            r is Err ==> final(self)@ == old(self)@,
    {
        self.record(Command::Split(amount))
    }

    /// Extrudes at the selected corner: duplicates its vertex and appends two
    /// side faces connecting the old and new vertices.
    pub fn pull(&mut self) -> (r: Result<u64, EditError>)
        requires
            old(self).wf(),
        ensures
            final(self).wf(),
            r is Ok <==> record_model(old(self)@, Command::Pull) is Some,
            r is Ok ==> final(self)@ == record_model(old(self)@, Command::Pull)->0 && r->Ok_0
                == old(self)@.next_key,
            r is Err ==> final(self)@ == old(self)@,
    {
        self.record(Command::Pull)
    }

    /// Sets the color of the vertex at the selected corner (no ring
    /// propagation: color is per-corner-vertex, unlike position).
    pub fn color(&mut self, color: Rgba) -> (r: Result<u64, EditError>)
        requires
            old(self).wf(),
        ensures
            final(self).wf(),
            r is Ok <==> record_model(old(self)@, Command::Color(color)) is Some,
            r is Ok ==> final(self)@ == record_model(old(self)@, Command::Color(color))->0
                && r->Ok_0 == old(self)@.next_key,
            r is Err ==> final(self)@ == old(self)@,
    {
        self.record(Command::Color(color))
    }

    /// Reinitializes the mesh to the seed shape, resets the selection stack
    /// to one fresh handle at corner 0, and replays every surviving command
    /// in log order. The log itself is untouched, so the resulting state is
    /// exactly the canonical replay of the current history. Replay stops at
    /// the first failing command, reporting it.
    pub fn reset(&mut self) -> (r: Result<(), EditError>)
        requires
            old(self).wf(),
        ensures
            final(self).wf(),
            final(self)@.log == old(self)@.log,
            final(self)@.next_key == old(self)@.next_key,
            final(self)@.edit_state() == replay_model(old(self)@.log).0,
            r is Ok <==> replay_model(old(self)@.log).1,
    {
        self.mesh.clear();
        let handle = match self.mesh.track_index(0) {
            Ok(h) => h,
            Err(_) => { unreached() },
        };
        self.selections = Vec::new();
        self.selections.push(handle);
        proof {
            assert(self@.mesh.handles =~= initial_state().mesh.handles);
            assert(self@.mesh =~= initial_state().mesh);
            assert(as_ints(self.selections@) =~= initial_state().selections);
            lemma_seed_adjacency();
            lemma_seed_vertex_structure();
            assert(self@.mesh.connections == seed_mesh().connections);
            assert(self@.mesh.indices == seed_mesh().indices);
        }
        let ghost all = commands_of(old(self)@.log);
        proof {
            assert(all.skip(0) =~= all);
        }
        let n = self.log.len();
        let mut i: usize = 0;
        while i < n
            invariant
                old(self).wf(),
                n == self.log@.len(),
                self.log@ == old(self)@.log,
                self.next_key == old(self).next_key,
                all == commands_of(old(self)@.log),
                i <= n,
                self.mesh.wf(),
                adjacency_ok(self.mesh@),
                faces_nondegenerate(self.mesh@),
                rings_follow_vertex(self.mesh@),
                forall|k: int|
                    0 <= k < as_ints(self.selections@).len() ==> 0 <= #[trigger] as_ints(
                        self.selections@,
                    )[k] < self.mesh@.handles.len(),
                run_model(initial_state(), all) == run_model(
                    EditState { mesh: self.mesh@, selections: as_ints(self.selections@) },
                    all.skip(i as int),
                ),
                run_model(initial_state(), all).1 ==> run_model(
                    EditState { mesh: self.mesh@, selections: as_ints(self.selections@) },
                    all.skip(i as int),
                ).1,
            decreases n - i,
        {
            let cmd = self.log[i].command;
            let ghost pre = EditState { mesh: self.mesh@, selections: as_ints(self.selections@) };
            proof {
                assert(all[i as int] == cmd);
                assert(all.skip(i as int)[0] == cmd);
                assert(all.skip(i as int).len() > 0);
            }
            match cmd.call(&mut self.mesh, &mut self.selections) {
                Ok(()) => {
                    proof {
                        let post = EditState {
                            mesh: self.mesh@,
                            selections: as_ints(self.selections@),
                        };
                        assert(apply_model(pre, cmd) == Option::Some(post));
                        assert(run_model(pre, all.skip(i as int)) == run_model(
                            post,
                            all.skip(i as int).drop_first(),
                        ));
                        assert(all.skip(i as int).drop_first() =~= all.skip(i as int + 1));
                        lemma_apply_selections_valid(pre, cmd);
                        lemma_apply_preserves_adjacency(pre, cmd);
                        lemma_apply_preserves_vertex_structure(pre, cmd);
                    }
                },
                Err(e) => {
                    proof {
                        assert(apply_model(pre, cmd) is None);
                        assert(run_model(pre, all.skip(i as int)) == (pre, false));
                        assert(final(self)@.edit_state() == replay_model(old(self)@.log).0);
                        assert(final(self).wf());
                    }
                    return Err(e);
                },
            }
            i = i + 1;
        }
        proof {
            assert(all.skip(n as int) =~= Seq::<Command>::empty());
            let cur = EditState { mesh: self.mesh@, selections: as_ints(self.selections@) };
            assert(run_model(cur, all.skip(n as int)) == (cur, true));
            assert(final(self)@.edit_state() == replay_model(old(self)@.log).0);
        }
        Ok(())
    }

    /// Removes the entry keyed `key` from the log, then rebuilds the whole
    /// state by a full replay of the surviving commands. There is no
    /// incremental undo: the state after an undo is always the state a fresh
    /// session would reach by replaying the remaining history.
    pub fn undo(&mut self, key: u64) -> (r: Result<(), EditError>)
        requires
            old(self).wf(),
        ensures
            final(self).wf(),
            !log_has_key(old(self)@.log, key) ==> r == Err::<(), EditError>(EditError::UnknownKey)
                && final(self)@ == old(self)@,
            log_has_key(old(self)@.log, key) ==> ({
                let newlog = remove_key_model(old(self)@.log, key);
                &&& final(self)@.log == newlog
                &&& final(self)@.next_key == old(self)@.next_key
                &&& final(self)@.edit_state() == replay_model(newlog).0
                &&& (r is Ok <==> replay_model(newlog).1)
            }),
    {
        let ghost log0 = self.log@;
        let mut kept: Vec<LogEntry> = Vec::new();
        proof {
            assert(log0.skip(0) =~= log0);
            assert(kept@ + remove_key_model(log0.skip(0), key) =~= remove_key_model(log0, key));
        }
        let mut found = false;
        let mut i: usize = 0;
        while i < self.log.len()
            invariant
                old(self).wf(),
                self == old(self),
                log0 == self.log@,
                i <= log0.len(),
                remove_key_model(log0, key) == kept@ + remove_key_model(
                    log0.skip(i as int),
                    key,
                ),
                found <==> exists|j: int| 0 <= j < i && #[trigger] log0[j].key == key,
                forall|a: int|
                    #![trigger kept@[a]]
                    0 <= a < kept@.len() ==> exists|j: int|
                        0 <= j < i && #[trigger] log0[j] == kept@[a],
                forall|a: int, b: int|
                    #![trigger kept@[a], kept@[b]]
                    0 <= a < b < kept@.len() ==> kept@[a].key < kept@[b].key,
                forall|a: int|
                    0 <= a < kept@.len() ==> ((#[trigger] kept@[a]).key as int) < old(
                        self,
                    )@.next_key,
            decreases log0.len() - i,
        {
            let ghost ii = i as int;
            let entry = self.log[i];
            proof {
                assert(log0.skip(ii)[0] == entry);
                assert(log0.skip(ii).len() > 0);
                assert(log0.skip(ii).drop_first() =~= log0.skip(ii + 1));
            }
            if entry.key == key {
                found = true;
                proof {
                    assert(remove_key_model(log0.skip(ii), key) == remove_key_model(
                        log0.skip(ii + 1),
                        key,
                    ));
                    assert(log0[ii].key == key);
                }
            } else {
                proof {
                    assert forall|a: int|
                        0 <= a < kept@.len() implies (#[trigger] kept@[a]).key < entry.key by {
                        let j = choose|j: int| 0 <= j < i && #[trigger] log0[j] == kept@[a];
                        assert(log0[j].key < log0[ii].key);
                    }
                }
                let ghost kept0 = kept@;
                kept.push(entry);
                proof {
                    assert(remove_key_model(log0.skip(ii), key) == seq![entry]
                        + remove_key_model(log0.skip(ii + 1), key));
                    assert(kept0 + (seq![entry] + remove_key_model(log0.skip(ii + 1), key))
                        =~= kept@ + remove_key_model(log0.skip(ii + 1), key));
                    assert forall|a: int|
                        #![trigger kept@[a]]
                        0 <= a < kept@.len() implies exists|j: int|
                        0 <= j < i + 1 && #[trigger] log0[j] == kept@[a] by {
                        if a < kept@.len() - 1 {
                            let j = choose|j: int| 0 <= j < i && #[trigger] log0[j] == kept@[a];
                            assert(0 <= j < i + 1 && log0[j] == kept@[a]);
                        } else {
                            assert(log0[ii] == kept@[a]);
                        }
                    }
                    assert((entry.key as int) < old(self)@.next_key);
                }
            }
            i = i + 1;
            proof {
                assert forall|a: int|
                    #![trigger kept@[a]]
                    0 <= a < kept@.len() implies exists|j: int|
                    0 <= j < i && #[trigger] log0[j] == kept@[a] by {
                    let j = choose|j: int| 0 <= j < i - 1 + 1 && #[trigger] log0[j] == kept@[a];
                    assert(0 <= j < i && log0[j] == kept@[a]);
                }
            }
        }
        if !found {
            return Err(EditError::UnknownKey);
        }
        proof {
            assert(log0.skip(log0.len() as int) =~= Seq::<LogEntry>::empty());
            assert(remove_key_model(log0.skip(log0.len() as int), key)
                == Seq::<LogEntry>::empty());
            assert(kept@ + Seq::<LogEntry>::empty() =~= kept@);
            assert(kept@ == remove_key_model(old(self)@.log, key));
        }
        self.log = kept;
        proof {
            assert(self.wf());
        }
        match self.reset() {
            Ok(()) => Ok(()),
            Err(e) => Err(e),
        }
    }

    /// Replaces the payload of the logged command keyed `key` with the
    /// payload of `command`, provided the kinds match, then rebuilds the
    /// state by a full replay. A mismatched kind is not supported and is a
    /// no-op, reported as `Ok(false)`; an unknown key is an error.
    pub fn update_command(&mut self, key: u64, command: Command) -> (r: Result<bool, EditError>)
        requires
            old(self).wf(),
        ensures
            final(self).wf(),
            !log_has_key(old(self)@.log, key) ==> r == Err::<bool, EditError>(
                EditError::UnknownKey,
            ) && final(self)@ == old(self)@,
            log_has_key(old(self)@.log, key) && !old(self)@.log[key_position(
                old(self)@.log,
                key,
            )].command.same_kind(command) ==> r == Ok::<bool, EditError>(false) && final(self)@
                == old(self)@,
            log_has_key(old(self)@.log, key) && old(self)@.log[key_position(
                old(self)@.log,
                key,
            )].command.same_kind(command) ==> ({
                let newlog = old(self)@.log.update(
                    key_position(old(self)@.log, key),
                    LogEntry { key, command },
                );
                &&& final(self)@.log == newlog
                &&& final(self)@.next_key == old(self)@.next_key
                &&& final(self)@.edit_state() == replay_model(newlog).0
                &&& (r is Ok <==> replay_model(newlog).1)
                &&& (r is Ok ==> r->Ok_0 == true)
            }),
    {
        let ghost log0 = self.log@;
        let mut i: usize = 0;
        let mut position: usize = 0;
        let mut found = false;
        while i < self.log.len() && !found
            invariant
                old(self).wf(),
                self == old(self),
                log0 == self.log@,
                i <= log0.len(),
                !found ==> forall|j: int| 0 <= j < i ==> #[trigger] log0[j].key != key,
                found ==> position < i && log0[position as int].key == key,
            decreases log0.len() - i,
        {
            if self.log[i].key == key {
                position = i;
                found = true;
            }
            i = i + 1;
        }
        if !found {
            proof {
                assert(!log_has_key(log0, key));
            }
            return Err(EditError::UnknownKey);
        }
        proof {
            assert(log_has_key(log0, key));
            let kp = key_position(log0, key);
            assert(0 <= kp < log0.len() && log0[kp].key == key);
            if kp != position as int {
                assert(log0[kp].key != log0[position as int].key);
            }
            assert(kp == position as int);
        }
        let existing = self.log[position].command;
        if !existing.kind_matches(&command) {
            return Ok(false);
        }
        self.log.set(position, LogEntry { key, command });
        proof {
            let fm = self@;
            let im0 = old(self)@;
            assert forall|a: int, b: int|
                #![trigger fm.log[a], fm.log[b]]
                0 <= a < b < fm.log.len() implies fm.log[a].key < fm.log[b].key by {
                assert(fm.log[a].key == im0.log[a].key);
                assert(fm.log[b].key == im0.log[b].key);
            }
            assert forall|a: int|
                0 <= a < fm.log.len() implies (#[trigger] fm.log[a].key as int)
                < fm.next_key by {
                assert(fm.log[a].key == im0.log[a].key);
            }
            assert(self.wf());
        }
        match self.reset() {
            Ok(()) => Ok(true),
            Err(e) => Err(e),
        }
    }

    /// Appends a batch of commands: each is applied immediately and logged
    /// under a fresh key, exactly as if issued one by one; a failing command
    /// stops the batch. After a fully applied batch the state is rebuilt by
    /// one full replay, and the assigned keys are returned in order.
    #[verifier::rlimit(100)]
    pub fn load_commands(&mut self, commands: &Vec<Command>) -> (r: Result<Vec<u64>, EditError>)
        requires
            old(self).wf(),
        ensures
            final(self).wf(),
            !load_model(old(self)@, commands@).1 ==> r is Err && final(self)@ == load_model(
                old(self)@,
                commands@,
            ).0,
            load_model(old(self)@, commands@).1 ==> ({
                let im2 = load_model(old(self)@, commands@).0;
                &&& final(self)@.log == im2.log
                &&& final(self)@.next_key == im2.next_key
                &&& final(self)@.edit_state() == replay_model(im2.log).0
                &&& (r is Ok <==> replay_model(im2.log).1)
            }),
            r is Ok ==> r->Ok_0@.len() == commands@.len() && forall|i: int|
                0 <= i < commands@.len() ==> (#[trigger] r->Ok_0@[i] as int) == old(
                    self,
                )@.next_key + i,
    {
        let ghost im0 = old(self)@;
        proof {
            assert(commands@.skip(0) =~= commands@);
        }
        let mut keys: Vec<u64> = Vec::new();
        let mut i: usize = 0;
        let n = commands.len();
        while i < n
            invariant
                n == commands@.len(),
                i <= n,
                self.wf(),
                keys@.len() == i,
                forall|j: int| 0 <= j < i ==> (#[trigger] keys@[j] as int) == im0.next_key + j,
                self@.next_key == im0.next_key + i,
                im0 == old(self)@,
                load_model(im0, commands@) == load_model(self@, commands@.skip(i as int)),
            decreases n - i,
        {
            let cmd = commands[i];
            let ghost pre = self@;
            match self.record(cmd) {
                Ok(k) => {
                    keys.push(k);
                    proof {
                        assert(record_model(pre, cmd) == Option::Some(self@));
                        lemma_load_model_step_ok(pre, self@, commands@, i as int);
                    }
                },
                Err(e) => {
                    proof {
                        assert(record_model(pre, cmd) is None);
                        lemma_load_model_step_err(pre, commands@, i as int);
                    }
                    return Err(e);
                },
            }
            i = i + 1;
        }
        proof {
            assert(commands@.skip(n as int) =~= Seq::<Command>::empty());
            lemma_load_model_empty(self@, commands@.skip(n as int));
        }
        match self.reset() {
            Ok(()) => Ok(keys),
            Err(e) => Err(e),
        }
    }

    /// The commands of the log, in log order (the exported history).
    pub fn commands(&self) -> (r: Vec<Command>)
        ensures
            r@ == commands_of(self@.log),
    {
        let mut out: Vec<Command> = Vec::new();
        let mut i: usize = 0;
        while i < self.log.len()
            invariant
                i <= self.log@.len(),
                out@ == commands_of(self@.log).take(i as int),
            decreases self.log@.len() - i,
        {
            out.push(self.log[i].command);
            i = i + 1;
            proof {
                assert(out@ =~= commands_of(self@.log).take(i as int));
            }
        }
        proof {
            assert(commands_of(self@.log).take(self.log@.len() as int) =~= commands_of(self@.log));
        }
        out
    }
}

} // verus!
