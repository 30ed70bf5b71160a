//! The mesh topology engine.
//!
//! A triangle mesh is stored as flat arrays: vertex positions and colors,
//! a face-corner array (`indices`, three consecutive entries per face), and a
//! parallel adjacency array (`connections`): `connections[c]` is the corner on
//! the neighboring face that shares the edge leaving corner `c`. A *corner*
//! (also called a meta-index) is a linear offset into the face-corner array.
//!
//! Selection handles are stable identifiers bound to a current corner; they
//! are allocated sequentially and never reused within a session.

use vstd::prelude::*;
use vstd::pervasive::VecAdditionalExecFns;
use vstd::arithmetic::div_mod::{
    lemma_fundamental_div_mod, lemma_fundamental_div_mod_converse, lemma_mod_multiples_vanish,
    lemma_mod_pos_bound, lemma_div_is_ordered,
};
use vstd::arithmetic::mul::lemma_mul_inequality;
use crate::errors::EditError;
use crate::geometry::{Vec3, Rgba, COORD_ONE};

verus! {

/// Vertex storage grows and shrinks in blocks of this many slots.
pub const BLOCK_SIZE: usize = 64;

/// The mathematical state of a mesh: every array as a sequence, with
/// corner and vertex references as unbounded integers.
pub ghost struct MeshModel {
    /// One position per vertex slot (live slots are `0 .. vertex_count`).
    pub positions: Seq<Vec3>,
    /// One color per vertex slot, parallel to `positions`.
    pub colors: Seq<Rgba>,
    /// Number of live vertex slots.
    pub vertex_count: int,
    /// Face-corner array: vertex reference of each corner.
    pub indices: Seq<int>,
    /// Adjacency: corner across the edge leaving each corner.
    pub connections: Seq<int>,
    /// Vertex slots awaiting compaction.
    pub deleted: Seq<int>,
    /// Current corner of each selection handle; the handle is the position.
    pub handles: Seq<int>,
}

impl MeshModel {
    /// Well-formedness of a mesh state: parallel arrays agree in length, the
    /// face-corner array holds whole triples, and every reference is in range.
    /// In particular `indices.len() == connections.len()` and both are
    /// multiples of 3 at all times.
    pub open spec fn wf(self) -> bool {
        &&& self.positions.len() == self.colors.len()
        &&& self.positions.len() as int % (BLOCK_SIZE as int) == 0
        &&& 0 <= self.vertex_count <= self.positions.len()
        &&& self.indices.len() == self.connections.len()
        &&& self.indices.len() % 3 == 0
        &&& forall|c: int|
            0 <= c < self.indices.len() ==> 0 <= #[trigger] self.indices[c] < self.vertex_count
        &&& forall|c: int|
            0 <= c < self.connections.len() ==> 0 <= #[trigger] self.connections[c]
                < self.connections.len()
        &&& forall|h: int|
            0 <= h < self.handles.len() ==> 0 <= #[trigger] self.handles[h] < self.indices.len()
        &&& forall|k: int|
            0 <= k < self.deleted.len() ==> 0 <= #[trigger] self.deleted[k] < self.vertex_count
        &&& forall|k1: int, k2: int|
            #![trigger self.deleted[k1], self.deleted[k2]]
            0 <= k1 < k2 < self.deleted.len() ==> self.deleted[k1] != self.deleted[k2]
        &&& forall|c: int, k: int|
            #![trigger self.indices[c], self.deleted[k]]
            0 <= c < self.indices.len() && 0 <= k < self.deleted.len() ==> self.indices[c]
                != self.deleted[k]
    }
}

/// The triple invariant: in every well-formed mesh the face-corner array
/// and the connection array have the same length, and that length is a
/// multiple of 3 — the arrays always hold whole triangles.
pub proof fn lemma_triple_invariant(m: MeshModel)
    requires
        m.wf(),
    ensures
        m.indices.len() == m.connections.len(),
        m.indices.len() % 3 == 0,
        m.connections.len() % 3 == 0,
{
}

/// A sequence of machine indices, read as mathematical integers.
pub open spec fn as_ints(s: Seq<usize>) -> Seq<int> {
    s.map_values(|v: usize| v as int)
}

/// Position of vertex `i` in the seed shape: a tetrahedron on the origin and
/// the three unit points.
pub open spec fn seed_position(i: int) -> Vec3 {
    if i == 1 {
        Vec3 { x: 0, y: 0, z: COORD_ONE }
    } else if i == 2 {
        Vec3 { x: 0, y: COORD_ONE, z: 0 }
    } else if i == 3 {
        Vec3 { x: COORD_ONE, y: 0, z: 0 }
    } else {
        Vec3 { x: 0, y: 0, z: 0 }
    }
}

/// The seed shape every session starts from: 4 vertices forming 4 triangular
/// faces (a closed tetrahedron), one storage block of vertex slots, no
/// pending deletions, and no handles.
pub open spec fn seed_mesh() -> MeshModel {
    MeshModel {
        positions: Seq::new(BLOCK_SIZE as nat, |i: int| seed_position(i)),
        colors: Seq::new(BLOCK_SIZE as nat, |i: int| Rgba { r: 0, g: 0, b: 0, a: 0 }),
        vertex_count: 4,
        indices: seq![0, 2, 1, 0, 1, 3, 0, 3, 2, 3, 1, 2],
        connections: seq![8, 10, 3, 2, 9, 6, 5, 11, 0, 4, 1, 7],
        deleted: Seq::empty(),
        handles: Seq::empty(),
    }
}

/// The mesh after one more storage block of zeroed vertex slots.
pub open spec fn grown_model(m: MeshModel) -> MeshModel {
    MeshModel {
        positions: m.positions + Seq::new(
            BLOCK_SIZE as nat,
            |i: int| Vec3 { x: 0, y: 0, z: 0 },
        ),
        colors: m.colors + Seq::new(BLOCK_SIZE as nat, |i: int| Rgba { r: 0, g: 0, b: 0, a: 0 }),
        ..m
    }
}

/// Whether one more vertex can be added without exceeding machine limits.
pub open spec fn add_vertex_ok(m: MeshModel) -> bool {
    m.vertex_count % (BLOCK_SIZE as int) == 0 ==> m.positions.len() + BLOCK_SIZE <= usize::MAX
}

/// The mesh after appending one vertex at `position`: storage grows by one
/// block when the live count sits on a block boundary, and the first free
/// slot receives the position.
pub open spec fn add_vertex_model(m: MeshModel, position: Vec3) -> MeshModel {
    let g = if m.vertex_count % (BLOCK_SIZE as int) == 0 {
        grown_model(m)
    } else {
        m
    };
    MeshModel {
        positions: g.positions.update(m.vertex_count, position),
        vertex_count: m.vertex_count + 1,
        ..g
    }
}

/// Rewires connections after six new entries were appended at offset `base`:
/// in order of appearance, each new entry whose value names a pre-existing
/// corner (a value below `base`) patches that corner's own connection to
/// point back at the new corner. Entries that point into the new block are
/// left alone; this is how two freshly added faces wire to each other.
pub open spec fn patch_connections(conn: Seq<int>, fresh: Seq<int>, base: int, j: int) -> Seq<int>
    decreases 6 - j,
{
    if j < 0 || j >= 6 {
        conn
    } else {
        let c = fresh[j];
        let conn2 = if 0 <= c < base {
            conn.update(c, base + j)
        } else {
            conn
        };
        patch_connections(conn2, fresh, base, j + 1)
    }
}

/// The mesh after appending two faces: six face-corner entries, six
/// connection entries, and the back-patching pass of `patch_connections`.
pub open spec fn add_faces_model(m: MeshModel, fidx: Seq<int>, fconn: Seq<int>) -> MeshModel {
    let base = m.connections.len() as int;
    MeshModel {
        indices: m.indices + fidx,
        connections: patch_connections(m.connections + fconn, fconn, base, 0),
        ..m
    }
}

proof fn lemma_patch_connections_bounds(conn: Seq<int>, fresh: Seq<int>, base: int, j: int, bound: int)
    requires
        fresh.len() == 6,
        0 <= base,
        base + 6 <= bound,
        conn.len() == base + 6,
        forall|i: int| 0 <= i < conn.len() ==> 0 <= #[trigger] conn[i] < bound,
    ensures
        patch_connections(conn, fresh, base, j).len() == conn.len(),
        forall|i: int|
            0 <= i < conn.len() ==> 0 <= #[trigger] patch_connections(conn, fresh, base, j)[i]
                < bound,
    decreases 6 - j,
{
    if 0 <= j < 6 {
        let c = fresh[j];
        let conn2 = if 0 <= c < base {
            conn.update(c, base + j)
        } else {
            conn
        };
        assert forall|i: int| 0 <= i < conn2.len() implies 0 <= #[trigger] conn2[i] < bound by {
            if !(0 <= c < base && i == c) {
                assert(conn2[i] == conn[i]);
            }
        }
        lemma_patch_connections_bounds(conn2, fresh, base, j + 1, bound);
    }
}

/// First corner of the face that corner `c` belongs to.
pub open spec fn face_start(c: int) -> int {
    c - c % 3
}

/// Cyclic successor of corner `c` within its own face's triple.
pub open spec fn next_in_face(c: int) -> int {
    face_start(c) + (c % 3 + 1) % 3
}

/// One step of the tied-vertex walk: cross the edge to the adjacent face,
/// then advance to the next corner within that face.
pub open spec fn step_corner(conn: Seq<int>, c: int) -> int {
    next_in_face(conn[c])
}

/// The corner reached after `i` steps of the tied-vertex walk from `start`.
pub open spec fn walk(conn: Seq<int>, start: int, i: int) -> int
    decreases i,
{
    if i <= 0 {
        start
    } else {
        step_corner(conn, walk(conn, start, i - 1))
    }
}

/// Connectivity symmetry: crossing an edge twice leads back to the corner
/// one started from. This is the defining property of the adjacency array.
pub open spec fn connections_symmetric(conn: Seq<int>) -> bool {
    forall|c: int| 0 <= c < conn.len() ==> conn[#[trigger] conn[c]] == c
}

/// Every connection crosses into a different face: no face is its own
/// neighbor along any edge.
pub open spec fn connections_cross_faces(conn: Seq<int>) -> bool {
    forall|c: int| 0 <= c < conn.len() ==> face_start(#[trigger] conn[c]) != face_start(c)
}

/// The three edges of one face lead to three distinct neighboring faces.
pub open spec fn neighbors_distinct(conn: Seq<int>) -> bool {
    forall|c: int, d: int|
        #![trigger conn[c], conn[d]]
        0 <= c < conn.len() && 0 <= d < conn.len() && c != d && face_start(c) == face_start(d)
            ==> face_start(conn[c]) != face_start(conn[d])
}

/// The adjacency invariant that every edit preserves: connections are
/// symmetric, always cross into another face, and give each face three
/// distinct neighbors.
pub open spec fn adjacency_ok(m: MeshModel) -> bool {
    &&& connections_symmetric(m.connections)
    &&& connections_cross_faces(m.connections)
    &&& neighbors_distinct(m.connections)
}

/// Whether the tied-vertex walk from `start` returns to `start` within at
/// most `n` steps.
pub open spec fn ring_closes_within(conn: Seq<int>, start: int, n: int) -> bool {
    exists|j: int| 1 <= j <= n && #[trigger] walk(conn, start, j) == start
}

/// Whether vertex slot `v` is referenced by some corner on the tied-vertex
/// ring through `start`.
pub open spec fn ring_touches_vertex(m: MeshModel, start: int, v: int) -> bool {
    exists|i: int|
        0 <= i <= m.connections.len() && m.indices[#[trigger] walk(m.connections, start, i)] == v
}

/// The positions array after a tied-vertex update: every vertex slot on the
/// ring through `start` receives `p`; every other slot keeps its position.
pub open spec fn modify_positions(m: MeshModel, start: int, p: Vec3) -> Seq<Vec3> {
    Seq::new(
        m.positions.len(),
        |v: int|
            if ring_touches_vertex(m, start, v) {
                p
            } else {
                m.positions[v]
            },
    )
}

/// The mesh after a tied-vertex position update starting at corner `start`.
pub open spec fn modify_vertex_model(m: MeshModel, start: int, p: Vec3) -> MeshModel {
    MeshModel { positions: modify_positions(m, start, p), ..m }
}

/// Positions after the first `k` steps of the tied-vertex walk have been
/// applied: the intermediate states of a ring update.
spec fn partial_modify(m: MeshModel, start: int, p: Vec3, k: int) -> Seq<Vec3> {
    Seq::new(
        m.positions.len(),
        |v: int|
            if exists|i: int|
                0 <= i < k && m.indices[#[trigger] walk(m.connections, start, i)] == v {
                p
            } else {
                m.positions[v]
            },
    )
}

/// With symmetric, in-range connections the walk step is injective: two
/// corners that step to the same corner are the same corner.
proof fn lemma_step_injective(conn: Seq<int>, c1: int, c2: int)
    requires
        forall|c: int| 0 <= c < conn.len() ==> 0 <= #[trigger] conn[c] < conn.len(),
        connections_symmetric(conn),
        0 <= c1 < conn.len(),
        0 <= c2 < conn.len(),
        step_corner(conn, c1) == step_corner(conn, c2),
    ensures
        c1 == c2,
{
    let d1 = conn[c1];
    let d2 = conn[c2];
    assert(face_start(next_in_face(d1)) == face_start(d1));
    assert(face_start(next_in_face(d2)) == face_start(d2));
    assert(next_in_face(d1) % 3 == (d1 % 3 + 1) % 3);
    assert(next_in_face(d2) % 3 == (d2 % 3 + 1) % 3);
    assert(d1 == d2);
    assert(conn[conn[c1]] == c1 && conn[conn[c2]] == c2);
}

/// Every corner the walk reaches is a valid corner.
proof fn lemma_walk_in_range(conn: Seq<int>, start: int, i: int)
    requires
        forall|c: int| 0 <= c < conn.len() ==> 0 <= #[trigger] conn[c] < conn.len(),
        conn.len() % 3 == 0,
        0 <= start < conn.len(),
        0 <= i,
    ensures
        0 <= walk(conn, start, i) < conn.len(),
    decreases i,
{
    if i > 0 {
        lemma_walk_in_range(conn, start, i - 1);
        let w = walk(conn, start, i - 1);
        let d = conn[w];
        assert(d - d % 3 + 2 < conn.len());
    }
}

/// If the walk visits the same corner after `i` and after `j` steps, the
/// start is itself revisited after `j - i` steps: the walk's trajectory is a
/// pure cycle through its starting corner.
proof fn lemma_walk_cancel(conn: Seq<int>, start: int, i: int, j: int)
    requires
        forall|c: int| 0 <= c < conn.len() ==> 0 <= #[trigger] conn[c] < conn.len(),
        conn.len() % 3 == 0,
        connections_symmetric(conn),
        0 <= start < conn.len(),
        0 <= i <= j,
        walk(conn, start, i) == walk(conn, start, j),
    ensures
        walk(conn, start, j - i) == start,
    decreases i,
{
    if i == 0 {
    } else {
        lemma_walk_in_range(conn, start, i - 1);
        lemma_walk_in_range(conn, start, j - 1);
        lemma_step_injective(
            conn,
            walk(conn, start, i - 1),
            walk(conn, start, j - 1),
        );
        lemma_walk_cancel(conn, start, i - 1, j - 1);
    }
}

/// Tied-vertex ring closure: on a mesh whose connections are symmetric, the
/// tied-vertex walk from any corner returns to that corner within at most
/// one step per corner, so a position edit always terminates.
pub proof fn lemma_ring_closes(conn: Seq<int>, start: int)
    requires
        forall|c: int| 0 <= c < conn.len() ==> 0 <= #[trigger] conn[c] < conn.len(),
        conn.len() % 3 == 0,
        connections_symmetric(conn),
        0 <= start < conn.len(),
    ensures
        ring_closes_within(conn, start, conn.len() as int),
{
    let n = conn.len() as int;
    if !ring_closes_within(conn, start, n) {
        assert(forall|j: int| 1 <= j <= n ==> #[trigger] walk(conn, start, j) != start);
        let trail = Seq::new((n + 1) as nat, |i: int| walk(conn, start, i));
        assert forall|i: int, j: int|
            0 <= i < trail.len() && 0 <= j < trail.len() && i != j implies trail[i]
            != trail[j] by {
            if trail[i] == trail[j] {
                if i < j {
                    lemma_walk_cancel(conn, start, i, j);
                    assert(walk(conn, start, j - i) == start);
                } else {
                    lemma_walk_cancel(conn, start, j, i);
                    assert(walk(conn, start, i - j) == start);
                }
            }
        }
        assert(trail.no_duplicates());
        trail.unique_seq_to_set();
        assert forall|x: int| trail.to_set().contains(x) implies vstd::set_lib::set_int_range(
            0,
            n,
        ).contains(x) by {
            let i = choose|i: int| 0 <= i < trail.len() && trail[i] == x;
            lemma_walk_in_range(conn, start, i);
        }
        vstd::set_lib::lemma_int_range(0, n);
        vstd::set_lib::lemma_len_subset(trail.to_set(), vstd::set_lib::set_int_range(0, n));
        assert(trail.to_set().len() <= n);
        assert(false);
    }
}

/// Each face's three corners reference three distinct vertex slots: no
/// triangle is degenerate at a vertex.
pub open spec fn faces_nondegenerate(m: MeshModel) -> bool {
    forall|c: int, d: int|
        #![trigger m.indices[c], m.indices[d]]
        0 <= c < m.indices.len() && 0 <= d < m.indices.len() && c != d && face_start(c)
            == face_start(d) ==> m.indices[c] != m.indices[d]
}

/// The tied-vertex walk follows a single vertex slot: stepping across an
/// edge and on to the next corner lands on a corner that references the
/// same vertex it left.
pub open spec fn rings_follow_vertex(m: MeshModel) -> bool {
    forall|c: int|
        0 <= c < m.connections.len() ==> m.indices[#[trigger] step_corner(m.connections, c)]
            == m.indices[c]
}

/// Every corner on a ring references the vertex the ring started from.
proof fn lemma_ring_single_vertex(m: MeshModel, start: int, i: int)
    requires
        m.wf(),
        rings_follow_vertex(m),
        0 <= start < m.connections.len(),
        0 <= i,
    ensures
        m.indices[walk(m.connections, start, i)] == m.indices[start],
    decreases i,
{
    if i > 0 {
        lemma_ring_single_vertex(m, start, i - 1);
        lemma_walk_in_range(m.connections, start, i - 1);
    }
}

/// Tied-vertex ring closure at face granularity: on a mesh with symmetric
/// connections, nondegenerate faces, and a walk step that follows a single
/// vertex, the ring through any corner visits each face at most once, so it
/// returns to its starting corner within one step per face — at most
/// `len(indices) / 3` steps.
pub proof fn lemma_ring_closes_within_face_count(m: MeshModel, start: int)
    requires
        m.wf(),
        connections_symmetric(m.connections),
        faces_nondegenerate(m),
        rings_follow_vertex(m),
        0 <= start < m.connections.len(),
    ensures
        ring_closes_within(m.connections, start, m.connections.len() as int / 3),
{
    let conn = m.connections;
    let n = conn.len() as int;
    let fcount = n / 3;
    assert(3 * fcount == n);
    if !ring_closes_within(conn, start, fcount) {
        assert(forall|j: int| 1 <= j <= fcount ==> #[trigger] walk(conn, start, j) != start);
        let trail = Seq::new((fcount + 1) as nat, |i: int| face_start(walk(conn, start, i)) / 3);
        assert forall|i: int, j: int|
            0 <= i < trail.len() && 0 <= j < trail.len() && i != j implies trail[i]
            != trail[j] by {
            let lo = if i < j {
                i
            } else {
                j
            };
            let hi = if i < j {
                j
            } else {
                i
            };
            let wlo = walk(conn, start, lo);
            let whi = walk(conn, start, hi);
            lemma_walk_in_range(conn, start, lo);
            lemma_walk_in_range(conn, start, hi);
            if wlo == whi {
                lemma_walk_cancel(conn, start, lo, hi);
                assert(walk(conn, start, hi - lo) == start);
            }
            if trail[i] == trail[j] {
                assert(face_start(wlo) == face_start(whi));
                lemma_ring_single_vertex(m, start, lo);
                lemma_ring_single_vertex(m, start, hi);
                assert(m.indices[wlo] == m.indices[whi]);
                assert(false);
            }
        }
        assert(trail.no_duplicates());
        trail.unique_seq_to_set();
        assert forall|x: int| trail.to_set().contains(x) implies vstd::set_lib::set_int_range(
            0,
            fcount,
        ).contains(x) by {
            let i = choose|i: int| 0 <= i < trail.len() && trail[i] == x;
            lemma_walk_in_range(conn, start, i);
        }
        vstd::set_lib::lemma_int_range(0, fcount);
        vstd::set_lib::lemma_len_subset(
            trail.to_set(),
            vstd::set_lib::set_int_range(0, fcount),
        );
        assert(trail.to_set().len() <= fcount);
        assert(false);
    }
}

/// Every corner visited by the tied-vertex walk sees the identical new
/// position after a position edit: at any number of steps from the start,
/// the vertex referenced there holds `p` in the updated mesh.
pub proof fn lemma_ring_vertices_updated(m: MeshModel, start: int, p: Vec3, i: int)
    requires
        m.wf(),
        0 <= start < m.connections.len(),
        0 <= i <= m.connections.len(),
    ensures
        modify_vertex_model(m, start, p).positions[m.indices[walk(m.connections, start, i)]]
            == p,
{
    lemma_walk_in_range(m.connections, start, i);
    let w = walk(m.connections, start, i);
    let v = m.indices[w];
    assert(ring_touches_vertex(m, start, v));
    assert(0 <= v < m.positions.len());
}

/// Once the walk returns to its start after `jr` steps, it repeats with
/// period `jr`.
proof fn lemma_walk_period(conn: Seq<int>, start: int, jr: int, i: int)
    requires
        1 <= jr,
        walk(conn, start, jr) == start,
        0 <= i,
    ensures
        walk(conn, start, i + jr) == walk(conn, start, i),
    decreases i,
{
    if i > 0 {
        lemma_walk_period(conn, start, jr, i - 1);
    }
}

/// Every corner the walk ever reaches is already reached within the first
/// `jr` steps, where `jr` is a step count that returns to the start.
proof fn lemma_walk_reduces(conn: Seq<int>, start: int, jr: int, i: int) -> (i2: int)
    requires
        1 <= jr,
        walk(conn, start, jr) == start,
        0 <= i,
    ensures
        0 <= i2 < jr,
        walk(conn, start, i2) == walk(conn, start, i),
    decreases i,
{
    if i < jr {
        i
    } else {
        lemma_walk_period(conn, start, jr, i - jr);
        assert(walk(conn, start, (i - jr) + jr) == walk(conn, start, i - jr));
        lemma_walk_reduces(conn, start, jr, i - jr)
    }
}

/// The smallest multiple of `BLOCK_SIZE` that is at least `n`: the storage
/// size that `clean` shrinks the vertex store to.
pub open spec fn block_round_up(n: int) -> int {
    ((n + BLOCK_SIZE - 1) / (BLOCK_SIZE as int)) * (BLOCK_SIZE as int)
}

proof fn lemma_block_round_up_bounds(n: int)
    requires
        0 <= n,
    ensures
        n <= block_round_up(n) < n + (BLOCK_SIZE as int),
        block_round_up(n) % (BLOCK_SIZE as int) == 0,
{
    let b = BLOCK_SIZE as int;
    let q = (n + b - 1) / b;
    let r = (n + b - 1) % b;
    lemma_fundamental_div_mod(n + b - 1, b);
    lemma_mod_pos_bound(n + b - 1, b);
    assert(n + b - 1 == b * q + r);
    assert(q * b == b * q) by (nonlinear_arith);
    assert(block_round_up(n) == q * b);
    lemma_mod_multiples_vanish(q, 0, b);
    assert((b * q + 0) % b == 0int % b);
}

proof fn lemma_block_round_up_le(n: int, cap: int)
    requires
        0 <= n <= cap,
        cap % (BLOCK_SIZE as int) == 0,
    ensures
        block_round_up(n) <= cap,
{
    let b = BLOCK_SIZE as int;
    lemma_block_round_up_bounds(n);
    let m = cap / b;
    lemma_fundamental_div_mod(cap, b);
    assert(cap == b * m);
    assert(cap + b - 1 == m * b + (b - 1)) by (nonlinear_arith)
        requires
            cap == b * m,
    ;
    lemma_fundamental_div_mod_converse(cap + b - 1, b, m, b - 1);
    lemma_div_is_ordered(n + b - 1, cap + b - 1, b);
    let q = (n + b - 1) / b;
    assert(q <= m);
    lemma_mul_inequality(q, m, b);
    assert(m * b == b * m) by (nonlinear_arith);
}

/// The mutable triangle mesh: vertex store, face-corner and adjacency
/// arrays, free-list of deleted vertices, and the selection-handle table.
pub struct DynamicMesh {
    pub positions: Vec<Vec3>,
    pub colors: Vec<Rgba>,
    pub deleted_vertices: Vec<usize>,
    pub indices: Vec<usize>,
    pub connections: Vec<usize>,
    pub vertex_count: usize,
    pub handle_table: Vec<usize>,
}

impl View for DynamicMesh {
    type V = MeshModel;

    open spec fn view(&self) -> MeshModel {
        MeshModel {
            positions: self.positions@,
            colors: self.colors@,
            vertex_count: self.vertex_count as int,
            indices: as_ints(self.indices@),
            connections: as_ints(self.connections@),
            deleted: as_ints(self.deleted_vertices@),
            handles: as_ints(self.handle_table@),
        }
    }
}

/// Splits a corner into the first corner of its face and its offset within
/// the face's triple.
pub fn decompose_meta_index(meta_index: usize) -> (r: (usize, usize))
    ensures
        r.0 == meta_index - meta_index % 3,
        r.1 == meta_index % 3,
        r.0 % 3 == 0,
{
    let offset = meta_index % 3;
    let start = meta_index - offset;
    (start, offset)
}

impl DynamicMesh {
    /// Whether this mesh is a well-formed topology state.
    pub open spec fn wf(&self) -> bool {
        self@.wf()
    }

    /// A fresh mesh holding the seed shape.
    pub fn new() -> (r: DynamicMesh)
        ensures
            r@ == seed_mesh(),
            r.wf(),
    {
        let mut mesh = DynamicMesh {
            positions: Vec::new(),
            colors: Vec::new(),
            deleted_vertices: Vec::new(),
            indices: Vec::new(),
            connections: Vec::new(),
            vertex_count: 0,
            handle_table: Vec::new(),
        };
        mesh.clear();
        mesh
    }

    /// Replaces all state with the seed shape: the seed vertices in one
    /// zeroed storage block, the seed faces and their adjacency, an empty
    /// free-list, and an empty handle table (so the handle counter restarts).
    pub fn clear(&mut self)
        ensures
            final(self)@ == seed_mesh(),
            final(self).wf(),
    {
        let mut positions: Vec<Vec3> = Vec::new();
        positions.push(Vec3 { x: 0, y: 0, z: 0 });
        positions.push(Vec3 { x: 0, y: 0, z: COORD_ONE });
        positions.push(Vec3 { x: 0, y: COORD_ONE, z: 0 });
        positions.push(Vec3 { x: COORD_ONE, y: 0, z: 0 });
        while positions.len() < BLOCK_SIZE
            invariant
                4 <= positions.len() <= BLOCK_SIZE,
                forall|i: int| 0 <= i < positions.len() ==> positions@[i] == seed_position(i),
            decreases BLOCK_SIZE - positions.len(),
        {
            positions.push(Vec3 { x: 0, y: 0, z: 0 });
        }
        let mut colors: Vec<Rgba> = Vec::new();
        while colors.len() < BLOCK_SIZE
            invariant
                colors.len() <= BLOCK_SIZE,
                forall|i: int|
                    0 <= i < colors.len() ==> colors@[i] == (Rgba { r: 0, g: 0, b: 0, a: 0 }),
            decreases BLOCK_SIZE - colors.len(),
        {
            colors.push(Rgba { r: 0, g: 0, b: 0, a: 0 });
        }
        self.positions = positions;
        self.colors = colors;
        self.deleted_vertices = Vec::new();
        self.indices = vec![0, 2, 1, 0, 1, 3, 0, 3, 2, 3, 1, 2];
        self.connections = vec![8, 10, 3, 2, 9, 6, 5, 11, 0, 4, 1, 7];
        self.vertex_count = 4;
        self.handle_table = Vec::new();
        proof {
            assert(self.positions@ =~= seed_mesh().positions);
            assert(self.colors@ =~= seed_mesh().colors);
            assert(as_ints(self.indices@) =~= seed_mesh().indices);
            assert(as_ints(self.connections@) =~= seed_mesh().connections);
            assert(as_ints(self.deleted_vertices@) =~= seed_mesh().deleted);
            assert(as_ints(self.handle_table@) =~= seed_mesh().handles);
        }
    }

    /// Number of live vertex slots.
    pub fn live_vertex_count(&self) -> (r: usize)
        ensures
            r == self@.vertex_count,
    {
        self.vertex_count
    }

    /// Grows the vertex store (positions and colors alike) by one block of
    /// zeroed slots; never touches live data.
    pub fn request_more_memory(&mut self)
        requires
            old(self).wf(),
            old(self)@.positions.len() + BLOCK_SIZE <= usize::MAX,
        ensures
            final(self)@ == grown_model(old(self)@),
            final(self).wf(),
    {
        let target = self.positions.len() + BLOCK_SIZE;
        while self.positions.len() < target
            invariant
                old(self)@.positions.len() <= self.positions@.len() <= target,
                target == old(self)@.positions.len() + BLOCK_SIZE,
                self.positions@ == old(self)@.positions + Seq::new(
                    (self.positions@.len() - old(self)@.positions.len()) as nat,
                    |i: int| Vec3 { x: 0, y: 0, z: 0 },
                ),
                self.colors@ == old(self)@.colors,
                self.indices@ == old(self).indices@,
                self.connections@ == old(self).connections@,
                self.deleted_vertices@ == old(self).deleted_vertices@,
                self.handle_table@ == old(self).handle_table@,
                self.vertex_count == old(self).vertex_count,
            decreases target - self.positions.len(),
        {
            self.positions.push(Vec3 { x: 0, y: 0, z: 0 });
            proof {
                assert(self.positions@ =~= old(self)@.positions + Seq::new(
                    (self.positions@.len() - old(self)@.positions.len()) as nat,
                    |i: int| Vec3 { x: 0, y: 0, z: 0 },
                ));
            }
        }
        let ctarget = self.colors.len() + BLOCK_SIZE;
        while self.colors.len() < ctarget
            invariant
                old(self)@.colors.len() <= self.colors@.len() <= ctarget,
                ctarget == old(self)@.colors.len() + BLOCK_SIZE,
                self.positions@ == grown_model(old(self)@).positions,
                self.colors@ == old(self)@.colors + Seq::new(
                    (self.colors@.len() - old(self)@.colors.len()) as nat,
                    |i: int| Rgba { r: 0, g: 0, b: 0, a: 0 },
                ),
                self.indices@ == old(self).indices@,
                self.connections@ == old(self).connections@,
                self.deleted_vertices@ == old(self).deleted_vertices@,
                self.handle_table@ == old(self).handle_table@,
                self.vertex_count == old(self).vertex_count,
            decreases ctarget - self.colors.len(),
        {
            self.colors.push(Rgba { r: 0, g: 0, b: 0, a: 0 });
            proof {
                assert(self.colors@ =~= old(self)@.colors + Seq::new(
                    (self.colors@.len() - old(self)@.colors.len()) as nat,
                    |i: int| Rgba { r: 0, g: 0, b: 0, a: 0 },
                ));
            }
        }
        proof {
            assert(self.positions@ =~= grown_model(old(self)@).positions);
            assert(self.colors@ =~= grown_model(old(self)@).colors);
        }
    }

    /// Appends one vertex at `position` and returns its slot index. Grows
    /// storage by one block when the live count crosses a block boundary;
    /// fails only when that growth would exceed a machine limit.
    pub fn add_vertex(&mut self, position: Vec3) -> (r: Result<usize, EditError>)
        requires
            old(self).wf(),
        ensures
            final(self).wf(),
            r is Ok <==> add_vertex_ok(old(self)@),
            r is Ok ==> r->Ok_0 == old(self)@.vertex_count && final(self)@ == add_vertex_model(
                old(self)@,
                position,
            ),
            r is Err ==> final(self)@ == old(self)@,
    {
        if self.vertex_count % BLOCK_SIZE == 0 {
            if self.positions.len() > usize::MAX - BLOCK_SIZE {
                return Err(EditError::CapacityExceeded);
            }
            self.request_more_memory();
        }
        let index = self.vertex_count;
        let slots = self.positions.len();
        assert(index < slots);
        self.positions.set(index, position);
        self.vertex_count = index + 1;
        proof {
            assert(final(self)@ == add_vertex_model(old(self)@, position));
        }
        Ok(index)
    }

    /// Allocates a new, never-reused handle bound to `meta_index`. Fails,
    /// changing nothing, when the corner lies beyond the face-corner array.
    pub fn track_index(&mut self, meta_index: usize) -> (r: Result<usize, EditError>)
        requires
            old(self).wf(),
        ensures
            final(self).wf(),
            r is Ok <==> meta_index < old(self)@.indices.len(),
            r is Ok ==> r->Ok_0 == old(self)@.handles.len() && final(self)@ == (MeshModel {
                handles: old(self)@.handles.push(meta_index as int),
                ..old(self)@
            }),
            r is Err ==> final(self)@ == old(self)@ && r->Err_0 == EditError::CornerOutOfRange,
    {
        if meta_index >= self.indices.len() {
            return Err(EditError::CornerOutOfRange);
        }
        let id = self.handle_table.len();
        self.handle_table.push(meta_index);
        proof {
            assert(as_ints(self.handle_table@) =~= old(self)@.handles.push(meta_index as int));
        }
        Ok(id)
    }

    /// The corner a handle is currently bound to.
    pub fn get_meta_index(&self, meta_index_id: usize) -> (r: Result<usize, EditError>)
        requires
            self.wf(),
        ensures
            r is Ok <==> meta_index_id < self@.handles.len(),
            r is Ok ==> r->Ok_0 == self@.handles[meta_index_id as int],
            r is Err ==> r->Err_0 == EditError::UnknownHandle,
    {
        if meta_index_id >= self.handle_table.len() {
            return Err(EditError::UnknownHandle);
        }
        Ok(self.handle_table[meta_index_id])
    }

    /// Rebinds a handle to the corner across the shared edge: the selection
    /// moves into the adjacent face.
    pub fn traverse_connection(&mut self, meta_index_id: usize) -> (r: Result<(), EditError>)
        requires
            old(self).wf(),
        ensures
            final(self).wf(),
            r is Ok <==> meta_index_id < old(self)@.handles.len(),
            r is Ok ==> final(self)@ == (MeshModel {
                handles: old(self)@.handles.update(
                    meta_index_id as int,
                    old(self)@.connections[old(self)@.handles[meta_index_id as int]],
                ),
                ..old(self)@
            }),
            r is Err ==> final(self)@ == old(self)@ && r->Err_0 == EditError::UnknownHandle,
    {
        if meta_index_id >= self.handle_table.len() {
            return Err(EditError::UnknownHandle);
        }
        let corner = self.handle_table[meta_index_id];
        let next = self.connections[corner];
        self.handle_table.set(meta_index_id, next);
        proof {
            assert(as_ints(self.handle_table@) =~= old(self)@.handles.update(
                meta_index_id as int,
                old(self)@.connections[old(self)@.handles[meta_index_id as int]],
            ));
        }
        Ok(())
    }

    /// Rebinds a handle to the given corner.
    pub fn rebind_handle(&mut self, meta_index_id: usize, corner: usize) -> (r: Result<
        (),
        EditError,
    >)
        requires
            old(self).wf(),
        ensures
            final(self).wf(),
            r is Ok <==> meta_index_id < old(self)@.handles.len() && corner < old(
                self,
            )@.indices.len(),
            r is Ok ==> final(self)@ == (MeshModel {
                handles: old(self)@.handles.update(meta_index_id as int, corner as int),
                ..old(self)@
            }),
            r is Err ==> final(self)@ == old(self)@,
            r is Err && meta_index_id < old(self)@.handles.len() ==> r == Err::<(), EditError>(
                EditError::CornerOutOfRange,
            ),
            meta_index_id >= old(self)@.handles.len() ==> r == Err::<(), EditError>(
                EditError::UnknownHandle,
            ),
    {
        if meta_index_id >= self.handle_table.len() {
            return Err(EditError::UnknownHandle);
        }
        if corner >= self.indices.len() {
            return Err(EditError::CornerOutOfRange);
        }
        self.handle_table.set(meta_index_id, corner);
        proof {
            assert(as_ints(self.handle_table@) =~= old(self)@.handles.update(
                meta_index_id as int,
                corner as int,
            ));
        }
        Ok(())
    }

    /// Appends exactly two triangular faces (six corners) with their
    /// connection values, then patches every pre-existing corner named by a
    /// new connection value so that it points back at the new corner — the
    /// one pass that wires freshly added faces into the surrounding mesh.
    /// Fails, changing nothing, only when the arrays can no longer grow.
    pub fn add_faces(&mut self, face_indices: [usize; 6], face_connections: [usize; 6]) -> (r:
        Result<(), EditError>)
        requires
            old(self).wf(),
            forall|j: int|
                0 <= j < 6 ==> (#[trigger] face_indices@[j] as int) < old(self)@.vertex_count,
            forall|j: int, k: int|
                #![trigger face_indices@[j], old(self)@.deleted[k]]
                0 <= j < 6 && 0 <= k < old(self)@.deleted.len() ==> face_indices@[j] as int
                    != old(self)@.deleted[k],
            forall|j: int|
                0 <= j < 6 ==> (#[trigger] face_connections@[j] as int) < old(
                    self,
                )@.connections.len() + 6,
        ensures
            final(self).wf(),
            r is Ok <==> old(self)@.connections.len() + 6 <= usize::MAX,
            r is Ok ==> final(self)@ == add_faces_model(
                old(self)@,
                as_ints(face_indices@),
                as_ints(face_connections@),
            ),
            r is Err ==> final(self)@ == old(self)@ && r->Err_0 == EditError::CapacityExceeded,
    {
        let base = self.connections.len();
        if base > usize::MAX - 6 {
            return Err(EditError::CapacityExceeded);
        }
        let ghost fidx = as_ints(face_indices@);
        let ghost fconn = as_ints(face_connections@);
        let mut j: usize = 0;
        while j < 6
            invariant
                j <= 6,
                base == old(self).connections@.len(),
                base + 6 <= usize::MAX,
                self.indices@ == old(self).indices@ + face_indices@.subrange(0, j as int),
                self.connections@ == old(self).connections@ + face_connections@.subrange(
                    0,
                    j as int,
                ),
                self.positions@ == old(self).positions@,
                self.colors@ == old(self).colors@,
                self.deleted_vertices@ == old(self).deleted_vertices@,
                self.handle_table@ == old(self).handle_table@,
                self.vertex_count == old(self).vertex_count,
            decreases 6 - j,
        {
            self.indices.push(face_indices[j]);
            self.connections.push(face_connections[j]);
            j = j + 1;
            proof {
                assert(self.indices@ =~= old(self).indices@ + face_indices@.subrange(0, j as int));
                assert(self.connections@ =~= old(self).connections@ + face_connections@.subrange(
                    0,
                    j as int,
                ));
            }
        }
        let ghost appended = old(self)@.connections + fconn;
        proof {
            assert(face_indices@.subrange(0, 6) =~= face_indices@);
            assert(face_connections@.subrange(0, 6) =~= face_connections@);
            assert(as_ints(self.indices@) =~= old(self)@.indices + fidx);
            assert(as_ints(self.connections@) =~= appended);
        }
        let mut k: usize = 0;
        while k < 6
            invariant
                k <= 6,
                base == old(self).connections@.len(),
                base + 6 <= usize::MAX,
                self.connections@.len() == base + 6,
                appended == old(self)@.connections + fconn,
                fconn == as_ints(face_connections@),
                patch_connections(appended, fconn, base as int, 0) == patch_connections(
                    as_ints(self.connections@),
                    fconn,
                    base as int,
                    k as int,
                ),
                self.indices@ == old(self).indices@ + face_indices@,
                self.positions@ == old(self).positions@,
                self.colors@ == old(self).colors@,
                self.deleted_vertices@ == old(self).deleted_vertices@,
                self.handle_table@ == old(self).handle_table@,
                self.vertex_count == old(self).vertex_count,
            decreases 6 - k,
        {
            let c = face_connections[k];
            let ghost before = as_ints(self.connections@);
            proof {
                assert(fconn[k as int] == c as int);
            }
            if c < base {
                self.connections.set(c, base + k);
                proof {
                    assert(as_ints(self.connections@) =~= before.update(c as int, base + k));
                }
            }
            proof {
                assert(patch_connections(before, fconn, base as int, k as int)
                    == patch_connections(as_ints(self.connections@), fconn, base as int, k + 1));
            }
            k = k + 1;
        }
        proof {
            assert(patch_connections(as_ints(self.connections@), fconn, base as int, 6)
                == as_ints(self.connections@));
            assert(final(self)@.indices =~= add_faces_model(old(self)@, fidx, fconn).indices);
            assert(final(self)@ == add_faces_model(old(self)@, fidx, fconn));
            lemma_patch_connections_bounds(appended, fconn, base as int, 0, base + 6);
            let fm = final(self)@;
            assert forall|i: int|
                0 <= i < fm.indices.len() implies 0 <= #[trigger] fm.indices[i]
                    < fm.vertex_count by {
                if i < base {
                    assert(fm.indices[i] == old(self)@.indices[i]);
                } else {
                    assert(fm.indices[i] == fidx[i - base]);
                    assert(fidx[i - base] == face_indices@[i - base] as int);
                }
            }
            assert forall|c2: int, k2: int|
                #![trigger fm.indices[c2], fm.deleted[k2]]
                0 <= c2 < fm.indices.len() && 0 <= k2 < fm.deleted.len() implies fm.indices[c2]
                    != fm.deleted[k2] by {
                if c2 < base {
                    assert(fm.indices[c2] == old(self)@.indices[c2]);
                } else {
                    assert(fm.indices[c2] == face_indices@[c2 - base] as int);
                }
            }
            assert(final(self)@.wf());
        }
        Ok(())
    }

    /// One step of the tied-vertex walk, executably: cross the edge leaving
    /// `c`, then advance to the next corner of the face landed in.
    fn step_corner_exec(&self, c: usize) -> (r: usize)
        requires
            self.wf(),
            c < self@.connections.len(),
        ensures
            r as int == step_corner(self@.connections, c as int),
            r < self@.connections.len(),
    {
        let len = self.connections.len();
        let d = self.connections[c];
        proof {
            assert(d as int == self@.connections[c as int]);
            assert(d < len);
            assert(d as int - d as int % 3 + 2 < len as int);
        }
        let offset = d % 3;
        let start = d - offset;
        start + (offset + 1) % 3
    }

    /// Updates the position of the vertex at the handle's corner, then walks
    /// the ring of all corners tied to that geometric point — repeatedly
    /// crossing the shared edge and stepping to the next corner within the
    /// face — giving every tied corner's vertex the same new position. The
    /// walk is checked first: if it would not return to its starting corner
    /// within one step per corner, nothing is changed and an error reports
    /// the corrupted topology.
    pub fn modify_vertex(&mut self, meta_index_id: usize, position: Vec3) -> (r: Result<
        (),
        EditError,
    >)
        requires
            old(self).wf(),
        ensures
            final(self).wf(),
            r is Ok <==> meta_index_id < old(self)@.handles.len() && ring_closes_within(
                old(self)@.connections,
                old(self)@.handles[meta_index_id as int],
                old(self)@.connections.len() as int,
            ),
            r is Ok ==> final(self)@ == modify_vertex_model(
                old(self)@,
                old(self)@.handles[meta_index_id as int],
                position,
            ),
            r is Err ==> final(self)@ == old(self)@,
            meta_index_id >= old(self)@.handles.len() ==> r == Err::<(), EditError>(
                EditError::UnknownHandle,
            ),
            r is Err && meta_index_id < old(self)@.handles.len() ==> r == Err::<(), EditError>(
                EditError::RingNotClosed,
            ),
    {
        if meta_index_id >= self.handle_table.len() {
            return Err(EditError::UnknownHandle);
        }
        let start = self.handle_table[meta_index_id];
        proof {
            assert(start as int == self@.handles[meta_index_id as int]);
        }
        let n = self.indices.len();
        let ghost conn = self@.connections;
        let mut cur = self.step_corner_exec(start);
        let mut j: usize = 1;
        proof {
            assert(walk(conn, start as int, 0) == start as int);
            assert(walk(conn, start as int, 1) == step_corner(conn, walk(conn, start as int, 0)));
        }
        while cur != start && j < n
            invariant
                self == old(self),
                self.wf(),
                conn == self@.connections,
                n == self@.connections.len(),
                start < n,
                cur < n,
                1 <= j <= n,
                cur as int == walk(conn, start as int, j as int),
                forall|i: int| 1 <= i < j ==> #[trigger] walk(conn, start as int, i) != start,
            decreases n - j,
        {
            cur = self.step_corner_exec(cur);
            j = j + 1;
            proof {
                assert(walk(conn, start as int, j as int) == step_corner(
                    conn,
                    walk(conn, start as int, j - 1),
                ));
            }
        }
        if cur != start {
            proof {
                assert(j == n);
                assert(forall|i: int|
                    1 <= i <= n ==> #[trigger] walk(conn, start as int, i) != start);
                assert(!ring_closes_within(conn, start as int, n as int));
            }
            return Err(EditError::RingNotClosed);
        }
        let jr = j;
        proof {
            assert(walk(conn, start as int, jr as int) == start);
            assert(ring_closes_within(conn, start as int, n as int));
        }
        let v0 = self.indices[start];
        proof {
            assert(v0 as int == old(self)@.indices[start as int]);
            assert((v0 as int) < self.positions@.len());
        }
        self.positions.set(v0, position);
        proof {
            let m0 = old(self)@;
            let s = start as int;
            assert(walk(conn, s, 0) == s);
            assert(m0.indices[s] == v0 as int);
            assert forall|u: int| 0 <= u < m0.positions.len() implies self.positions@[u]
                == partial_modify(m0, s, position, 1)[u] by {
                if u == v0 as int {
                    assert(m0.indices[walk(conn, s, 0)] == u);
                } else {
                    assert(forall|i: int|
                        0 <= i < 1 ==> m0.indices[#[trigger] walk(conn, s, i)] != u);
                }
            }
            assert(self.positions@ =~= partial_modify(m0, s, position, 1));
            assert(self.positions@.len() == old(self).positions@.len());
            assert(self@.indices == old(self)@.indices);
            assert(self@.connections == old(self)@.connections);
            assert(self@.deleted == old(self)@.deleted);
            assert(self@.handles == old(self)@.handles);
            assert(self.wf());
        }
        let mut cur2 = self.step_corner_exec(start);
        let mut k: usize = 1;
        proof {
            assert(walk(conn, start as int, 1) == step_corner(conn, walk(conn, start as int, 0)));
        }
        while cur2 != start
            invariant
                self.colors@ == old(self).colors@,
                self.indices@ == old(self).indices@,
                self.connections@ == old(self).connections@,
                self.deleted_vertices@ == old(self).deleted_vertices@,
                self.handle_table@ == old(self).handle_table@,
                self.vertex_count == old(self).vertex_count,
                self.positions@.len() == old(self).positions@.len(),
                old(self).wf(),
                self.wf(),
                conn == old(self)@.connections,
                n == conn.len(),
                start < n,
                cur2 < n,
                1 <= k <= jr <= n,
                walk(conn, start as int, jr as int) == start,
                forall|i: int| 1 <= i < jr ==> #[trigger] walk(conn, start as int, i) != start,
                cur2 as int == walk(conn, start as int, k as int),
                self.positions@ == partial_modify(old(self)@, start as int, position, k as int),
            decreases jr - k,
        {
            proof {
                if k == jr {
                    assert(cur2 == start);
                }
            }
            let v = self.indices[cur2];
            proof {
                assert(v as int == old(self)@.indices[cur2 as int]);
                assert(v < self.positions@.len());
            }
            let ghost before = self.positions@;
            self.positions.set(v, position);
            proof {
                let m0 = old(self)@;
                let s = start as int;
                assert forall|u: int| 0 <= u < m0.positions.len() implies self.positions@[u]
                    == partial_modify(m0, s, position, k + 1)[u] by {
                    if u == v as int {
                        assert(m0.indices[walk(conn, s, k as int)] == u);
                        assert(partial_modify(m0, s, position, k + 1)[u] == position);
                    } else {
                        assert(self.positions@[u] == before[u]);
                        if exists|i: int|
                            0 <= i < k && m0.indices[#[trigger] walk(conn, s, i)] == u {
                            let i = choose|i: int|
                                0 <= i < k && m0.indices[#[trigger] walk(conn, s, i)] == u;
                            assert(0 <= i < k + 1 && m0.indices[walk(conn, s, i)] == u);
                        } else {
                            assert(forall|i: int|
                                0 <= i < k + 1 ==> m0.indices[#[trigger] walk(conn, s, i)] != u);
                        }
                    }
                }
                assert(self.positions@ =~= partial_modify(m0, s, position, k + 1));
                assert(self.positions@.len() == old(self).positions@.len());
                assert(self@.indices == old(self)@.indices);
                assert(self@.connections == old(self)@.connections);
                assert(self@.deleted == old(self)@.deleted);
                assert(self@.handles == old(self)@.handles);
                assert(self.wf());
            }
            cur2 = self.step_corner_exec(cur2);
            k = k + 1;
            proof {
                assert(walk(conn, start as int, k as int) == step_corner(
                    conn,
                    walk(conn, start as int, k - 1),
                ));
            }
        }
        proof {
            assert(walk(conn, start as int, k as int) == start);
            assert(k == jr);
            let m0 = old(self)@;
            let s = start as int;
            assert forall|u: int| 0 <= u < m0.positions.len() implies self.positions@[u]
                == modify_positions(m0, s, position)[u] by {
                if exists|i: int| 0 <= i < jr && m0.indices[#[trigger] walk(conn, s, i)] == u {
                    let i = choose|i: int|
                        0 <= i < jr && m0.indices[#[trigger] walk(conn, s, i)] == u;
                    assert(0 <= i <= m0.connections.len() && m0.indices[walk(conn, s, i)] == u);
                    assert(ring_touches_vertex(m0, s, u));
                } else {
                    if ring_touches_vertex(m0, s, u) {
                        let i = choose|i: int|
                            0 <= i <= m0.connections.len() && m0.indices[#[trigger] walk(
                                conn,
                                s,
                                i,
                            )] == u;
                        let i2 = lemma_walk_reduces(conn, s, jr as int, i);
                        assert(m0.indices[walk(conn, s, i2)] == u);
                        assert(false);
                    }
                }
            }
            assert(self.positions@ =~= modify_positions(m0, s, position));
            assert(final(self)@ == modify_vertex_model(m0, s, position));
        }
        Ok(())
    }

    /// The three positions of the face the handle sits on, rotated so the
    /// handle's own corner comes first.
    pub fn get_face_positions(&self, meta_index_id: usize) -> (r: Result<
        (Vec3, Vec3, Vec3),
        EditError,
    >)
        requires
            self.wf(),
        ensures
            r is Ok <==> meta_index_id < self@.handles.len(),
            r is Ok ==> ({
                let c = self@.handles[meta_index_id as int];
                &&& r->Ok_0.0 == self@.positions[self@.indices[c]]
                &&& r->Ok_0.1 == self@.positions[self@.indices[next_in_face(c)]]
                &&& r->Ok_0.2 == self@.positions[self@.indices[next_in_face(next_in_face(c))]]
            }),
            r is Err ==> r->Err_0 == EditError::UnknownHandle,
    {
        if meta_index_id >= self.handle_table.len() {
            return Err(EditError::UnknownHandle);
        }
        let corner = self.handle_table[meta_index_id];
        let len = self.indices.len();
        proof {
            assert(corner as int == self@.handles[meta_index_id as int]);
            assert(corner < len);
            assert(corner as int - corner as int % 3 + 2 < len as int);
        }
        let offset = corner % 3;
        let start = corner - offset;
        let c1 = start + (offset + 1) % 3;
        let c2 = start + (offset + 2) % 3;
        proof {
            assert(c1 as int == next_in_face(corner as int));
            assert(next_in_face(c1 as int) == face_start(c1 as int) + (c1 as int % 3 + 1) % 3);
            assert(c2 as int == next_in_face(next_in_face(corner as int)));
        }
        let v0 = self.indices[corner];
        let v1 = self.indices[c1];
        let v2 = self.indices[c2];
        proof {
            assert(v0 as int == self@.indices[corner as int]);
            assert(v1 as int == self@.indices[c1 as int]);
            assert(v2 as int == self@.indices[c2 as int]);
            assert((v0 as int) < self@.positions.len());
            assert((v1 as int) < self@.positions.len());
            assert((v2 as int) < self@.positions.len());
        }
        Ok((self.positions[v0], self.positions[v1], self.positions[v2]))
    }

    /// Compacts the vertex store. Every pending-deletion slot is filled by a
    /// live vertex moved down from the tail — a pending slot already at the
    /// tail is simply dropped without swapping — and every face-corner
    /// reference to a moved vertex is rewritten to its new slot. Storage
    /// then shrinks to the smallest block-aligned size holding all live
    /// vertices. A no-op when nothing is pending. Afterwards every corner
    /// still sees the position and color it saw before, corners that shared
    /// a vertex still share one, and live slots not on the free-list keep
    /// their contents.
    pub fn clean(&mut self)
        requires
            old(self).wf(),
        ensures
            final(self).wf(),
            old(self)@.deleted.len() == 0 ==> final(self)@ == old(self)@,
            final(self)@.deleted.len() == 0,
            final(self)@.vertex_count == old(self)@.vertex_count - old(self)@.deleted.len(),
            final(self)@.connections == old(self)@.connections,
            final(self)@.handles == old(self)@.handles,
            final(self)@.indices.len() == old(self)@.indices.len(),
            old(self)@.deleted.len() > 0 ==> final(self)@.positions.len() == block_round_up(
                final(self)@.vertex_count,
            ),
            forall|c: int|
                0 <= c < old(self)@.indices.len() ==> final(self)@.positions[#[trigger] final(self)@.indices[c]] == old(self)@.positions[old(self)@.indices[c]] && final(self)@.colors[final(self)@.indices[c]] == old(self)@.colors[old(self)@.indices[c]],
            forall|c: int, d: int|
                #![trigger final(self)@.indices[c], final(self)@.indices[d]]
                0 <= c < old(self)@.indices.len() && 0 <= d < old(self)@.indices.len() ==> (final(self)@.indices[c] == final(self)@.indices[d] <==> old(self)@.indices[c] == old(
                    self,
                )@.indices[d]),
            forall|v: int|
                0 <= v < final(self)@.vertex_count && !old(self)@.deleted.contains(v)
                    ==> final(self)@.positions[v] == old(self)@.positions[v] && final(self)@.colors[v] == old(self)@.colors[v],
    {
        if self.deleted_vertices.len() == 0 {
            return ;
        }
        let ghost o = old(self)@;
        while self.deleted_vertices.len() > 0
            invariant
                o == old(self)@,
                o.wf(),
                self.wf(),
                self@.connections == o.connections,
                self@.handles == o.handles,
                self@.indices.len() == o.indices.len(),
                self@.positions.len() == o.positions.len(),
                self@.deleted.len() <= o.deleted.len(),
                self@.vertex_count == o.vertex_count - (o.deleted.len() - self@.deleted.len()),
                forall|k: int|
                    0 <= k < self@.deleted.len() ==> o.deleted.contains(
                        #[trigger] self@.deleted[k],
                    ),
                forall|c: int|
                    0 <= c < o.indices.len() ==> self@.positions[#[trigger] self@.indices[c]]
                        == o.positions[o.indices[c]] && self@.colors[self@.indices[c]]
                        == o.colors[o.indices[c]],
                forall|c: int, d: int|
                    #![trigger self@.indices[c], self@.indices[d]]
                    0 <= c < o.indices.len() && 0 <= d < o.indices.len() ==> (self@.indices[c]
                        == self@.indices[d] <==> o.indices[c] == o.indices[d]),
                forall|v: int|
                    0 <= v < self@.vertex_count && !o.deleted.contains(v) ==> self@.positions[v]
                        == o.positions[v] && self@.colors[v] == o.colors[v],
            decreases self.deleted_vertices@.len(),
        {
            let ghost snap = self@;
            let mut mi: usize = 0;
            let mut k: usize = 1;
            #[verifier::loop_isolation(false)]
            while k < self.deleted_vertices.len()
                invariant
                    mi < k <= self.deleted_vertices@.len(),
                    forall|j: int|
                        0 <= j < k ==> #[trigger] self.deleted_vertices@[j]
                            <= self.deleted_vertices@[mi as int],
                decreases self.deleted_vertices@.len() - k,
            {
                if self.deleted_vertices[k] > self.deleted_vertices[mi] {
                    mi = k;
                }
                k = k + 1;
            }
            let d = self.deleted_vertices[mi];
            proof {
                assert(d as int == snap.deleted[mi as int]);
                assert(o.deleted.contains(d as int));
                assert(forall|j: int|
                    0 <= j < snap.deleted.len() ==> #[trigger] snap.deleted[j] <= d as int);
                assert forall|c: int|
                    0 <= c < snap.indices.len() implies #[trigger] snap.indices[c]
                    != d as int by {
                    assert(snap.indices[c] != snap.deleted[mi as int]);
                }
            }
            let _ = self.deleted_vertices.remove(mi);
            let ghost mid = self@;
            proof {
                assert(as_ints(self.deleted_vertices@) =~= snap.deleted.remove(mi as int));
                assert forall|k2: int|
                    0 <= k2 < mid.deleted.len() implies #[trigger] mid.deleted[k2] < d as int
                    && o.deleted.contains(mid.deleted[k2]) by {
                    if k2 < mi as int {
                        assert(mid.deleted[k2] == snap.deleted[k2]);
                        if snap.deleted[k2] == d as int {
                            assert(snap.deleted[k2] == snap.deleted[mi as int]);
                            assert(false);
                        }
                    } else {
                        assert(mid.deleted[k2] == snap.deleted[k2 + 1]);
                        if snap.deleted[k2 + 1] == d as int {
                            assert(false);
                        }
                    }
                }
                assert forall|k1: int, k2: int|
                    #![trigger mid.deleted[k1], mid.deleted[k2]]
                    0 <= k1 < k2 < mid.deleted.len() implies mid.deleted[k1]
                    != mid.deleted[k2] by {
                    if k2 < mi as int {
                        assert(mid.deleted[k1] == snap.deleted[k1]);
                        assert(mid.deleted[k2] == snap.deleted[k2]);
                    } else if k1 < mi as int {
                        assert(mid.deleted[k1] == snap.deleted[k1]);
                        assert(mid.deleted[k2] == snap.deleted[k2 + 1]);
                    } else {
                        assert(mid.deleted[k1] == snap.deleted[k1 + 1]);
                        assert(mid.deleted[k2] == snap.deleted[k2 + 1]);
                    }
                }
                assert forall|c: int, k2: int|
                    #![trigger mid.indices[c], mid.deleted[k2]]
                    0 <= c < mid.indices.len() && 0 <= k2 < mid.deleted.len()
                    implies mid.indices[c] != mid.deleted[k2] by {
                    if k2 < mi as int {
                        assert(mid.deleted[k2] == snap.deleted[k2]);
                        assert(snap.indices[c] != snap.deleted[k2]);
                    } else {
                        assert(mid.deleted[k2] == snap.deleted[k2 + 1]);
                        assert(snap.indices[c] != snap.deleted[k2 + 1]);
                    }
                }
                assert(mid.wf());
            }
            let last = self.vertex_count - 1;
            proof {
                assert((d as int) < mid.vertex_count);
                assert((last as int) < mid.positions.len());
            }
            if d != last {
                let pl = self.positions[last];
                self.positions.set(d, pl);
                let cl = self.colors[last];
                self.colors.set(d, cl);
                let n = self.indices.len();
                let mut c: usize = 0;
                while c < n
                    invariant
                        n == self.indices@.len(),
                        n == mid.indices.len(),
                        c <= n,
                        d < last,
                        last as int == mid.vertex_count - 1,
                        mid.wf(),
                        (d as int) < mid.positions.len(),
                        forall|i: int|
                            0 <= i < mid.indices.len() ==> #[trigger] mid.indices[i] != d as int,
                        self.positions@ == mid.positions.update(
                            d as int,
                            mid.positions[last as int],
                        ),
                        self.colors@ == mid.colors.update(d as int, mid.colors[last as int]),
                        as_ints(self.deleted_vertices@) == mid.deleted,
                        as_ints(self.connections@) == mid.connections,
                        as_ints(self.handle_table@) == mid.handles,
                        self.vertex_count as int == mid.vertex_count,
                        forall|i: int|
                            0 <= i < c ==> (#[trigger] self.indices@[i] as int) == (
                            if mid.indices[i] == last as int {
                                d as int
                            } else {
                                mid.indices[i]
                            }),
                        forall|i: int|
                            c <= i < n ==> (#[trigger] self.indices@[i] as int) == mid.indices[i],
                    decreases n - c,
                {
                    let ghost before = self.indices@;
                    if self.indices[c] == last {
                        self.indices.set(c, d);
                        proof {
                            assert(self.indices@ =~= before.update(c as int, d));
                        }
                    }
                    c = c + 1;
                    proof {
                        assert forall|i: int|
                            0 <= i < c implies (#[trigger] self.indices@[i] as int) == (
                        if mid.indices[i] == last as int {
                            d as int
                        } else {
                            mid.indices[i]
                        }) by {
                            if i < c - 1 {
                                assert(self.indices@[i] == before[i]);
                            } else {
                                assert((before[i] as int) == mid.indices[i]);
                            }
                        }
                    }
                }
                self.vertex_count = last;
                proof {
                    let fin = self@;
                    assert forall|i: int|
                        0 <= i < fin.indices.len() implies #[trigger] fin.indices[i] == (
                    if mid.indices[i] == last as int {
                        d as int
                    } else {
                        mid.indices[i]
                    }) by {
                        assert(fin.indices[i] == self.indices@[i] as int);
                    }
                    assert(fin.positions == mid.positions.update(
                        d as int,
                        mid.positions[last as int],
                    ));
                    assert(fin.deleted == mid.deleted);
                    assert(fin.vertex_count == last as int);
                    let dd = d as int;
                    let ll = last as int;
                    assert forall|i: int|
                        0 <= i < fin.indices.len() implies 0 <= #[trigger] fin.indices[i]
                        < fin.vertex_count by {
                        assert(fin.indices[i] == (if mid.indices[i] == ll {
                            dd
                        } else {
                            mid.indices[i]
                        }));
                    }
                    assert forall|i: int, k2: int|
                        #![trigger fin.indices[i], fin.deleted[k2]]
                        0 <= i < fin.indices.len() && 0 <= k2 < fin.deleted.len()
                        implies fin.indices[i] != fin.deleted[k2] by {
                        assert(mid.deleted[k2] < dd);
                        if mid.indices[i] == ll {
                            assert(fin.indices[i] == dd);
                        } else {
                            assert(fin.indices[i] == mid.indices[i]);
                            assert(mid.indices[i] != mid.deleted[k2]);
                        }
                    }
                    assert(fin.wf());
                    assert forall|i: int|
                        0 <= i < o.indices.len() implies fin.positions[#[trigger] fin.indices[i]]
                        == o.positions[o.indices[i]] && fin.colors[fin.indices[i]]
                        == o.colors[o.indices[i]] by {
                        if mid.indices[i] == ll {
                            assert(fin.indices[i] == dd);
                            assert(fin.positions[dd] == mid.positions[ll]);
                            assert(mid.positions[mid.indices[i]] == o.positions[o.indices[i]]);
                            assert(fin.colors[dd] == mid.colors[ll]);
                        } else {
                            assert(fin.indices[i] == mid.indices[i]);
                            assert(mid.indices[i] != dd);
                            assert(fin.positions[mid.indices[i]]
                                == mid.positions[mid.indices[i]]);
                            assert(fin.colors[mid.indices[i]] == mid.colors[mid.indices[i]]);
                        }
                    }
                    assert forall|i: int, j: int|
                        #![trigger fin.indices[i], fin.indices[j]]
                        0 <= i < o.indices.len() && 0 <= j < o.indices.len() implies (
                        fin.indices[i] == fin.indices[j] <==> o.indices[i] == o.indices[j]) by {
                        assert(mid.indices[i] == mid.indices[j] <==> o.indices[i]
                            == o.indices[j]);
                        if mid.indices[i] == ll && mid.indices[j] == ll {
                        } else if mid.indices[i] == ll {
                            assert(fin.indices[i] == dd);
                            assert(fin.indices[j] == mid.indices[j]);
                            assert(mid.indices[j] != dd);
                            assert(mid.indices[j] != ll);
                        } else if mid.indices[j] == ll {
                            assert(fin.indices[j] == dd);
                            assert(fin.indices[i] == mid.indices[i]);
                            assert(mid.indices[i] != dd);
                        } else {
                            assert(fin.indices[i] == mid.indices[i]);
                            assert(fin.indices[j] == mid.indices[j]);
                        }
                    }
                    assert forall|v: int|
                        0 <= v < fin.vertex_count && !o.deleted.contains(v)
                        implies fin.positions[v] == o.positions[v] && fin.colors[v]
                        == o.colors[v] by {
                        assert(o.deleted.contains(dd));
                        assert(v != dd);
                        assert(fin.positions[v] == mid.positions[v]);
                        assert(fin.colors[v] == mid.colors[v]);
                        assert(v < mid.vertex_count);
                    }
                }
            } else {
                self.vertex_count = last;
                proof {
                    let fin = self@;
                    let dd = d as int;
                    assert forall|i: int|
                        0 <= i < fin.indices.len() implies 0 <= #[trigger] fin.indices[i]
                        < fin.vertex_count by {
                        assert(mid.indices[i] != dd);
                        assert(mid.indices[i] < mid.vertex_count);
                    }
                    assert(fin.wf());
                    assert forall|v: int|
                        0 <= v < fin.vertex_count && !o.deleted.contains(v)
                        implies fin.positions[v] == o.positions[v] && fin.colors[v]
                        == o.colors[v] by {
                        assert(v < mid.vertex_count);
                    }
                }
            }
        }
        let cap = self.positions.len();
        proof {
            lemma_block_round_up_bounds(self.vertex_count as int);
            lemma_block_round_up_le(self.vertex_count as int, cap as int);
        }
        let q = self.vertex_count / BLOCK_SIZE;
        let rem = self.vertex_count % BLOCK_SIZE;
        let target = if rem == 0 {
            proof {
                let b = BLOCK_SIZE as int;
                let n = self.vertex_count as int;
                lemma_fundamental_div_mod(n, b);
                assert(n + b - 1 == (n / b) * b + (b - 1)) by (nonlinear_arith)
                    requires
                        n == b * (n / b) + n % b,
                        n % b == 0,
                        b == 64,
                ;
                lemma_fundamental_div_mod_converse(n + b - 1, b, n / b, b - 1);
                assert(block_round_up(n) == (n / b) * b);
                assert((n / b) * b == n) by (nonlinear_arith)
                    requires
                        n == b * (n / b) + n % b,
                        n % b == 0,
                ;
            }
            self.vertex_count
        } else {
            proof {
                let b = BLOCK_SIZE as int;
                let n = self.vertex_count as int;
                lemma_fundamental_div_mod(n, b);
                lemma_mod_pos_bound(n, b);
                assert(n + b - 1 == (n / b + 1) * b + (n % b - 1)) by (nonlinear_arith)
                    requires
                        n == b * (n / b) + n % b,
                ;
                lemma_fundamental_div_mod_converse(n + b - 1, b, n / b + 1, n % b - 1);
                assert(block_round_up(n) == (n / b + 1) * b);
                assert((n / b + 1) * b == (n / b) * b + b) by (nonlinear_arith);
                assert((n / b) * b <= n) by (nonlinear_arith)
                    requires
                        n == b * (n / b) + n % b,
                        n % b >= 0,
                ;
                assert((n / b) * b + b <= cap as int);
            }
            q * BLOCK_SIZE + BLOCK_SIZE
        };
        let ghost before_shrink = self@;
        self.positions.truncate(target);
        self.colors.truncate(target);
        proof {
            let fin = final(self)@;
            assert(target as int == block_round_up(before_shrink.vertex_count));
            assert(fin.positions == before_shrink.positions.subrange(0, target as int));
            assert(fin.colors == before_shrink.colors.subrange(0, target as int));
            assert forall|i: int|
                0 <= i < fin.indices.len() implies 0 <= #[trigger] fin.indices[i]
                < fin.vertex_count by {
                assert(before_shrink.indices[i] < before_shrink.vertex_count);
            }
            assert(fin.wf());
            assert forall|i: int|
                0 <= i < o.indices.len() implies fin.positions[#[trigger] fin.indices[i]]
                == o.positions[o.indices[i]] && fin.colors[fin.indices[i]]
                == o.colors[o.indices[i]] by {
                assert(fin.indices[i] == before_shrink.indices[i]);
                assert(fin.indices[i] < before_shrink.vertex_count);
                assert(before_shrink.vertex_count <= target as int);
            }
            assert forall|v: int|
                0 <= v < fin.vertex_count && !o.deleted.contains(v) implies fin.positions[v]
                == o.positions[v] && fin.colors[v] == o.colors[v] by {
                assert(before_shrink.positions[v] == o.positions[v]);
            }
        }
    }


    /// Puts a live, unreferenced vertex slot on the free-list of pending
    /// deletions, to be reclaimed by `clean`.
    pub fn delete_vertex(&mut self, vertex: usize) -> (r: Result<(), EditError>)
        requires
            old(self).wf(),
        ensures
            final(self).wf(),
            r is Ok <==> (vertex as int) < old(self)@.vertex_count && !old(
                self,
            )@.deleted.contains(vertex as int) && !old(self)@.indices.contains(vertex as int),
            r is Ok ==> final(self)@ == (MeshModel {
                deleted: old(self)@.deleted.push(vertex as int),
                ..old(self)@
            }),
            r is Err ==> final(self)@ == old(self)@,
    {
        if vertex >= self.vertex_count {
            return Err(EditError::UnknownVertex);
        }
        let mut k: usize = 0;
        while k < self.deleted_vertices.len()
            invariant
                self == old(self),
                old(self).wf(),
                k <= self.deleted_vertices@.len(),
                forall|i: int| 0 <= i < k ==> #[trigger] self.deleted_vertices@[i] != vertex,
            decreases self.deleted_vertices@.len() - k,
        {
            if self.deleted_vertices[k] == vertex {
                proof {
                    assert(old(self)@.deleted[k as int] == vertex as int);
                }
                return Err(EditError::AlreadyDeleted);
            }
            k = k + 1;
        }
        proof {
            assert forall|i: int|
                0 <= i < old(self)@.deleted.len() implies #[trigger] old(self)@.deleted[i]
                != vertex as int by {
                assert(self.deleted_vertices@[i] != vertex);
            }
            assert(!old(self)@.deleted.contains(vertex as int));
        }
        let mut c: usize = 0;
        while c < self.indices.len()
            invariant
                self == old(self),
                old(self).wf(),
                c <= self.indices@.len(),
                forall|i: int| 0 <= i < c ==> #[trigger] self.indices@[i] != vertex,
            decreases self.indices@.len() - c,
        {
            if self.indices[c] == vertex {
                proof {
                    assert(old(self)@.indices[c as int] == vertex as int);
                }
                return Err(EditError::VertexInUse);
            }
            c = c + 1;
        }
        proof {
            assert forall|i: int|
                0 <= i < old(self)@.indices.len() implies #[trigger] old(self)@.indices[i]
                != vertex as int by {
                assert(self.indices@[i] != vertex);
            }
            assert(!old(self)@.indices.contains(vertex as int));
        }
        self.deleted_vertices.push(vertex);
        proof {
            assert(as_ints(self.deleted_vertices@) =~= old(self)@.deleted.push(vertex as int));
            let fm = final(self)@;
            assert forall|k1: int, k2: int|
                #![trigger fm.deleted[k1], fm.deleted[k2]]
                0 <= k1 < k2 < fm.deleted.len() implies fm.deleted[k1] != fm.deleted[k2] by {
                if k2 == fm.deleted.len() - 1 {
                    assert(fm.deleted[k1] == old(self)@.deleted[k1]);
                }
            }
            assert forall|c2: int, k2: int|
                #![trigger fm.indices[c2], fm.deleted[k2]]
                0 <= c2 < fm.indices.len() && 0 <= k2 < fm.deleted.len() implies fm.indices[c2]
                    != fm.deleted[k2] by {
                if k2 == fm.deleted.len() - 1 {
                    assert(fm.deleted[k2] == vertex as int);
                }
            }
            assert(final(self).wf());
        }
        Ok(())
    }
}

} // verus!
