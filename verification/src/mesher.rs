//! Greedy surface meshing of a voxel chunk.
//!
//! For each of the six axis-aligned face directions and each slice plane of
//! the chunk, the mesher builds a two-dimensional mask of exposed faces (an
//! occupied cell whose neighbour across the face is empty or outside the
//! volume), then merges maximal rectangles of exposed faces into single quads:
//! scanning rows top to bottom and columns left to right, each unvisited
//! exposed face grows as wide as possible, then as tall as possible, in that
//! fixed order, so the output is deterministic. Every quad contributes four
//! vertices and six indices (two triangles) to the mesh buffers.
//!
//! The whole output is pinned down by a specification-level model of the same
//! scan (`chunk_quads` and the `*_of` buffer functions), so two runs on equal
//! volumes produce identical buffers.

use vstd::prelude::*;

use crate::mesh::MeshBuffers;
use crate::volume::CHUNK_SIZE;
use crate::volume::ChunkData;
use crate::volume::cell_occupied;

verus! {

/// A merged rectangle of exposed faces, as the spec model carries it:
/// `(direction, slice, row, column, width, height)`.
pub type Quad = (int, int, int, int, int, int);

/// Axis perpendicular to the faces of direction `d`: directions `0..6` are
/// `+X, -X, +Y, -Y, +Z, -Z` in that fixed order.
pub open spec fn axis_of(d: int) -> int {
    d / 2
}

/// Whether direction `d` faces toward increasing coordinates.
pub open spec fn dir_positive(d: int) -> bool {
    d % 2 == 0
}

/// Cell coordinates addressed by slice `s` along axis `a` and mask
/// coordinates `(u, v)` on the two remaining axes.
pub open spec fn cell_of(a: int, s: int, u: int, v: int) -> (int, int, int) {
    if a == 0 {
        (s, u, v)
    } else if a == 1 {
        (u, s, v)
    } else {
        (u, v, s)
    }
}

/// Whether the face of direction `d` at slice `s`, mask cell `(u, v)` is part
/// of the visible surface: its cell is occupied and the neighbour across the
/// face is empty or outside the volume.
pub open spec fn face_exposed(c: Seq<bool>, d: int, s: int, u: int, v: int) -> bool {
    let a = axis_of(d);
    let cc = cell_of(a, s, u, v);
    &&& cell_occupied(c, cc.0, cc.1, cc.2)
    &&& (if dir_positive(d) {
        s == CHUNK_SIZE - 1 || !{
            let n = cell_of(a, s + 1, u, v);
            cell_occupied(c, n.0, n.1, n.2)
        }
    } else {
        s == 0 || !{
            let n = cell_of(a, s - 1, u, v);
            cell_occupied(c, n.0, n.1, n.2)
        }
    })
}

/// The full exposure mask of one slice plane, row-major: mask cell `(u, v)`
/// sits at flat position `u * CHUNK_SIZE + v`.
pub open spec fn spec_mask(c: Seq<bool>, d: int, s: int) -> Seq<bool> {
    Seq::new(
        (CHUNK_SIZE * CHUNK_SIZE) as nat,
        |k: int| face_exposed(c, d, s, k / (CHUNK_SIZE as int), k % (CHUNK_SIZE as int)),
    )
}

/// Whether mask cell `(u, v)` is exposed and not yet covered by an earlier
/// rectangle.
pub open spec fn mask_avail(mask: Seq<bool>, vis: Seq<bool>, u: int, v: int) -> bool {
    &&& 0 <= u < CHUNK_SIZE
    &&& 0 <= v < CHUNK_SIZE
    &&& mask[u * CHUNK_SIZE + v]
    &&& !vis[u * CHUNK_SIZE + v]
}

/// Width of the maximal run of available cells starting at `(u, v)` and
/// growing toward higher columns.
pub open spec fn run_width(mask: Seq<bool>, vis: Seq<bool>, u: int, v: int) -> int
    decreases CHUNK_SIZE - v,
{
    if mask_avail(mask, vis, u, v) {
        1 + run_width(mask, vis, u, v + 1)
    } else {
        0
    }
}

/// Whether the `w` cells of row `u` starting at column `v0` are all available.
pub open spec fn row_avail(mask: Seq<bool>, vis: Seq<bool>, u: int, v0: int, w: int) -> bool {
    forall|dv: int| 0 <= dv < w ==> #[trigger] mask_avail(mask, vis, u, v0 + dv)
}

/// Height of the maximal block of fully available rows of width `w` starting
/// at row `u` and growing toward higher rows.
pub open spec fn run_height(mask: Seq<bool>, vis: Seq<bool>, u: int, v0: int, w: int) -> int
    decreases CHUNK_SIZE - u,
{
    if 0 <= u < CHUNK_SIZE && w > 0 && row_avail(mask, vis, u, v0, w) {
        1 + run_height(mask, vis, u + 1, v0, w)
    } else {
        0
    }
}

/// Whether flat mask position `k` lies inside the rectangle of rows
/// `u0 .. u0 + h` and columns `v0 .. v0 + w`.
pub open spec fn rect_covers(u0: int, v0: int, w: int, h: int, k: int) -> bool {
    &&& u0 <= k / (CHUNK_SIZE as int) < u0 + h
    &&& v0 <= k % (CHUNK_SIZE as int) < v0 + w
}

/// The visited set after covering one rectangle.
pub open spec fn mark_rect(vis: Seq<bool>, u0: int, v0: int, w: int, h: int) -> Seq<bool> {
    Seq::new(vis.len(), |k: int| vis[k] || rect_covers(u0, v0, w, h, k))
}

/// The rectangles the greedy scan emits from flat mask position `p` onward,
/// given the cells already covered. At each available cell the rectangle
/// grows wide first, then tall, and its cells are marked covered.
pub open spec fn greedy_rects_from(mask: Seq<bool>, vis: Seq<bool>, p: int) -> Seq<
    (int, int, int, int),
>
    decreases CHUNK_SIZE * CHUNK_SIZE - p,
{
    if p < 0 || p >= CHUNK_SIZE * CHUNK_SIZE {
        Seq::empty()
    } else {
        let u = p / (CHUNK_SIZE as int);
        let v = p % (CHUNK_SIZE as int);
        if mask_avail(mask, vis, u, v) {
            let w = run_width(mask, vis, u, v);
            let h = run_height(mask, vis, u, v, w);
            seq![(u, v, w, h)] + greedy_rects_from(mask, mark_rect(vis, u, v, w, h), p + 1)
        } else {
            greedy_rects_from(mask, vis, p + 1)
        }
    }
}

/// The visited set before any rectangle is covered.
pub open spec fn empty_visited() -> Seq<bool> {
    Seq::new((CHUNK_SIZE * CHUNK_SIZE) as nat, |k: int| false)
}

/// All rectangles the greedy scan emits from one mask.
pub open spec fn greedy_rects(mask: Seq<bool>) -> Seq<(int, int, int, int)> {
    greedy_rects_from(mask, empty_visited(), 0)
}

/// Rectangles of one mask tagged with their direction and slice.
pub open spec fn rect_quads(d: int, s: int, rs: Seq<(int, int, int, int)>) -> Seq<Quad> {
    rs.map(|i: int, r: (int, int, int, int)| (d, s, r.0, r.1, r.2, r.3))
}

/// Quads of one slice mask of the chunk.
pub open spec fn mask_quads(c: Seq<bool>, d: int, s: int) -> Seq<Quad> {
    rect_quads(d, s, greedy_rects(spec_mask(c, d, s)))
}

/// Quads of the first `n` masks, in the fixed generation order: direction
/// major, slice minor (mask `m` is direction `m / CHUNK_SIZE`, slice
/// `m % CHUNK_SIZE`).
pub open spec fn chunk_quads_upto(c: Seq<bool>, n: int) -> Seq<Quad>
    decreases n,
{
    if n <= 0 {
        Seq::empty()
    } else {
        chunk_quads_upto(c, n - 1) + mask_quads(
            c,
            (n - 1) / (CHUNK_SIZE as int),
            (n - 1) % (CHUNK_SIZE as int),
        )
    }
}

/// Every quad of the chunk, in generation order.
pub open spec fn chunk_quads(c: Seq<bool>) -> Seq<Quad> {
    chunk_quads_upto(c, 6 * CHUNK_SIZE)
}

/// Lattice corner `i` of a quad, counting counter-clockwise around the face:
/// corner 0 at the quad's low row and column, corner 1 across the width,
/// corner 2 across width and height, corner 3 across the height. The plane
/// sits one cell above the slice for a positive direction.
pub open spec fn quad_corner(q: Quad, i: int) -> (int, int, int) {
    let a = axis_of(q.0);
    let pc = if dir_positive(q.0) {
        q.1 + 1
    } else {
        q.1
    };
    let uu = if i == 0 || i == 1 {
        q.2
    } else {
        q.2 + q.5
    };
    let vv = if i == 0 || i == 3 {
        q.3
    } else {
        q.3 + q.4
    };
    cell_of(a, pc, uu, vv)
}

/// The twelve position values one quad contributes.
pub open spec fn quad_positions(q: Quad) -> Seq<u32> {
    seq![
        quad_corner(q, 0).0 as u32,
        quad_corner(q, 0).1 as u32,
        quad_corner(q, 0).2 as u32,
        quad_corner(q, 1).0 as u32,
        quad_corner(q, 1).1 as u32,
        quad_corner(q, 1).2 as u32,
        quad_corner(q, 2).0 as u32,
        quad_corner(q, 2).1 as u32,
        quad_corner(q, 2).2 as u32,
        quad_corner(q, 3).0 as u32,
        quad_corner(q, 3).1 as u32,
        quad_corner(q, 3).2 as u32,
    ]
}

/// Outward unit normal of direction `d`.
pub open spec fn dir_normal(d: int) -> (i32, i32, i32) {
    if d == 0 {
        (1i32, 0i32, 0i32)
    } else if d == 1 {
        (-1i32, 0i32, 0i32)
    } else if d == 2 {
        (0i32, 1i32, 0i32)
    } else if d == 3 {
        (0i32, -1i32, 0i32)
    } else if d == 4 {
        (0i32, 0i32, 1i32)
    } else {
        (0i32, 0i32, -1i32)
    }
}

/// The twelve normal values one quad contributes: the face direction,
/// repeated for each of the four vertices.
pub open spec fn quad_normals(q: Quad) -> Seq<i32> {
    let n = dir_normal(q.0);
    seq![n.0, n.1, n.2, n.0, n.1, n.2, n.0, n.1, n.2, n.0, n.1, n.2]
}

/// The eight texture-coordinate values one quad contributes: its extent
/// mapped onto the unit square, corner by corner.
pub open spec fn quad_texcoords(q: Quad) -> Seq<u32> {
    seq![0u32, 0u32, 1u32, 0u32, 1u32, 1u32, 0u32, 1u32]
}

/// Whether the two triangles of a quad of direction `d` must use the reversed
/// corner order so that their winding is counter-clockwise seen from outside
/// along the face normal.
pub open spec fn winding_flipped(d: int) -> bool {
    dir_positive(d) != (axis_of(d) == 1)
}

/// The six indices one quad contributes, two triangles over its four corners
/// starting at vertex number `base`.
pub open spec fn quad_indices(q: Quad, base: int) -> Seq<usize> {
    if winding_flipped(q.0) {
        seq![
            base as usize,
            (base + 2) as usize,
            (base + 1) as usize,
            base as usize,
            (base + 3) as usize,
            (base + 2) as usize,
        ]
    } else {
        seq![
            base as usize,
            (base + 1) as usize,
            (base + 2) as usize,
            base as usize,
            (base + 2) as usize,
            (base + 3) as usize,
        ]
    }
}

/// Position buffer of a quad sequence.
pub open spec fn positions_of(qs: Seq<Quad>) -> Seq<u32>
    decreases qs.len(),
{
    if qs.len() == 0 {
        Seq::empty()
    } else {
        positions_of(qs.drop_last()) + quad_positions(qs.last())
    }
}

/// Normal buffer of a quad sequence.
pub open spec fn normals_of(qs: Seq<Quad>) -> Seq<i32>
    decreases qs.len(),
{
    if qs.len() == 0 {
        Seq::empty()
    } else {
        normals_of(qs.drop_last()) + quad_normals(qs.last())
    }
}

/// Texture-coordinate buffer of a quad sequence.
pub open spec fn texcoords_of(qs: Seq<Quad>) -> Seq<u32>
    decreases qs.len(),
{
    if qs.len() == 0 {
        Seq::empty()
    } else {
        texcoords_of(qs.drop_last()) + quad_texcoords(qs.last())
    }
}

/// Index buffer of a quad sequence whose first quad's vertices start at
/// vertex number `base`; each quad owns four consecutive vertices.
pub open spec fn indices_of_from(qs: Seq<Quad>, base: int) -> Seq<usize>
    decreases qs.len(),
{
    if qs.len() == 0 {
        Seq::empty()
    } else {
        indices_of_from(qs.drop_last(), base) + quad_indices(
            qs.last(),
            base + 4 * (qs.len() - 1),
        )
    }
}

/// Index buffer of a quad sequence starting at vertex number zero.
pub open spec fn indices_of(qs: Seq<Quad>) -> Seq<usize> {
    indices_of_from(qs, 0)
}

/// Row and column recovered from a flat mask position built as
/// `u * CHUNK_SIZE + v`.
pub proof fn lemma_row_col(u: int, v: int)
    requires
        0 <= u,
        0 <= v < CHUNK_SIZE,
    ensures
        (u * CHUNK_SIZE + v) / (CHUNK_SIZE as int) == u,
        (u * CHUNK_SIZE + v) % (CHUNK_SIZE as int) == v,
{
    let s = CHUNK_SIZE as int;
    assert((u * s + v) / s == u && (u * s + v) % s == v) by (nonlinear_arith)
        requires
            s == 64,
            0 <= u,
            0 <= v < s,
    ;
}

/// Executable counterpart of `cell_of`; the slice and mask coordinates may
/// reach `CHUNK_SIZE` itself, which addresses lattice corners.
fn cell_for(a: usize, s: usize, u: usize, v: usize) -> (c: (usize, usize, usize))
    requires
        a < 3,
        s <= CHUNK_SIZE,
        u <= CHUNK_SIZE,
        v <= CHUNK_SIZE,
    ensures
        (c.0 as int, c.1 as int, c.2 as int) == cell_of(a as int, s as int, u as int, v as int),
{
    if a == 0 {
        (s, u, v)
    } else if a == 1 {
        (u, s, v)
    } else {
        (u, v, s)
    }
}

/// Whether the face of direction `d` at slice `s`, mask cell `(u, v)` is
/// exposed in the chunk.
fn face_exposed_at(chunk: &ChunkData, d: usize, s: usize, u: usize, v: usize) -> (b: bool)
    requires
        chunk.wf(),
        d < 6,
        s < CHUNK_SIZE,
        u < CHUNK_SIZE,
        v < CHUNK_SIZE,
    ensures
        b == face_exposed(chunk@, d as int, s as int, u as int, v as int),
{
    let a = d / 2;
    let cc = cell_for(a, s, u, v);
    if !chunk.get(cc.0, cc.1, cc.2) {
        return false;
    }
    if d % 2 == 0 {
        if s == CHUNK_SIZE - 1 {
            true
        } else {
            let n = cell_for(a, s + 1, u, v);
            !chunk.get(n.0, n.1, n.2)
        }
    } else {
        if s == 0 {
            true
        } else {
            let n = cell_for(a, s - 1, u, v);
            !chunk.get(n.0, n.1, n.2)
        }
    }
}

/// The exposure mask of one slice plane, as a flat row-major vector.
fn build_mask(chunk: &ChunkData, d: usize, s: usize) -> (mask: Vec<bool>)
    requires
        chunk.wf(),
        d < 6,
        s < CHUNK_SIZE,
    ensures
        mask@ == spec_mask(chunk@, d as int, s as int),
{
    let mut mask: Vec<bool> = Vec::new();
    let mut u: usize = 0;
    while u < CHUNK_SIZE
        invariant
            chunk.wf(),
            d < 6,
            s < CHUNK_SIZE,
            u <= CHUNK_SIZE,
            mask@.len() == u * CHUNK_SIZE,
            forall|j: int|
                0 <= j < mask@.len() ==> mask@[j] == face_exposed(
                    chunk@,
                    d as int,
                    s as int,
                    j / (CHUNK_SIZE as int),
                    j % (CHUNK_SIZE as int),
                ),
        decreases CHUNK_SIZE - u,
    {
        let mut v: usize = 0;
        while v < CHUNK_SIZE
            invariant
                chunk.wf(),
                d < 6,
                s < CHUNK_SIZE,
                u < CHUNK_SIZE,
                v <= CHUNK_SIZE,
                mask@.len() == u * CHUNK_SIZE + v,
                forall|j: int|
                    0 <= j < mask@.len() ==> mask@[j] == face_exposed(
                        chunk@,
                        d as int,
                        s as int,
                        j / (CHUNK_SIZE as int),
                        j % (CHUNK_SIZE as int),
                    ),
            decreases CHUNK_SIZE - v,
        {
            let b = face_exposed_at(chunk, d, s, u, v);
            mask.push(b);
            proof {
                lemma_row_col(u as int, v as int);
            }
            v = v + 1;
        }
        u = u + 1;
    }
    proof {
        assert(mask@ =~= spec_mask(chunk@, d as int, s as int));
    }
    mask
}

/// Whether the `w` cells of row `u` starting at column `v0` are all exposed
/// and uncovered.
fn row_all_avail(mask: &Vec<bool>, vis: &Vec<bool>, u: usize, v0: usize, w: usize) -> (b: bool)
    requires
        mask@.len() == CHUNK_SIZE * CHUNK_SIZE,
        vis@.len() == CHUNK_SIZE * CHUNK_SIZE,
        u < CHUNK_SIZE,
        v0 + w <= CHUNK_SIZE,
    ensures
        b == row_avail(mask@, vis@, u as int, v0 as int, w as int),
{
    let mut dv: usize = 0;
    while dv < w
        invariant
            mask@.len() == CHUNK_SIZE * CHUNK_SIZE,
            vis@.len() == CHUNK_SIZE * CHUNK_SIZE,
            u < CHUNK_SIZE,
            v0 + w <= CHUNK_SIZE,
            dv <= w,
            forall|j: int| 0 <= j < dv ==> #[trigger] mask_avail(mask@, vis@, u as int, v0 + j),
        decreases w - dv,
    {
        let k = u * CHUNK_SIZE + (v0 + dv);
        if !mask[k] || vis[k] {
            proof {
                lemma_row_col(u as int, (v0 + dv) as int);
                assert(!mask_avail(mask@, vis@, u as int, v0 as int + dv as int));
            }
            return false;
        }
        proof {
            lemma_row_col(u as int, (v0 + dv) as int);
            assert(mask_avail(mask@, vis@, u as int, v0 as int + dv as int));
        }
        dv = dv + 1;
    }
    true
}

/// The covered flag of mask position `k` while a rectangle of width `w` at
/// `(u0, v0)` is being marked: `rows` full rows are done, and `cols` cells of
/// the row after them.
spec fn partly_marked(
    vis0: Seq<bool>,
    u0: int,
    v0: int,
    w: int,
    rows: int,
    cols: int,
    k: int,
) -> bool {
    ||| vis0[k]
    ||| (u0 <= k / (CHUNK_SIZE as int) < u0 + rows && v0 <= k % (CHUNK_SIZE as int) < v0 + w)
    ||| (k / (CHUNK_SIZE as int) == u0 + rows && v0 <= k % (CHUNK_SIZE as int) < v0 + cols)
}

/// Marks every cell of one rectangle as covered.
fn mark_visited(vis: &mut Vec<bool>, u0: usize, v0: usize, w: usize, h: usize)
    requires
        old(vis)@.len() == CHUNK_SIZE * CHUNK_SIZE,
        u0 + h <= CHUNK_SIZE,
        v0 + w <= CHUNK_SIZE,
    ensures
        final(vis)@ == mark_rect(old(vis)@, u0 as int, v0 as int, w as int, h as int),
{
    let ghost vis0 = vis@;
    let mut du: usize = 0;
    while du < h
        invariant
            vis@.len() == CHUNK_SIZE * CHUNK_SIZE,
            vis0.len() == CHUNK_SIZE * CHUNK_SIZE,
            u0 + h <= CHUNK_SIZE,
            v0 + w <= CHUNK_SIZE,
            du <= h,
            forall|k: int|
                0 <= k < vis@.len() ==> vis@[k] == #[trigger] partly_marked(
                    vis0,
                    u0 as int,
                    v0 as int,
                    w as int,
                    du as int,
                    0,
                    k,
                ),
        decreases h - du,
    {
        let mut dv: usize = 0;
        proof {
            assert forall|k: int| 0 <= k < vis@.len() implies vis@[k] == #[trigger] partly_marked(
                vis0,
                u0 as int,
                v0 as int,
                w as int,
                du as int,
                dv as int,
                k,
            ) by {
                assert(vis@[k] == partly_marked(
                    vis0,
                    u0 as int,
                    v0 as int,
                    w as int,
                    du as int,
                    0,
                    k,
                ));
            }
        }
        while dv < w
            invariant
                vis@.len() == CHUNK_SIZE * CHUNK_SIZE,
                vis0.len() == CHUNK_SIZE * CHUNK_SIZE,
                u0 + h <= CHUNK_SIZE,
                v0 + w <= CHUNK_SIZE,
                du < h,
                dv <= w,
                forall|k: int|
                    0 <= k < vis@.len() ==> vis@[k] == #[trigger] partly_marked(
                        vis0,
                        u0 as int,
                        v0 as int,
                        w as int,
                        du as int,
                        dv as int,
                        k,
                    ),
            decreases w - dv,
        {
            let k = (u0 + du) * CHUNK_SIZE + (v0 + dv);
            proof {
                lemma_row_col((u0 + du) as int, (v0 + dv) as int);
            }
            let ghost pre = vis@;
            vis.set(k, true);
            proof {
                assert forall|j: int| 0 <= j < vis@.len() implies vis@[j]
                    == #[trigger] partly_marked(
                    vis0,
                    u0 as int,
                    v0 as int,
                    w as int,
                    du as int,
                    dv as int + 1,
                    j,
                ) by {
                    assert(pre[j] == partly_marked(
                        vis0,
                        u0 as int,
                        v0 as int,
                        w as int,
                        du as int,
                        dv as int,
                        j,
                    ));
                    if j != k {
                        assert(vis@[j] == pre[j]);
                    }
                }
            }
            dv = dv + 1;
        }
        proof {
            assert forall|j: int| 0 <= j < vis@.len() implies vis@[j] == #[trigger] partly_marked(
                vis0,
                u0 as int,
                v0 as int,
                w as int,
                du as int + 1,
                0,
                j,
            ) by {
                assert(vis@[j] == partly_marked(
                    vis0,
                    u0 as int,
                    v0 as int,
                    w as int,
                    du as int,
                    w as int,
                    j,
                ));
            }
        }
        du = du + 1;
    }
    proof {
        assert forall|k: int| 0 <= k < vis@.len() implies vis@[k] == mark_rect(
            vis0,
            u0 as int,
            v0 as int,
            w as int,
            h as int,
        )[k] by {
            assert(vis@[k] == partly_marked(
                vis0,
                u0 as int,
                v0 as int,
                w as int,
                h as int,
                0,
                k,
            ));
        }
        assert(vis@ =~= mark_rect(vis0, u0 as int, v0 as int, w as int, h as int));
    }
}

/// Flat mask position arithmetic: row and column of a position, and the
/// position rebuilt from them.
pub proof fn lemma_flat_position(p: int)
    requires
        0 <= p < CHUNK_SIZE * CHUNK_SIZE,
    ensures
        (p / (CHUNK_SIZE as int)) * CHUNK_SIZE + p % (CHUNK_SIZE as int) == p,
        0 <= p / (CHUNK_SIZE as int) < CHUNK_SIZE,
        0 <= p % (CHUNK_SIZE as int) < CHUNK_SIZE,
{
    let s = CHUNK_SIZE as int;
    assert((p / s) * s + p % s == p && 0 <= p / s < s && 0 <= p % s < s) by (nonlinear_arith)
        requires
            s == 64,
            0 <= p < s * s,
    ;
}

/// Appending one quad to a quad sequence appends its data to each buffer.
proof fn lemma_buffers_push(qs: Seq<Quad>, q: Quad, base: int)
    ensures
        positions_of(qs.push(q)) == positions_of(qs) + quad_positions(q),
        normals_of(qs.push(q)) == normals_of(qs) + quad_normals(q),
        texcoords_of(qs.push(q)) == texcoords_of(qs) + quad_texcoords(q),
        indices_of_from(qs.push(q), base) == indices_of_from(qs, base) + quad_indices(
            q,
            base + 4 * qs.len(),
        ),
{
    assert(qs.push(q).drop_last() =~= qs);
    assert(qs.push(q).last() == q);
}

/// Buffer lengths are fixed multiples of the quad count.
pub proof fn lemma_buffer_lens(qs: Seq<Quad>, base: int)
    ensures
        positions_of(qs).len() == 12 * qs.len(),
        normals_of(qs).len() == 12 * qs.len(),
        texcoords_of(qs).len() == 8 * qs.len(),
        indices_of_from(qs, base).len() == 6 * qs.len(),
    decreases qs.len(),
{
    if qs.len() > 0 {
        lemma_buffer_lens(qs.drop_last(), base);
    }
}

/// Buffers of a concatenation are the concatenated buffers; the second index
/// buffer starts after the first one's vertices.
proof fn lemma_buffers_concat(qs0: Seq<Quad>, qs1: Seq<Quad>, base: int)
    ensures
        positions_of(qs0 + qs1) == positions_of(qs0) + positions_of(qs1),
        normals_of(qs0 + qs1) == normals_of(qs0) + normals_of(qs1),
        texcoords_of(qs0 + qs1) == texcoords_of(qs0) + texcoords_of(qs1),
        indices_of_from(qs0 + qs1, base) == indices_of_from(qs0, base) + indices_of_from(
            qs1,
            base + 4 * qs0.len(),
        ),
    decreases qs1.len(),
{
    if qs1.len() == 0 {
        assert(qs0 + qs1 =~= qs0);
        assert(positions_of(qs0) + positions_of(qs1) =~= positions_of(qs0));
        assert(normals_of(qs0) + normals_of(qs1) =~= normals_of(qs0));
        assert(texcoords_of(qs0) + texcoords_of(qs1) =~= texcoords_of(qs0));
        assert(indices_of_from(qs0, base) + indices_of_from(qs1, base + 4 * qs0.len())
            =~= indices_of_from(qs0, base));
    } else {
        let rest = qs1.drop_last();
        let q = qs1.last();
        lemma_buffers_concat(qs0, rest, base);
        lemma_buffers_push(qs0 + rest, q, base);
        assert((qs0 + rest).push(q) =~= qs0 + qs1);
        lemma_buffers_push(rest, q, base + 4 * qs0.len());
        assert(rest.push(q) =~= qs1);
        assert(positions_of(qs0 + qs1) =~= positions_of(qs0) + positions_of(qs1));
        assert(normals_of(qs0 + qs1) =~= normals_of(qs0) + normals_of(qs1));
        assert(texcoords_of(qs0 + qs1) =~= texcoords_of(qs0) + texcoords_of(qs1));
        assert(indices_of_from(qs0 + qs1, base) =~= indices_of_from(qs0, base)
            + indices_of_from(qs1, base + 4 * qs0.len()));
    }
}

/// Appends the four vertices and six indices of one quad to the buffers.
fn emit_quad(out: &mut MeshBuffers, d: usize, s: usize, u: usize, v: usize, w: usize, h: usize)
    requires
        d < 6,
        s < CHUNK_SIZE,
        u + h <= CHUNK_SIZE,
        v + w <= CHUNK_SIZE,
        old(out).positions@.len() % 3 == 0,
    ensures
        ({
            let q = (d as int, s as int, u as int, v as int, w as int, h as int);
            &&& final(out).positions@ == old(out).positions@ + quad_positions(q)
            &&& final(out).normals@ == old(out).normals@ + quad_normals(q)
            &&& final(out).texcoords@ == old(out).texcoords@ + quad_texcoords(q)
            &&& final(out).indices@ == old(out).indices@ + quad_indices(
                q,
                old(out).positions@.len() as int / 3,
            )
        }),
{
    let ghost q = (d as int, s as int, u as int, v as int, w as int, h as int);
    let a = d / 2;
    let pc = if d % 2 == 0 {
        s + 1
    } else {
        s
    };
    let base = out.positions.len() / 3;
    let c0 = cell_for(a, pc, u, v);
    let c1 = cell_for(a, pc, u, v + w);
    let c2 = cell_for(a, pc, u + h, v + w);
    let c3 = cell_for(a, pc, u + h, v);
    proof {
        assert((c0.0 as int, c0.1 as int, c0.2 as int) == quad_corner(q, 0));
        assert((c1.0 as int, c1.1 as int, c1.2 as int) == quad_corner(q, 1));
        assert((c2.0 as int, c2.1 as int, c2.2 as int) == quad_corner(q, 2));
        assert((c3.0 as int, c3.1 as int, c3.2 as int) == quad_corner(q, 3));
    }
    out.positions.push(c0.0 as u32);
    out.positions.push(c0.1 as u32);
    out.positions.push(c0.2 as u32);
    out.positions.push(c1.0 as u32);
    out.positions.push(c1.1 as u32);
    out.positions.push(c1.2 as u32);
    out.positions.push(c2.0 as u32);
    out.positions.push(c2.1 as u32);
    out.positions.push(c2.2 as u32);
    out.positions.push(c3.0 as u32);
    out.positions.push(c3.1 as u32);
    out.positions.push(c3.2 as u32);
    let (nx, ny, nz): (i32, i32, i32) = if d == 0 {
        (1, 0, 0)
    } else if d == 1 {
        (-1, 0, 0)
    } else if d == 2 {
        (0, 1, 0)
    } else if d == 3 {
        (0, -1, 0)
    } else if d == 4 {
        (0, 0, 1)
    } else {
        (0, 0, -1)
    };
    let mut corner: usize = 0;
    while corner < 4
        invariant
            out.positions@ == old(out).positions@ + quad_positions(q),
            out.normals@ == old(out).normals@ + quad_normals(q).take(3 * corner),
            out.texcoords@ == old(out).texcoords@,
            out.indices@ == old(out).indices@,
            corner <= 4,
            (nx, ny, nz) == dir_normal(q.0),
        decreases 4 - corner,
    {
        out.normals.push(nx);
        out.normals.push(ny);
        out.normals.push(nz);
        proof {
            assert(out.normals@ =~= old(out).normals@ + quad_normals(q).take(3 * (corner + 1)));
        }
        corner = corner + 1;
    }
    proof {
        assert(quad_normals(q).take(12) =~= quad_normals(q));
    }
    out.texcoords.push(0);
    out.texcoords.push(0);
    out.texcoords.push(1);
    out.texcoords.push(0);
    out.texcoords.push(1);
    out.texcoords.push(1);
    out.texcoords.push(0);
    out.texcoords.push(1);
    let flipped = (d % 2 == 0) != (a == 1);
    if flipped {
        out.indices.push(base);
        out.indices.push(base + 2);
        out.indices.push(base + 1);
        out.indices.push(base);
        out.indices.push(base + 3);
        out.indices.push(base + 2);
    } else {
        out.indices.push(base);
        out.indices.push(base + 1);
        out.indices.push(base + 2);
        out.indices.push(base);
        out.indices.push(base + 2);
        out.indices.push(base + 3);
    }
    proof {
        assert(out.positions@ =~= old(out).positions@ + quad_positions(q));
        assert(out.texcoords@ =~= old(out).texcoords@ + quad_texcoords(q));
        assert(out.indices@ =~= old(out).indices@ + quad_indices(q, base as int));
    }
}

/// Runs the greedy scan over one exposure mask and appends a quad to the
/// buffers for every merged rectangle.
fn append_mask_quads(mask: &Vec<bool>, d: usize, s: usize, out: &mut MeshBuffers)
    requires
        mask@.len() == CHUNK_SIZE * CHUNK_SIZE,
        d < 6,
        s < CHUNK_SIZE,
        old(out).positions@.len() % 3 == 0,
    ensures
        ({
            let qs = rect_quads(d as int, s as int, greedy_rects(mask@));
            &&& final(out).positions@ == old(out).positions@ + positions_of(qs)
            &&& final(out).normals@ == old(out).normals@ + normals_of(qs)
            &&& final(out).texcoords@ == old(out).texcoords@ + texcoords_of(qs)
            &&& final(out).indices@ == old(out).indices@ + indices_of_from(
                qs,
                old(out).positions@.len() as int / 3,
            )
        }),
{
    let ghost base0 = old(out).positions@.len() as int / 3;
    let mut vis: Vec<bool> = Vec::new();
    let mut i: usize = 0;
    while i < CHUNK_SIZE * CHUNK_SIZE
        invariant
            i <= CHUNK_SIZE * CHUNK_SIZE,
            vis@.len() == i,
            forall|j: int| 0 <= j < i ==> !vis@[j],
        decreases CHUNK_SIZE * CHUNK_SIZE - i,
    {
        vis.push(false);
        i = i + 1;
    }
    proof {
        assert(vis@ =~= empty_visited());
    }
    let ghost mut done: Seq<Quad> = Seq::empty();
    let mut p: usize = 0;
    while p < CHUNK_SIZE * CHUNK_SIZE
        invariant
            mask@.len() == CHUNK_SIZE * CHUNK_SIZE,
            vis@.len() == CHUNK_SIZE * CHUNK_SIZE,
            d < 6,
            s < CHUNK_SIZE,
            p <= CHUNK_SIZE * CHUNK_SIZE,
            old(out).positions@.len() % 3 == 0,
            base0 == old(out).positions@.len() as int / 3,
            out.positions@ == old(out).positions@ + positions_of(done),
            out.normals@ == old(out).normals@ + normals_of(done),
            out.texcoords@ == old(out).texcoords@ + texcoords_of(done),
            out.indices@ == old(out).indices@ + indices_of_from(done, base0),
            out.positions@.len() == old(out).positions@.len() + 12 * done.len(),
            rect_quads(d as int, s as int, greedy_rects(mask@)) == done + rect_quads(
                d as int,
                s as int,
                greedy_rects_from(mask@, vis@, p as int),
            ),
        decreases CHUNK_SIZE * CHUNK_SIZE - p,
    {
        let u = p / CHUNK_SIZE;
        let v = p % CHUNK_SIZE;
        proof {
            lemma_flat_position(p as int);
        }
        let ghost vis_before = vis@;
        if mask[p] && !vis[p] {
            proof {
                assert(mask_avail(mask@, vis@, u as int, v as int));
            }
            // Grow the rectangle as wide as possible along the row.
            let mut w: usize = 1;
            while v + w < CHUNK_SIZE && mask[u * CHUNK_SIZE + v + w] && !vis[u * CHUNK_SIZE + v
                + w]
                invariant
                    mask@.len() == CHUNK_SIZE * CHUNK_SIZE,
                    vis@.len() == CHUNK_SIZE * CHUNK_SIZE,
                    u < CHUNK_SIZE,
                    v < CHUNK_SIZE,
                    1 <= w,
                    v + w <= CHUNK_SIZE,
                    vis@ == vis_before,
                    forall|dv: int|
                        0 <= dv < w ==> #[trigger] mask_avail(mask@, vis@, u as int, v + dv),
                    run_width(mask@, vis@, u as int, v as int) == w + run_width(
                        mask@,
                        vis@,
                        u as int,
                        v as int + w,
                    ),
                decreases CHUNK_SIZE - (v + w),
            {
                proof {
                    lemma_row_col(u as int, (v + w) as int);
                    assert(mask_avail(mask@, vis@, u as int, v as int + w));
                }
                w = w + 1;
            }
            proof {
                if v + w < CHUNK_SIZE {
                    lemma_row_col(u as int, (v + w) as int);
                }
                assert(!mask_avail(mask@, vis@, u as int, v as int + w));
                assert(run_width(mask@, vis@, u as int, v as int) == w as int);
            }
            // Grow the rectangle as tall as possible.
            let mut h: usize = 1;
            proof {
                assert(row_avail(mask@, vis@, u as int, v as int, w as int));
            }
            let mut grow = u + h < CHUNK_SIZE && row_all_avail(mask, &vis, u + h, v, w);
            while grow
                invariant
                    mask@.len() == CHUNK_SIZE * CHUNK_SIZE,
                    vis@.len() == CHUNK_SIZE * CHUNK_SIZE,
                    u < CHUNK_SIZE,
                    v < CHUNK_SIZE,
                    1 <= w,
                    v + w <= CHUNK_SIZE,
                    1 <= h,
                    u + h <= CHUNK_SIZE,
                    vis@ == vis_before,
                    grow == (u + h < CHUNK_SIZE && row_avail(
                        mask@,
                        vis@,
                        u as int + h,
                        v as int,
                        w as int,
                    )),
                    run_height(mask@, vis@, u as int, v as int, w as int) == h + run_height(
                        mask@,
                        vis@,
                        u as int + h,
                        v as int,
                        w as int,
                    ),
                decreases CHUNK_SIZE - (u + h),
            {
                h = h + 1;
                grow = u + h < CHUNK_SIZE && row_all_avail(mask, &vis, u + h, v, w);
            }
            proof {
                assert(run_height(mask@, vis@, u as int + h, v as int, w as int) == 0);
                assert(run_height(mask@, vis@, u as int, v as int, w as int) == h as int);
            }
            let ghost q = (d as int, s as int, u as int, v as int, w as int, h as int);
            let ghost rest = greedy_rects_from(
                mask@,
                mark_rect(vis_before, u as int, v as int, w as int, h as int),
                p as int + 1,
            );
            proof {
                assert(greedy_rects_from(mask@, vis_before, p as int) == seq![
                    (u as int, v as int, w as int, h as int),
                ] + rest);
            }
            mark_visited(&mut vis, u, v, w, h);
            emit_quad(out, d, s, u, v, w, h);
            proof {
                lemma_buffers_push(done, q, base0);
                assert(rect_quads(
                    d as int,
                    s as int,
                    seq![(u as int, v as int, w as int, h as int)] + rest,
                ) =~= seq![q] + rect_quads(d as int, s as int, rest));
                assert(done + (seq![q] + rect_quads(d as int, s as int, rest)) =~= done.push(q)
                    + rect_quads(d as int, s as int, rest));
                done = done.push(q);
            }
        } else {
            proof {
                assert(!mask_avail(mask@, vis@, u as int, v as int));
                assert(greedy_rects_from(mask@, vis@, p as int) == greedy_rects_from(
                    mask@,
                    vis@,
                    p as int + 1,
                ));
            }
        }
        p = p + 1;
    }
    proof {
        assert(greedy_rects_from(mask@, vis@, p as int) =~= Seq::<(int, int, int, int)>::empty());
        assert(rect_quads(d as int, s as int, greedy_rects_from(mask@, vis@, p as int))
            =~= Seq::<Quad>::empty());
        assert(done + Seq::<Quad>::empty() =~= done);
    }
}

/// Every index of a quad sequence's index buffer refers to one of its own
/// vertices: it lies between `base` and `base` plus four vertices per quad.
pub proof fn lemma_indices_bound(qs: Seq<Quad>, base: int)
    requires
        0 <= base,
        base + 4 * qs.len() <= usize::MAX,
    ensures
        forall|j: int|
            0 <= j < indices_of_from(qs, base).len() ==> base <= (#[trigger] indices_of_from(
                qs,
                base,
            )[j] as int) < base + 4 * qs.len(),
    decreases qs.len(),
{
    if qs.len() > 0 {
        lemma_indices_bound(qs.drop_last(), base);
        lemma_buffer_lens(qs.drop_last(), base);
    }
}

/// The visible surface of a chunk as mesh buffers: one quad per maximal
/// merged rectangle of exposed faces, scanned in a fixed direction, slice,
/// row and column order, so the output is a function of the cell contents
/// alone. The four buffers equal the specification model's buffers, and the
/// mesh is well formed: parallel vertex buffers, whole triangles, every index
/// in range.
pub fn generate_mesh(chunk: &ChunkData) -> (m: MeshBuffers)
    requires
        chunk.wf(),
    ensures
        m.wf(),
        m.positions@ == positions_of(chunk_quads(chunk@)),
        m.normals@ == normals_of(chunk_quads(chunk@)),
        m.texcoords@ == texcoords_of(chunk_quads(chunk@)),
        m.indices@ == indices_of(chunk_quads(chunk@)),
{
    let mut out = MeshBuffers::empty();
    let mut n: usize = 0;
    while n < 6 * CHUNK_SIZE
        invariant
            chunk.wf(),
            n <= 6 * CHUNK_SIZE,
            out.positions@ == positions_of(chunk_quads_upto(chunk@, n as int)),
            out.normals@ == normals_of(chunk_quads_upto(chunk@, n as int)),
            out.texcoords@ == texcoords_of(chunk_quads_upto(chunk@, n as int)),
            out.indices@ == indices_of_from(chunk_quads_upto(chunk@, n as int), 0),
            out.positions@.len() == 12 * chunk_quads_upto(chunk@, n as int).len(),
        decreases 6 * CHUNK_SIZE - n,
    {
        let d = n / CHUNK_SIZE;
        let s = n % CHUNK_SIZE;
        let ghost qs0 = chunk_quads_upto(chunk@, n as int);
        let ghost mq = mask_quads(chunk@, d as int, s as int);
        let mask = build_mask(chunk, d, s);
        proof {
            lemma_buffers_concat(qs0, mq, 0);
            lemma_buffer_lens(mq, 4 * qs0.len() as int);
        }
        append_mask_quads(&mask, d, s, &mut out);
        proof {
            assert(chunk_quads_upto(chunk@, n as int + 1) == qs0 + mq);
        }
        n = n + 1;
    }
    let nv3 = out.positions.len();
    proof {
        assert(4 * chunk_quads(chunk@).len() <= nv3 <= usize::MAX);
        let qs = chunk_quads(chunk@);
        lemma_buffer_lens(qs, 0);
        lemma_indices_bound(qs, 0);
        assert(out.wf());
    }
    out
}

} // verus!
