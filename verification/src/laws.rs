//! Laws of the mesher: proved statements that relate whole mesh-generation
//! runs to the shape of the volume.

use vstd::prelude::*;

use crate::mesh::MeshBuffers;
use crate::mesher::Quad;
use crate::mesher::chunk_quads;
use crate::mesher::chunk_quads_upto;
use crate::mesher::empty_visited;
use crate::mesher::greedy_rects;
use crate::mesher::greedy_rects_from;
use crate::mesher::indices_of;
use crate::mesher::indices_of_from;
use crate::mesher::lemma_buffer_lens;
use crate::mesher::mask_avail;
use crate::mesher::mask_quads;
use crate::mesher::normals_of;
use crate::mesher::positions_of;
use crate::mesher::spec_mask;
use crate::mesher::texcoords_of;
use crate::volume::CHUNK_CELLS;
use crate::volume::CHUNK_SIZE;
use crate::volume::cell_occupied;
use crate::volume::lemma_position_in_range;
use crate::volume::spec_position;
use crate::volume::valid_coords;

verus! {

/// A volume with no occupied cell.
pub open spec fn volume_empty(c: Seq<bool>) -> bool {
    forall|i: int| 0 <= i < c.len() ==> !c[i]
}

/// Availability of the mask cell at flat position `k`.
spec fn avail_at(mask: Seq<bool>, vis: Seq<bool>, k: int) -> bool {
    mask_avail(mask, vis, k / (CHUNK_SIZE as int), k % (CHUNK_SIZE as int))
}

/// The greedy scan emits nothing over a stretch of unavailable cells.
proof fn lemma_greedy_skip(mask: Seq<bool>, vis: Seq<bool>, p: int, t: int)
    requires
        0 <= p <= t <= CHUNK_SIZE * CHUNK_SIZE,
        forall|j: int| p <= j < t ==> !#[trigger] avail_at(mask, vis, j),
    ensures
        greedy_rects_from(mask, vis, p) == greedy_rects_from(mask, vis, t),
    decreases t - p,
{
    if p < t {
        assert(!avail_at(mask, vis, p));
        lemma_greedy_skip(mask, vis, p + 1, t);
    }
}

/// Determinism law: the mesh buffers are a function of the cell contents
/// alone, so two generation runs over volumes with equal contents produce
/// identical buffers.
pub proof fn lemma_mesh_deterministic(a: MeshBuffers, b: MeshBuffers, c: Seq<bool>)
    requires
        a.positions@ == positions_of(chunk_quads(c)),
        a.normals@ == normals_of(chunk_quads(c)),
        a.texcoords@ == texcoords_of(chunk_quads(c)),
        a.indices@ == indices_of(chunk_quads(c)),
        b.positions@ == positions_of(chunk_quads(c)),
        b.normals@ == normals_of(chunk_quads(c)),
        b.texcoords@ == texcoords_of(chunk_quads(c)),
        b.indices@ == indices_of(chunk_quads(c)),
    ensures
        a.positions@ == b.positions@,
        a.normals@ == b.normals@,
        a.texcoords@ == b.texcoords@,
        a.indices@ == b.indices@,
{
}

/// In an all-empty volume no face is exposed, so every mask is all false.
proof fn lemma_empty_mask(c: Seq<bool>, d: int, s: int)
    requires
        c.len() == CHUNK_CELLS,
        volume_empty(c),
        0 <= d < 6,
        0 <= s < CHUNK_SIZE,
    ensures
        mask_quads(c, d, s).len() == 0,
{
    let mask = spec_mask(c, d, s);
    assert forall|j: int| 0 <= j < CHUNK_SIZE * CHUNK_SIZE implies !avail_at(
        mask,
        empty_visited(),
        j,
    ) by {
        crate::mesher::lemma_flat_position(j);
        let u = j / (CHUNK_SIZE as int);
        let v = j % (CHUNK_SIZE as int);
        let a = crate::mesher::axis_of(d);
        let cc = crate::mesher::cell_of(a, s, u, v);
        assert(valid_coords(cc.0, cc.1, cc.2));
        lemma_position_in_range(cc.0, cc.1, cc.2);
        assert(!cell_occupied(c, cc.0, cc.1, cc.2));
        assert(!mask[u * CHUNK_SIZE + v]);
    }
    lemma_greedy_skip(mask, empty_visited(), 0, CHUNK_SIZE * CHUNK_SIZE);
}

/// Quad count over the first `n` masks of an all-empty volume.
proof fn lemma_empty_upto(c: Seq<bool>, n: int)
    requires
        c.len() == CHUNK_CELLS,
        volume_empty(c),
        0 <= n <= 6 * CHUNK_SIZE,
    ensures
        chunk_quads_upto(c, n).len() == 0,
    decreases n,
{
    if n > 0 {
        lemma_empty_upto(c, n - 1);
        let d = (n - 1) / (CHUNK_SIZE as int);
        let s = (n - 1) % (CHUNK_SIZE as int);
        assert(0 <= d < 6 && 0 <= s < CHUNK_SIZE) by (nonlinear_arith)
            requires
                d == (n - 1) / 64,
                s == (n - 1) % 64,
                CHUNK_SIZE == 64,
                0 <= n - 1 < 6 * 64,
        ;
        lemma_empty_mask(c, d, s);
    }
}

/// Number of masks among the first `n` whose slice is the target slice of its
/// direction: directions whose target has been passed count one quad each.
spec fn quads_count_upto(t: spec_fn(int) -> int, n: int) -> int
    decreases n,
{
    if n <= 0 {
        0
    } else {
        quads_count_upto(t, n - 1) + if (n - 1) % (CHUNK_SIZE as int) == t(
            (n - 1) / (CHUNK_SIZE as int),
        ) {
            1int
        } else {
            0int
        }
    }
}

/// Splitting a flat mask number into direction and slice, one step at a time.
proof fn lemma_next_mask(n: int)
    requires
        1 <= n <= 6 * CHUNK_SIZE,
    ensures
        0 <= (n - 1) / (CHUNK_SIZE as int) < 6,
        0 <= (n - 1) % (CHUNK_SIZE as int) < CHUNK_SIZE,
        (n - 1) % (CHUNK_SIZE as int) < CHUNK_SIZE - 1 ==> n / (CHUNK_SIZE as int) == (n - 1) / (
        CHUNK_SIZE as int) && n % (CHUNK_SIZE as int) == (n - 1) % (CHUNK_SIZE as int) + 1,
        (n - 1) % (CHUNK_SIZE as int) == CHUNK_SIZE - 1 ==> n / (CHUNK_SIZE as int) == (n - 1) / (
        CHUNK_SIZE as int) + 1 && n % (CHUNK_SIZE as int) == 0,
{
    let s = CHUNK_SIZE as int;
    let dm = (n - 1) / s;
    let sm = (n - 1) % s;
    assert(0 <= dm < 6 && 0 <= sm < s && (sm < s - 1 ==> n / s == dm && n % s == sm + 1) && (sm == s
        - 1 ==> n / s == dm + 1 && n % s == 0)) by (nonlinear_arith)
        requires
            s == 64,
            1 <= n <= 6 * s,
            dm == (n - 1) / s,
            sm == (n - 1) % s,
    ;
}

/// If every mask contributes one quad exactly on its direction's target
/// slice, the quads of the first `n` masks number `quads_count_upto`.
proof fn lemma_upto_len(c: Seq<bool>, t: spec_fn(int) -> int, n: int)
    requires
        0 <= n <= 6 * CHUNK_SIZE,
        forall|d: int, s: int|
            0 <= d < 6 && 0 <= s < CHUNK_SIZE ==> (#[trigger] mask_quads(c, d, s)).len() == (if s
                == t(d) {
                1int
            } else {
                0int
            }),
    ensures
        chunk_quads_upto(c, n).len() == quads_count_upto(t, n),
    decreases n,
{
    if n > 0 {
        lemma_upto_len(c, t, n - 1);
        lemma_next_mask(n);
    }
}

/// Closed form of `quads_count_upto` for an in-range target function: one
/// quad per fully scanned direction, plus one if the current direction has
/// passed its target slice.
proof fn lemma_quads_count_closed(t: spec_fn(int) -> int, n: int)
    requires
        0 <= n <= 6 * CHUNK_SIZE,
        forall|d: int| 0 <= d < 6 ==> 0 <= #[trigger] t(d) < CHUNK_SIZE,
    ensures
        quads_count_upto(t, n) == n / (CHUNK_SIZE as int) + if n / (CHUNK_SIZE as int) < 6 && n % (
        CHUNK_SIZE as int) > t(n / (CHUNK_SIZE as int)) {
            1int
        } else {
            0int
        },
    decreases n,
{
    if n > 0 {
        lemma_quads_count_closed(t, n - 1);
        lemma_next_mask(n);
    }
}

/// A row whose cells are all available from column `v` on has its maximal run
/// reach the row's end.
proof fn lemma_run_width_all(mask: Seq<bool>, vis: Seq<bool>, u: int, v: int)
    requires
        0 <= u < CHUNK_SIZE,
        0 <= v <= CHUNK_SIZE,
        forall|j: int| v <= j < CHUNK_SIZE ==> #[trigger] mask_avail(mask, vis, u, j),
    ensures
        crate::mesher::run_width(mask, vis, u, v) == CHUNK_SIZE - v,
    decreases CHUNK_SIZE - v,
{
    if v < CHUNK_SIZE {
        assert(mask_avail(mask, vis, u, v));
        lemma_run_width_all(mask, vis, u, v + 1);
    } else {
        assert(!mask_avail(mask, vis, u, v));
    }
}

/// A block whose rows are all fully available from row `u` on has its maximal
/// height reach the volume's edge.
proof fn lemma_run_height_all(mask: Seq<bool>, vis: Seq<bool>, u: int, v0: int, w: int)
    requires
        0 <= u <= CHUNK_SIZE,
        w >= 1,
        forall|uu: int, dv: int|
            u <= uu < CHUNK_SIZE && 0 <= dv < w ==> #[trigger] mask_avail(mask, vis, uu, v0 + dv),
    ensures
        crate::mesher::run_height(mask, vis, u, v0, w) == CHUNK_SIZE - u,
    decreases CHUNK_SIZE - u,
{
    if u < CHUNK_SIZE {
        assert(crate::mesher::row_avail(mask, vis, u, v0, w));
        lemma_run_height_all(mask, vis, u + 1, v0, w);
    }
}

/// Empty-volume law: meshing a volume with no occupied cells yields no quads,
/// zero vertices and zero indices.
pub proof fn lemma_empty_volume_mesh(c: Seq<bool>)
    requires
        c.len() == CHUNK_CELLS,
        volume_empty(c),
    ensures
        chunk_quads(c).len() == 0,
        positions_of(chunk_quads(c)).len() == 0,
        normals_of(chunk_quads(c)).len() == 0,
        texcoords_of(chunk_quads(c)).len() == 0,
        indices_of(chunk_quads(c)).len() == 0,
{
    lemma_empty_upto(c, 6 * CHUNK_SIZE);
    lemma_buffer_lens(chunk_quads(c), 0);
}

/// A row that starts with an unavailable cell is not fully available.
proof fn lemma_row_not_avail(mask: Seq<bool>, vis: Seq<bool>, u: int, v0: int, w: int)
    requires
        w >= 1,
        !mask_avail(mask, vis, u, v0),
    ensures
        !crate::mesher::row_avail(mask, vis, u, v0, w),
{
    if crate::mesher::row_avail(mask, vis, u, v0, w) {
        assert(mask_avail(mask, vis, u, v0 + 0));
    }
}

/// A volume with every cell occupied.
pub open spec fn volume_full(c: Seq<bool>) -> bool {
    &&& c.len() == CHUNK_CELLS
    &&& forall|i: int| 0 <= i < c.len() ==> c[i]
}

/// The one slice of each direction that is exposed in a full volume: the
/// boundary slice the direction faces.
spec fn full_target(d: int) -> int {
    if d % 2 == 0 {
        CHUNK_SIZE - 1
    } else {
        0
    }
}

/// In a full volume, a mask is all true on its direction's boundary slice and
/// all false elsewhere; the boundary mask merges into one full-extent quad.
proof fn lemma_full_mask(c: Seq<bool>, d: int, s: int)
    requires
        volume_full(c),
        0 <= d < 6,
        0 <= s < CHUNK_SIZE,
    ensures
        mask_quads(c, d, s).len() == (if s == full_target(d) {
            1int
        } else {
            0int
        }),
        s == full_target(d) ==> mask_quads(c, d, s) == seq![
            (d, s, 0int, 0int, CHUNK_SIZE as int, CHUNK_SIZE as int),
        ],
{
    let sz = CHUNK_SIZE as int;
    let mask = spec_mask(c, d, s);
    let vis0 = empty_visited();
    let a = crate::mesher::axis_of(d);
    assert forall|j: int| 0 <= j < sz * sz implies mask[j] == (s == full_target(d)) by {
        crate::mesher::lemma_flat_position(j);
        let u = j / sz;
        let v = j % sz;
        let cc = crate::mesher::cell_of(a, s, u, v);
        assert(valid_coords(cc.0, cc.1, cc.2));
        lemma_position_in_range(cc.0, cc.1, cc.2);
        assert(cell_occupied(c, cc.0, cc.1, cc.2));
        if crate::mesher::dir_positive(d) && s < sz - 1 {
            let nc = crate::mesher::cell_of(a, s + 1, u, v);
            assert(valid_coords(nc.0, nc.1, nc.2));
            lemma_position_in_range(nc.0, nc.1, nc.2);
            assert(cell_occupied(c, nc.0, nc.1, nc.2));
        }
        if !crate::mesher::dir_positive(d) && s > 0 {
            let nc = crate::mesher::cell_of(a, s - 1, u, v);
            assert(valid_coords(nc.0, nc.1, nc.2));
            lemma_position_in_range(nc.0, nc.1, nc.2);
            assert(cell_occupied(c, nc.0, nc.1, nc.2));
        }
    }
    if s == full_target(d) {
        assert forall|uu: int, dv: int|
            0 <= uu < CHUNK_SIZE && 0 <= dv < sz implies #[trigger] mask_avail(
            mask,
            vis0,
            uu,
            0 + dv,
        ) by {
            crate::mesher::lemma_row_col(uu, dv);
        }
        assert(mask_avail(mask, vis0, 0, 0));
        lemma_run_width_all(mask, vis0, 0, 0);
        lemma_run_height_all(mask, vis0, 0, 0, sz);
        assert(crate::mesher::run_width(mask, vis0, 0, 0) == sz);
        assert(crate::mesher::run_height(mask, vis0, 0, 0, sz) == sz);
        let vis1 = crate::mesher::mark_rect(vis0, 0, 0, sz, sz);
        assert forall|j: int| 1 <= j < sz * sz implies !avail_at(mask, vis1, j) by {
            crate::mesher::lemma_flat_position(j);
            assert(crate::mesher::rect_covers(0, 0, sz, sz, j));
            assert(vis1[(j / sz) * sz + j % sz] == vis1[j]);
        }
        lemma_greedy_skip(mask, vis1, 1, sz * sz);
        assert(greedy_rects_from(mask, vis0, 0) == seq![(0int, 0int, sz, sz)]
            + greedy_rects_from(mask, vis1, 1));
        assert(greedy_rects(mask) =~= seq![(0int, 0int, sz, sz)]);
        assert(mask_quads(c, d, s) =~= seq![(d, s, 0int, 0int, sz, sz)]);
    } else {
        assert forall|j: int| 0 <= j < sz * sz implies !avail_at(mask, vis0, j) by {
            crate::mesher::lemma_flat_position(j);
            assert(mask[(j / sz) * sz + j % sz] == mask[j]);
        }
        lemma_greedy_skip(mask, vis0, 0, sz * sz);
        assert(mask_quads(c, d, s) =~= Seq::<Quad>::empty());
    }
}

/// Every quad of a full volume's mesh spans the whole slice.
proof fn lemma_full_extent(c: Seq<bool>, n: int)
    requires
        volume_full(c),
        0 <= n <= 6 * CHUNK_SIZE,
    ensures
        forall|i: int|
            0 <= i < chunk_quads_upto(c, n).len() ==> (#[trigger] chunk_quads_upto(c, n)[i]).4
                == CHUNK_SIZE && chunk_quads_upto(c, n)[i].5 == CHUNK_SIZE,
    decreases n,
{
    if n > 0 {
        lemma_full_extent(c, n - 1);
        lemma_next_mask(n);
        let dm = (n - 1) / (CHUNK_SIZE as int);
        let sm = (n - 1) % (CHUNK_SIZE as int);
        lemma_full_mask(c, dm, sm);
        let prefix = chunk_quads_upto(c, n - 1);
        assert(chunk_quads_upto(c, n) == prefix + mask_quads(c, dm, sm));
        assert forall|i: int|
            0 <= i < chunk_quads_upto(c, n).len() implies (#[trigger] chunk_quads_upto(c, n)[i]).4
            == CHUNK_SIZE && chunk_quads_upto(c, n)[i].5 == CHUNK_SIZE by {
            if i < prefix.len() {
                assert(chunk_quads_upto(c, n)[i] == prefix[i]);
            } else {
                assert(chunk_quads_upto(c, n)[i] == mask_quads(c, dm, sm)[i - prefix.len()]);
            }
        }
    }
}

/// Full-volume law: meshing a volume with every cell occupied yields exactly
/// the six outer boundary faces, each a single merged quad spanning the whole
/// slice: six quads, 24 vertices (72 position values), 36 indices.
pub proof fn lemma_full_volume_mesh(c: Seq<bool>)
    requires
        volume_full(c),
    ensures
        chunk_quads(c).len() == 6,
        positions_of(chunk_quads(c)).len() == 72,
        normals_of(chunk_quads(c)).len() == 72,
        texcoords_of(chunk_quads(c)).len() == 48,
        indices_of(chunk_quads(c)).len() == 36,
        forall|i: int|
            0 <= i < chunk_quads(c).len() ==> (#[trigger] chunk_quads(c)[i]).4 == CHUNK_SIZE
                && chunk_quads(c)[i].5 == CHUNK_SIZE,
{
    let t: spec_fn(int) -> int = |d: int| full_target(d);
    assert forall|d: int, s: int| 0 <= d < 6 && 0 <= s < CHUNK_SIZE implies (#[trigger] mask_quads(
        c,
        d,
        s,
    )).len() == (if s == t(d) {
        1int
    } else {
        0int
    }) by {
        lemma_full_mask(c, d, s);
    }
    lemma_upto_len(c, t, 6 * CHUNK_SIZE);
    lemma_quads_count_closed(t, 6 * CHUNK_SIZE);
    lemma_buffer_lens(chunk_quads(c), 0);
    lemma_full_extent(c, 6 * CHUNK_SIZE);
}

/// A volume whose only occupied cell is `(x, y, z)`.
pub open spec fn single_occupied(c: Seq<bool>, x: int, y: int, z: int) -> bool {
    &&& c.len() == CHUNK_CELLS
    &&& valid_coords(x, y, z)
    &&& c[spec_position(x, y, z)]
    &&& forall|j: int| 0 <= j < c.len() && j != spec_position(x, y, z) ==> !c[j]
}

/// The one slice of direction `d` that holds the cell `(x, y, z)`.
spec fn single_target(d: int, x: int, y: int, z: int) -> int {
    if d / 2 == 0 {
        x
    } else if d / 2 == 1 {
        y
    } else {
        z
    }
}

/// The mask row of the cell `(x, y, z)` in direction `d`'s slice planes.
spec fn single_row(d: int, x: int, y: int, z: int) -> int {
    if d / 2 == 0 {
        y
    } else {
        x
    }
}

/// The mask column of the cell `(x, y, z)` in direction `d`'s slice planes.
spec fn single_col(d: int, x: int, y: int, z: int) -> int {
    if d / 2 == 2 {
        y
    } else {
        z
    }
}

/// In a single-voxel volume, the mask of the cell's own slice holds exactly
/// one exposed face, which stays a one-by-one quad; every other mask is
/// empty.
proof fn lemma_single_mask(c: Seq<bool>, x: int, y: int, z: int, d: int, s: int)
    requires
        single_occupied(c, x, y, z),
        0 <= d < 6,
        0 <= s < CHUNK_SIZE,
    ensures
        mask_quads(c, d, s).len() == (if s == single_target(d, x, y, z) {
            1int
        } else {
            0int
        }),
        s == single_target(d, x, y, z) ==> mask_quads(c, d, s) == seq![
            (d, s, single_row(d, x, y, z), single_col(d, x, y, z), 1int, 1int),
        ],
{
    let sz = CHUNK_SIZE as int;
    let mask = spec_mask(c, d, s);
    let vis0 = empty_visited();
    let a = crate::mesher::axis_of(d);
    let t = single_target(d, x, y, z);
    let u0 = single_row(d, x, y, z);
    let v0 = single_col(d, x, y, z);
    let k0 = u0 * sz + v0;
    crate::mesher::lemma_row_col(u0, v0);
    assert forall|j: int| 0 <= j < sz * sz implies mask[j] == (s == t && j == k0) by {
        crate::mesher::lemma_flat_position(j);
        let u = j / sz;
        let v = j % sz;
        let cc = crate::mesher::cell_of(a, s, u, v);
        assert(valid_coords(cc.0, cc.1, cc.2));
        lemma_position_in_range(cc.0, cc.1, cc.2);
        if cell_occupied(c, cc.0, cc.1, cc.2) {
            crate::volume::lemma_position_injective(cc.0, cc.1, cc.2, x, y, z);
            assert(s == t && u == u0 && v == v0);
            assert(j == k0);
            if crate::mesher::dir_positive(d) && s < sz - 1 {
                let nc = crate::mesher::cell_of(a, s + 1, u, v);
                assert(valid_coords(nc.0, nc.1, nc.2));
                lemma_position_in_range(nc.0, nc.1, nc.2);
                if cell_occupied(c, nc.0, nc.1, nc.2) {
                    crate::volume::lemma_position_injective(nc.0, nc.1, nc.2, x, y, z);
                    assert(false);
                }
            }
            if !crate::mesher::dir_positive(d) && s > 0 {
                let nc = crate::mesher::cell_of(a, s - 1, u, v);
                assert(valid_coords(nc.0, nc.1, nc.2));
                lemma_position_in_range(nc.0, nc.1, nc.2);
                if cell_occupied(c, nc.0, nc.1, nc.2) {
                    crate::volume::lemma_position_injective(nc.0, nc.1, nc.2, x, y, z);
                    assert(false);
                }
            }
            assert(mask[j]);
        } else {
            assert(!mask[j]);
            if s == t && j == k0 {
                assert(cc == crate::mesher::cell_of(a, t, u0, v0));
                assert(cc == (x, y, z));
                assert(false);
            }
        }
    }
    if s == t {
        assert(0 <= k0 < sz * sz) by (nonlinear_arith)
            requires
                k0 == u0 * sz + v0,
                sz == 64,
                0 <= u0 < sz,
                0 <= v0 < sz,
        ;
        assert forall|j: int| 0 <= j < k0 implies !avail_at(mask, vis0, j) by {
            crate::mesher::lemma_flat_position(j);
            assert(mask[(j / sz) * sz + j % sz] == mask[j]);
        }
        lemma_greedy_skip(mask, vis0, 0, k0);
        assert(mask_avail(mask, vis0, u0, v0));
        // The run stops after one cell in each direction.
        if v0 + 1 < sz {
            crate::mesher::lemma_row_col(u0, v0 + 1);
            assert(u0 * sz + (v0 + 1) == k0 + 1);
            assert(!mask[k0 + 1]);
        }
        assert(!mask_avail(mask, vis0, u0, v0 + 1));
        assert(crate::mesher::run_width(mask, vis0, u0, v0 + 1) == 0);
        assert(crate::mesher::run_width(mask, vis0, u0, v0) == 1);
        assert(crate::mesher::row_avail(mask, vis0, u0, v0, 1)) by {
            assert forall|dv: int| 0 <= dv < 1 implies #[trigger] mask_avail(
                mask,
                vis0,
                u0,
                v0 + dv,
            ) by {
                assert(dv == 0);
            }
        }
        if u0 + 1 < sz {
            crate::mesher::lemma_row_col(u0 + 1, v0);
            assert((u0 + 1) * sz + v0 == k0 + sz);
            assert(!mask[k0 + sz]);
            assert(!mask_avail(mask, vis0, u0 + 1, v0));
            lemma_row_not_avail(mask, vis0, u0 + 1, v0, 1);
        }
        assert(crate::mesher::run_height(mask, vis0, u0 + 1, v0, 1) == 0);
        assert(crate::mesher::run_height(mask, vis0, u0, v0, 1) == 1);
        let vis1 = crate::mesher::mark_rect(vis0, u0, v0, 1, 1);
        assert(greedy_rects_from(mask, vis0, k0) == seq![(u0, v0, 1int, 1int)]
            + greedy_rects_from(mask, vis1, k0 + 1));
        assert forall|j: int| k0 + 1 <= j < sz * sz implies !avail_at(mask, vis1, j) by {
            crate::mesher::lemma_flat_position(j);
            assert(mask[(j / sz) * sz + j % sz] == mask[j]);
        }
        lemma_greedy_skip(mask, vis1, k0 + 1, sz * sz);
        assert(greedy_rects(mask) =~= seq![(u0, v0, 1int, 1int)]);
        assert(mask_quads(c, d, s) =~= seq![(d, s, u0, v0, 1int, 1int)]);
    } else {
        assert forall|j: int| 0 <= j < sz * sz implies !avail_at(mask, vis0, j) by {
            crate::mesher::lemma_flat_position(j);
            assert(mask[(j / sz) * sz + j % sz] == mask[j]);
        }
        lemma_greedy_skip(mask, vis0, 0, sz * sz);
        assert(mask_quads(c, d, s) =~= Seq::<Quad>::empty());
    }
}

/// Every quad of a single-voxel mesh covers exactly one face.
proof fn lemma_single_extent(c: Seq<bool>, x: int, y: int, z: int, n: int)
    requires
        single_occupied(c, x, y, z),
        0 <= n <= 6 * CHUNK_SIZE,
    ensures
        forall|i: int|
            0 <= i < chunk_quads_upto(c, n).len() ==> (#[trigger] chunk_quads_upto(c, n)[i]).4 == 1
                && chunk_quads_upto(c, n)[i].5 == 1,
    decreases n,
{
    if n > 0 {
        lemma_single_extent(c, x, y, z, n - 1);
        lemma_next_mask(n);
        let dm = (n - 1) / (CHUNK_SIZE as int);
        let sm = (n - 1) % (CHUNK_SIZE as int);
        lemma_single_mask(c, x, y, z, dm, sm);
        let prefix = chunk_quads_upto(c, n - 1);
        assert(chunk_quads_upto(c, n) == prefix + mask_quads(c, dm, sm));
        assert forall|i: int|
            0 <= i < chunk_quads_upto(c, n).len() implies (#[trigger] chunk_quads_upto(c, n)[i]).4
            == 1 && chunk_quads_upto(c, n)[i].5 == 1 by {
            if i < prefix.len() {
                assert(chunk_quads_upto(c, n)[i] == prefix[i]);
            } else {
                assert(chunk_quads_upto(c, n)[i] == mask_quads(c, dm, sm)[i - prefix.len()]);
            }
        }
    }
}

/// Single-voxel law: meshing a volume with exactly one occupied cell yields
/// exactly six one-by-one quads, one per face: 24 vertices (72 position
/// values), 36 indices, twelve triangles.
pub proof fn lemma_single_voxel_mesh(c: Seq<bool>, x: int, y: int, z: int)
    requires
        single_occupied(c, x, y, z),
    ensures
        chunk_quads(c).len() == 6,
        positions_of(chunk_quads(c)).len() == 72,
        normals_of(chunk_quads(c)).len() == 72,
        texcoords_of(chunk_quads(c)).len() == 48,
        indices_of(chunk_quads(c)).len() == 36,
        forall|i: int|
            0 <= i < chunk_quads(c).len() ==> (#[trigger] chunk_quads(c)[i]).4 == 1 && chunk_quads(
                c,
            )[i].5 == 1,
{
    let t: spec_fn(int) -> int = |d: int| single_target(d, x, y, z);
    assert forall|d: int, s: int| 0 <= d < 6 && 0 <= s < CHUNK_SIZE implies (#[trigger] mask_quads(
        c,
        d,
        s,
    )).len() == (if s == t(d) {
        1int
    } else {
        0int
    }) by {
        lemma_single_mask(c, x, y, z, d, s);
    }
    lemma_upto_len(c, t, 6 * CHUNK_SIZE);
    lemma_quads_count_closed(t, 6 * CHUNK_SIZE);
    lemma_buffer_lens(chunk_quads(c), 0);
    lemma_single_extent(c, x, y, z, 6 * CHUNK_SIZE);
}

/// The maximal run starting at `(u, v)` is nonnegative, stops at the row's
/// end, and covers only available cells.
proof fn lemma_run_width_bounds(mask: Seq<bool>, vis: Seq<bool>, u: int, v: int)
    requires
        0 <= v <= CHUNK_SIZE,
    ensures
        0 <= crate::mesher::run_width(mask, vis, u, v) <= CHUNK_SIZE - v,
        forall|dv: int|
            0 <= dv < crate::mesher::run_width(mask, vis, u, v) ==> #[trigger] mask_avail(
                mask,
                vis,
                u,
                v + dv,
            ),
    decreases CHUNK_SIZE - v,
{
    if mask_avail(mask, vis, u, v) {
        lemma_run_width_bounds(mask, vis, u, v + 1);
        assert forall|dv: int|
            0 <= dv < crate::mesher::run_width(mask, vis, u, v) implies #[trigger] mask_avail(
            mask,
            vis,
            u,
            v + dv,
        ) by {
            if dv > 0 {
                assert(mask_avail(mask, vis, u, (v + 1) + (dv - 1)));
            }
        }
    }
}

/// The maximal block of rows starting at `u` is nonnegative and stops at the
/// volume's edge.
proof fn lemma_run_height_bounds(mask: Seq<bool>, vis: Seq<bool>, u: int, v0: int, w: int)
    requires
        0 <= u <= CHUNK_SIZE,
    ensures
        0 <= crate::mesher::run_height(mask, vis, u, v0, w) <= CHUNK_SIZE - u,
    decreases CHUNK_SIZE - u,
{
    if 0 <= u < CHUNK_SIZE && w > 0 && crate::mesher::row_avail(mask, vis, u, v0, w) {
        lemma_run_height_bounds(mask, vis, u + 1, v0, w);
    }
}

/// A merged rectangle that lies inside the mask plane, with positive extent.
spec fn rect_in_bounds(r: (int, int, int, int)) -> bool {
    &&& 0 <= r.0
    &&& 0 <= r.1
    &&& 1 <= r.2
    &&& 1 <= r.3
    &&& r.0 + r.3 <= CHUNK_SIZE
    &&& r.1 + r.2 <= CHUNK_SIZE
}

/// Every rectangle the greedy scan emits lies inside the mask plane and has
/// positive extent.
proof fn lemma_greedy_rects_bounds(mask: Seq<bool>, vis: Seq<bool>, p: int)
    ensures
        forall|i: int|
            0 <= i < greedy_rects_from(mask, vis, p).len() ==> rect_in_bounds(
                #[trigger] greedy_rects_from(mask, vis, p)[i],
            ),
    decreases CHUNK_SIZE * CHUNK_SIZE - p,
{
    if 0 <= p < CHUNK_SIZE * CHUNK_SIZE {
        crate::mesher::lemma_flat_position(p);
        let u = p / (CHUNK_SIZE as int);
        let v = p % (CHUNK_SIZE as int);
        if mask_avail(mask, vis, u, v) {
            let w = crate::mesher::run_width(mask, vis, u, v);
            let h = crate::mesher::run_height(mask, vis, u, v, w);
            lemma_run_width_bounds(mask, vis, u, v);
            lemma_run_width_bounds(mask, vis, u, v + 1);
            lemma_run_height_bounds(mask, vis, u, v, w);
            lemma_run_height_bounds(mask, vis, u + 1, v, w);
            assert(w >= 1);
            assert(crate::mesher::row_avail(mask, vis, u, v, w));
            assert(h >= 1);
            let vis2 = crate::mesher::mark_rect(vis, u, v, w, h);
            lemma_greedy_rects_bounds(mask, vis2, p + 1);
            let whole = greedy_rects_from(mask, vis, p);
            assert(whole == seq![(u, v, w, h)] + greedy_rects_from(mask, vis2, p + 1));
            assert forall|i: int| 0 <= i < whole.len() implies rect_in_bounds(
                #[trigger] whole[i],
            ) by {
                if i > 0 {
                    assert(whole[i] == greedy_rects_from(mask, vis2, p + 1)[i - 1]);
                }
            }
        } else {
            lemma_greedy_rects_bounds(mask, vis, p + 1);
            assert(greedy_rects_from(mask, vis, p) == greedy_rects_from(mask, vis, p + 1));
        }
    } else {
        assert(greedy_rects_from(mask, vis, p).len() == 0);
    }
}

/// A quad whose direction, slice and rectangle all lie inside the volume.
pub open spec fn quad_in_bounds(q: Quad) -> bool {
    &&& 0 <= q.0 < 6
    &&& 0 <= q.1 < CHUNK_SIZE
    &&& 0 <= q.2
    &&& 0 <= q.3
    &&& 1 <= q.4
    &&& 1 <= q.5
    &&& q.2 + q.5 <= CHUNK_SIZE
    &&& q.3 + q.4 <= CHUNK_SIZE
}

/// Every quad of every chunk mesh lies inside the volume.
proof fn lemma_chunk_quads_bounds(c: Seq<bool>, n: int)
    requires
        0 <= n <= 6 * CHUNK_SIZE,
    ensures
        forall|i: int|
            0 <= i < chunk_quads_upto(c, n).len() ==> quad_in_bounds(
                #[trigger] chunk_quads_upto(c, n)[i],
            ),
    decreases n,
{
    if n > 0 {
        lemma_chunk_quads_bounds(c, n - 1);
        lemma_next_mask(n);
        let dm = (n - 1) / (CHUNK_SIZE as int);
        let sm = (n - 1) % (CHUNK_SIZE as int);
        lemma_greedy_rects_bounds(spec_mask(c, dm, sm), empty_visited(), 0);
        let prefix = chunk_quads_upto(c, n - 1);
        let mq = mask_quads(c, dm, sm);
        assert(chunk_quads_upto(c, n) == prefix + mq);
        assert forall|i: int| 0 <= i < chunk_quads_upto(c, n).len() implies quad_in_bounds(
            #[trigger] chunk_quads_upto(c, n)[i],
        ) by {
            if i < prefix.len() {
                assert(chunk_quads_upto(c, n)[i] == prefix[i]);
            } else {
                assert(chunk_quads_upto(c, n)[i] == mq[i - prefix.len()]);
                assert(rect_in_bounds(greedy_rects(spec_mask(c, dm, sm))[i - prefix.len()]));
            }
        }
    }
}

/// Every quad of every chunk mesh lies inside the volume, whatever the cell
/// contents: its direction, slice and rectangle are in range and its extent
/// is positive. Together with the winding law this covers every generated
/// triangle.
pub proof fn lemma_chunk_quads_in_bounds(c: Seq<bool>)
    ensures
        forall|i: int|
            0 <= i < chunk_quads(c).len() ==> quad_in_bounds(#[trigger] chunk_quads(c)[i]),
{
    lemma_chunk_quads_bounds(c, 6 * CHUNK_SIZE);
}

/// Buffer values of a quad sequence that lies inside the volume: positions on
/// the chunk lattice, normals unit axis components, texture coordinates on
/// the unit square's corners.
proof fn lemma_buffer_values(qs: Seq<Quad>)
    requires
        forall|i: int| 0 <= i < qs.len() ==> quad_in_bounds(#[trigger] qs[i]),
    ensures
        forall|j: int|
            0 <= j < positions_of(qs).len() ==> (#[trigger] positions_of(qs)[j]) <= (
            CHUNK_SIZE as u32),
        forall|j: int|
            0 <= j < normals_of(qs).len() ==> -1 <= (#[trigger] normals_of(qs)[j]) <= 1,
        forall|j: int|
            0 <= j < texcoords_of(qs).len() ==> (#[trigger] texcoords_of(qs)[j]) <= 1,
    decreases qs.len(),
{
    if qs.len() > 0 {
        lemma_buffer_values(qs.drop_last());
        let q = qs.last();
        assert(quad_in_bounds(q));
        assert forall|j: int| 0 <= j < positions_of(qs).len() implies (#[trigger] positions_of(
            qs,
        )[j]) <= (CHUNK_SIZE as u32) by {
            let prefix = positions_of(qs.drop_last());
            if j >= prefix.len() {
                assert(positions_of(qs)[j] == crate::mesher::quad_positions(q)[j - prefix.len()]);
            }
        }
        assert forall|j: int| 0 <= j < normals_of(qs).len() implies -1 <= (#[trigger] normals_of(
            qs,
        )[j]) <= 1 by {
            let prefix = normals_of(qs.drop_last());
            if j >= prefix.len() {
                assert(normals_of(qs)[j] == crate::mesher::quad_normals(q)[j - prefix.len()]);
            }
        }
        assert forall|j: int| 0 <= j < texcoords_of(qs).len() implies (#[trigger] texcoords_of(
            qs,
        )[j]) <= 1 by {
            let prefix = texcoords_of(qs.drop_last());
            if j >= prefix.len() {
                assert(texcoords_of(qs)[j] == crate::mesher::quad_texcoords(q)[j - prefix.len()]);
            }
        }
    }
}

/// Lattice law: every mesh a chunk generates has its vertex positions on the
/// chunk's voxel-boundary lattice (coordinates at most `CHUNK_SIZE`), unit
/// axis normals, and texture coordinates on the unit square's corners. So
/// every buffer value converts exactly to the single-precision floats a
/// rendering backend uploads.
pub proof fn lemma_mesh_values_on_lattice(c: Seq<bool>)
    ensures
        forall|j: int|
            0 <= j < positions_of(chunk_quads(c)).len() ==> (#[trigger] positions_of(
                chunk_quads(c),
            )[j]) <= (CHUNK_SIZE as u32),
        forall|j: int|
            0 <= j < normals_of(chunk_quads(c)).len() ==> -1 <= (#[trigger] normals_of(
                chunk_quads(c),
            )[j]) <= 1,
        forall|j: int|
            0 <= j < texcoords_of(chunk_quads(c)).len() ==> (#[trigger] texcoords_of(
                chunk_quads(c),
            )[j]) <= 1,
{
    lemma_chunk_quads_bounds(c, 6 * CHUNK_SIZE);
    lemma_buffer_values(chunk_quads(c));
}

/// Cross product of the two edge vectors of a triangle over integer points.
pub open spec fn triangle_cross(p0: (int, int, int), p1: (int, int, int), p2: (int, int, int)) -> (
    int,
    int,
    int,
) {
    let ax = p1.0 - p0.0;
    let ay = p1.1 - p0.1;
    let az = p1.2 - p0.2;
    let bx = p2.0 - p0.0;
    let by = p2.1 - p0.1;
    let bz = p2.2 - p0.2;
    (ay * bz - az * by, az * bx - ax * bz, ax * by - ay * bx)
}

/// The quad corner used as vertex `j` of triangle `t` of a quad of direction
/// `d`, following the index pattern of `quad_indices`.
pub open spec fn tri_corner(d: int, t: int, j: int) -> int {
    if crate::mesher::winding_flipped(d) {
        if t == 0 {
            if j == 0 {
                0
            } else if j == 1 {
                2
            } else {
                1
            }
        } else {
            if j == 0 {
                0
            } else if j == 1 {
                3
            } else {
                2
            }
        }
    } else {
        if t == 0 {
            if j == 0 {
                0
            } else if j == 1 {
                1
            } else {
                2
            }
        } else {
            if j == 0 {
                0
            } else if j == 1 {
                2
            } else {
                3
            }
        }
    }
}

/// The winding statement of one triangle of a quad: the cross product of its
/// edge vectors is the face's outward normal scaled by the quad's (positive)
/// area.
pub open spec fn winding_outward(q: Quad, t: int) -> bool {
    let n = crate::mesher::dir_normal(q.0);
    let p0 = crate::mesher::quad_corner(q, tri_corner(q.0, t, 0));
    let p1 = crate::mesher::quad_corner(q, tri_corner(q.0, t, 1));
    let p2 = crate::mesher::quad_corner(q, tri_corner(q.0, t, 2));
    triangle_cross(p0, p1, p2) == ((q.4 * q.5) * (n.0 as int), (q.4 * q.5) * (n.1 as int), (q.4
        * q.5) * (n.2 as int))
}

/// Winding law: the six indices of a quad are two triangles over its four
/// corners, and each triangle winds counter-clockwise seen from outside the
/// face.
pub proof fn lemma_triangle_winding(q: Quad, base: int, t: int)
    requires
        0 <= q.0 < 6,
        q.4 >= 1,
        q.5 >= 1,
        0 <= t < 2,
    ensures
        forall|j: int|
            0 <= j < 3 ==> crate::mesher::quad_indices(q, base)[3 * t + j] == (base + tri_corner(
                q.0,
                t,
                j,
            )) as usize,
        winding_outward(q, t),
{
    let w = q.4;
    let h = q.5;
    assert(w * h == h * w && w * 0 == 0 && 0 * w == 0 && h * 0 == 0 && 0 * h == 0 && 0 * 0 == 0 && (
    w * h) * 1 == w * h && (w * h) * 0 == 0 && (w * h) * (-1) == -(w * h)) by (nonlinear_arith);
    assert forall|j: int|
        0 <= j < 3 implies crate::mesher::quad_indices(q, base)[3 * t + j] == (base + tri_corner(
        q.0,
        t,
        j,
    )) as usize by {
        if t == 0 {
            assert(3 * t + j == j);
        } else {
            assert(3 * t + j == 3 + j);
        }
    }
    if q.0 == 0 {
        assert(winding_outward(q, t));
    } else if q.0 == 1 {
        assert(winding_outward(q, t));
    } else if q.0 == 2 {
        assert(winding_outward(q, t));
    } else if q.0 == 3 {
        assert(winding_outward(q, t));
    } else if q.0 == 4 {
        assert(winding_outward(q, t));
    } else {
        assert(winding_outward(q, t));
    }
}

/// Each buffer entry of a quad sequence belongs to the quad its position
/// selects: twelve position and normal values and six indices per quad, in
/// quad order.
proof fn lemma_buffer_slices(qs: Seq<Quad>, base: int)
    ensures
        forall|j: int|
            0 <= j < positions_of(qs).len() ==> #[trigger] positions_of(qs)[j]
                == crate::mesher::quad_positions(qs[j / 12])[j % 12],
        forall|j: int|
            0 <= j < normals_of(qs).len() ==> #[trigger] normals_of(qs)[j]
                == crate::mesher::quad_normals(qs[j / 12])[j % 12],
        forall|j: int|
            0 <= j < indices_of_from(qs, base).len() ==> #[trigger] indices_of_from(qs, base)[j]
                == crate::mesher::quad_indices(qs[j / 6], base + 4 * (j / 6))[j % 6],
    decreases qs.len(),
{
    if qs.len() > 0 {
        let pre = qs.drop_last();
        let q = qs.last();
        let n1 = pre.len() as int;
        lemma_buffer_slices(pre, base);
        lemma_buffer_lens(pre, base);
        lemma_buffer_lens(qs, base);
        assert forall|j: int| 0 <= j < positions_of(qs).len() implies #[trigger] positions_of(
            qs,
        )[j] == crate::mesher::quad_positions(qs[j / 12])[j % 12] by {
            if j < 12 * n1 {
                assert(positions_of(qs)[j] == positions_of(pre)[j]);
                assert(0 <= j / 12 < n1) by (nonlinear_arith)
                    requires
                        0 <= j < 12 * n1,
                ;
                assert(pre[j / 12] == qs[j / 12]);
            } else {
                assert(j / 12 == n1 && j % 12 == j - 12 * n1) by (nonlinear_arith)
                    requires
                        12 * n1 <= j < 12 * n1 + 12,
                ;
                assert(positions_of(qs)[j] == crate::mesher::quad_positions(q)[j - 12 * n1]);
            }
        }
        assert forall|j: int| 0 <= j < normals_of(qs).len() implies #[trigger] normals_of(qs)[j]
            == crate::mesher::quad_normals(qs[j / 12])[j % 12] by {
            if j < 12 * n1 {
                assert(normals_of(qs)[j] == normals_of(pre)[j]);
                assert(0 <= j / 12 < n1) by (nonlinear_arith)
                    requires
                        0 <= j < 12 * n1,
                ;
                assert(pre[j / 12] == qs[j / 12]);
            } else {
                assert(j / 12 == n1 && j % 12 == j - 12 * n1) by (nonlinear_arith)
                    requires
                        12 * n1 <= j < 12 * n1 + 12,
                ;
                assert(normals_of(qs)[j] == crate::mesher::quad_normals(q)[j - 12 * n1]);
            }
        }
        assert forall|j: int| 0 <= j < indices_of_from(qs, base).len() implies
            #[trigger] indices_of_from(qs, base)[j] == crate::mesher::quad_indices(
            qs[j / 6],
            base + 4 * (j / 6),
        )[j % 6] by {
            if j < 6 * n1 {
                assert(indices_of_from(qs, base)[j] == indices_of_from(pre, base)[j]);
                assert(0 <= j / 6 < n1) by (nonlinear_arith)
                    requires
                        0 <= j < 6 * n1,
                ;
                assert(pre[j / 6] == qs[j / 6]);
            } else {
                assert(j / 6 == n1 && j % 6 == j - 6 * n1) by (nonlinear_arith)
                    requires
                        6 * n1 <= j < 6 * n1 + 6,
                ;
                assert(indices_of_from(qs, base)[j] == crate::mesher::quad_indices(
                    q,
                    base + 4 * n1,
                )[j - 6 * n1]);
            }
        }
    }
}

/// Winding law over the generated buffers: quad `i` owns vertices
/// `4i .. 4i + 4`; vertex `j` of its triangle `t` is the corner
/// `tri_corner` names, its position values are that corner's lattice
/// coordinates, and the triangle winds counter-clockwise seen from outside
/// the face.
pub proof fn lemma_mesh_winding(c: Seq<bool>, i: int, t: int, j: int)
    requires
        0 <= i < chunk_quads(c).len(),
        0 <= t < 2,
        0 <= j < 3,
    ensures
        ({
            let q = chunk_quads(c)[i];
            indices_of(chunk_quads(c))[6 * i + 3 * t + j] == (4 * i + tri_corner(
                q.0,
                t,
                j,
            )) as usize
        }),
        ({
            let q = chunk_quads(c)[i];
            let cc = tri_corner(q.0, t, j);
            let p = crate::mesher::quad_corner(q, cc);
            &&& positions_of(chunk_quads(c))[12 * i + 3 * cc] == (p.0 as u32)
            &&& positions_of(chunk_quads(c))[12 * i + 3 * cc + 1] == (p.1 as u32)
            &&& positions_of(chunk_quads(c))[12 * i + 3 * cc + 2] == (p.2 as u32)
        }),
        winding_outward(chunk_quads(c)[i], t),
{
    let qs = chunk_quads(c);
    let q = qs[i];
    lemma_chunk_quads_bounds(c, 6 * CHUNK_SIZE);
    assert(quad_in_bounds(q));
    lemma_triangle_winding(q, 4 * i, t);
    lemma_buffer_slices(qs, 0);
    lemma_buffer_lens(qs, 0);
    let cc = tri_corner(q.0, t, j);
    assert(0 <= cc < 4);
    let jj = 6 * i + 3 * t + j;
    assert(jj / 6 == i && jj % 6 == 3 * t + j && 0 <= jj < 6 * qs.len()) by (nonlinear_arith)
        requires
            jj == 6 * i + 3 * t + j,
            0 <= i < qs.len(),
            0 <= t < 2,
            0 <= j < 3,
    ;
    assert(indices_of(qs)[jj] == crate::mesher::quad_indices(q, 4 * i)[3 * t + j]);
    let p0 = 12 * i + 3 * cc;
    assert(p0 / 12 == i && p0 % 12 == 3 * cc && (p0 + 1) / 12 == i && (p0 + 1) % 12 == 3 * cc + 1
        && (p0 + 2) / 12 == i && (p0 + 2) % 12 == 3 * cc + 2 && 0 <= p0 && p0 + 2 < 12 * qs.len())
        by (nonlinear_arith)
        requires
            p0 == 12 * i + 3 * cc,
            0 <= i < qs.len(),
            0 <= cc < 4,
    ;
    assert(positions_of(qs)[p0] == crate::mesher::quad_positions(q)[3 * cc]);
    assert(positions_of(qs)[p0 + 1] == crate::mesher::quad_positions(q)[3 * cc + 1]);
    assert(positions_of(qs)[p0 + 2] == crate::mesher::quad_positions(q)[3 * cc + 2]);
}

} // verus!
