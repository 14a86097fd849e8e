//! Dense cubic voxel volume with verified coordinate linearization.

use vstd::prelude::*;

verus! {

/// Extent of a chunk along each of the three axes.
pub const CHUNK_SIZE: usize = 64;

/// Total number of cells in a chunk.
pub const CHUNK_CELLS: usize = CHUNK_SIZE * CHUNK_SIZE * CHUNK_SIZE;

/// Failures of the volume accessors.
#[derive(Clone, Copy, Debug, PartialEq, Eq, Structural)]
pub enum VolumeError {
    /// A coordinate was at or beyond `CHUNK_SIZE`.
    OutOfBounds,
    /// A flat cell array did not hold exactly `CHUNK_CELLS` values.
    InvalidLength,
}

/// Flat position of cell `(x, y, z)`: row-major with `z` fastest-varying,
/// then `y`, then `x`.
pub open spec fn spec_position(x: int, y: int, z: int) -> int {
    CHUNK_SIZE * (CHUNK_SIZE * x + y) + z
}

/// Inverse of `spec_position` on valid flat positions.
pub open spec fn spec_coordinates(pos: int) -> (int, int, int) {
    (
        pos / ((CHUNK_SIZE * CHUNK_SIZE) as int),
        (pos / (CHUNK_SIZE as int)) % (CHUNK_SIZE as int),
        pos % (CHUNK_SIZE as int),
    )
}

/// A coordinate triple that lies inside the chunk.
pub open spec fn valid_coords(x: int, y: int, z: int) -> bool {
    &&& 0 <= x < CHUNK_SIZE
    &&& 0 <= y < CHUNK_SIZE
    &&& 0 <= z < CHUNK_SIZE
}

/// Linearizing valid coordinates lands strictly inside the cell array.
pub proof fn lemma_position_in_range(x: int, y: int, z: int)
    requires
        valid_coords(x, y, z),
    ensures
        0 <= spec_position(x, y, z) < CHUNK_CELLS,
{
}

/// Round-trip law: recovering coordinates from a linearized position gives
/// back the coordinates, for every valid triple.
pub proof fn lemma_coordinates_round_trip(x: int, y: int, z: int)
    requires
        valid_coords(x, y, z),
    ensures
        spec_coordinates(spec_position(x, y, z)) == (x, y, z),
{
    let s = CHUNK_SIZE as int;
    let pos = spec_position(x, y, z);
    assert(pos == (s * s) * x + s * y + z) by (nonlinear_arith)
        requires
            pos == s * (s * x + y) + z,
            s == 64,
    ;
    assert(pos / (s * s) == x && (pos / s) % s == y && pos % s == z) by (nonlinear_arith)
        requires
            pos == (s * s) * x + s * y + z,
            s == 64,
            0 <= x < s,
            0 <= y < s,
            0 <= z < s,
    ;
}

/// Round-trip law, the other direction: linearizing the recovered
/// coordinates of a valid flat position gives back that position, and the
/// recovered coordinates are in bounds.
pub proof fn lemma_position_round_trip(pos: int)
    requires
        0 <= pos < CHUNK_CELLS,
    ensures
        valid_coords(
            spec_coordinates(pos).0,
            spec_coordinates(pos).1,
            spec_coordinates(pos).2,
        ),
        spec_position(
            spec_coordinates(pos).0,
            spec_coordinates(pos).1,
            spec_coordinates(pos).2,
        ) == pos,
{
    let s = CHUNK_SIZE as int;
    let x = pos / (s * s);
    let y = (pos / s) % s;
    let z = pos % s;
    assert(0 <= x < s && 0 <= y < s && 0 <= z < s && s * (s * x + y) + z == pos)
        by (nonlinear_arith)
        requires
            x == pos / (s * s),
            y == (pos / s) % s,
            z == pos % s,
            s == 64,
            0 <= pos < s * s * s,
    ;
}

/// Linearization is injective over valid coordinates: distinct triples map to
/// distinct flat positions.
pub proof fn lemma_position_injective(x1: int, y1: int, z1: int, x2: int, y2: int, z2: int)
    requires
        valid_coords(x1, y1, z1),
        valid_coords(x2, y2, z2),
        spec_position(x1, y1, z1) == spec_position(x2, y2, z2),
    ensures
        x1 == x2 && y1 == y2 && z1 == z2,
{
    lemma_coordinates_round_trip(x1, y1, z1);
    lemma_coordinates_round_trip(x2, y2, z2);
}

/// A fixed-size cubic grid of boolean cell occupancy.
pub struct ChunkData {
    cells: Vec<bool>,
}

impl View for ChunkData {
    type V = Seq<bool>;

    closed spec fn view(&self) -> Seq<bool> {
        self.cells@
    }
}

/// Occupancy of cell `(x, y, z)` in a flat cell sequence.
pub open spec fn cell_occupied(c: Seq<bool>, x: int, y: int, z: int) -> bool {
    c[spec_position(x, y, z)]
}

impl ChunkData {
    /// The structural invariant: one cell per position of the cube.
    pub open spec fn wf(&self) -> bool {
        self@.len() == CHUNK_CELLS
    }

    /// A volume with every cell empty.
    pub fn new() -> (c: Self)
        ensures
            c.wf(),
            forall|i: int| 0 <= i < CHUNK_CELLS ==> !c@[i],
    {
        let mut cells: Vec<bool> = Vec::new();
        let mut i: usize = 0;
        while i < CHUNK_CELLS
            invariant
                i <= CHUNK_CELLS,
                cells@.len() == i,
                forall|j: int| 0 <= j < i ==> !cells@[j],
            decreases CHUNK_CELLS - i,
        {
            cells.push(false);
            i = i + 1;
        }
        ChunkData { cells }
    }

    /// A volume initialized from a flat cell array in the layout of
    /// `spec_position`. Rejects an array whose length is not `CHUNK_CELLS`.
    pub fn from_array(arr: Vec<bool>) -> (r: Result<Self, VolumeError>)
        ensures
            arr@.len() == CHUNK_CELLS ==> (r is Ok && r->Ok_0.wf() && r->Ok_0@ == arr@),
            arr@.len() != CHUNK_CELLS ==> r == Err::<Self, VolumeError>(VolumeError::InvalidLength),
    {
        if arr.len() != CHUNK_CELLS {
            return Err(VolumeError::InvalidLength);
        }
        Ok(ChunkData { cells: arr })
    }

    /// Flat position of `(x, y, z)`; the coordinates must be in bounds, so
    /// the result always lands inside the cell array.
    pub fn position_from_coordinates(x: usize, y: usize, z: usize) -> (pos: usize)
        requires
            valid_coords(x as int, y as int, z as int),
        ensures
            pos == spec_position(x as int, y as int, z as int),
            pos < CHUNK_CELLS,
    {
        CHUNK_SIZE * (CHUNK_SIZE * x + y) + z
    }

    /// Coordinates of a flat position; inverse of `position_from_coordinates`.
    pub fn coordinates_from_position(pos: usize) -> (c: (usize, usize, usize))
        requires
            pos < CHUNK_CELLS,
        ensures
            (c.0 as int, c.1 as int, c.2 as int) == spec_coordinates(pos as int),
            valid_coords(c.0 as int, c.1 as int, c.2 as int),
            spec_position(c.0 as int, c.1 as int, c.2 as int) == pos,
    {
        proof {
            lemma_position_round_trip(pos as int);
        }
        let x = pos / (CHUNK_SIZE * CHUNK_SIZE);
        let y = (pos / CHUNK_SIZE) % CHUNK_SIZE;
        let z = pos % CHUNK_SIZE;
        (x, y, z)
    }

    /// Writes one cell. Out-of-bounds coordinates are a programming error and
    /// are excluded by the precondition; `try_set` is the checked variant.
    pub fn set(&mut self, value: bool, x: usize, y: usize, z: usize)
        requires
            old(self).wf(),
            valid_coords(x as int, y as int, z as int),
        ensures
            final(self).wf(),
            final(self)@ == old(self)@.update(
                spec_position(x as int, y as int, z as int),
                value,
            ),
    {
        let pos = Self::position_from_coordinates(x, y, z);
        self.cells.set(pos, value);
    }

    /// Reads one cell. Out-of-bounds coordinates are a programming error and
    /// are excluded by the precondition; `try_get` is the checked variant.
    pub fn get(&self, x: usize, y: usize, z: usize) -> (b: bool)
        requires
            self.wf(),
            valid_coords(x as int, y as int, z as int),
        ensures
            b == cell_occupied(self@, x as int, y as int, z as int),
    {
        let pos = Self::position_from_coordinates(x, y, z);
        self.cells[pos]
    }

    /// Checked write: fails exactly when some coordinate is at or beyond
    /// `CHUNK_SIZE`, and then leaves the volume unchanged.
    pub fn try_set(&mut self, value: bool, x: usize, y: usize, z: usize) -> (r: Result<
        (),
        VolumeError,
    >)
        requires
            old(self).wf(),
        ensures
            final(self).wf(),
            valid_coords(x as int, y as int, z as int) ==> (r is Ok && final(self)@ == old(
                self,
            )@.update(spec_position(x as int, y as int, z as int), value)),
            !valid_coords(x as int, y as int, z as int) ==> (r == Err::<(), VolumeError>(
                VolumeError::OutOfBounds,
            ) && final(self)@ == old(self)@),
    {
        if x >= CHUNK_SIZE || y >= CHUNK_SIZE || z >= CHUNK_SIZE {
            return Err(VolumeError::OutOfBounds);
        }
        self.set(value, x, y, z);
        Ok(())
    }

    /// Checked read: fails exactly when some coordinate is at or beyond
    /// `CHUNK_SIZE`.
    pub fn try_get(&self, x: usize, y: usize, z: usize) -> (r: Result<bool, VolumeError>)
        requires
            self.wf(),
        ensures
            valid_coords(x as int, y as int, z as int) ==> r == Ok::<bool, VolumeError>(
                cell_occupied(self@, x as int, y as int, z as int),
            ),
            !valid_coords(x as int, y as int, z as int) ==> r == Err::<bool, VolumeError>(
                VolumeError::OutOfBounds,
            ),
    {
        if x >= CHUNK_SIZE || y >= CHUNK_SIZE || z >= CHUNK_SIZE {
            return Err(VolumeError::OutOfBounds);
        }
        Ok(self.get(x, y, z))
    }
}

} // verus!
