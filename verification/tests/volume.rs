use voxel_mesh::volume::CHUNK_CELLS;
use voxel_mesh::volume::CHUNK_SIZE;
use voxel_mesh::volume::ChunkData;
use voxel_mesh::volume::VolumeError;

#[test]
fn position_formula_values() {
    assert_eq!(ChunkData::position_from_coordinates(0, 0, 0), 0);
    assert_eq!(ChunkData::position_from_coordinates(0, 0, 1), 1);
    assert_eq!(ChunkData::position_from_coordinates(0, 1, 0), CHUNK_SIZE);
    assert_eq!(
        ChunkData::position_from_coordinates(1, 0, 0),
        CHUNK_SIZE * CHUNK_SIZE
    );
    assert_eq!(
        ChunkData::position_from_coordinates(1, 2, 3),
        CHUNK_SIZE * (CHUNK_SIZE + 2) + 3
    );
    assert_eq!(
        ChunkData::position_from_coordinates(CHUNK_SIZE - 1, CHUNK_SIZE - 1, CHUNK_SIZE - 1),
        CHUNK_CELLS - 1
    );
}

#[test]
fn coordinates_formula_values() {
    assert_eq!(ChunkData::coordinates_from_position(0), (0, 0, 0));
    assert_eq!(
        ChunkData::coordinates_from_position(CHUNK_SIZE * (CHUNK_SIZE + 2) + 3),
        (1, 2, 3)
    );
    assert_eq!(
        ChunkData::coordinates_from_position(CHUNK_CELLS - 1),
        (CHUNK_SIZE - 1, CHUNK_SIZE - 1, CHUNK_SIZE - 1)
    );
}

#[test]
fn coordinates_round_trip() {
    let samples = [
        (0, 0, 0),
        (1, 2, 3),
        (63, 0, 0),
        (0, 63, 0),
        (0, 0, 63),
        (63, 63, 63),
        (31, 17, 5),
    ];
    for &(x, y, z) in samples.iter() {
        let pos = ChunkData::position_from_coordinates(x, y, z);
        assert_eq!(ChunkData::coordinates_from_position(pos), (x, y, z));
    }
}

#[test]
fn position_round_trip() {
    for pos in [0usize, 1, 63, 64, 4095, 4096, 4227, 262143] {
        let (x, y, z) = ChunkData::coordinates_from_position(pos);
        assert_eq!(ChunkData::position_from_coordinates(x, y, z), pos);
    }
}

#[test]
fn new_volume_is_empty() {
    let c = ChunkData::new();
    assert!(!c.get(0, 0, 0));
    assert!(!c.get(63, 63, 63));
    assert!(!c.get(10, 20, 30));
}

#[test]
fn set_then_get() {
    let mut c = ChunkData::new();
    c.set(true, 10, 20, 30);
    assert!(c.get(10, 20, 30));
    c.set(false, 10, 20, 30);
    assert!(!c.get(10, 20, 30));
}

#[test]
fn set_does_not_alias_neighbours() {
    let mut c = ChunkData::new();
    c.set(true, 10, 20, 30);
    assert!(!c.get(9, 20, 30));
    assert!(!c.get(11, 20, 30));
    assert!(!c.get(10, 19, 30));
    assert!(!c.get(10, 21, 30));
    assert!(!c.get(10, 20, 29));
    assert!(!c.get(10, 20, 31));
}

#[test]
fn try_get_out_of_bounds_fails() {
    let c = ChunkData::new();
    assert_eq!(c.try_get(CHUNK_SIZE, 0, 0), Err(VolumeError::OutOfBounds));
    assert_eq!(c.try_get(0, CHUNK_SIZE, 0), Err(VolumeError::OutOfBounds));
    assert_eq!(c.try_get(0, 0, CHUNK_SIZE), Err(VolumeError::OutOfBounds));
    assert_eq!(c.try_get(usize::MAX, 0, 0), Err(VolumeError::OutOfBounds));
    assert_eq!(c.try_get(63, 63, 63), Ok(false));
}

#[test]
fn try_set_out_of_bounds_fails() {
    let mut c = ChunkData::new();
    assert_eq!(
        c.try_set(true, CHUNK_SIZE, 0, 0),
        Err(VolumeError::OutOfBounds)
    );
    assert_eq!(
        c.try_set(true, 0, CHUNK_SIZE, 0),
        Err(VolumeError::OutOfBounds)
    );
    assert_eq!(
        c.try_set(true, 0, 0, CHUNK_SIZE),
        Err(VolumeError::OutOfBounds)
    );
    assert_eq!(c.try_set(true, 5, 6, 7), Ok(()));
    assert_eq!(c.try_get(5, 6, 7), Ok(true));
}

#[test]
fn from_array_wrong_length_rejected() {
    assert_eq!(
        ChunkData::from_array(Vec::new()).err(),
        Some(VolumeError::InvalidLength)
    );
    assert_eq!(
        ChunkData::from_array(vec![true; CHUNK_CELLS - 1]).err(),
        Some(VolumeError::InvalidLength)
    );
    assert_eq!(
        ChunkData::from_array(vec![true; CHUNK_CELLS + 1]).err(),
        Some(VolumeError::InvalidLength)
    );
}

#[test]
fn from_array_preserves_layout() {
    let mut cells = vec![false; CHUNK_CELLS];
    cells[ChunkData::position_from_coordinates(1, 2, 3)] = true;
    cells[ChunkData::position_from_coordinates(63, 0, 9)] = true;
    let c = ChunkData::from_array(cells).unwrap();
    assert!(c.get(1, 2, 3));
    assert!(c.get(63, 0, 9));
    assert!(!c.get(3, 2, 1));
}
