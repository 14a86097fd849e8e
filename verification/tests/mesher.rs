use voxel_mesh::mesh::MeshBuffers;
use voxel_mesh::mesher::generate_mesh;
use voxel_mesh::volume::CHUNK_CELLS;
use voxel_mesh::volume::CHUNK_SIZE;
use voxel_mesh::volume::ChunkData;

/// Positions of quad `q` (twelve values, four corners of three coordinates).
fn quad_positions(m: &MeshBuffers, q: usize) -> &[u32] {
    &m.positions[12 * q..12 * q + 12]
}

/// Normal of quad `q` (shared by its four vertices).
fn quad_normal(m: &MeshBuffers, q: usize) -> (i32, i32, i32) {
    (m.normals[12 * q], m.normals[12 * q + 1], m.normals[12 * q + 2])
}

#[test]
fn empty_volume_meshes_to_nothing() {
    let c = ChunkData::new();
    let m = generate_mesh(&c);
    assert_eq!(m.positions.len(), 0);
    assert_eq!(m.normals.len(), 0);
    assert_eq!(m.texcoords.len(), 0);
    assert_eq!(m.indices.len(), 0);
    assert_eq!(m.vertex_count(), 0);
    assert_eq!(m.triangle_count(), 0);
}

#[test]
fn single_voxel_meshes_to_six_quads() {
    let mut c = ChunkData::new();
    c.set(true, 5, 6, 7);
    let m = generate_mesh(&c);
    assert_eq!(m.positions.len(), 72); // 24 vertices
    assert_eq!(m.normals.len(), 72);
    assert_eq!(m.texcoords.len(), 48);
    assert_eq!(m.indices.len(), 36); // 12 triangles
    assert_eq!(m.vertex_count(), 24);
    assert_eq!(m.triangle_count(), 12);
    // One quad per face direction, each a unit square on the cell's boundary.
    let expected_normals = [
        (1, 0, 0),
        (-1, 0, 0),
        (0, 1, 0),
        (0, -1, 0),
        (0, 0, 1),
        (0, 0, -1),
    ];
    for q in 0..6 {
        assert_eq!(quad_normal(&m, q), expected_normals[q]);
        for corner in 0..4 {
            let p = &quad_positions(&m, q)[3 * corner..3 * corner + 3];
            assert!(p[0] == 5 || p[0] == 6);
            assert!(p[1] == 6 || p[1] == 7);
            assert!(p[2] == 7 || p[2] == 8);
        }
    }
}

#[test]
fn corner_voxel_meshes_to_six_quads() {
    let mut c = ChunkData::new();
    c.set(true, 0, 0, 0);
    let m = generate_mesh(&c);
    assert_eq!(m.positions.len(), 72);
    assert_eq!(m.indices.len(), 36);
}

#[test]
fn full_volume_meshes_to_six_boundary_quads() {
    let c = ChunkData::from_array(vec![true; CHUNK_CELLS]).unwrap();
    let m = generate_mesh(&c);
    assert_eq!(m.positions.len(), 72); // 24 vertices: interior faces eliminated
    assert_eq!(m.indices.len(), 36);
    // Every corner of every boundary quad sits on the volume's outer lattice.
    for &p in m.positions.iter() {
        assert!(p == 0 || p == CHUNK_SIZE as u32);
    }
}

#[test]
fn mesh_generation_is_deterministic() {
    let mut c = ChunkData::new();
    c.set(true, 1, 2, 3);
    c.set(true, 2, 2, 3);
    c.set(true, 2, 3, 3);
    c.set(true, 40, 50, 60);
    let a = generate_mesh(&c);
    let b = generate_mesh(&c);
    assert_eq!(a.positions, b.positions);
    assert_eq!(a.normals, b.normals);
    assert_eq!(a.texcoords, b.texcoords);
    assert_eq!(a.indices, b.indices);
}

#[test]
fn slab_top_face_merges_into_one_quad() {
    // Two cells side by side along X: a box whose six faces merge into six
    // quads, 24 vertices in all rather than 40 for ten unit faces.
    let mut c = ChunkData::new();
    c.set(true, 0, 0, 0);
    c.set(true, 1, 0, 0);
    let m = generate_mesh(&c);
    assert_eq!(m.positions.len(), 72);
    assert_eq!(m.indices.len(), 36);
    // Exactly one quad faces up, and it spans both cells along X.
    let mut up_quads = 0;
    for q in 0..6 {
        if quad_normal(&m, q) == (0, 1, 0) {
            up_quads += 1;
            let xs: Vec<u32> = quad_positions(&m, q).chunks(3).map(|p| p[0]).collect();
            assert_eq!(xs.iter().min(), Some(&0));
            assert_eq!(xs.iter().max(), Some(&2));
        }
    }
    assert_eq!(up_quads, 1);
}

#[test]
fn indices_are_valid_for_scattered_pattern() {
    let mut c = ChunkData::new();
    for i in 0..CHUNK_SIZE {
        c.set(true, i, (i * 7) % CHUNK_SIZE, (i * 13) % CHUNK_SIZE);
    }
    c.set(true, 0, 0, 0);
    c.set(true, 63, 63, 63);
    let m = generate_mesh(&c);
    assert!(m.is_well_formed());
    assert_eq!(m.indices.len() % 3, 0);
    let nv = m.vertex_count();
    for &i in m.indices.iter() {
        assert!(i < nv);
    }
    assert_eq!(m.positions.len(), m.normals.len());
    assert_eq!(m.texcoords.len() / 2, nv);
}

#[test]
fn texcoords_cover_unit_square_per_quad() {
    let mut c = ChunkData::new();
    c.set(true, 8, 9, 10);
    let m = generate_mesh(&c);
    for q in 0..m.vertex_count() / 4 {
        let t = &m.texcoords[8 * q..8 * q + 8];
        assert_eq!(t, &[0, 0, 1, 0, 1, 1, 0, 1]);
    }
}

#[test]
fn triangle_winding_faces_outward() {
    // For every triangle, the edge cross product must point along the stored
    // normal: counter-clockwise winding seen from outside the face.
    let mut c = ChunkData::new();
    c.set(true, 3, 4, 5);
    c.set(true, 4, 4, 5);
    c.set(true, 3, 5, 5);
    let m = generate_mesh(&c);
    let vertex = |i: usize| -> (i64, i64, i64) {
        (
            m.positions[3 * i] as i64,
            m.positions[3 * i + 1] as i64,
            m.positions[3 * i + 2] as i64,
        )
    };
    for t in 0..m.triangle_count() {
        let (i0, i1, i2) = (m.indices[3 * t], m.indices[3 * t + 1], m.indices[3 * t + 2]);
        let p0 = vertex(i0);
        let p1 = vertex(i1);
        let p2 = vertex(i2);
        let e1 = (p1.0 - p0.0, p1.1 - p0.1, p1.2 - p0.2);
        let e2 = (p2.0 - p0.0, p2.1 - p0.1, p2.2 - p0.2);
        let cross = (
            e1.1 * e2.2 - e1.2 * e2.1,
            e1.2 * e2.0 - e1.0 * e2.2,
            e1.0 * e2.1 - e1.1 * e2.0,
        );
        let n = (
            m.normals[3 * i0] as i64,
            m.normals[3 * i0 + 1] as i64,
            m.normals[3 * i0 + 2] as i64,
        );
        // The face is axis-aligned: the cross product is parallel to the
        // normal axis and positively aligned with the stored normal.
        let dot = cross.0 * n.0 + cross.1 * n.1 + cross.2 * n.2;
        assert!(dot > 0);
        assert_eq!(cross.0 * (1 - n.0 * n.0), 0);
        assert_eq!(cross.1 * (1 - n.1 * n.1), 0);
        assert_eq!(cross.2 * (1 - n.2 * n.2), 0);
    }
}

#[test]
fn empty_buffers_are_well_formed() {
    let m = MeshBuffers::empty();
    assert!(m.is_well_formed());
    assert_eq!(m.vertex_count(), 0);
    assert_eq!(m.triangle_count(), 0);
}
