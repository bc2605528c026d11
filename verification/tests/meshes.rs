use space_game::gl::primitive_data;
use space_game::mesh::{AttributeType, AttributeVec, Mesh, MeshError, PrimitiveType, NORMAL, POSITION};

fn vec3s(n: usize) -> AttributeVec {
    AttributeVec::Vec3(vec![[0u32; 3]; n])
}

fn vec2s(n: usize) -> AttributeVec {
    AttributeVec::Vec2(vec![[0u32; 2]; n])
}

#[test]
fn attribute_vec_reports_length_and_type() {
    let v = vec2s(4);
    assert_eq!(v.len(), 4);
    assert!(!v.is_empty());
    assert_eq!(v.type_(), AttributeType::Vec2);
    assert!(vec3s(0).is_empty());
    assert_eq!(vec3s(0).type_(), AttributeType::Vec3);
}

#[test]
fn byte_counts_and_vertex_counts() {
    assert_eq!(AttributeType::Vec2.byte_count(), 8);
    assert_eq!(AttributeType::Vec3.byte_count(), 12);
    assert_eq!(PrimitiveType::LINES.num_verts(), 2);
    assert_eq!(PrimitiveType::TRIANGLES.num_verts(), 3);
}

#[test]
fn vert_count_is_the_common_length() {
    let mut m = Mesh::new(PrimitiveType::TRIANGLES);
    assert_eq!(m.vert_count().ok(), Some(0));
    m.attributes.push((POSITION.to_string(), vec3s(6)));
    m.attributes.push((NORMAL.to_string(), vec3s(6)));
    assert_eq!(m.vert_count().ok(), Some(6));
    assert_eq!(m.index_count().ok(), Some(6));
    m.indices = Some(vec![0, 1, 2]);
    assert_eq!(m.index_count().ok(), Some(3));
}

#[test]
fn vert_count_names_the_first_mismatch() {
    let mut m = Mesh::new(PrimitiveType::TRIANGLES);
    m.attributes.push((POSITION.to_string(), vec3s(6)));
    m.attributes.push((NORMAL.to_string(), vec3s(6)));
    m.attributes.push(("uv".to_string(), vec2s(5)));
    m.attributes.push(("color".to_string(), vec3s(4)));
    match m.vert_count() {
        Err(MeshError::AttributeLengthMismatch { first_name, first_len, second_name, second_len }) => {
            assert_eq!(first_name, "vert_pos");
            assert_eq!(first_len, 6);
            assert_eq!(second_name, "uv");
            assert_eq!(second_len, 5);
        },
        _ => panic!("expected a length mismatch"),
    }
    assert_eq!(
        m.vert_count().err().unwrap().message(),
        "Two or more attributes have different lengths: `vert_pos` (6) and `uv` (5)"
    );
}

#[test]
fn wireframe_of_indexed_triangles() {
    let mut m = Mesh::new(PrimitiveType::TRIANGLES);
    m.indices = Some(vec![0, 1, 2, 2, 1, 3]);
    assert!(m.make_wireframe().is_ok());
    assert_eq!(m.primitive_type, PrimitiveType::LINES);
    assert_eq!(m.indices, Some(vec![0, 1, 1, 2, 2, 0, 2, 1, 1, 3, 3, 2]));
    // A second call leaves the line mesh as it is.
    assert!(m.make_wireframe().is_ok());
    assert_eq!(m.indices, Some(vec![0, 1, 1, 2, 2, 0, 2, 1, 1, 3, 3, 2]));
}

#[test]
fn wireframe_of_unindexed_triangles() {
    let mut m = Mesh::new(PrimitiveType::TRIANGLES);
    m.attributes.push((POSITION.to_string(), vec3s(7)));
    assert!(m.make_wireframe().is_ok());
    assert_eq!(m.indices, Some(vec![0, 1, 1, 2, 2, 0, 3, 4, 4, 5, 5, 3]));
    assert_eq!(m.primitive_type, PrimitiveType::LINES);
}

#[test]
fn wireframe_rejects_incomplete_triangles() {
    let mut m = Mesh::new(PrimitiveType::TRIANGLES);
    m.indices = Some(vec![0, 1, 2, 3]);
    match m.make_wireframe() {
        Err(MeshError::IncompletePrimitive(4, 3)) => {},
        _ => panic!("expected an incomplete primitive"),
    }
    assert_eq!(m.primitive_type, PrimitiveType::TRIANGLES);
    assert_eq!(m.indices, Some(vec![0, 1, 2, 3]));
    assert_eq!(
        MeshError::IncompletePrimitive(4, 3).message(),
        "Mesh ends with incomplete primitive (4 indices is not a multiple of 3)"
    );
}

#[test]
fn wireframe_passes_on_length_mismatches() {
    let mut m = Mesh::new(PrimitiveType::TRIANGLES);
    m.attributes.push((POSITION.to_string(), vec3s(3)));
    m.attributes.push((NORMAL.to_string(), vec3s(2)));
    assert!(matches!(m.make_wireframe(), Err(MeshError::AttributeLengthMismatch { .. })));
    assert!(m.indices.is_none());
}

#[test]
fn wireframe_leaves_lines_alone() {
    let mut m = Mesh::new(PrimitiveType::LINES);
    m.indices = Some(vec![0, 1, 7]);
    assert!(m.make_wireframe().is_ok());
    assert_eq!(m.indices, Some(vec![0, 1, 7]));
}

#[test]
fn validate_accepts_a_good_mesh() {
    let mut m = Mesh::new(PrimitiveType::TRIANGLES);
    m.attributes.push((POSITION.to_string(), vec3s(3)));
    assert!(m.validate().is_ok());
    m.indices = Some(vec![0, 1, 2]);
    assert!(m.validate().is_ok());
}

#[test]
fn validate_reports_each_problem() {
    let mut m = Mesh::new(PrimitiveType::TRIANGLES);
    m.attributes.push((POSITION.to_string(), vec3s(4)));
    assert!(matches!(m.validate(), Err(MeshError::IncompletePrimitive(4, 3))));

    let mut m = Mesh::new(PrimitiveType::LINES);
    m.attributes.push((POSITION.to_string(), vec3s(4)));
    m.indices = Some(vec![0, 1, 5, 2]);
    match m.validate() {
        Err(MeshError::IndexOutOfBounds(i, val, max)) => {
            assert_eq!((i, val, max), (2, 5, 3));
        },
        _ => panic!("expected an index out of bounds"),
    }
    assert_eq!(MeshError::IndexOutOfBounds(2, 5, 3).message(), "Index 2 out of bounds: 5 > 3");

    let mut m = Mesh::new(PrimitiveType::LINES);
    m.indices = Some(vec![0; 65538]);
    assert!(matches!(m.validate(), Err(MeshError::TooManyIndices(65538))));
    assert_eq!(MeshError::TooManyIndices(65538).message(), "Too many indices for GPU upload");
}

#[test]
fn validate_bounds_indices_by_the_vertex_count() {
    let mut m = Mesh::new(PrimitiveType::TRIANGLES);
    m.attributes.push((POSITION.to_string(), vec3s(3)));
    m.indices = Some(vec![0, 1, 2, 0, 1, 4]);
    match m.validate() {
        Err(MeshError::IndexOutOfBounds(i, val, max)) => assert_eq!((i, val, max), (5, 4, 2)),
        _ => panic!("index 4 names no vertex"),
    }
    m.indices = Some(vec![0, 1, 2, 2, 1, 0]);
    assert!(m.validate().is_ok());
    m.attributes.push((NORMAL.to_string(), vec3s(2)));
    match m.validate() {
        Err(MeshError::IndexOutOfBounds(i, val, max)) => assert_eq!((i, val, max), (2, 2, 1)),
        _ => panic!("only two vertices have every attribute"),
    }
}

#[test]
fn validate_accepts_an_empty_index_list() {
    let mut m = Mesh::new(PrimitiveType::TRIANGLES);
    m.attributes.push((POSITION.to_string(), vec3s(3)));
    m.indices = Some(vec![]);
    assert!(m.validate().is_ok());
}

#[test]
fn validate_without_attributes_names_no_vertex() {
    let mut m = Mesh::new(PrimitiveType::LINES);
    m.indices = Some(vec![0, 1]);
    match m.validate() {
        Err(MeshError::IndexOutOfBounds(i, val, max)) => assert_eq!((i, val, max), (0, 0, 0)),
        _ => panic!("a mesh without attributes has no vertex"),
    }
}

#[test]
fn primitive_data_interleaves_vertices() {
    let mut mesh = Mesh::new(PrimitiveType::TRIANGLES);
    mesh.attributes.push(("uv".to_string(), AttributeVec::Vec2(vec![[0x0102_0304, 5], [6, 7]])));
    mesh.attributes.push((POSITION.to_string(), AttributeVec::Vec3(vec![[1, 2, 3], [0xff, 0x100, 9]])));
    let data = primitive_data(&mesh).ok().unwrap();
    // The position comes first, then the uv; 20 bytes round up to a stride of 32.
    assert_eq!(data.layout.stride, 32);
    assert_eq!(data.vert_data.len(), 64);
    assert_eq!(data.index_count, 2);
    assert_eq!(data.primitive_type, PrimitiveType::TRIANGLES);
    let mut first = vec![1, 0, 0, 0, 2, 0, 0, 0, 3, 0, 0, 0, 4, 3, 2, 1, 5, 0, 0, 0];
    first.extend(vec![0u8; 12]);
    let mut second = vec![0xff, 0, 0, 0, 0, 1, 0, 0, 9, 0, 0, 0, 6, 0, 0, 0, 7, 0, 0, 0];
    second.extend(vec![0u8; 12]);
    assert_eq!(&data.vert_data[..32], &first[..]);
    assert_eq!(&data.vert_data[32..], &second[..]);
}

#[test]
fn primitive_data_counts_indices() {
    let mut mesh = Mesh::new(PrimitiveType::LINES);
    mesh.attributes.push((POSITION.to_string(), vec3s(3)));
    mesh.indices = Some(vec![0, 1, 1, 2]);
    let data = primitive_data(&mesh).ok().unwrap();
    assert_eq!(data.index_count, 4);
    assert_eq!(data.vert_data, vec![0u8; 48]);
}

#[test]
fn primitive_data_reports_mismatched_attributes() {
    let mut mesh = Mesh::new(PrimitiveType::TRIANGLES);
    mesh.attributes.push((POSITION.to_string(), vec3s(3)));
    mesh.attributes.push((NORMAL.to_string(), vec3s(2)));
    match primitive_data(&mesh) {
        Err(MeshError::AttributeLengthMismatch { first_len, second_len, .. }) => {
            assert_eq!(first_len, 3);
            assert_eq!(second_len, 2);
        }
        _ => panic!("expected a length mismatch"),
    }
}

#[test]
fn insert_attribute_replaces_in_place() {
    let mut m = Mesh::new(PrimitiveType::TRIANGLES);
    m.insert_attribute(POSITION.to_string(), vec3s(3));
    m.insert_attribute(NORMAL.to_string(), vec3s(3));
    m.insert_attribute(POSITION.to_string(), vec2s(5));
    assert_eq!(m.attributes.len(), 2);
    assert_eq!(m.attributes[0].0, POSITION);
    assert_eq!(m.attributes[0].1.len(), 5);
    assert_eq!(m.attributes[1].0, NORMAL);
}
