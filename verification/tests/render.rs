use space_game::mesh::PrimitiveType;
use space_game::render::queue::DownloadQueue;
use space_game::mesh_builder::{self, MeshBuilderMode};
use space_game::render::mesh::{Attribute, MeshBuilder};
use space_game::render::shader::{check_active_attributes, Sampler2D};
use space_game::render::{packed_layout, DataType};

fn f32_bytes(x: f32) -> [u8; 4] {
    x.to_ne_bytes()
}

#[test]
fn data_type_sizes() {
    assert_eq!(DataType::Float.num_components(), 1);
    assert_eq!(DataType::Vec3.num_components(), 3);
    assert_eq!(DataType::Mat3x3.num_components(), 9);
    assert_eq!(DataType::Mat3x3.num_bytes(), 36);
    assert_eq!(DataType::Vec2.num_bytes(), 8);
    assert_eq!(DataType::Sampler2D.num_bytes(), 4);
    assert_eq!(Sampler2D(3).0, 3);
}

#[test]
fn builder_writes_vertices_and_indices() {
    let attrs = [
        Attribute { name: "pos".to_string(), type_: DataType::Vec2 },
        Attribute { name: "w".to_string(), type_: DataType::Float },
    ];
    let mut b = MeshBuilder::new(&attrs);
    let mut v = Vec::new();
    v.extend_from_slice(&f32_bytes(1.0));
    v.extend_from_slice(&f32_bytes(2.0));
    b.push(DataType::Vec2, &v);
    assert_eq!(b.attribute_num(), 1);
    b.push(DataType::Float, &f32_bytes(0.5));
    assert_eq!(b.end_vert(), 0);
    assert_eq!(b.attribute_num(), 0);
    b.push(DataType::Vec2, &v);
    b.push(DataType::Float, &f32_bytes(0.25));
    assert_eq!(b.end_vert(), 1);
    b.dup_vert(0);
    assert_eq!(b.indices(), &[0, 1, 0]);
    assert_eq!(b.bytes().len(), 24);
    assert_eq!(&b.bytes()[8..12], &f32_bytes(0.5));
}

#[test]
fn mode_builder_writes_triangles_or_their_edges() {
    let attrs = [mesh_builder::Attribute { name: "pos".to_string(), type_: DataType::Vec3 }];
    let mut solid = mesh_builder::MeshBuilder::new(&attrs, MeshBuilderMode::SOLID);
    let mut wire = mesh_builder::MeshBuilder::new(&attrs, MeshBuilderMode::WIREFRAME);
    for b in [&mut solid, &mut wire] {
        for _ in 0..3 {
            b.write_attribute(DataType::Vec3, &[0u8; 12]);
            b.finish_vert();
        }
        b.write_triangle(0, 1, 2);
        assert_eq!(b.bytes().len(), 36);
    }
    assert_eq!(solid.indices(), &[0, 1, 2]);
    assert_eq!(wire.indices(), &[0, 1, 1, 2, 2, 0]);
    assert_eq!(solid.mode(), MeshBuilderMode::SOLID);
    assert_eq!(wire.attribute_num(), 0);
}

#[test]
fn download_queue_cycles_through_its_buffers() {
    let mut q = DownloadQueue::new(3);
    assert!(q.empty());
    assert!(!q.full());
    assert_eq!(q.mapped_buffer(), None);
    assert_eq!(q.active_buffer(), Some(0));
    assert_eq!(q.map_active_buffer(), Some(0));
    assert_eq!(q.map_active_buffer(), Some(1));
    assert_eq!(q.mapped_buffer(), Some(0));
    assert_eq!(q.map_active_buffer(), Some(2));
    assert!(q.full());
    assert!(!q.empty());
    assert_eq!(q.active_buffer(), None);
    assert_eq!(q.map_active_buffer(), None);
    assert_eq!(q.unmap_buffer(), 0);
    assert!(!q.full());
    assert_eq!(q.active_buffer(), Some(0));
    assert_eq!(q.map_active_buffer(), Some(0));
    assert_eq!(q.unmap_buffer(), 1);
    assert_eq!(q.unmap_buffer(), 2);
    assert_eq!(q.mapped_buffer(), Some(0));
    assert_eq!(q.unmap_buffer(), 0);
    assert!(q.empty());
}

#[test]
fn download_queue_of_one_buffer() {
    let mut q = DownloadQueue::new(1);
    assert_eq!(q.map_active_buffer(), Some(0));
    assert!(q.full());
    assert_eq!(q.map_active_buffer(), None);
    assert_eq!(q.unmap_buffer(), 0);
    assert!(q.empty());
}

#[test]
fn download_queue_of_no_buffers_is_empty_and_not_full() {
    let q = DownloadQueue::new(0);
    assert!(q.empty());
    assert!(!q.full());
}

fn named(name: &str, ty: u32) -> (String, u32) {
    (name.to_string(), ty)
}

#[test]
fn active_attributes_must_be_given() {
    let given = vec![named("vert_uv", 0x8B50), named("vert_pos", 0x8B50), named("vert_extra", 0x1406)];
    assert_eq!(check_active_attributes(&given, &[named("vert_pos", 0x8B50), named("vert_uv", 0x8B50)]), Ok(()));
    assert_eq!(check_active_attributes(&given, &[]), Ok(()));
    assert_eq!(
        check_active_attributes(&given, &[named("vert_pos", 0x8B50), named("vert_color", 0x8B52)]),
        Err("Shader requires unknown vertex attribute vert_color".to_string())
    );
    assert_eq!(
        check_active_attributes(&given, &[named("vert_extra", 0x8B51)]),
        Err("Data type mismatch on attribute vert_extra (Found 0x8B51 expected 0x1406)".to_string())
    );
}

#[test]
fn the_last_attribute_of_a_name_counts() {
    let given = vec![named("a", 1), named("a", 2)];
    assert_eq!(check_active_attributes(&given, &[named("a", 2)]), Ok(()));
    assert_eq!(
        check_active_attributes(&given, &[named("a", 1)]),
        Err("Data type mismatch on attribute a (Found 0x01 expected 0x02)".to_string())
    );
}

#[test]
fn mesh_builder_vertex_pointers_follow_the_attributes() {
    let attrs = [
        mesh_builder::Attribute { name: "vert_uv".to_string(), type_: DataType::Vec2 },
        mesh_builder::Attribute { name: "vert_pos".to_string(), type_: DataType::Vec3 },
        mesh_builder::Attribute { name: "vert_extra".to_string(), type_: DataType::Float },
    ];
    let solid = mesh_builder::MeshBuilder::new(&attrs, MeshBuilderMode::SOLID);
    let (stride, pointers) = solid.vertex_pointers();
    assert_eq!(stride, 24);
    let seen: Vec<(u32, u32, usize)> = pointers.iter().map(|p| (p.index, p.components, p.offset)).collect();
    assert_eq!(seen, vec![(0, 2, 0), (1, 3, 8), (2, 1, 20)]);
    assert_eq!(solid.primitive_type(), PrimitiveType::TRIANGLES);
    let wire = mesh_builder::MeshBuilder::new(&attrs, MeshBuilderMode::WIREFRAME);
    assert_eq!(wire.primitive_type(), PrimitiveType::LINES);
}

#[test]
fn packed_layout_sums_the_bytes_before() {
    let (stride, pointers) = packed_layout(&[DataType::Mat3x3, DataType::Int, DataType::Sampler2D]);
    assert_eq!(stride, 44);
    let seen: Vec<(u32, u32, usize)> = pointers.iter().map(|p| (p.index, p.components, p.offset)).collect();
    assert_eq!(seen, vec![(0, 9, 0), (1, 1, 36), (2, 1, 40)]);
    let (empty_stride, none) = packed_layout(&[]);
    assert_eq!(empty_stride, 0);
    assert!(none.is_empty());
}

#[test]
fn root_mesh_builder_vertex_pointers() {
    let attrs = [
        Attribute { name: "vert_pos".to_string(), type_: DataType::Vec3 },
        Attribute { name: "vert_uv".to_string(), type_: DataType::Vec2 },
    ];
    let builder = MeshBuilder::new(&attrs);
    let (stride, pointers) = builder.vertex_pointers();
    assert_eq!(stride, 20);
    assert_eq!(pointers.len(), 2);
    assert_eq!((pointers[1].index, pointers[1].components, pointers[1].offset), (1, 2, 12));
}

#[test]
fn download_queue_hands_out_the_next_buffer_after_a_round() {
    let mut q = DownloadQueue::new(3);
    assert_eq!(q.map_active_buffer(), Some(0));
    assert_eq!(q.unmap_buffer(), 0);
    assert!(q.empty());
    assert_eq!(q.active_buffer(), Some(1));
    assert_eq!(q.map_active_buffer(), Some(1));
    assert_eq!(q.mapped_buffer(), Some(1));
}

#[test]
fn histogram_dispatch_count_covers_whole_tiles() {
    assert_eq!(space_game::render::dispatch_count(1920, 1080), (120, 67));
    assert_eq!(space_game::render::dispatch_count(15, 16), (0, 1));
}
