use gltf_snapshot::bounds::{Bounds, Vec3};
use gltf_snapshot::materials::{clamp_material, label_of_materials, resolve_materials, TextureChoice};
use gltf_snapshot::mesh::{build_primitive, build_primitives, mesh_primitive_map, prepare_upload};
use gltf_snapshot::mesh::{vertex_bounds, CpuPrimitive, ModelError, PrimitiveSource};
use gltf_snapshot::model::{load_model, place_primitives, try_load_model, ModelSource, RenderItem};
use gltf_snapshot::scene::{Node, Placement};
use gltf_snapshot::single::Single;
use gltf_snapshot::vertex::{Vec2, Vertex};

fn single(x: f32) -> Single {
    Single { bits: x.to_bits() }
}

fn point(x: f32, y: f32, z: f32) -> Vec3 {
    Vec3 { x: single(x), y: single(y), z: single(z) }
}

fn uv(u: f32, v: f32) -> Vec2 {
    Vec2 { u: single(u), v: single(v) }
}

fn triangle(shift: f32) -> PrimitiveSource {
    PrimitiveSource {
        positions: Some(vec![point(shift, 0.0, 0.0), point(shift + 1.0, 0.0, 0.0), point(shift, 2.0, -1.0)]),
        uvs: None,
        indices: Some(vec![0, 1, 2]),
        material: None,
    }
}

fn node(mesh: Option<usize>, children: &[usize]) -> Node {
    Node { mesh, children: children.to_vec() }
}

fn two_meshes() -> ModelSource {
    ModelSource {
        image_count: 2,
        textures: vec![1, 0],
        base_colors: vec![Some(0), None],
        meshes: vec![vec![triangle(0.0), triangle(1.0)], vec![triangle(2.0)]],
        nodes: vec![node(Some(1), &[1, 2]), node(Some(0), &[]), node(None, &[1])],
        scenes: vec![vec![1], vec![0]],
        default_scene: Some(1),
    }
}

#[test]
fn materials_take_their_image_or_white() {
    assert_eq!(
        resolve_materials(&vec![4, 2], &vec![Some(1), None, Some(0), Some(2)]),
        vec![
            TextureChoice::Image(2),
            TextureChoice::White,
            TextureChoice::Image(4),
            TextureChoice::White,
        ]
    );
}

#[test]
fn model_without_materials_gets_a_white_one() {
    assert_eq!(resolve_materials(&vec![4], &vec![]), vec![TextureChoice::White]);
}

#[test]
fn material_index_is_clamped() {
    assert_eq!(clamp_material(None, 3), 0);
    assert_eq!(clamp_material(Some(1), 3), 1);
    assert_eq!(clamp_material(Some(2), 3), 2);
    assert_eq!(clamp_material(Some(3), 3), 2);
    assert_eq!(clamp_material(Some(usize::MAX), 1), 0);
}

#[test]
fn primitive_without_uvs_gets_zeros() {
    let p = build_primitive(triangle(0.0), 1).unwrap();
    assert_eq!(p.vertices.len(), 3);
    assert_eq!(p.vertices[2], Vertex { pos: point(0.0, 2.0, -1.0), uv: uv(0.0, 0.0) });
    assert_eq!(p.indices, Some(vec![0, 1, 2]));
    assert_eq!(p.material, 0);
    assert_eq!(p.bounds, Bounds { min: point(0.0, 0.0, -1.0), max: point(1.0, 2.0, 0.0) });
}

#[test]
fn shorter_attribute_ends_the_vertices() {
    let mut source = triangle(0.0);
    source.uvs = Some(vec![uv(0.5, 0.25), uv(1.0, 0.0)]);
    let p = build_primitive(source, 1).unwrap();
    assert_eq!(
        p.vertices,
        vec![
            Vertex { pos: point(0.0, 0.0, 0.0), uv: uv(0.5, 0.25) },
            Vertex { pos: point(1.0, 0.0, 0.0), uv: uv(1.0, 0.0) },
        ]
    );
    assert_eq!(p.bounds, Bounds { min: point(0.0, 0.0, 0.0), max: point(1.0, 0.0, 0.0) });
    let mut longer = triangle(0.0);
    longer.uvs = Some(vec![uv(0.0, 0.0); 5]);
    assert_eq!(build_primitive(longer, 1).unwrap().vertices.len(), 3);
}

#[test]
fn bounds_of_no_vertices_are_empty() {
    assert_eq!(vertex_bounds(&vec![]), Bounds::empty());
}

#[test]
fn primitive_without_positions_is_an_error() {
    let mut source = triangle(0.0);
    source.positions = None;
    let error = build_primitive(source, 1).unwrap_err();
    assert_eq!(error, ModelError::NoPositions);
    assert_eq!(error.message(), "No positions in mesh");
    let mut bad = triangle(0.0);
    bad.positions = None;
    let error = build_primitives(vec![vec![triangle(0.0)], vec![], vec![triangle(1.0), bad]], 1).unwrap_err();
    assert_eq!(error, ModelError::NoPositions);
}

#[test]
fn primitives_keep_the_order_of_meshes() {
    let list = build_primitives(vec![vec![triangle(0.0), triangle(1.0)], vec![], vec![triangle(2.0)]], 1).unwrap();
    let starts: Vec<Vec3> = list.iter().map(|p| p.vertices[0].pos).collect();
    assert_eq!(starts, vec![point(0.0, 0.0, 0.0), point(1.0, 0.0, 0.0), point(2.0, 0.0, 0.0)]);
}

#[test]
fn primitives_are_numbered_through() {
    assert_eq!(mesh_primitive_map(&vec![2, 0, 3]), vec![vec![0, 1], vec![], vec![2, 3, 4]]);
    assert!(mesh_primitive_map(&vec![]).is_empty());
}

#[test]
fn unknown_mesh_draws_nothing() {
    let nodes = vec![node(Some(5), &[]), node(Some(0), &[])];
    let placements = vec![Placement { node: 0, parent: None }, Placement { node: 1, parent: None }];
    assert_eq!(
        place_primitives(&nodes, &vec![vec![0]], &placements),
        vec![RenderItem { primitive: 0, placement: 1 }]
    );
}

#[test]
fn model_of_two_meshes() {
    let source = two_meshes();
    assert!(source.is_usable());
    let model = load_model(source).unwrap();
    assert_eq!(model.materials, vec![TextureChoice::Image(1), TextureChoice::White]);
    assert_eq!(model.primitives.len(), 3);
    assert_eq!(
        model.placements,
        vec![
            Placement { node: 0, parent: None },
            Placement { node: 1, parent: Some(0) },
            Placement { node: 2, parent: Some(0) },
            Placement { node: 1, parent: Some(2) },
        ]
    );
    assert_eq!(
        model.render_items,
        vec![
            RenderItem { primitive: 2, placement: 0 },
            RenderItem { primitive: 0, placement: 1 },
            RenderItem { primitive: 1, placement: 1 },
            RenderItem { primitive: 0, placement: 3 },
            RenderItem { primitive: 1, placement: 3 },
        ]
    );
}

#[test]
fn first_scene_is_shown_without_default() {
    let mut source = two_meshes();
    source.default_scene = None;
    assert!(source.is_usable());
    let model = load_model(source).unwrap();
    assert_eq!(model.placements, vec![Placement { node: 1, parent: None }]);
    assert_eq!(model.render_items.len(), 2);
}

#[test]
fn model_with_missing_positions_is_refused() {
    let mut source = two_meshes();
    source.meshes[1][0].positions = None;
    assert!(source.is_usable());
    assert_eq!(load_model(source).unwrap_err(), ModelError::NoPositions);
}

#[test]
fn unusable_documents_are_told() {
    let mut no_scene = two_meshes();
    no_scene.scenes = vec![];
    no_scene.default_scene = None;
    assert!(!no_scene.is_usable());
    let mut bad_scene = two_meshes();
    bad_scene.default_scene = Some(2);
    assert!(!bad_scene.is_usable());
    let mut bad_texture = two_meshes();
    bad_texture.textures = vec![1, 2];
    assert!(!bad_texture.is_usable());
    let mut cycle = two_meshes();
    cycle.nodes[1].children = vec![0];
    assert!(!cycle.is_usable());
}

#[test]
fn upload_counts_indices_or_vertices() {
    let p = build_primitive(triangle(0.0), 1).unwrap();
    let upload = prepare_upload(&p);
    assert_eq!(upload.index_count, 3);
    assert_eq!(upload.vertex_bytes.len(), 60);
    assert_eq!(upload.index_bytes.unwrap().len(), 12);
    let bare = CpuPrimitive {
        vertices: p.vertices[..2].to_vec(),
        indices: None,
        material: 0,
        bounds: Bounds::empty(),
    };
    let upload = prepare_upload(&bare);
    assert_eq!(upload.index_count, 2);
    assert!(upload.index_bytes.is_none());
}

#[test]
fn missing_positions_are_told_before_the_scene() {
    let mut no_scene = two_meshes();
    no_scene.scenes = vec![];
    no_scene.default_scene = None;
    no_scene.meshes[0][1].positions = None;
    assert!(no_scene.is_usable());
    assert_eq!(load_model(no_scene).unwrap_err(), ModelError::NoPositions);
    let mut cycle = two_meshes();
    cycle.nodes[1].children = vec![0];
    cycle.meshes[0][0].positions = None;
    assert_eq!(try_load_model(cycle).unwrap().unwrap_err(), ModelError::NoPositions);
}

#[test]
fn checked_loading_refuses_unusable_documents() {
    let mut cycle = two_meshes();
    cycle.nodes[1].children = vec![0];
    assert!(try_load_model(cycle).is_none());
    let mut bad_texture = two_meshes();
    bad_texture.textures = vec![2];
    bad_texture.meshes[0][0].positions = None;
    assert!(try_load_model(bad_texture).is_none());
    let model = try_load_model(two_meshes()).unwrap().unwrap();
    assert_eq!(model.render_items.len(), 5);
    assert_eq!(model.material_label, None);
}

#[test]
fn only_the_fallback_material_has_a_label() {
    assert_eq!(label_of_materials(&vec![]), Some("fallback_material"));
    assert_eq!(label_of_materials(&vec![None]), None);
}
