use gltf_snapshot::draw::{record_pass, Command, Group, PrimitiveInfo};
use gltf_snapshot::gpu::{create_pipeline, BindingKind, Blending, BufferRole, DepthTest, GroupKind, ShaderStage};
use gltf_snapshot::gpu::{ColorWrites, FaceCulling, TextureFormat, TextureRole};
use gltf_snapshot::model::RenderItem;
use gltf_snapshot::vertex::vertex_layout;

fn item(primitive: usize) -> RenderItem {
    RenderItem { primitive, placement: 0 }
}

#[test]
fn pass_draws_visible_items_in_order() {
    let primitives = vec![
        PrimitiveInfo { indexed: true, index_count: 36, material: 2 },
        PrimitiveInfo { indexed: false, index_count: 3, material: 0 },
    ];
    let pass = record_pass(&vec![item(1), item(0), item(1)], &primitives, &vec![true, true, false]);
    assert_eq!(pass.drawn, 2);
    assert_eq!(
        pass.commands,
        vec![
            Command::SetPipeline,
            Command::SetBindGroup { slot: 0, group: Group::Camera },
            Command::SetBindGroup { slot: 2, group: Group::Object(0) },
            Command::SetBindGroup { slot: 1, group: Group::Material(0) },
            Command::SetVertexBuffer { primitive: 1 },
            Command::Draw { count: 3 },
            Command::SetBindGroup { slot: 2, group: Group::Object(1) },
            Command::SetBindGroup { slot: 1, group: Group::Material(2) },
            Command::SetVertexBuffer { primitive: 0 },
            Command::SetIndexBuffer { primitive: 0 },
            Command::DrawIndexed { count: 36 },
        ]
    );
}

#[test]
fn pass_without_visible_items_draws_nothing() {
    let primitives = vec![PrimitiveInfo { indexed: false, index_count: 3, material: 0 }];
    let pass = record_pass(&vec![item(0)], &primitives, &vec![false]);
    assert_eq!(pass.drawn, 0);
    assert_eq!(pass.commands.len(), 2);
}

#[test]
fn groups_go_where_the_pipeline_expects_them() {
    let pipeline = create_pipeline();
    let primitives = vec![PrimitiveInfo { indexed: true, index_count: 6, material: 1 }];
    let pass = record_pass(&vec![item(0), item(0)], &primitives, &vec![true, true]);
    for command in pass.commands {
        if let Command::SetBindGroup { slot, group } = command {
            let kind = match group {
                Group::Camera => GroupKind::Camera,
                Group::Material(_) => GroupKind::Material,
                Group::Object(_) => GroupKind::Object,
            };
            assert_eq!(pipeline.groups[slot as usize], kind);
        }
    }
}

#[test]
fn pipeline_settings() {
    let pipeline = create_pipeline();
    assert_eq!(pipeline.label, "render_pipeline");
    assert_eq!(pipeline.layout_label, "pipeline_layout");
    assert_eq!(pipeline.vertex_entry_point, "vs_main");
    assert_eq!(pipeline.fragment_entry_point, "fs_main");
    assert_eq!(pipeline.vertices, vertex_layout());
    assert_eq!(pipeline.blending, Blending::Replace);
    assert_eq!(pipeline.depth_test, DepthTest::Less);
    assert!(pipeline.depth_write);
    assert_eq!(pipeline.color_writes, ColorWrites { red: true, green: true, blue: true, alpha: true });
    assert_eq!(pipeline.culling, FaceCulling::Nothing);
    assert_eq!(pipeline.sample_count, 1);
}

#[test]
fn targets_fit_the_pipeline() {
    let pipeline = create_pipeline();
    let output = TextureRole::Output.texture(800, 600);
    let depth = TextureRole::Depth.texture(800, 600);
    assert_eq!(output.format, pipeline.color_format);
    assert_eq!(depth.format, pipeline.depth_format);
    assert_eq!(output.format, TextureFormat::Rgba8UnormSrgb);
    assert_eq!(depth.format, TextureFormat::Depth24Plus);
    assert_eq!((output.width, output.height), (depth.width, depth.height));
    assert!(output.usages.render_attachment && output.usages.copy_src);
    assert!(!output.usages.texture_binding && !output.usages.copy_dst);
    assert!(depth.usages.render_attachment && !depth.usages.copy_src);
    assert_eq!((output.layers, output.mip_level_count, output.sample_count), (1, 1, 1));
    assert_eq!(output.label, Some("output_texture"));
    assert_eq!(depth.label, Some("depth_texture"));
}

#[test]
fn image_textures_are_sampled() {
    let texture = TextureRole::Image.texture(4, 2);
    assert_eq!((texture.width, texture.height), (4, 2));
    assert!(texture.usages.texture_binding && texture.usages.copy_dst);
    assert!(!texture.usages.render_attachment && !texture.usages.copy_src);
    assert_eq!(texture.label, None);
}

#[test]
fn groups_match_their_layouts() {
    for kind in [GroupKind::Camera, GroupKind::Material, GroupKind::Object] {
        let layout = kind.layout();
        let entries = kind.entries();
        assert_eq!(layout.len(), entries.len());
        for (l, e) in layout.iter().zip(entries.iter()) {
            assert_eq!(l.binding, e.binding);
            assert_eq!(l.kind, e.kind);
        }
    }
}

#[test]
fn material_layout_has_texture_and_sampler() {
    let layout = GroupKind::Material.layout();
    assert_eq!(layout.len(), 2);
    assert_eq!((layout[0].binding, layout[0].kind), (0, BindingKind::Texture));
    assert_eq!((layout[1].binding, layout[1].kind), (1, BindingKind::Sampler));
    assert_eq!(layout[0].stage, ShaderStage::Fragment);
    assert_eq!(layout[1].stage, ShaderStage::Fragment);
    assert_eq!(GroupKind::Material.layout_label(), "material_layout");
}

#[test]
fn matrix_layouts_have_a_uniform_buffer() {
    for kind in [GroupKind::Camera, GroupKind::Object] {
        let layout = kind.layout();
        assert_eq!(layout.len(), 1);
        assert_eq!(layout[0].stage, ShaderStage::Vertex);
        assert_eq!(layout[0].kind, BindingKind::UniformBuffer);
    }
    assert_eq!(GroupKind::Camera.layout_label(), "camera_layout");
    assert_eq!(GroupKind::Object.layout_label(), "object_layout");
}

#[test]
fn buffers_have_their_usages() {
    let camera = BufferRole::Camera.usages();
    assert!(camera.uniform && camera.copy_dst && !camera.map_read && !camera.vertex && !camera.index);
    let object = BufferRole::Object.usages();
    assert!(object.uniform && !object.copy_dst);
    assert!(BufferRole::Vertices.usages().vertex && !BufferRole::Vertices.usages().index);
    assert!(BufferRole::Indices.usages().index && !BufferRole::Indices.usages().vertex);
    let readback = BufferRole::Readback.usages();
    assert!(readback.copy_dst && readback.map_read && !readback.uniform);
    assert_eq!(BufferRole::Camera.label(), Some("camera"));
    assert_eq!(BufferRole::Object.label(), Some("primitive_uniform_buffer"));
    assert_eq!(BufferRole::Vertices.label(), None);
    assert_eq!(BufferRole::Indices.label(), None);
    assert_eq!(BufferRole::Readback.label(), Some("readback_buffer"));
}

#[test]
fn commands_refer_to_what_exists() {
    let primitives = vec![
        PrimitiveInfo { indexed: true, index_count: 36, material: 1 },
        PrimitiveInfo { indexed: false, index_count: 3, material: 0 },
    ];
    let items = vec![item(1), item(0), item(0)];
    let pass = record_pass(&items, &primitives, &vec![true, false, true]);
    let mut indexed = 0;
    for command in pass.commands {
        match command {
            Command::SetBindGroup { group: Group::Material(m), .. } => assert!(m < 2),
            Command::SetBindGroup { group: Group::Object(i), .. } => assert!(i == 0 || i == 2),
            Command::SetVertexBuffer { primitive } => assert!(primitive < primitives.len()),
            Command::SetIndexBuffer { primitive } => {
                assert!(primitives[primitive].indexed);
                indexed += 1;
            }
            _ => {}
        }
    }
    assert_eq!(indexed, 1);
}

#[test]
fn pass_clears_to_black_and_far() {
    let pass = record_pass(&vec![], &vec![], &vec![]);
    let number = |bits: u32| f32::from_bits(bits);
    assert_eq!(number(pass.clear.red.bits), 0.0);
    assert_eq!(number(pass.clear.green.bits), 0.0);
    assert_eq!(number(pass.clear.blue.bits), 0.0);
    assert_eq!(number(pass.clear.alpha.bits), 1.0);
    assert_eq!(number(pass.clear.depth.bits), 1.0);
}

#[test]
fn second_pass_is_the_same() {
    let primitives = vec![PrimitiveInfo { indexed: true, index_count: 36, material: 1 }];
    let items = vec![item(0), item(0)];
    let visible = vec![true, false];
    let first = record_pass(&items, &primitives, &visible);
    let second = record_pass(&items, &primitives, &visible);
    assert_eq!(first.clear, second.clear);
    assert_eq!(first.commands, second.commands);
    assert_eq!(first.drawn, second.drawn);
}

#[test]
fn groups_have_their_labels() {
    assert_eq!(GroupKind::Camera.label(), Some("camera_bind_group"));
    assert_eq!(GroupKind::Material.label(), None);
    assert_eq!(GroupKind::Object.label(), Some("primitive_bind_group"));
}
