//! Descriptions of the GPU objects that the renderer asks for: textures,
//! buffers, bind groups with their layouts, and the render pipeline.

use vstd::prelude::*;
use crate::vertex::{vertex_layout, vertex_layout_spec, VertexLayout};

verus! {

/// A texel format.
#[derive(Clone, Copy, Debug, PartialEq, Eq, Structural)]
pub enum TextureFormat {
    Rgba8UnormSrgb,
    Depth24Plus,
}

/// What a texture may be used for.
#[derive(Clone, Copy, Debug, PartialEq, Eq, Structural)]
pub struct TextureUsages {
    pub texture_binding: bool,
    pub render_attachment: bool,
    pub copy_src: bool,
    pub copy_dst: bool,
}

/// A two-dimensional texture to be created.
#[derive(Clone, Copy, Debug, PartialEq, Eq)]
pub struct TextureDesc {
    pub label: Option<&'static str>,
    pub width: u32,
    pub height: u32,
    pub layers: u32,
    pub mip_level_count: u32,
    pub sample_count: u32,
    pub format: TextureFormat,
    pub usages: TextureUsages,
}

/// What a texture is for.
#[derive(Clone, Copy, Debug, PartialEq, Eq, Structural)]
pub enum TextureRole {
    /// An image of the model, sampled by the fragment shader.
    Image,
    /// The white texture of materials that have no image.
    White,
    /// The depth buffer.
    Depth,
    /// The frame that is rendered and then copied out.
    Output,
}

impl TextureRole {
    /// The label of a texture for this role.
    pub open spec fn label_spec(self) -> Option<&'static str> {
        match self {
            TextureRole::Image => None,
            TextureRole::White => Some("default_white_texture"),
            TextureRole::Depth => Some("depth_texture"),
            TextureRole::Output => Some("output_texture"),
        }
    }

    /// Depth is kept in 24 bits, color in four bytes in the sRGB color space.
    pub open spec fn format_spec(self) -> TextureFormat {
        if self == TextureRole::Depth {
            TextureFormat::Depth24Plus
        } else {
            TextureFormat::Rgba8UnormSrgb
        }
    }

    /// What the shader samples is written by a copy; the others are rendered
    /// to, and the frame is then copied from.
    pub open spec fn usages_spec(self) -> TextureUsages {
        let sampled = self == TextureRole::Image || self == TextureRole::White;
        TextureUsages {
            texture_binding: sampled,
            render_attachment: !sampled,
            copy_src: self == TextureRole::Output,
            copy_dst: sampled,
        }
    }

    /// A texture of the given size: one layer, no mipmaps, one sample.
    pub open spec fn texture_spec(self, width: u32, height: u32) -> TextureDesc {
        TextureDesc {
            label: self.label_spec(),
            width,
            height,
            layers: 1,
            mip_level_count: 1,
            sample_count: 1,
            format: self.format_spec(),
            usages: self.usages_spec(),
        }
    }

    /// Describes a texture of the given size for this role.
    pub fn texture(self, width: u32, height: u32) -> (r: TextureDesc)
        ensures
            r == self.texture_spec(width, height),
            r.width == width && r.height == height,
            r.layers == 1 && r.mip_level_count == 1 && r.sample_count == 1,
            self is Depth <==> r.format is Depth24Plus,
            r.usages.texture_binding <==> self is Image || self is White,
            r.usages.copy_dst <==> self is Image || self is White,
            r.usages.render_attachment <==> self is Depth || self is Output,
            r.usages.copy_src <==> self is Output,
            self is Image ==> r.label is None,
            self is White ==> r.label == Some("default_white_texture"),
            self is Depth ==> r.label == Some("depth_texture"),
            self is Output ==> r.label == Some("output_texture"),
    {
        let sampled: bool = match self {
            TextureRole::Image => true,
            TextureRole::White => true,
            TextureRole::Depth => false,
            TextureRole::Output => false,
        };
        TextureDesc {
            label: match self {
                TextureRole::Image => None,
                TextureRole::White => Some("default_white_texture"),
                TextureRole::Depth => Some("depth_texture"),
                TextureRole::Output => Some("output_texture"),
            },
            width,
            height,
            layers: 1,
            mip_level_count: 1,
            sample_count: 1,
            format: match self {
                TextureRole::Depth => TextureFormat::Depth24Plus,
                _ => TextureFormat::Rgba8UnormSrgb,
            },
            usages: TextureUsages {
                texture_binding: sampled,
                render_attachment: !sampled,
                copy_src: self == TextureRole::Output,
                copy_dst: sampled,
            },
        }
    }
}

/// What a buffer may be used for.
#[derive(Clone, Copy, Debug, PartialEq, Eq, Structural)]
pub struct BufferUsages {
    pub uniform: bool,
    pub vertex: bool,
    pub index: bool,
    pub copy_dst: bool,
    pub map_read: bool,
}

/// What a buffer is for.
#[derive(Clone, Copy, Debug, PartialEq, Eq, Structural)]
pub enum BufferRole {
    /// The camera matrix.
    Camera,
    /// The matrix of one item that is drawn.
    Object,
    /// Vertices of a primitive.
    Vertices,
    /// Indices of a primitive.
    Indices,
    /// The frame on its way to the CPU.
    Readback,
}

impl BufferRole {
    /// The usages of a buffer for this role.
    pub open spec fn usages_spec(self) -> BufferUsages {
        BufferUsages {
            uniform: self == BufferRole::Camera || self == BufferRole::Object,
            vertex: self == BufferRole::Vertices,
            index: self == BufferRole::Indices,
            copy_dst: self == BufferRole::Camera || self == BufferRole::Readback,
            map_read: self == BufferRole::Readback,
        }
    }

    /// The label of a buffer for this role.
    pub open spec fn label_spec(self) -> Option<&'static str> {
        match self {
            BufferRole::Camera => Some("camera"),
            BufferRole::Object => Some("primitive_uniform_buffer"),
            BufferRole::Vertices => None,
            BufferRole::Indices => None,
            BufferRole::Readback => Some("readback_buffer"),
        }
    }

    /// The usages of a buffer for this role.
    pub fn usages(self) -> (r: BufferUsages)
        ensures
            r == self.usages_spec(),
            r.uniform <==> self is Camera || self is Object,
            r.vertex <==> self is Vertices,
            r.index <==> self is Indices,
            r.copy_dst <==> self is Camera || self is Readback,
            r.map_read <==> self is Readback,
    {
        BufferUsages {
            uniform: self == BufferRole::Camera || self == BufferRole::Object,
            vertex: self == BufferRole::Vertices,
            index: self == BufferRole::Indices,
            copy_dst: self == BufferRole::Camera || self == BufferRole::Readback,
            map_read: self == BufferRole::Readback,
        }
    }

    /// The label of a buffer for this role.
    pub fn label(self) -> (r: Option<&'static str>)
        ensures
            r == self.label_spec(),
            self is Camera ==> r == Some("camera"),
            self is Object ==> r == Some("primitive_uniform_buffer"),
            self is Vertices || self is Indices ==> r is None,
            self is Readback ==> r == Some("readback_buffer"),
    {
        match self {
            BufferRole::Camera => Some("camera"),
            BufferRole::Object => Some("primitive_uniform_buffer"),
            BufferRole::Vertices => None,
            BufferRole::Indices => None,
            BufferRole::Readback => Some("readback_buffer"),
        }
    }
}

/// The size of a matrix in a uniform buffer.
pub const UNIFORM_SIZE: u64 = 64;

/// The shader stage that sees a binding.
#[derive(Clone, Copy, Debug, PartialEq, Eq, Structural)]
pub enum ShaderStage {
    Vertex,
    Fragment,
}

/// What is bound: a whole uniform buffer, a filterable two-dimensional color
/// texture, or a filtering sampler.
#[derive(Clone, Copy, Debug, PartialEq, Eq, Structural)]
pub enum BindingKind {
    UniformBuffer,
    Texture,
    Sampler,
}

/// An entry of the layout of a bind group.
#[derive(Clone, Copy, Debug, PartialEq, Eq, Structural)]
pub struct LayoutEntry {
    pub binding: u32,
    pub stage: ShaderStage,
    pub kind: BindingKind,
}

/// An entry of a bind group.
#[derive(Clone, Copy, Debug, PartialEq, Eq, Structural)]
pub struct GroupEntry {
    pub binding: u32,
    pub kind: BindingKind,
}

/// The kinds of bind groups.
#[derive(Clone, Copy, Debug, PartialEq, Eq, Structural)]
pub enum GroupKind {
    Camera,
    Material,
    Object,
}

impl GroupKind {
    /// A material is a texture and its sampler for the fragment shader; the
    /// camera and an object are a matrix for the vertex shader.
    pub open spec fn layout_spec(self) -> Seq<LayoutEntry> {
        if self == GroupKind::Material {
            seq![
                LayoutEntry { binding: 0, stage: ShaderStage::Fragment, kind: BindingKind::Texture },
                LayoutEntry { binding: 1, stage: ShaderStage::Fragment, kind: BindingKind::Sampler },
            ]
        } else {
            seq![LayoutEntry { binding: 0, stage: ShaderStage::Vertex, kind: BindingKind::UniformBuffer }]
        }
    }

    /// What is bound in a group of this kind.
    pub open spec fn entries_spec(self) -> Seq<GroupEntry> {
        if self == GroupKind::Material {
            seq![
                GroupEntry { binding: 0, kind: BindingKind::Texture },
                GroupEntry { binding: 1, kind: BindingKind::Sampler },
            ]
        } else {
            seq![GroupEntry { binding: 0, kind: BindingKind::UniformBuffer }]
        }
    }

    /// The label of the layout.
    pub open spec fn layout_label_spec(self) -> &'static str {
        match self {
            GroupKind::Camera => "camera_layout",
            GroupKind::Material => "material_layout",
            GroupKind::Object => "object_layout",
        }
    }

    /// The label of a group of this kind; materials have their own.
    pub open spec fn label_spec(self) -> Option<&'static str> {
        match self {
            GroupKind::Camera => Some("camera_bind_group"),
            GroupKind::Material => None,
            GroupKind::Object => Some("primitive_bind_group"),
        }
    }

    /// The layout of groups of this kind.
    pub fn layout(self) -> (r: Vec<LayoutEntry>)
        ensures
            r@ == self.layout_spec(),
            self is Material ==> {
                &&& r@.len() == 2
                &&& r@[0].binding == 0 && r@[0].stage is Fragment && r@[0].kind is Texture
                &&& r@[1].binding == 1 && r@[1].stage is Fragment && r@[1].kind is Sampler
            },
            self is Camera || self is Object ==> {
                &&& r@.len() == 1
                &&& r@[0].binding == 0 && r@[0].stage is Vertex && r@[0].kind is UniformBuffer
            },
    {
        let r: Vec<LayoutEntry> = if self == GroupKind::Material {
            vec![
                LayoutEntry { binding: 0, stage: ShaderStage::Fragment, kind: BindingKind::Texture },
                LayoutEntry { binding: 1, stage: ShaderStage::Fragment, kind: BindingKind::Sampler },
            ]
        } else {
            vec![LayoutEntry { binding: 0, stage: ShaderStage::Vertex, kind: BindingKind::UniformBuffer }]
        };
        assert(r@ =~= self.layout_spec());
        r
    }

    /// What is bound in a group of this kind.
    pub fn entries(self) -> (r: Vec<GroupEntry>)
        ensures
            r@ == self.entries_spec(),
            self is Material ==> {
                &&& r@.len() == 2
                &&& r@[0].binding == 0 && r@[0].kind is Texture
                &&& r@[1].binding == 1 && r@[1].kind is Sampler
            },
            self is Camera || self is Object ==> {
                &&& r@.len() == 1
                &&& r@[0].binding == 0 && r@[0].kind is UniformBuffer
            },
    {
        let r: Vec<GroupEntry> = if self == GroupKind::Material {
            vec![
                GroupEntry { binding: 0, kind: BindingKind::Texture },
                GroupEntry { binding: 1, kind: BindingKind::Sampler },
            ]
        } else {
            vec![GroupEntry { binding: 0, kind: BindingKind::UniformBuffer }]
        };
        assert(r@ =~= self.entries_spec());
        r
    }

    /// The label of a group of this kind; materials have their own.
    pub fn label(self) -> (r: Option<&'static str>)
        ensures
            r == self.label_spec(),
            self is Camera ==> r == Some("camera_bind_group"),
            self is Material ==> r is None,
            self is Object ==> r == Some("primitive_bind_group"),
    {
        match self {
            GroupKind::Camera => Some("camera_bind_group"),
            GroupKind::Material => None,
            GroupKind::Object => Some("primitive_bind_group"),
        }
    }

    /// The label of the layout.
    pub fn layout_label(self) -> (r: &'static str)
        ensures
            r == self.layout_label_spec(),
            self is Camera ==> r == "camera_layout",
            self is Material ==> r == "material_layout",
            self is Object ==> r == "object_layout",
    {
        match self {
            GroupKind::Camera => "camera_layout",
            GroupKind::Material => "material_layout",
            GroupKind::Object => "object_layout",
        }
    }
}

/// Every group binds exactly what its layout asks for, under distinct numbers.
pub proof fn lemma_groups_match_layouts(kind: GroupKind)
    ensures
        kind.entries_spec().len() == kind.layout_spec().len(),
        forall|i: int|
            0 <= i < kind.entries_spec().len() ==> {
                &&& (#[trigger] kind.entries_spec()[i]).binding == kind.layout_spec()[i].binding
                &&& kind.entries_spec()[i].kind == kind.layout_spec()[i].kind
            },
        forall|i: int, j: int|
            0 <= i < j < kind.layout_spec().len() ==> (#[trigger] kind.layout_spec()[i]).binding != (
            #[trigger] kind.layout_spec()[j]).binding,
{
}

/// How a fragment's depth must compare to be drawn.
#[derive(Clone, Copy, Debug, PartialEq, Eq, Structural)]
pub enum DepthTest {
    Less,
}

/// How a fragment's color is combined with the frame.
#[derive(Clone, Copy, Debug, PartialEq, Eq, Structural)]
pub enum Blending {
    Replace,
}

/// The color channels that are written.
#[derive(Clone, Copy, Debug, PartialEq, Eq, Structural)]
pub struct ColorWrites {
    pub red: bool,
    pub green: bool,
    pub blue: bool,
    pub alpha: bool,
}

/// Which faces are left out.
#[derive(Clone, Copy, Debug, PartialEq, Eq, Structural)]
pub enum FaceCulling {
    Nothing,
}

/// The render pipeline. The other settings keep their defaults.
#[derive(Clone, Copy, Debug)]
pub struct PipelineDesc {
    pub label: &'static str,
    pub layout_label: &'static str,
    pub vertex_entry_point: &'static str,
    pub fragment_entry_point: &'static str,
    /// The kinds of bind groups, by slot.
    pub groups: [GroupKind; 3],
    pub vertices: VertexLayout,
    pub color_format: TextureFormat,
    pub blending: Blending,
    pub color_writes: ColorWrites,
    pub culling: FaceCulling,
    pub sample_count: u32,
    pub depth_format: TextureFormat,
    pub depth_write: bool,
    pub depth_test: DepthTest,
}

/// The kind of bind group that the pipeline expects in a slot.
pub open spec fn slot_kind(slot: int) -> GroupKind {
    if slot == 0 {
        GroupKind::Camera
    } else if slot == 1 {
        GroupKind::Material
    } else {
        GroupKind::Object
    }
}

/// Describes the render pipeline.
pub fn create_pipeline() -> (r: PipelineDesc)
    ensures
        r.label == "render_pipeline",
        r.layout_label == "pipeline_layout",
        r.vertex_entry_point == "vs_main",
        r.fragment_entry_point == "fs_main",
        forall|slot: int| 0 <= slot < 3 ==> #[trigger] r.groups@[slot] == slot_kind(slot),
        r.groups@[0] is Camera && r.groups@[1] is Material && r.groups@[2] is Object,
        r.vertices == vertex_layout_spec(),
        r.vertices.array_stride == 20,
        r.vertices.position.offset == 0 && r.vertices.position.shader_location == 0,
        r.vertices.position.format is Float32x3,
        r.vertices.uv.offset == 12 && r.vertices.uv.shader_location == 1 && r.vertices.uv.format is Float32x2,
        r.color_format is Rgba8UnormSrgb && r.depth_format is Depth24Plus,
        r.color_format == TextureRole::Output.format_spec(),
        r.blending == Blending::Replace,
        r.color_writes == (ColorWrites { red: true, green: true, blue: true, alpha: true }),
        r.culling == FaceCulling::Nothing,
        r.sample_count == 1,
        r.depth_format == TextureRole::Depth.format_spec(),
        r.depth_write,
        r.depth_test == DepthTest::Less,
{
    PipelineDesc {
        label: "render_pipeline",
        layout_label: "pipeline_layout",
        vertex_entry_point: "vs_main",
        fragment_entry_point: "fs_main",
        groups: [GroupKind::Camera, GroupKind::Material, GroupKind::Object],
        vertices: vertex_layout(),
        color_format: TextureFormat::Rgba8UnormSrgb,
        blending: Blending::Replace,
        color_writes: ColorWrites { red: true, green: true, blue: true, alpha: true },
        culling: FaceCulling::Nothing,
        sample_count: 1,
        depth_format: TextureFormat::Depth24Plus,
        depth_write: true,
        depth_test: DepthTest::Less,
    }
}

/// A texture has the size that is asked for, and may be used for what it is for
/// and for nothing else: what the shader samples is written by copying and then
/// bound, what is rendered to is an attachment, and only the frame is copied out.
/// Only depth is kept in the depth format.
pub proof fn lemma_textures_serve_their_roles(role: TextureRole, width: u32, height: u32)
    ensures
        ({
            let t = role.texture_spec(width, height);
            let sampled = role is Image || role is White;
            &&& t.width == width && t.height == height && t.layers == 1
            &&& t.mip_level_count == 1 && t.sample_count == 1
            &&& t.usages.texture_binding == sampled && t.usages.copy_dst == sampled
            &&& t.usages.render_attachment == !sampled
            &&& t.usages.copy_src <==> role is Output
            &&& t.format is Depth24Plus <==> role is Depth
            &&& t.label == match role {
                TextureRole::Image => None,
                TextureRole::White => Some("default_white_texture"),
                TextureRole::Depth => Some("depth_texture"),
                TextureRole::Output => Some("output_texture"),
            }
        }),
{
}

/// A buffer is bound in one way only: as uniforms, vertices or indices; or it is
/// read by the CPU. What is written after it was made is the camera and the frame
/// that is read back.
pub proof fn lemma_buffers_serve_their_roles(role: BufferRole)
    ensures
        ({
            let u = role.usages_spec();
            &&& u.uniform <==> role is Camera || role is Object
            &&& u.vertex <==> role is Vertices
            &&& u.index <==> role is Indices
            &&& u.map_read <==> role is Readback
            &&& u.copy_dst <==> role is Camera || role is Readback
            &&& role is Camera ==> role.label_spec() == Some("camera")
            &&& role is Object ==> role.label_spec() == Some("primitive_uniform_buffer")
            &&& role is Vertices || role is Indices ==> role.label_spec() is None
            &&& role is Readback ==> role.label_spec() == Some("readback_buffer")
        }),
{
}

/// A material is a texture and its sampler, in that order, for the fragment
/// shader; the camera and an object are a matrix each, for the vertex shader. The
/// pipeline takes the camera in slot 0, a material in slot 1 and an object in
/// slot 2.
pub proof fn lemma_groups_serve_their_kinds(kind: GroupKind)
    ensures
        kind is Material ==> {
            &&& kind.layout_spec().len() == 2
            &&& kind.layout_spec()[0].kind is Texture && kind.layout_spec()[0].stage is Fragment
            &&& kind.layout_spec()[1].kind is Sampler && kind.layout_spec()[1].stage is Fragment
        },
        kind is Camera || kind is Object ==> {
            &&& kind.layout_spec().len() == 1
            &&& kind.layout_spec()[0].kind is UniformBuffer && kind.layout_spec()[0].stage is Vertex
        },
        forall|i: int|
            0 <= i < kind.layout_spec().len() ==> (#[trigger] kind.layout_spec()[i]).binding == i,
        slot_kind(0) is Camera && slot_kind(1) is Material && slot_kind(2) is Object,
        kind.layout_label_spec() == match kind {
            GroupKind::Camera => "camera_layout",
            GroupKind::Material => "material_layout",
            GroupKind::Object => "object_layout",
        },
        kind.label_spec() == match kind {
            GroupKind::Camera => Some("camera_bind_group"),
            GroupKind::Material => None,
            GroupKind::Object => Some("primitive_bind_group"),
        },
{
}

/// The textures that a frame is rendered into fit together and fit the
/// pipeline: they have one size, both can be rendered to, and they have the
/// formats and the number of samples that `create_pipeline` names; and what is
/// rendered can be copied out.
pub proof fn lemma_targets_fit_pipeline(width: u32, height: u32)
    ensures
        ({
            let output = TextureRole::Output.texture_spec(width, height);
            let depth = TextureRole::Depth.texture_spec(width, height);
            &&& output.width == depth.width && output.height == depth.height
            &&& output.sample_count == 1 && depth.sample_count == 1
            &&& output.usages.render_attachment && depth.usages.render_attachment
            &&& output.usages.copy_src
            &&& output.format == TextureRole::Output.format_spec()
            &&& depth.format == TextureRole::Depth.format_spec()
        }),
{
}

} // verus!
