//! Vertices, the words they are stored as, and the layout that tells the GPU
//! where to find their attributes.

use vstd::prelude::*;
use crate::bounds::Vec3;
use crate::bytes::{cast_words, holds_words};
use crate::single::Single;

verus! {

/// Texture coordinates.
#[derive(Clone, Copy, Debug, PartialEq, Eq, Structural)]
pub struct Vec2 {
    pub u: Single,
    pub v: Single,
}

/// A vertex: a position and texture coordinates.
#[derive(Clone, Copy, Debug, PartialEq, Eq, Structural)]
pub struct Vertex {
    pub pos: Vec3,
    pub uv: Vec2,
}

/// The texture coordinates of vertex `i`: zero where the mesh has none.
pub open spec fn uv_at(uvs: Option<Vec<Vec2>>, i: int) -> Vec2 {
    match uvs {
        Some(list) => list@[i],
        None => Vec2 { u: Single { bits: 0 }, v: Single { bits: 0 } },
    }
}

/// How many vertices there are: as many as there are positions, or texture
/// coordinates where the mesh has fewer of them.
pub open spec fn vertex_count(positions: Seq<Vec3>, uvs: Option<Vec<Vec2>>) -> nat {
    match uvs {
        Some(list) => if list@.len() < positions.len() {
            list@.len()
        } else {
            positions.len()
        },
        None => positions.len(),
    }
}

/// The vertices that positions and texture coordinates make up.
pub open spec fn zipped(positions: Seq<Vec3>, uvs: Option<Vec<Vec2>>) -> Seq<Vertex> {
    Seq::new(vertex_count(positions, uvs), |i: int| Vertex { pos: positions[i], uv: uv_at(uvs, i) })
}

/// Pairs positions with texture coordinates.
pub fn zip_vertices(positions: &Vec<Vec3>, uvs: &Option<Vec<Vec2>>) -> (r: Vec<Vertex>)
    ensures
        r@ == zipped(positions@, *uvs),
        uvs is None ==> r@.len() == positions@.len(),
        uvs matches Some(list) ==> {
            &&& r@.len() <= positions@.len()
            &&& r@.len() <= list@.len()
            &&& r@.len() == positions@.len() || r@.len() == list@.len()
        },
        forall|i: int| 0 <= i < r@.len() ==> (#[trigger] r@[i]).pos == positions@[i],
        uvs matches Some(list) ==> forall|i: int| 0 <= i < r@.len() ==> (#[trigger] r@[i]).uv == list@[i],
        uvs is None ==> forall|i: int| 0 <= i < r@.len() ==> (#[trigger] r@[i]).uv.u.bits == 0 && r@[i].uv.v.bits == 0,
{
    let count: usize = match uvs {
        Some(list) => if list.len() < positions.len() {
            list.len()
        } else {
            positions.len()
        },
        None => positions.len(),
    };
    let mut r: Vec<Vertex> = Vec::new();
    while r.len() < count
        invariant
            count == vertex_count(positions@, *uvs),
            r@.len() <= count,
            forall|i: int| 0 <= i < r@.len() ==> #[trigger] r@[i] == zipped(positions@, *uvs)[i],
        decreases count - r@.len(),
    {
        let i: usize = r.len();
        let uv = match uvs {
            Some(list) => list[i],
            None => Vec2 { u: Single { bits: 0 }, v: Single { bits: 0 } },
        };
        r.push(Vertex { pos: positions[i], uv });
    }
    assert(r@ =~= zipped(positions@, *uvs));
    r
}

/// Every position that has texture coordinates beside it becomes a vertex, and
/// nothing else does: there are no more vertices than positions or texture
/// coordinates, and as many as there are of one of the two; vertex `i` is made
/// of position `i` and of texture coordinates `i`. Where the mesh has no texture
/// coordinates, every position becomes a vertex, with zeros.
pub proof fn lemma_vertices_pair_up(positions: Seq<Vec3>, uvs: Option<Vec<Vec2>>)
    ensures
        uvs is None ==> zipped(positions, uvs).len() == positions.len(),
        uvs matches Some(list) ==> {
            &&& zipped(positions, uvs).len() <= positions.len()
            &&& zipped(positions, uvs).len() <= list@.len()
            &&& zipped(positions, uvs).len() == positions.len() || zipped(positions, uvs).len() == list@.len()
        },
        forall|i: int| 0 <= i < zipped(positions, uvs).len() ==> (#[trigger] zipped(positions, uvs)[i]).pos == positions[i],
        uvs matches Some(list) ==> forall|i: int|
            0 <= i < zipped(positions, uvs).len() ==> (#[trigger] zipped(positions, uvs)[i]).uv == list@[i],
        uvs is None ==> forall|i: int|
            0 <= i < zipped(positions, uvs).len() ==> (#[trigger] zipped(positions, uvs)[i]).uv == (Vec2 {
                u: Single { bits: 0 },
                v: Single { bits: 0 },
            }),
{
}

/// The words of a vertex, in the order in which they are stored.
pub open spec fn vertex_word(v: Vertex, k: int) -> u32 {
    if k == 0 {
        v.pos.x.bits
    } else if k == 1 {
        v.pos.y.bits
    } else if k == 2 {
        v.pos.z.bits
    } else if k == 3 {
        v.uv.u.bits
    } else {
        v.uv.v.bits
    }
}

/// The words of all vertices, five for each.
pub open spec fn vertex_words(vertices: Seq<Vertex>) -> Seq<u32> {
    Seq::new(5 * vertices.len(), |i: int| vertex_word(vertices[i / 5], i % 5))
}

/// The words of all vertices, five for each.
pub fn words_of_vertices(vertices: &Vec<Vertex>) -> (r: Vec<u32>)
    ensures
        r@ == vertex_words(vertices@),
        r@.len() == 5 * vertices@.len(),
        forall|i: int|
            0 <= i < vertices@.len() ==> {
                &&& (#[trigger] vertices@[i]).pos.x.bits == r@[5 * i]
                &&& vertices@[i].pos.y.bits == r@[5 * i + 1]
                &&& vertices@[i].pos.z.bits == r@[5 * i + 2]
                &&& vertices@[i].uv.u.bits == r@[5 * i + 3]
                &&& vertices@[i].uv.v.bits == r@[5 * i + 4]
            },
{
    let mut words: Vec<u32> = Vec::new();
    let mut k: usize = 0;
    while k < vertices.len()
        invariant
            0 <= k <= vertices@.len(),
            words@ == vertex_words(vertices@.take(k as int)),
        decreases vertices@.len() - k,
    {
        let v = vertices[k];
        let ghost before = words@;
        words.push(v.pos.x.bits);
        words.push(v.pos.y.bits);
        words.push(v.pos.z.bits);
        words.push(v.uv.u.bits);
        words.push(v.uv.v.bits);
        proof {
            let more = vertex_words(vertices@.take(k as int + 1));
            assert forall|i: int| 0 <= i < more.len() implies words@[i] == #[trigger] more[i] by {
                if i < 5 * k {
                    assert(words@[i] == before[i]);
                    assert(vertices@.take(k as int + 1)[i / 5] == vertices@.take(k as int)[i / 5]);
                } else {
                    assert(i / 5 == k);
                }
            }
            assert(words@ =~= more);
        }
        k = k + 1;
    }
    assert(vertices@.take(vertices@.len() as int) =~= vertices@);
    words
}

/// The contents of a vertex buffer.
pub fn vertex_bytes(vertices: &Vec<Vertex>) -> (r: Vec<u8>)
    ensures
        holds_words(r@, vertex_words(vertices@)),
        r@.len() == 20 * vertices@.len(),
{
    let words = words_of_vertices(vertices);
    cast_words(words.as_slice())
}

/// The contents of an index buffer.
pub fn index_bytes(indices: &Vec<u32>) -> (r: Vec<u8>)
    ensures
        holds_words(r@, indices@),
        r@.len() == 4 * indices@.len(),
{
    cast_words(indices.as_slice())
}

/// How many numbers an attribute has; each takes four bytes.
#[derive(Clone, Copy, Debug, PartialEq, Eq, Structural)]
pub enum VertexFormat {
    Float32x2,
    Float32x3,
}

impl VertexFormat {
    /// The number of components.
    pub open spec fn components(self) -> nat {
        match self {
            VertexFormat::Float32x2 => 2,
            VertexFormat::Float32x3 => 3,
        }
    }
}

/// Where an attribute of a vertex is found, and under which location the
/// shader knows it.
#[derive(Clone, Copy, Debug, PartialEq, Eq, Structural)]
pub struct VertexAttribute {
    pub offset: u64,
    pub shader_location: u32,
    pub format: VertexFormat,
}

/// The layout of a vertex buffer.
#[derive(Clone, Copy, Debug, PartialEq, Eq, Structural)]
pub struct VertexLayout {
    pub array_stride: u64,
    pub position: VertexAttribute,
    pub uv: VertexAttribute,
}

/// Three numbers for the position, then two for the texture coordinates.
pub open spec fn vertex_layout_spec() -> VertexLayout {
    VertexLayout {
        array_stride: 20,
        position: VertexAttribute { offset: 0, shader_location: 0, format: VertexFormat::Float32x3 },
        uv: VertexAttribute { offset: 12, shader_location: 1, format: VertexFormat::Float32x2 },
    }
}

/// The layout of the vertex buffers: positions, then texture coordinates.
pub fn vertex_layout() -> (r: VertexLayout)
    ensures
        r == vertex_layout_spec(),
        r.array_stride == 20,
        r.position.offset == 0 && r.position.shader_location == 0 && r.position.format is Float32x3,
        r.uv.offset == 12 && r.uv.shader_location == 1 && r.uv.format is Float32x2,
{
    VertexLayout {
        array_stride: 20,
        position: VertexAttribute { offset: 0, shader_location: 0, format: VertexFormat::Float32x3 },
        uv: VertexAttribute { offset: 12, shader_location: 1, format: VertexFormat::Float32x2 },
    }
}

/// The word that the GPU reads as component `c` of an attribute of vertex `i`.
pub open spec fn fetched(words: Seq<u32>, layout: VertexLayout, attribute: VertexAttribute, i: int, c: int) -> u32 {
    words[(layout.array_stride * i + attribute.offset) / 4 + c]
}

/// The layout describes the buffer: the words that it names for vertex `i` are
/// the coordinates of that vertex, they lie at whole words, and a vertex takes
/// up one stride.
pub proof fn lemma_layout_finds_attributes(vertices: Seq<Vertex>, i: int)
    requires
        0 <= i < vertices.len(),
    ensures
        ({
            let words = vertex_words(vertices);
            let layout = vertex_layout_spec();
            &&& words.len() == 5 * vertices.len()
            &&& 4 * words.len() == layout.array_stride * vertices.len()
            &&& layout.position.shader_location == 0 && layout.uv.shader_location == 1
            &&& layout.position.format is Float32x3 && layout.uv.format is Float32x2
            &&& layout.array_stride % 4 == 0
            &&& layout.position.offset % 4 == 0
            &&& layout.uv.offset % 4 == 0
            &&& layout.position.offset + 4 * layout.position.format.components() <= layout.uv.offset
            &&& layout.uv.offset + 4 * layout.uv.format.components() <= layout.array_stride
            &&& fetched(words, layout, layout.position, i, 0) == vertices[i].pos.x.bits
            &&& fetched(words, layout, layout.position, i, 1) == vertices[i].pos.y.bits
            &&& fetched(words, layout, layout.position, i, 2) == vertices[i].pos.z.bits
            &&& fetched(words, layout, layout.uv, i, 0) == vertices[i].uv.u.bits
            &&& fetched(words, layout, layout.uv, i, 1) == vertices[i].uv.v.bits
        }),
{
}

proof fn lemma_vertex_in_words(vertices: Seq<Vertex>, i: int)
    requires
        0 <= i < vertices.len(),
    ensures
        vertex_words(vertices)[5 * i] == vertices[i].pos.x.bits,
        vertex_words(vertices)[5 * i + 1] == vertices[i].pos.y.bits,
        vertex_words(vertices)[5 * i + 2] == vertices[i].pos.z.bits,
        vertex_words(vertices)[5 * i + 3] == vertices[i].uv.u.bits,
        vertex_words(vertices)[5 * i + 4] == vertices[i].uv.v.bits,
{
}

/// A vertex buffer holds five words for each vertex, and they give the vertices
/// back: no two lists of vertices have the same words.
pub proof fn lemma_words_determine_vertices(a: Seq<Vertex>, b: Seq<Vertex>)
    requires
        vertex_words(a) == vertex_words(b),
    ensures
        a == b,
        vertex_words(a).len() == 5 * a.len(),
        forall|i: int|
            0 <= i < a.len() ==> {
                &&& (#[trigger] a[i]).pos.x.bits == vertex_words(a)[5 * i]
                &&& a[i].pos.y.bits == vertex_words(a)[5 * i + 1]
                &&& a[i].pos.z.bits == vertex_words(a)[5 * i + 2]
                &&& a[i].uv.u.bits == vertex_words(a)[5 * i + 3]
                &&& a[i].uv.v.bits == vertex_words(a)[5 * i + 4]
            },
{
    assert(vertex_words(a).len() == 5 * a.len());
    assert(vertex_words(b).len() == 5 * b.len());
    assert forall|i: int| 0 <= i < a.len() implies a[i] == b[i] by {
        lemma_vertex_in_words(a, i);
        lemma_vertex_in_words(b, i);
        assert(a[i].pos.x == b[i].pos.x && a[i].pos.y == b[i].pos.y && a[i].pos.z == b[i].pos.z);
        assert(a[i].uv.u == b[i].uv.u && a[i].uv.v == b[i].uv.v);
    }
    assert(a =~= b);
}

} // verus!
