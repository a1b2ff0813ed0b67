use gltf_snapshot::bounds::Vec3;
use gltf_snapshot::gpu::UNIFORM_SIZE;
use gltf_snapshot::single::Single;
use gltf_snapshot::uniform::{camera_uniform, object_uniform, words_of, Matrix};
use gltf_snapshot::vertex::{index_bytes, vertex_bytes, vertex_layout, words_of_vertices, zip_vertices};
use gltf_snapshot::vertex::{Vec2, Vertex, VertexFormat};

fn single(x: f32) -> Single {
    Single { bits: x.to_bits() }
}

fn vertex(n: f32) -> Vertex {
    Vertex {
        pos: Vec3 { x: single(n), y: single(n + 0.25), z: single(n + 0.5) },
        uv: Vec2 { u: single(-n), v: single(0.125) },
    }
}

fn read(bytes: &[u8], at: usize) -> f32 {
    f32::from_ne_bytes([bytes[at], bytes[at + 1], bytes[at + 2], bytes[at + 3]])
}

fn matrix() -> Matrix {
    let mut columns = [[single(0.0); 4]; 4];
    for c in 0..4usize {
        for r in 0..4usize {
            columns[c][r] = single((10 * c + r) as f32);
        }
    }
    Matrix { columns }
}

#[test]
fn index_bytes_are_those_of_the_machine() {
    let bytes = index_bytes(&vec![0x0102_0304, 7]);
    let mut expected = 0x0102_0304u32.to_ne_bytes().to_vec();
    expected.extend_from_slice(&7u32.to_ne_bytes());
    assert_eq!(bytes, expected);
    assert!(index_bytes(&vec![]).is_empty());
}

#[test]
fn layout_finds_the_attributes_in_the_buffer() {
    let vertices = vec![vertex(1.0), vertex(2.0), vertex(3.0)];
    let bytes = vertex_bytes(&vertices);
    let layout = vertex_layout();
    assert_eq!(layout.array_stride, 20);
    assert_eq!(bytes.len(), 3 * layout.array_stride as usize);
    for i in 0..3usize {
        let n = (i + 1) as f32;
        let base = i * layout.array_stride as usize;
        let position = base + layout.position.offset as usize;
        let uv = base + layout.uv.offset as usize;
        assert_eq!(read(&bytes, position), n);
        assert_eq!(read(&bytes, position + 4), n + 0.25);
        assert_eq!(read(&bytes, position + 8), n + 0.5);
        assert_eq!(read(&bytes, uv), -n);
        assert_eq!(read(&bytes, uv + 4), 0.125);
    }
}

#[test]
fn vertex_layout_has_two_attributes() {
    let layout = vertex_layout();
    assert_eq!(layout.position.offset, 0);
    assert_eq!(layout.position.shader_location, 0);
    assert_eq!(layout.position.format, VertexFormat::Float32x3);
    assert_eq!(layout.uv.offset, 12);
    assert_eq!(layout.uv.shader_location, 1);
    assert_eq!(layout.uv.format, VertexFormat::Float32x2);
}

#[test]
fn zip_pairs_positions_with_uvs() {
    let v = vertex(1.0);
    let w = vertex(2.0);
    let zipped = zip_vertices(&vec![v.pos, w.pos], &Some(vec![v.uv, w.uv]));
    assert_eq!(zipped, vec![v, w]);
}

#[test]
fn uniforms_hold_matrices_by_columns() {
    for bytes in [camera_uniform(&matrix()), object_uniform(&matrix())] {
        assert_eq!(bytes.len() as u64, UNIFORM_SIZE);
        for c in 0..4usize {
            for r in 0..4usize {
                assert_eq!(read(&bytes, 4 * (4 * c + r)), (10 * c + r) as f32);
            }
        }
    }
}

#[test]
fn words_of_vertices_in_order() {
    let words = words_of_vertices(&vec![vertex(1.0), vertex(2.0)]);
    let expected: Vec<u32> = [1.0f32, 1.25, 1.5, -1.0, 0.125, 2.0, 2.25, 2.5, -2.0, 0.125]
        .iter()
        .map(|x| x.to_bits())
        .collect();
    assert_eq!(words, expected);
}

#[test]
fn words_of_a_matrix_by_columns() {
    let words = words_of(&matrix());
    assert_eq!(words[0], 0.0f32.to_bits());
    assert_eq!(words[1], 1.0f32.to_bits());
    assert_eq!(words[4], 10.0f32.to_bits());
    assert_eq!(words[15], 33.0f32.to_bits());
}
