//! Mesh primitives: from the attributes that the document holds to what the
//! renderer draws, and the numbering of the primitives over all meshes.

use vstd::prelude::*;
use crate::bounds::{bounds_of, encloses, lemma_bounds_enclose_and_touch, spanned_by, Bounds, Vec3};
use crate::bytes::{holds_words, lemma_held_words_have_one_order};
use crate::materials::{clamp_material, clamped_material, lemma_material_is_nearest};
use crate::vertex::{index_bytes, vertex_bytes, vertex_words, zip_vertices, zipped, Vec2, Vertex};
use crate::vertex::lemma_vertices_pair_up;

verus! {

/// The attributes of a primitive as they are read from the document.
#[derive(Debug)]
pub struct PrimitiveSource {
    pub positions: Option<Vec<Vec3>>,
    pub uvs: Option<Vec<Vec2>>,
    pub indices: Option<Vec<u32>>,
    pub material: Option<usize>,
}

/// A primitive that is ready to be uploaded, with the bounds of its vertices.
#[derive(Debug)]
pub struct CpuPrimitive {
    pub vertices: Vec<Vertex>,
    pub indices: Option<Vec<u32>>,
    pub material: usize,
    pub bounds: Bounds,
}

/// Why a model cannot be used.
#[derive(Clone, Copy, Debug, PartialEq, Eq, Structural)]
pub enum ModelError {
    /// A primitive has no vertex positions.
    NoPositions,
}

impl ModelError {
    /// The error in words.
    pub fn message(&self) -> (r: &'static str)
        ensures
            r == "No positions in mesh",
    {
        "No positions in mesh"
    }
}

/// The positions of vertices.
pub open spec fn positions_of(vertices: Seq<Vertex>) -> Seq<Vec3> {
    vertices.map_values(|v: Vertex| v.pos)
}

/// `p` is what becomes of `source` in a model with `material_count` materials.
pub open spec fn built_from(p: CpuPrimitive, source: PrimitiveSource, material_count: nat) -> bool {
    &&& source.positions matches Some(positions)
    &&& p.vertices@ == zipped(positions@, source.uvs)
    &&& p.indices == source.indices
    &&& p.material == clamped_material(source.material, material_count)
    &&& p.bounds == bounds_of(positions_of(p.vertices@))
}

/// The bounds of the positions of vertices.
pub fn vertex_bounds(vertices: &Vec<Vertex>) -> (r: Bounds)
    ensures
        r == bounds_of(positions_of(vertices@)),
        forall|i: int| 0 <= i < vertices@.len() ==> encloses(r, (#[trigger] vertices@[i]).pos),
        spanned_by(r, vertices@.map_values(|v: Vertex| v.pos)),
{
    let mut r = Bounds::empty();
    let mut k: usize = 0;
    let ghost points = positions_of(vertices@);
    assert(points.take(0) =~= Seq::empty());
    while k < vertices.len()
        invariant
            0 <= k <= vertices@.len(),
            points == positions_of(vertices@),
            r == bounds_of(points.take(k as int)),
        decreases vertices@.len() - k,
    {
        assert(points.take(k as int + 1).drop_last() =~= points.take(k as int));
        r.include_point(vertices[k].pos);
        k = k + 1;
    }
    assert(points.take(points.len() as int) =~= points);
    proof {
        lemma_bounds_enclose_and_touch(points);
        assert(forall|i: int| 0 <= i < vertices@.len() ==> (#[trigger] vertices@[i]).pos == points[i]);
    }
    r
}

/// Builds a primitive.
pub fn build_primitive(source: PrimitiveSource, material_count: usize) -> (r: Result<CpuPrimitive, ModelError>)
    requires
        material_count > 0,
    ensures
        r is Ok <==> source.positions is Some,
        r matches Ok(p) ==> built_from(p, source, material_count as nat),
        r matches Ok(p) ==> keeps_source(p, source, material_count as int),
        r matches Err(e) ==> e == ModelError::NoPositions,
{
    match source.positions {
        Some(positions) => {
            let vertices = zip_vertices(&positions, &source.uvs);
            let bounds = vertex_bounds(&vertices);
            let p = CpuPrimitive {
                vertices,
                indices: source.indices,
                material: clamp_material(source.material, material_count),
                bounds,
            };
            proof {
                lemma_primitive_keeps_its_source(p, source, material_count as nat);
            }
            Ok(p)
        },
        None => Err(ModelError::NoPositions),
    }
}

/// `p` has a vertex for every position of `source` that has texture coordinates
/// beside it, or for every position where there are none; it has the indices of
/// `source`, the material that `source` names or the nearest there is, and
/// bounds around its vertices and no larger.
pub open spec fn keeps_source(p: CpuPrimitive, source: PrimitiveSource, material_count: int) -> bool {
    &&& source.positions is Some
    &&& forall|i: int|
        0 <= i < p.vertices@.len() ==> i < source.positions->0@.len() && (#[trigger] p.vertices@[i]).pos
            == source.positions->0@[i]
    &&& match source.uvs {
        Some(list) => {
            &&& p.vertices@.len() <= list@.len()
            &&& p.vertices@.len() == list@.len() || p.vertices@.len() == source.positions->0@.len()
            &&& forall|i: int| 0 <= i < p.vertices@.len() ==> (#[trigger] p.vertices@[i]).uv == list@[i]
        },
        None => {
            &&& p.vertices@.len() == source.positions->0@.len()
            &&& forall|i: int|
                0 <= i < p.vertices@.len() ==> (#[trigger] p.vertices@[i]).uv.u.bits == 0 && p.vertices@[i].uv.v.bits == 0
        },
    }
    &&& match source.indices {
        Some(list) => p.indices matches Some(kept) && kept@ == list@,
        None => p.indices is None,
    }
    &&& match source.material {
        Some(m) => p.material == m && m < material_count || p.material == material_count - 1 && material_count <= m,
        None => p.material == 0,
    }
    &&& forall|i: int| 0 <= i < p.vertices@.len() ==> encloses(p.bounds, (#[trigger] p.vertices@[i]).pos)
    &&& spanned_by(p.bounds, p.vertices@.map_values(|v: Vertex| v.pos))
}

/// A primitive keeps what the document says of it.
pub proof fn lemma_primitive_keeps_its_source(p: CpuPrimitive, source: PrimitiveSource, material_count: nat)
    requires
        material_count > 0,
        built_from(p, source, material_count),
    ensures
        keeps_source(p, source, material_count as int),
{
    lemma_vertices_pair_up(source.positions->0@, source.uvs);
    lemma_material_is_nearest(source.material, material_count);
    let points = p.vertices@.map_values(|v: Vertex| v.pos);
    lemma_bounds_enclose_and_touch(points);
    assert(forall|i: int| 0 <= i < p.vertices@.len() ==> (#[trigger] p.vertices@[i]).pos == points[i]);
}

/// The primitives of all meshes in one sequence.
pub open spec fn all_primitives(meshes: Seq<Vec<PrimitiveSource>>) -> Seq<PrimitiveSource>
    decreases meshes.len(),
{
    if meshes.len() == 0 {
        Seq::empty()
    } else {
        all_primitives(meshes.drop_last()) + meshes.last()@
    }
}

/// Whether every primitive of every mesh has positions.
pub fn all_have_positions(meshes: &Vec<Vec<PrimitiveSource>>) -> (r: bool)
    ensures
        r == forall|i: int|
            0 <= i < all_primitives(meshes@).len() ==> (#[trigger] all_primitives(meshes@)[i]).positions is Some,
        r <==> forall|m: int, k: int|
            0 <= m < meshes@.len() && 0 <= k < meshes@[m]@.len() ==> (#[trigger] meshes@[m]@[k]).positions is Some,
{
    proof {
        lemma_every_primitive_of_every_mesh(meshes@);
    }
    let ghost sources = all_primitives(meshes@);
    let mut m: usize = 0;
    while m < meshes.len()
        invariant
            0 <= m <= meshes@.len(),
            sources == all_primitives(meshes@),
            all_primitives(meshes@.take(m as int)).len() <= sources.len(),
            forall|i: int|
                0 <= i < all_primitives(meshes@.take(m as int)).len() ==> (#[trigger] sources[i]).positions is Some,
        decreases meshes@.len() - m,
    {
        let ghost before = all_primitives(meshes@.take(m as int)).len();
        let mesh = &meshes[m];
        proof {
            assert(meshes@.take(m as int + 1).drop_last() =~= meshes@.take(m as int));
            lemma_prefix_of_all(meshes@, m as int + 1);
            let upto = all_primitives(meshes@.take(m as int + 1));
            assert forall|k: int| 0 <= k < mesh@.len() implies #[trigger] sources[before + k] == mesh@[k] by {
                assert(upto[before + k] == mesh@[k]);
            }
        }
        let mut k: usize = 0;
        while k < mesh.len()
            invariant
                0 <= k <= mesh@.len(),
                before + mesh@.len() <= sources.len(),
                sources == all_primitives(meshes@),
                forall|j: int| 0 <= j < mesh@.len() ==> #[trigger] sources[before + j] == mesh@[j],
                forall|i: int| 0 <= i < before + k ==> (#[trigger] sources[i]).positions is Some,
            decreases mesh@.len() - k,
        {
            assert(sources[before + k] == mesh@[k as int]);
            if mesh[k].positions.is_none() {
                proof {
                    lemma_every_primitive_of_every_mesh(meshes@);
                }
                return false;
            }
            k = k + 1;
        }
        m = m + 1;
    }
    assert(meshes@.take(meshes@.len() as int) =~= meshes@);
    true
}

/// Builds the primitives of all meshes, in order. The first primitive without
/// positions makes the model unusable.
pub fn build_primitives(meshes: Vec<Vec<PrimitiveSource>>, material_count: usize) -> (r: Result<
    Vec<CpuPrimitive>,
    ModelError,
>)
    requires
        material_count > 0,
    ensures
        r is Ok <==> forall|i: int|
            0 <= i < all_primitives(meshes@).len() ==> (#[trigger] all_primitives(meshes@)[i]).positions is Some,
        r is Ok <==> forall|m: int, k: int|
            0 <= m < meshes@.len() && 0 <= k < meshes@[m]@.len() ==> (#[trigger] meshes@[m]@[k]).positions is Some,
        r matches Ok(list) ==> list@.len() == all_primitives(meshes@).len(),
        r matches Ok(list) ==> {
            let sources = meshes@.map_values(|mesh: Vec<PrimitiveSource>| mesh@).flatten();
            &&& list@.len() == sources.len()
            &&& forall|i: int|
                0 <= i < list@.len() ==> keeps_source(#[trigger] list@[i], sources[i], material_count as int)
        },
        r matches Ok(list) ==> forall|i: int|
            0 <= i < list@.len() ==> built_from(
                #[trigger] list@[i],
                all_primitives(meshes@)[i],
                material_count as nat,
            ),
        r matches Err(e) ==> e == ModelError::NoPositions,
{
    let ghost sources = all_primitives(meshes@);
    let mut r: Vec<CpuPrimitive> = Vec::new();
    let ghost total = meshes@;
    proof {
        lemma_every_primitive_of_every_mesh(total);
        lemma_all_primitives_are_flattened(total);
    }
    for mesh in outer: meshes
        invariant
            material_count > 0,
            total == outer.seq(),
            total == meshes@,
            sources == all_primitives(total),
            r@.len() == all_primitives(total.take(outer.index())).len(),
            forall|i: int| 0 <= i < r@.len() ==> built_from(
                #[trigger] r@[i],
                all_primitives(total.take(outer.index()))[i],
                material_count as nat,
            ),
    {
        let ghost done = outer.index();
        let ghost before = all_primitives(total.take(done));
        let ghost list = mesh@;
        assert(total.take(done + 1).drop_last() =~= total.take(done));
        assert(all_primitives(total.take(done + 1)) == before + list);
        proof {
            lemma_prefix_of_all(total, done + 1);
        }
        for source in inner: mesh
            invariant
                material_count > 0,
                list == inner.seq(),
                total == meshes@,
                sources == all_primitives(total),
                before.len() + list.len() <= sources.len(),
                forall|i: int| 0 <= i < before.len() + list.len() ==> sources[i] == #[trigger] (before + list)[i],
                r@.len() == before.len() + inner.index(),
                forall|i: int| 0 <= i < r@.len() ==> built_from(
                    #[trigger] r@[i],
                    (before + list)[i],
                    material_count as nat,
                ),
        {
            let ghost at = (before.len() + inner.index()) as int;
            assert((before + list)[at] == source);
            match build_primitive(source, material_count) {
                Ok(p) => {
                    r.push(p);
                },
                Err(e) => {
                    assert(sources[at].positions is None);
                    proof {
                        lemma_every_primitive_of_every_mesh(total);
                    }
                    return Err(e);
                },
            }
        }
    }
    assert(total.take(total.len() as int) =~= total);
    assert forall|i: int| 0 <= i < sources.len() implies (#[trigger] sources[i]).positions is Some by {
        assert(built_from(r@[i], sources[i], material_count as nat));
    }
    assert forall|i: int| 0 <= i < r@.len() implies keeps_source(
        #[trigger] r@[i],
        sources[i],
        material_count as int,
    ) by {
        lemma_primitive_keeps_its_source(r@[i], sources[i], material_count as nat);
    }
    Ok(r)
}

proof fn lemma_prefix_of_all(meshes: Seq<Vec<PrimitiveSource>>, n: int)
    requires
        0 <= n <= meshes.len(),
    ensures
        all_primitives(meshes.take(n)).len() <= all_primitives(meshes).len(),
        forall|i: int|
            0 <= i < all_primitives(meshes.take(n)).len() ==> all_primitives(meshes)[i] == #[trigger] all_primitives(
                meshes.take(n),
            )[i],
    decreases meshes.len(),
{
    if n == meshes.len() {
        assert(meshes.take(n) =~= meshes);
    } else {
        assert(meshes.drop_last().take(n) =~= meshes.take(n));
        lemma_prefix_of_all(meshes.drop_last(), n);
    }
}

/// How many primitives the first `m` meshes have together.
pub open spec fn first_of(counts: Seq<usize>, m: int) -> nat
    decreases m,
{
    if m <= 0 {
        0
    } else {
        first_of(counts, m - 1) + counts[m - 1] as nat
    }
}

/// `map[m][k]` is the number of primitive `k` of mesh `m`, when the primitives
/// of all meshes are counted through.
pub open spec fn numbers_primitives(map: Seq<Vec<usize>>, counts: Seq<usize>) -> bool {
    &&& map.len() == counts.len()
    &&& forall|m: int| 0 <= m < map.len() ==> (#[trigger] map[m])@.len() == counts[m]
    &&& forall|m: int, k: int|
        0 <= m < map.len() && 0 <= k < counts[m] ==> #[trigger] map[m]@[k] == first_of(counts, m) + k
}

/// More meshes have no fewer primitives.
pub proof fn lemma_first_of_grows(counts: Seq<usize>, m: int, n: int)
    requires
        m <= n,
    ensures
        first_of(counts, m) <= first_of(counts, n),
    decreases n - m,
{
    if m < n {
        lemma_first_of_grows(counts, m, n - 1);
    }
}

/// Numbers the primitives of meshes that have `counts` primitives each.
pub fn mesh_primitive_map(counts: &Vec<usize>) -> (r: Vec<Vec<usize>>)
    requires
        first_of(counts@, counts@.len() as int) <= usize::MAX,
    ensures
        numbers_primitives(r@, counts@),
        r@.len() == counts@.len(),
        forall|m: int| 0 <= m < r@.len() ==> (#[trigger] r@[m])@.len() == counts@[m],
        forall|i: int|
            0 <= i < read_through(r@).len() ==> #[trigger] read_through(r@)[i] == i,
{
    let mut primitive_index: usize = 0;
    let mut r: Vec<Vec<usize>> = Vec::new();
    while r.len() < counts.len()
        invariant
            first_of(counts@, counts@.len() as int) <= usize::MAX,
            r@.len() <= counts@.len(),
            primitive_index == first_of(counts@, r@.len() as int),
            forall|m: int| 0 <= m < r@.len() ==> (#[trigger] r@[m])@.len() == counts@[m],
            forall|m: int, k: int|
                0 <= m < r@.len() && 0 <= k < counts@[m] ==> #[trigger] r@[m]@[k] == first_of(counts@, m) + k,
        decreases counts@.len() - r@.len(),
    {
        let ghost m = r@.len() as int;
        let count: usize = counts[r.len()];
        proof {
            lemma_first_of_grows(counts@, m + 1, counts@.len() as int);
        }
        let mut numbers: Vec<usize> = Vec::new();
        while numbers.len() < count
            invariant
                numbers@.len() <= count,
                first_of(counts@, m) + count <= usize::MAX,
                primitive_index == first_of(counts@, m) + numbers@.len(),
                forall|k: int| 0 <= k < numbers@.len() ==> #[trigger] numbers@[k] == first_of(counts@, m) + k,
            decreases count - numbers@.len(),
        {
            numbers.push(primitive_index);
            primitive_index = primitive_index + 1;
        }
        r.push(numbers);
    }
    proof {
        lemma_numbers_count_through(r@, counts@);
    }
    r
}

/// The numbers of primitives of `meshes`, mesh by mesh.
pub open spec fn counts_of(meshes: Seq<Vec<PrimitiveSource>>) -> Seq<usize> {
    meshes.map_values(|mesh: Vec<PrimitiveSource>| mesh.len())
}

/// All meshes together have as many primitives as their counts add up to.
pub proof fn lemma_all_primitives_len(meshes: Seq<Vec<PrimitiveSource>>)
    ensures
        all_primitives(meshes).len() == first_of(counts_of(meshes), meshes.len() as int),
    decreases meshes.len(),
{
    if meshes.len() > 0 {
        let front = meshes.drop_last();
        lemma_all_primitives_len(front);
        lemma_first_of_local(counts_of(front), counts_of(meshes), front.len() as int);
    }
}

proof fn lemma_first_of_local(a: Seq<usize>, b: Seq<usize>, m: int)
    requires
        m <= a.len(),
        m <= b.len(),
        forall|i: int| 0 <= i < m ==> a[i] == b[i],
    ensures
        first_of(a, m) == first_of(b, m),
    decreases m,
{
    if m > 0 {
        lemma_first_of_local(a, b, m - 1);
    }
}

/// The numbering follows the order in which the primitives are built: the
/// primitive with the number of primitive `k` of mesh `m` is that one.
pub proof fn lemma_numbers_point_at_own_primitive(meshes: Seq<Vec<PrimitiveSource>>, m: int, k: int)
    requires
        0 <= m < meshes.len(),
        0 <= k < meshes[m]@.len(),
    ensures
        first_of(counts_of(meshes), m) + k < all_primitives(meshes).len(),
        all_primitives(meshes)[first_of(counts_of(meshes), m) + k] == meshes[m]@[k],
    decreases meshes.len(),
{
    let front = meshes.drop_last();
    lemma_all_primitives_len(front);
    lemma_first_of_local(counts_of(front), counts_of(meshes), m);
    if m < front.len() {
        lemma_numbers_point_at_own_primitive(front, m, k);
        assert(front[m] == meshes[m]);
    }
}

/// The primitives of all meshes are those of the first, then those of the second,
/// and so on.
pub proof fn lemma_all_primitives_are_flattened(meshes: Seq<Vec<PrimitiveSource>>)
    ensures
        all_primitives(meshes) == meshes.map_values(|mesh: Vec<PrimitiveSource>| mesh@).flatten(),
    decreases meshes.len(),
{
    let lists = meshes.map_values(|mesh: Vec<PrimitiveSource>| mesh@);
    if meshes.len() > 0 {
        let front = meshes.drop_last();
        lemma_all_primitives_are_flattened(front);
        assert(front.map_values(|mesh: Vec<PrimitiveSource>| mesh@).push(meshes.last()@) =~= lists);
        front.map_values(|mesh: Vec<PrimitiveSource>| mesh@).lemma_flatten_push(meshes.last()@);
    } else {
        assert(lists =~= Seq::empty());
    }
}

/// The primitives of a mesh are numbered from the number of primitives that the
/// meshes before it have together.
pub proof fn lemma_numbering_starts_behind_earlier_meshes(meshes: Seq<Vec<PrimitiveSource>>, m: int)
    requires
        0 <= m <= meshes.len(),
    ensures
        first_of(counts_of(meshes), m) == meshes.take(m).map_values(|mesh: Vec<PrimitiveSource>| mesh@).flatten().len(),
{
    lemma_all_primitives_are_flattened(meshes.take(m));
    lemma_all_primitives_len(meshes.take(m));
    lemma_first_of_local(counts_of(meshes.take(m)), counts_of(meshes), m);
}

proof fn lemma_primitive_has_a_place(meshes: Seq<Vec<PrimitiveSource>>, i: int) -> (r: (int, int))
    requires
        0 <= i < all_primitives(meshes).len(),
    ensures
        0 <= r.0 < meshes.len(),
        0 <= r.1 < meshes[r.0]@.len(),
        all_primitives(meshes)[i] == meshes[r.0]@[r.1],
    decreases meshes.len(),
{
    let front = meshes.drop_last();
    let before = all_primitives(front).len();
    if i < before {
        lemma_primitive_has_a_place(front, i)
    } else {
        (meshes.len() - 1, i - before)
    }
}

/// Every primitive has positions exactly if every primitive of every mesh does.
pub proof fn lemma_every_primitive_of_every_mesh(meshes: Seq<Vec<PrimitiveSource>>)
    ensures
        (forall|i: int|
            0 <= i < all_primitives(meshes).len() ==> (#[trigger] all_primitives(meshes)[i]).positions is Some) <==> (
        forall|m: int, k: int|
            0 <= m < meshes.len() && 0 <= k < meshes[m]@.len() ==> (#[trigger] meshes[m]@[k]).positions is Some),
{
    if forall|i: int|
        0 <= i < all_primitives(meshes).len() ==> (#[trigger] all_primitives(meshes)[i]).positions is Some {
        assert forall|m: int, k: int| 0 <= m < meshes.len() && 0 <= k < meshes[m]@.len() implies (
        #[trigger] meshes[m]@[k]).positions is Some by {
            lemma_numbers_point_at_own_primitive(meshes, m, k);
        }
    }
    if forall|m: int, k: int|
        0 <= m < meshes.len() && 0 <= k < meshes[m]@.len() ==> (#[trigger] meshes[m]@[k]).positions is Some {
        assert forall|i: int| 0 <= i < all_primitives(meshes).len() implies (
        #[trigger] all_primitives(meshes)[i]).positions is Some by {
            let (m, k) = lemma_primitive_has_a_place(meshes, i);
            assert(meshes[m]@[k].positions is Some);
        }
    }
}

/// The lists of a map, one after the other.
pub open spec fn read_through(map: Seq<Vec<usize>>) -> Seq<usize> {
    map.map_values(|list: Vec<usize>| list@).flatten()
}

/// Read mesh by mesh, the numbers are 0, 1, 2 and so on.
pub proof fn lemma_numbers_count_through(map: Seq<Vec<usize>>, counts: Seq<usize>)
    requires
        numbers_primitives(map, counts),
    ensures
        forall|i: int|
            0 <= i < read_through(map).len() ==> #[trigger] read_through(map)[i] == i,
        read_through(map).len() == first_of(counts, counts.len() as int),
    decreases map.len(),
{
    let lists = map.map_values(|list: Vec<usize>| list@);
    if map.len() > 0 {
        let front = map.drop_last();
        let fewer = counts.drop_last();
        let n = front.len() as int;
        lemma_first_of_local(fewer, counts, n);
        assert forall|m: int| 0 <= m < n implies (#[trigger] front[m])@.len() == fewer[m] by {
            assert(map[m]@.len() == counts[m]);
        }
        assert forall|m: int, k: int| 0 <= m < n && 0 <= k < fewer[m] implies #[trigger] front[m]@[k] == first_of(
            fewer,
            m,
        ) + k by {
            lemma_first_of_local(fewer, counts, m);
            assert(map[m]@[k] == first_of(counts, m) + k);
        }
        lemma_numbers_count_through(front, fewer);
        let start = front.map_values(|list: Vec<usize>| list@);
        assert(start.push(map.last()@) =~= lists);
        start.lemma_flatten_push(map.last()@);
        assert(map[n]@.len() == counts[n]);
        assert forall|i: int| 0 <= i < lists.flatten().len() implies #[trigger] lists.flatten()[i] == i by {
            if i < start.flatten().len() {
                assert(start.flatten()[i] == i);
            } else {
                assert(map[n]@[i - first_of(counts, n)] == i);
            }
        }
    } else {
        assert(lists =~= Seq::empty());
    }
}

/// No number is given twice.
pub proof fn lemma_numbers_are_distinct(map: Seq<Vec<usize>>, counts: Seq<usize>, m: int, k: int, n: int, j: int)
    requires
        numbers_primitives(map, counts),
        0 <= m < map.len(),
        0 <= k < map[m]@.len(),
        0 <= n < map.len(),
        0 <= j < map[n]@.len(),
        map[m]@[k] == map[n]@[j],
    ensures
        m == n,
        k == j,
{
    if m < n {
        lemma_first_of_grows(counts, m + 1, n);
    } else if n < m {
        lemma_first_of_grows(counts, n + 1, m);
    }
}

/// No number is left out.
pub proof fn lemma_numbers_are_complete(map: Seq<Vec<usize>>, counts: Seq<usize>, number: int)
    requires
        numbers_primitives(map, counts),
        0 <= number < first_of(counts, counts.len() as int),
    ensures
        exists|m: int, k: int| 0 <= m < map.len() && 0 <= k < map[m]@.len() && #[trigger] map[m]@[k] == number,
{
    lemma_number_among_first(map, counts, number, counts.len() as int);
}

proof fn lemma_number_among_first(map: Seq<Vec<usize>>, counts: Seq<usize>, number: int, n: int)
    requires
        numbers_primitives(map, counts),
        0 <= n <= counts.len(),
        0 <= number < first_of(counts, n),
    ensures
        exists|m: int, k: int| 0 <= m < map.len() && 0 <= k < map[m]@.len() && #[trigger] map[m]@[k] == number,
    decreases n,
{
    let k = number - first_of(counts, n - 1);
    if k >= 0 {
        assert(map[n - 1]@.len() == counts[n - 1]);
        assert(map[n - 1]@[k] == number);
    } else {
        lemma_number_among_first(map, counts, number, n - 1);
    }
}

/// How many vertices a draw of `p` goes through: its indices, or its vertices
/// where it has none.
pub open spec fn element_count(p: CpuPrimitive) -> nat {
    match p.indices {
        Some(indices) => indices@.len(),
        None => p.vertices@.len(),
    }
}

/// The buffers of a primitive.
#[derive(Debug)]
pub struct PrimitiveUpload {
    pub vertex_bytes: Vec<u8>,
    pub index_bytes: Option<Vec<u8>>,
    pub index_count: u32,
}

/// Lays out the buffers of a primitive. The count is kept in 32 bits.
pub fn prepare_upload(p: &CpuPrimitive) -> (r: PrimitiveUpload)
    ensures
        holds_words(r.vertex_bytes@, vertex_words(p.vertices@)),
        r.index_bytes is Some <==> p.indices is Some,
        p.indices matches Some(indices) ==> holds_words(r.index_bytes.unwrap()@, indices@),
        r.index_count == element_count(*p) % 0x1_0000_0000,
        r.vertex_bytes@.len() == 20 * p.vertices@.len(),
        p.indices matches Some(indices) ==> {
            &&& r.index_bytes->0@.len() == 4 * indices@.len()
            &&& r.index_count == indices@.len() % 0x1_0000_0000
            &&& indices@.len() < 0x1_0000_0000 ==> r.index_bytes->0@.len() == 4 * r.index_count
        },
        p.indices is None ==> {
            &&& r.index_count == p.vertices@.len() % 0x1_0000_0000
            &&& p.vertices@.len() < 0x1_0000_0000 ==> r.vertex_bytes@.len() == 20 * r.index_count
        },
{
    let vertex_data = vertex_bytes(&p.vertices);
    match &p.indices {
        Some(indices) => PrimitiveUpload {
            vertex_bytes: vertex_data,
            index_bytes: Some(index_bytes(indices)),
            index_count: low_half(indices.len()),
        },
        None => PrimitiveUpload {
            vertex_bytes: vertex_data,
            index_bytes: None,
            index_count: low_half(p.vertices.len()),
        },
    }
}

/// The count goes with the buffer that a draw reads: with indices, there are four
/// bytes of them for every element that is counted; without, there are as many
/// strides of vertices. So nothing is left undrawn, and nothing is read beyond
/// the end, unless there are too many elements to count.
pub proof fn lemma_count_goes_with_buffer(p: CpuPrimitive, r: PrimitiveUpload)
    requires
        holds_words(r.vertex_bytes@, vertex_words(p.vertices@)),
        r.index_bytes is Some <==> p.indices is Some,
        p.indices matches Some(indices) ==> holds_words(r.index_bytes.unwrap()@, indices@),
        r.index_count == element_count(p) % 0x1_0000_0000,
    ensures
        r.vertex_bytes@.len() == 20 * p.vertices@.len(),
        r.index_bytes matches Some(bytes) ==> {
            &&& bytes@.len() / 4 < 0x1_0000_0000 ==> bytes@.len() == 4 * r.index_count
            &&& bytes@.len() == 4 * p.indices->0@.len()
            &&& (bytes@.len() / 4) % 0x1_0000_0000 == r.index_count
        },
        r.index_bytes is None ==> {
            &&& r.vertex_bytes@.len() / 20 < 0x1_0000_0000 ==> r.vertex_bytes@.len() == 20 * r.index_count
            &&& (r.vertex_bytes@.len() / 20) % 0x1_0000_0000 == r.index_count
        },
{
    lemma_held_words_have_one_order(r.vertex_bytes@, vertex_words(p.vertices@));
    assert(vertex_words(p.vertices@).len() == 5 * p.vertices@.len());
    if let Some(indices) = p.indices {
        lemma_held_words_have_one_order(r.index_bytes.unwrap()@, indices@);
    }
}

/// A count reduced to 32 bits.
fn low_half(n: usize) -> (r: u32)
    ensures
        r as int == n as int % 0x1_0000_0000,
{
    let wide: u64 = n as u64;
    assert(#[verifier::truncate] (wide as u32) == wide % 0x1_0000_0000u64) by (bit_vector);
    #[verifier::truncate]
    (wide as u32)
}

} // verus!
