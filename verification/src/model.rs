//! From a document to a model: materials, primitives, the visits of the scene's
//! nodes, and what is drawn at each of them.

use vstd::prelude::*;
use crate::materials::{label_of_materials, material_label, material_textures, resolve_materials, TextureChoice};
use crate::materials::{lemma_materials_show_existing_images, lemma_materials_show_their_textures};
use crate::materials::lemma_only_stand_in_is_labelled;
use crate::mesh::{all_have_positions, all_primitives, build_primitives, built_from, counts_of, first_of, mesh_primitive_map};
use crate::mesh::{numbers_primitives, CpuPrimitive, ModelError, PrimitiveSource};
use crate::mesh::{lemma_all_primitives_len, lemma_first_of_grows, lemma_numbers_point_at_own_primitive};
use crate::mesh::{keeps_source, lemma_all_primitives_are_flattened, lemma_every_primitive_of_every_mesh};
use crate::mesh::{lemma_numbering_starts_behind_earlier_meshes, lemma_primitive_keeps_its_source};
use crate::scene::{is_traversable, scene_walk, traversable, traverse, visits_of, Node, Placement, Visit};
use crate::scene::{lemma_placements_are_exact, lemma_ranked_is_traversable, lemma_visits_follow_edges};
use crate::scene::{stays_together, visited_under};

verus! {

/// What a document says about a model.
#[derive(Debug)]
pub struct ModelSource {
    /// How many images there are.
    pub image_count: usize,
    /// The image of each texture.
    pub textures: Vec<usize>,
    /// The base color texture of each material.
    pub base_colors: Vec<Option<usize>>,
    /// The primitives of each mesh.
    pub meshes: Vec<Vec<PrimitiveSource>>,
    pub nodes: Vec<Node>,
    /// The root nodes of each scene.
    pub scenes: Vec<Vec<usize>>,
    pub default_scene: Option<usize>,
}

/// One primitive to be drawn, with the visit whose transform it is drawn under.
#[derive(Clone, Copy, Debug, PartialEq, Eq, Structural)]
pub struct RenderItem {
    pub primitive: usize,
    pub placement: usize,
}

/// A model before its buffers and textures are uploaded.
#[derive(Debug)]
pub struct CpuModel {
    /// The label of the materials' bind groups.
    pub material_label: Option<&'static str>,
    pub materials: Vec<TextureChoice>,
    pub primitives: Vec<CpuPrimitive>,
    pub placements: Vec<Placement>,
    pub render_items: Vec<RenderItem>,
}

/// The numbers of the primitives of each mesh, counted through over all meshes.
pub open spec fn numbering(counts: Seq<usize>) -> Seq<Seq<usize>> {
    Seq::new(
        counts.len(),
        |m: int| Seq::new(counts[m] as nat, |k: int| (first_of(counts, m) + k) as usize),
    )
}

/// A numbering in sequences.
pub open spec fn map_view(map: Seq<Vec<usize>>) -> Seq<Seq<usize>> {
    map.map_values(|list: Vec<usize>| list@)
}

/// What is drawn at visit `i`: the primitives of the node's mesh, in order. A
/// mesh that the map does not know draws nothing.
pub open spec fn items_at(nodes: Seq<Node>, map: Seq<Seq<usize>>, visits: Seq<Visit>, i: int) -> Seq<RenderItem> {
    match nodes[visits[i].node].mesh {
        Some(m) => if m < map.len() {
            map[m as int].map_values(|p: usize| RenderItem { primitive: p, placement: i as usize })
        } else {
            Seq::empty()
        },
        None => Seq::empty(),
    }
}

/// What is drawn at the first `n` visits.
pub open spec fn items_before(nodes: Seq<Node>, map: Seq<Seq<usize>>, visits: Seq<Visit>, n: int) -> Seq<RenderItem>
    decreases n,
{
    if n <= 0 {
        Seq::empty()
    } else {
        items_before(nodes, map, visits, n - 1) + items_at(nodes, map, visits, n - 1)
    }
}

/// Lists what is drawn, visit by visit.
pub fn place_primitives(nodes: &Vec<Node>, map: &Vec<Vec<usize>>, placements: &Vec<Placement>) -> (r: Vec<RenderItem>)
    requires
        forall|i: int| 0 <= i < placements@.len() ==> (#[trigger] placements@[i]).node < nodes@.len(),
    ensures
        r@ == items_before(nodes@, map_view(map@), visits_of(placements@), placements@.len() as int),
        forall|i: usize|
            i < placements@.len() ==> drawn_at(r@, i) == match nodes@[(
            #[trigger] placements@[i as int]).node as int].mesh {
                Some(m) => if m < map@.len() {
                    map@[m as int]@
                } else {
                    Seq::empty()
                },
                None => Seq::empty(),
            },
        visit_by_visit(r@, placements@.len()),
{
    let ghost visits = visits_of(placements@);
    let ghost numbers = map_view(map@);
    let mut r: Vec<RenderItem> = Vec::new();
    let mut i: usize = 0;
    while i < placements.len()
        invariant
            forall|j: int| 0 <= j < placements@.len() ==> (#[trigger] placements@[j]).node < nodes@.len(),
            visits == visits_of(placements@),
            numbers == map_view(map@),
            0 <= i <= placements@.len(),
            r@ == items_before(nodes@, numbers, visits, i as int),
        decreases placements@.len() - i,
    {
        let ghost before = r@;
        let ghost own = items_at(nodes@, numbers, visits, i as int);
        let n: usize = placements[i].node;
        assert(visits[i as int].node == n);
        if let Some(m) = nodes[n].mesh {
            if m < map.len() {
                let mut k: usize = 0;
                while k < map[m].len()
                    invariant
                        m < map@.len(),
                        numbers == map_view(map@),
                        0 <= k <= map@[m as int]@.len(),
                        own == numbers[m as int].map_values(
                            |p: usize| RenderItem { primitive: p, placement: i },
                        ),
                        r@ == before + own.take(k as int),
                    decreases map@[m as int]@.len() - k,
                {
                    r.push(RenderItem { primitive: map[m][k], placement: i });
                    assert(own.take(k as int + 1) =~= own.take(k as int).push(own[k as int]));
                    assert(r@ =~= before + own.take(k as int + 1));
                    k = k + 1;
                }
                assert(own.take(k as int) =~= own);
            }
        }
        assert(r@ =~= before + own);
        i = i + 1;
    }
    proof {
        assert(placements.len() == placements@.len());
        assert forall|i: usize| i < placements@.len() implies drawn_at(r@, i) == match nodes@[(
        #[trigger] placements@[i as int]).node as int].mesh {
            Some(m) => if m < map@.len() {
                map@[m as int]@
            } else {
                Seq::empty()
            },
            None => Seq::empty(),
        } by {
            assert(visits[i as int].node == placements@[i as int].node);
            lemma_items_are_exact(nodes@, numbers, visits, placements@.len() as int, i);
        }
        lemma_items_go_visit_by_visit(nodes@, numbers, visits, placements@.len() as int);
    }
    r
}

/// The primitives that are drawn under visit `i`, in order.
pub open spec fn drawn_at(items: Seq<RenderItem>, i: usize) -> Seq<usize> {
    items.filter(|item: RenderItem| item.placement == i).map_values(|item: RenderItem| item.primitive)
}

/// The items are drawn in the order of the visits that they belong to, of which
/// there are `count`.
pub open spec fn visit_by_visit(items: Seq<RenderItem>, count: nat) -> bool {
    &&& forall|j: int| 0 <= j < items.len() ==> (#[trigger] items[j]).placement < count
    &&& forall|j: int, k: int|
        #![trigger items[j], items[k]]
        0 <= j < k < items.len() ==> items[j].placement <= items[k].placement
}

proof fn lemma_drawn_at_both(a: Seq<RenderItem>, b: Seq<RenderItem>, i: usize)
    ensures
        drawn_at(a + b, i) == drawn_at(a, i) + drawn_at(b, i),
{
    Seq::<RenderItem>::filter_distributes_over_add(a, b, |item: RenderItem| item.placement == i);
    assert(drawn_at(a + b, i) =~= drawn_at(a, i) + drawn_at(b, i));
}

proof fn lemma_drawn_elsewhere(items: Seq<RenderItem>, i: usize)
    requires
        forall|j: int| 0 <= j < items.len() ==> (#[trigger] items[j]).placement != i,
    ensures
        drawn_at(items, i) == Seq::<usize>::empty(),
    decreases items.len(),
{
    reveal(Seq::filter);
    if items.len() > 0 {
        assert(items[items.len() - 1].placement != i);
        assert forall|j: int| 0 <= j < items.drop_last().len() implies (#[trigger] items.drop_last()[j]).placement
            != i by {
            assert(items[j].placement != i);
        }
        lemma_drawn_elsewhere(items.drop_last(), i);
    }
    assert(drawn_at(items, i) =~= Seq::<usize>::empty());
}

proof fn lemma_drawn_only_there(items: Seq<RenderItem>, i: usize)
    requires
        forall|j: int| 0 <= j < items.len() ==> (#[trigger] items[j]).placement == i,
    ensures
        drawn_at(items, i) == items.map_values(|item: RenderItem| item.primitive),
    decreases items.len(),
{
    reveal(Seq::filter);
    if items.len() > 0 {
        let front = items.drop_last();
        assert(items[items.len() - 1].placement == i);
        assert forall|j: int| 0 <= j < front.len() implies (#[trigger] front[j]).placement == i by {
            assert(items[j].placement == i);
        }
        lemma_drawn_only_there(front, i);
        assert(drawn_at(items, i) =~= drawn_at(front, i).push(items.last().primitive));
    }
    assert(drawn_at(items, i) =~= items.map_values(|item: RenderItem| item.primitive));
}

/// Items are drawn in the order of their visits, and belong to visits that there
/// are.
pub proof fn lemma_items_go_visit_by_visit(nodes: Seq<Node>, map: Seq<Seq<usize>>, visits: Seq<Visit>, n: int)
    requires
        0 <= n <= visits.len() <= usize::MAX,
    ensures
        visit_by_visit(items_before(nodes, map, visits, n), n as nat),
    decreases n,
{
    if n > 0 {
        lemma_items_go_visit_by_visit(nodes, map, visits, n - 1);
        let before = items_before(nodes, map, visits, n - 1);
        let own = items_at(nodes, map, visits, n - 1);
        assert(forall|k: int| 0 <= k < own.len() ==> (#[trigger] own[k]).placement == n - 1);
        let all = before + own;
        assert forall|j: int| 0 <= j < all.len() implies (#[trigger] all[j]).placement < n by {
            if j < before.len() {
                assert(all[j] == before[j]);
            } else {
                assert(all[j] == own[j - before.len()]);
            }
        }
        assert forall|j: int, k: int|
            #![trigger all[j], all[k]]
            0 <= j < k < all.len() implies all[j].placement <= all[k].placement by {
            if k < before.len() {
                assert(all[j] == before[j] && all[k] == before[k]);
            } else {
                assert(all[k] == own[k - before.len()]);
            }
        }
    }
}

/// At each visit, exactly the primitives that the map lists for the node's mesh
/// are drawn, once each and in order; a node without a mesh draws nothing, and
/// neither does one whose mesh the map does not know.
pub proof fn lemma_items_are_exact(nodes: Seq<Node>, map: Seq<Seq<usize>>, visits: Seq<Visit>, n: int, i: usize)
    requires
        0 <= i < n <= visits.len() <= usize::MAX,
    ensures
        drawn_at(items_before(nodes, map, visits, n), i) == match nodes[visits[i as int].node].mesh {
            Some(m) => if m < map.len() {
                map[m as int]
            } else {
                Seq::empty()
            },
            None => Seq::empty(),
        },
    decreases n,
{
    let before = items_before(nodes, map, visits, n - 1);
    let own = items_at(nodes, map, visits, n - 1);
    lemma_drawn_at_both(before, own, i);
    lemma_items_go_visit_by_visit(nodes, map, visits, n - 1);
    if i < n - 1 {
        lemma_items_are_exact(nodes, map, visits, n - 1, i);
        lemma_drawn_elsewhere(own, i);
        assert(drawn_at(before + own, i) =~= drawn_at(before, i));
    } else {
        lemma_drawn_elsewhere(before, i);
        lemma_drawn_only_there(own, i);
        assert(drawn_at(before + own, i) =~= drawn_at(own, i));
        if let Some(m) = nodes[visits[i as int].node].mesh {
            if m < map.len() {
                assert(own.map_values(|item: RenderItem| item.primitive) =~= map[m as int]);
            }
        }
    }
}

/// The scene that is shown: the default scene, or the first where there is none.
pub open spec fn shown_scene(default_scene: Option<usize>) -> int {
    match default_scene {
        Some(s) => s as int,
        None => 0,
    }
}

impl ModelSource {
    /// Every texture names an image that exists.
    pub open spec fn textures_in_range(&self) -> bool {
        forall|t: int| 0 <= t < self.textures@.len() ==> #[trigger] self.textures@[t] < self.image_count
    }

    /// There is a scene to show, its nodes exist, and none of them lies below
    /// itself.
    pub open spec fn showable(&self) -> bool {
        &&& shown_scene(self.default_scene) < self.scenes@.len()
        &&& traversable(self.nodes@, self.roots())
    }

    /// The document can be worked on. The scene matters only where every
    /// primitive has positions: it is not looked at before.
    pub open spec fn usable(&self) -> bool {
        &&& self.textures_in_range()
        &&& self.complete() ==> self.showable()
    }

    /// The root nodes of the scene that is shown.
    pub open spec fn roots(&self) -> Seq<usize> {
        self.scenes@[shown_scene(self.default_scene)]@
    }

    /// Every primitive has positions.
    pub open spec fn complete(&self) -> bool {
        forall|i: int|
            0 <= i < all_primitives(self.meshes@).len() ==> (#[trigger] all_primitives(self.meshes@)[i]).positions
                is Some
    }

    /// Whether every texture names an image that exists.
    fn has_textures_in_range(&self) -> (r: bool)
        ensures
            r == self.textures_in_range(),
    {
        let mut t: usize = 0;
        while t < self.textures.len()
            invariant
                0 <= t <= self.textures@.len(),
                forall|u: int| 0 <= u < t ==> #[trigger] self.textures@[u] < self.image_count,
            decreases self.textures@.len() - t,
        {
            if self.textures[t] >= self.image_count {
                return false;
            }
            t = t + 1;
        }
        true
    }

    /// Whether there is a scene that can be shown.
    fn is_showable(&self) -> (r: bool)
        ensures
            r == self.showable(),
    {
        let s: usize = match self.default_scene {
            Some(s) => s,
            None => 0,
        };
        s < self.scenes.len() && is_traversable(&self.nodes, &self.scenes[s])
    }

    /// Whether the document can be worked on.
    pub fn is_usable(&self) -> (r: bool)
        ensures
            r == self.usable(),
            r <==> {
                &&& forall|t: int| 0 <= t < self.textures@.len() ==> #[trigger] self.textures@[t] < self.image_count
                &&& (forall|m: int, k: int|
                    0 <= m < self.meshes@.len() && 0 <= k < self.meshes@[m]@.len() ==> (
                    #[trigger] self.meshes@[m]@[k]).positions is Some) ==> match self.default_scene {
                    Some(s) => s < self.scenes@.len() && traversable(self.nodes@, self.scenes@[s as int]@),
                    None => 0 < self.scenes@.len() && traversable(self.nodes@, self.scenes@[0]@),
                }
            },
    {
        proof {
            lemma_usable_documents(*self);
        }
        self.has_textures_in_range() && (!all_have_positions(&self.meshes) || self.is_showable())
    }
}

impl CpuModel {
    /// Every index that is followed when the model is drawn leads somewhere.
    pub open spec fn indices_in_range(&self, image_count: nat, node_count: nat) -> bool {
        &&& self.materials@.len() > 0
        &&& forall|i: int|
            0 <= i < self.materials@.len() ==> (#[trigger] self.materials@[i] matches TextureChoice::Image(n) ==> n
                < image_count)
        &&& forall|i: int|
            0 <= i < self.primitives@.len() ==> (#[trigger] self.primitives@[i]).material < self.materials@.len()
        &&& forall|i: int| 0 <= i < self.placements@.len() ==> (#[trigger] self.placements@[i]).node < node_count
        &&& forall|i: int|
            0 <= i < self.placements@.len() ==> ((#[trigger] self.placements@[i]).parent matches Some(p) ==> p < i)
        &&& forall|i: int|
            0 <= i < self.render_items@.len() ==> (#[trigger] self.render_items@[i]).primitive < self.primitives@.len()
        &&& forall|i: int|
            0 <= i < self.render_items@.len() ==> (#[trigger] self.render_items@[i]).placement < self.placements@.len()
    }
}

proof fn lemma_numbering_bounded(counts: Seq<usize>, m: int, k: int)
    requires
        0 <= m < counts.len(),
        0 <= k < counts[m],
    ensures
        first_of(counts, m) + k < first_of(counts, counts.len() as int),
{
    lemma_first_of_grows(counts, m + 1, counts.len() as int);
}

proof fn lemma_map_is_numbering(map: Seq<Vec<usize>>, counts: Seq<usize>)
    requires
        numbers_primitives(map, counts),
        first_of(counts, counts.len() as int) <= usize::MAX,
    ensures
        map_view(map) == numbering(counts),
{
    assert forall|m: int| 0 <= m < map.len() implies map_view(map)[m] == numbering(counts)[m] by {
        assert(map[m]@.len() == counts[m]);
        assert forall|k: int| 0 <= k < counts[m] implies map[m]@[k] == numbering(counts)[m][k] by {
            lemma_numbering_bounded(counts, m, k);
        }
        assert(map[m]@ =~= numbering(counts)[m]);
    }
    assert(map_view(map) =~= numbering(counts));
}

proof fn lemma_items_in_range(nodes: Seq<Node>, counts: Seq<usize>, visits: Seq<Visit>, n: int)
    requires
        0 <= n <= visits.len() <= usize::MAX,
        first_of(counts, counts.len() as int) <= usize::MAX,
    ensures
        forall|i: int|
            0 <= i < items_before(nodes, numbering(counts), visits, n).len() ==> {
                let item = #[trigger] items_before(nodes, numbering(counts), visits, n)[i];
                &&& item.primitive < first_of(counts, counts.len() as int)
                &&& item.placement < n
            },
    decreases n,
{
    if n > 0 {
        lemma_items_in_range(nodes, counts, visits, n - 1);
        let before = items_before(nodes, numbering(counts), visits, n - 1);
        let own = items_at(nodes, numbering(counts), visits, n - 1);
        assert forall|i: int| 0 <= i < (before + own).len() implies {
            let item = #[trigger] (before + own)[i];
            &&& item.primitive < first_of(counts, counts.len() as int)
            &&& item.placement < n
        } by {
            if i >= before.len() {
                let m = nodes[visits[n - 1].node].mesh.unwrap() as int;
                let k = i - before.len();
                assert((before + own)[i] == own[k]);
                lemma_numbering_bounded(counts, m, k);
            }
        }
    }
}

/// The numbers of primitives of each mesh.
fn count_primitives(meshes: &Vec<Vec<PrimitiveSource>>) -> (r: Vec<usize>)
    ensures
        r@ == counts_of(meshes@),
{
    let mut r: Vec<usize> = Vec::new();
    while r.len() < meshes.len()
        invariant
            r@.len() <= meshes@.len(),
            forall|m: int| 0 <= m < r@.len() ==> #[trigger] r@[m] == counts_of(meshes@)[m],
        decreases meshes@.len() - r@.len(),
    {
        let m: usize = r.len();
        r.push(meshes[m].len());
    }
    assert(r@ =~= counts_of(meshes@));
    r
}

/// What a document is made into: a model, or the error that a primitive has no
/// positions, whatever the scene.
pub open spec fn loaded(source: ModelSource, r: Result<CpuModel, ModelError>) -> bool {
    match r {
        Ok(model) => {
            let visits = scene_walk(source.nodes@, source.roots());
            &&& source.complete()
            &&& model.material_label == material_label(source.base_colors@)
            &&& model.materials@ == material_textures(source.textures@, source.base_colors@)
            &&& model.primitives@.len() == all_primitives(source.meshes@).len()
            &&& forall|i: int|
                0 <= i < model.primitives@.len() ==> built_from(
                    #[trigger] model.primitives@[i],
                    all_primitives(source.meshes@)[i],
                    model.materials@.len(),
                )
            &&& visits_of(model.placements@) == visits
            &&& model.render_items@ == items_before(
                source.nodes@,
                numbering(counts_of(source.meshes@)),
                visits,
                visits.len() as int,
            )
            &&& model.indices_in_range(source.image_count as nat, source.nodes@.len())
        },
        Err(e) => !source.complete() && e == ModelError::NoPositions,
    }
}

/// Makes a model of a document, or tells by `None` that the document names an
/// image that does not exist or, being complete, has no scene that can be shown.
pub fn try_load_model(source: ModelSource) -> (r: Option<Result<CpuModel, ModelError>>)
    ensures
        r is Some <==> source.usable(),
        r matches Some(result) ==> loaded(source, result),
        r is Some <==> {
            &&& forall|t: int| 0 <= t < source.textures@.len() ==> #[trigger] source.textures@[t] < source.image_count
            &&& (forall|m: int, k: int|
                0 <= m < source.meshes@.len() && 0 <= k < source.meshes@[m]@.len() ==> (
                #[trigger] source.meshes@[m]@[k]).positions is Some) ==> match source.default_scene {
                Some(s) => s < source.scenes@.len() && traversable(source.nodes@, source.scenes@[s as int]@),
                None => 0 < source.scenes@.len() && traversable(source.nodes@, source.scenes@[0]@),
            }
        },
        r matches Some(result) ==> (result is Ok <==> forall|m: int, k: int|
            0 <= m < source.meshes@.len() && 0 <= k < source.meshes@[m]@.len() ==> (
            #[trigger] source.meshes@[m]@[k]).positions is Some),
        r matches Some(Ok(model)) ==> (source.default_scene matches Some(s) ==> model.placements@.filter(
            |p: Placement| p.parent is None,
        ).map_values(|p: Placement| p.node) == source.scenes@[s as int]@),
        r matches Some(Ok(model)) ==> (source.default_scene is None ==> model.placements@.filter(
            |p: Placement| p.parent is None,
        ).map_values(|p: Placement| p.node) == source.scenes@[0]@),
        r matches Some(Ok(model)) ==> shows_scene(model, source),
{
    proof {
        lemma_usable_documents(source);
    }
    if source.is_usable() {
        Some(load_model(source))
    } else {
        None
    }
}

/// Makes a model of a document.
pub fn load_model(source: ModelSource) -> (r: Result<CpuModel, ModelError>)
    requires
        source.usable(),
    ensures
        r is Ok <==> source.complete(),
        loaded(source, r),
        r is Ok <==> forall|m: int, k: int|
            0 <= m < source.meshes@.len() && 0 <= k < source.meshes@[m]@.len() ==> (
            #[trigger] source.meshes@[m]@[k]).positions is Some,
        r matches Ok(model) ==> (source.default_scene matches Some(s) ==> model.placements@.filter(
            |p: Placement| p.parent is None,
        ).map_values(|p: Placement| p.node) == source.scenes@[s as int]@),
        r matches Ok(model) ==> (source.default_scene is None ==> model.placements@.filter(
            |p: Placement| p.parent is None,
        ).map_values(|p: Placement| p.node) == source.scenes@[0]@),
        r matches Ok(model) ==> shows_scene(model, source),
{
    proof {
        lemma_usable_documents(source);
        lemma_every_primitive_of_every_mesh(source.meshes@);
    }
    let ghost sources = all_primitives(source.meshes@);
    let ghost meshes = source.meshes@;
    let ghost roots = source.roots();
    let ghost counts_spec = counts_of(meshes);
    let material_label = label_of_materials(&source.base_colors);
    let materials = resolve_materials(&source.textures, &source.base_colors);
    let counts = count_primitives(&source.meshes);
    let primitives = match build_primitives(source.meshes, materials.len()) {
        Ok(list) => list,
        Err(e) => {
            return Err(e);
        },
    };
    proof {
        lemma_all_primitives_len(meshes);
        assert(primitives.len() == primitives@.len());
    }
    let map = mesh_primitive_map(&counts);
    let s: usize = match source.default_scene {
        Some(s) => s,
        None => 0,
    };
    let placements = traverse(&source.nodes, &source.scenes[s]);
    let ghost visits = scene_walk(source.nodes@, roots);
    proof {
        lemma_visits_follow_edges(source.nodes@, roots);
        assert forall|i: int| 0 <= i < placements@.len() implies {
            &&& (#[trigger] placements@[i]).node < source.nodes@.len()
            &&& placements@[i].parent matches Some(p) ==> p < i
        } by {
            assert(visits_of(placements@)[i] == placements@[i]@);
            assert(visits[i] == placements@[i]@);
        }
    }
    let render_items = place_primitives(&source.nodes, &map, &placements);
    proof {
        lemma_map_is_numbering(map@, counts_spec);
        assert(visits.len() == placements@.len());
        assert(placements.len() == placements@.len());
        lemma_items_in_range(source.nodes@, counts_spec, visits, visits.len() as int);
        lemma_materials_show_existing_images(source.textures@, source.base_colors@, source.image_count as nat);
        assert forall|i: int| 0 <= i < primitives@.len() implies (#[trigger] primitives@[i]).material
            < materials@.len() by {
            assert(built_from(primitives@[i], sources[i], materials@.len()));
        }
    }
    let model = CpuModel { material_label, materials, primitives, placements, render_items };
    proof {
        lemma_model_shows_document(source, model);
    }
    Ok(model)
}

/// A document can be worked on exactly if its textures name existing images and,
/// where every primitive of every mesh has positions, the default scene exists
/// and can be traversed, or the first scene does where there is no default.
pub proof fn lemma_usable_documents(source: ModelSource)
    ensures
        source.complete() <==> forall|m: int, k: int|
            0 <= m < source.meshes@.len() && 0 <= k < source.meshes@[m]@.len() ==> (
            #[trigger] source.meshes@[m]@[k]).positions is Some,
        source.usable() <==> {
            &&& forall|t: int| 0 <= t < source.textures@.len() ==> #[trigger] source.textures@[t] < source.image_count
            &&& source.complete() ==> match source.default_scene {
                Some(s) => s < source.scenes@.len() && traversable(source.nodes@, source.scenes@[s as int]@),
                None => 0 < source.scenes@.len() && traversable(source.nodes@, source.scenes@[0]@),
            }
        },
{
    lemma_every_primitive_of_every_mesh(source.meshes@);
}

/// A document is worked on whenever its textures name existing images, the scene
/// to show exists, all nodes that it lists and all children exist, and no node
/// lies below itself, so that nodes can be ranked above their children.
pub proof fn lemma_sound_document_is_usable(source: ModelSource, rank: spec_fn(int) -> nat, highest: nat)
    requires
        forall|t: int| 0 <= t < source.textures@.len() ==> #[trigger] source.textures@[t] < source.image_count,
        source.default_scene matches Some(s) ==> s < source.scenes@.len(),
        source.scenes@.len() > 0,
        forall|s: int, k: int|
            0 <= s < source.scenes@.len() && 0 <= k < source.scenes@[s]@.len() ==> {
                let root = #[trigger] source.scenes@[s]@[k] as int;
                root < source.nodes@.len() && rank(root) <= highest
            },
        forall|n: int, k: int|
            0 <= n < source.nodes@.len() && 0 <= k < source.nodes@[n].children@.len() ==> {
                let child = #[trigger] source.nodes@[n].children@[k] as int;
                child < source.nodes@.len() && rank(child) < rank(n)
            },
    ensures
        source.usable(),
{
    lemma_usable_documents(source);
    let s: int = match source.default_scene {
        Some(s) => s as int,
        None => 0,
    };
    let roots = source.scenes@[s]@;
    assert forall|k: int| 0 <= k < roots.len() implies #[trigger] roots[k] < source.nodes@.len() && rank(
        roots[k] as int,
    ) <= highest by {
        let root = source.scenes@[s]@[k] as int;
        assert(root < source.nodes@.len() && rank(root) <= highest);
    }
    lemma_ranked_is_traversable(source.nodes@, roots, rank, highest);
}

/// Under each visit, the children of the node that is visited there are visited,
/// once each and in order, and a node is visited together with all that lies
/// below it. At each visit, the primitives of the node's mesh are drawn, once each
/// and in order, visit by visit; what is drawn was built from that primitive.
pub open spec fn shows_scene(model: CpuModel, source: ModelSource) -> bool {
    &&& forall|i: usize|
        i < model.placements@.len() ==> {
            let node = source.nodes@[(#[trigger] model.placements@[i as int]).node as int];
            let drawn = drawn_at(model.render_items@, i);
            &&& model.placements@[i as int].node < source.nodes@.len()
            &&& visited_under(model.placements@, Some(i)) == node.children@
            &&& match node.mesh {
                Some(m) => if m < source.meshes@.len() {
                    &&& drawn.len() == source.meshes@[m as int]@.len()
                    &&& forall|k: int|
                        0 <= k < drawn.len() ==> {
                            &&& #[trigger] drawn[k] == k + source.meshes@.take(m as int).map_values(
                                |mesh: Vec<PrimitiveSource>| mesh@,
                            ).flatten().len()
                            &&& drawn[k] < model.primitives@.len()
                            &&& keeps_source(
                                model.primitives@[drawn[k] as int],
                                source.meshes@[m as int]@[k],
                                model.materials@.len() as int,
                            )
                        }
                } else {
                    drawn.len() == 0
                },
                None => drawn.len() == 0,
            }
        }
    &&& stays_together(model.placements@)
    &&& visit_by_visit(model.render_items@, model.placements@.len())
}

/// A loaded model shows what the document says. The visits without a parent are
/// those of the nodes that the default scene lists, or the first scene where there
/// is no default, once each and in order; nodes, primitives and items follow the
/// document; every primitive of every mesh is there, mesh by mesh; and every
/// material shows the image that its base color names, or white.
pub proof fn lemma_model_shows_document(source: ModelSource, model: CpuModel)
    requires
        source.usable(),
        loaded(source, Ok(model)),
        model.placements@.len() <= usize::MAX,
        model.primitives@.len() <= usize::MAX,
    ensures
        source.default_scene matches Some(s) ==> model.placements@.filter(|p: Placement| p.parent is None).map_values(
            |p: Placement| p.node,
        ) == source.scenes@[s as int]@,
        source.default_scene is None ==> model.placements@.filter(|p: Placement| p.parent is None).map_values(
            |p: Placement| p.node,
        ) == source.scenes@[0]@,
        shows_scene(model, source),
        ({
            let sources = source.meshes@.map_values(|mesh: Vec<PrimitiveSource>| mesh@).flatten();
            &&& model.primitives@.len() == sources.len()
            &&& forall|i: int|
                0 <= i < sources.len() ==> keeps_source(
                    #[trigger] model.primitives@[i],
                    sources[i],
                    model.materials@.len() as int,
                )
        }),
        source.base_colors@.len() == 0 ==> model.materials@ == seq![TextureChoice::White] && model.material_label == Some(
            "fallback_material",
        ),
        source.base_colors@.len() > 0 ==> model.materials@.len() == source.base_colors@.len()
            && model.material_label is None,
        forall|i: int|
            0 <= i < source.base_colors@.len() ==> match source.base_colors@[i] {
                Some(t) => {
                    &&& t < source.textures@.len() ==> #[trigger] model.materials@[i] == TextureChoice::Image(
                        source.textures@[t as int],
                    )
                    &&& t >= source.textures@.len() ==> model.materials@[i] is White
                },
                None => model.materials@[i] is White,
            },
{
    lemma_usable_documents(source);
    let meshes = source.meshes@;
    let counts = counts_of(meshes);
    let map = numbering(counts);
    let roots = source.roots();
    let visits = scene_walk(source.nodes@, roots);
    lemma_placements_are_exact(model.placements@, source.nodes@, roots);
    lemma_all_primitives_are_flattened(meshes);
    lemma_only_stand_in_is_labelled(source.base_colors@);
    assert forall|i: int| 0 <= i < source.base_colors@.len() implies match source.base_colors@[i] {
        Some(t) => {
            &&& t < source.textures@.len() ==> #[trigger] model.materials@[i] == TextureChoice::Image(
                source.textures@[t as int],
            )
            &&& t >= source.textures@.len() ==> model.materials@[i] is White
        },
        None => model.materials@[i] is White,
    } by {
        lemma_materials_show_their_textures(source.textures@, source.base_colors@, i);
    }
    if source.base_colors@.len() > 0 {
        lemma_materials_show_their_textures(source.textures@, source.base_colors@, 0);
    }
    assert forall|i: int| 0 <= i < model.primitives@.len() implies keeps_source(
        #[trigger] model.primitives@[i],
        all_primitives(meshes)[i],
        model.materials@.len() as int,
    ) by {
        lemma_primitive_keeps_its_source(model.primitives@[i], all_primitives(meshes)[i], model.materials@.len());
    }
    lemma_items_go_visit_by_visit(source.nodes@, map, visits, visits.len() as int);
    assert(visits.len() == model.placements@.len());
    assert forall|i: usize| i < model.placements@.len() implies {
        let node = source.nodes@[(#[trigger] model.placements@[i as int]).node as int];
        let drawn = drawn_at(model.render_items@, i);
        &&& model.placements@[i as int].node < source.nodes@.len()
        &&& visited_under(model.placements@, Some(i)) == node.children@
        &&& match node.mesh {
            Some(m) => if m < source.meshes@.len() {
                &&& drawn.len() == source.meshes@[m as int]@.len()
                &&& forall|k: int|
                    0 <= k < drawn.len() ==> {
                        &&& #[trigger] drawn[k] == k + source.meshes@.take(m as int).map_values(
                            |mesh: Vec<PrimitiveSource>| mesh@,
                        ).flatten().len()
                        &&& drawn[k] < model.primitives@.len()
                        &&& keeps_source(
                            model.primitives@[drawn[k] as int],
                            source.meshes@[m as int]@[k],
                            model.materials@.len() as int,
                        )
                    }
            } else {
                drawn.len() == 0
            },
            None => drawn.len() == 0,
        }
    } by {
        assert(visits[i as int] == model.placements@[i as int]@);
        lemma_items_are_exact(source.nodes@, map, visits, visits.len() as int, i);
        let node = source.nodes@[model.placements@[i as int].node as int];
        let drawn = drawn_at(model.render_items@, i);
        if let Some(m) = node.mesh {
            if m < meshes.len() {
                assert(drawn == map[m as int]);
                assert(counts[m as int] == meshes[m as int]@.len());
                lemma_numbering_starts_behind_earlier_meshes(meshes, m as int);
                lemma_all_primitives_len(meshes);
                assert forall|k: int| 0 <= k < drawn.len() implies {
                    &&& #[trigger] drawn[k] == k + first_of(counts, m as int)
                    &&& drawn[k] < model.primitives@.len()
                    &&& keeps_source(
                        model.primitives@[drawn[k] as int],
                        meshes[m as int]@[k],
                        model.materials@.len() as int,
                    )
                } by {
                    lemma_numbering_bounded(counts, m as int, k);
                    lemma_numbers_point_at_own_primitive(meshes, m as int, k);
                }
            }
        }
    }
}

/// `item` draws primitive `k` of mesh `m`, which the node visited there shows.
pub open spec fn draws_own_mesh(source: ModelSource, visits: Seq<Visit>, item: RenderItem, m: int, k: int) -> bool {
    let number = first_of(counts_of(source.meshes@), m) + k;
    &&& source.nodes@[visits[item.placement as int].node].mesh == Some(m as usize)
    &&& 0 <= m < source.meshes@.len()
    &&& 0 <= k < source.meshes@[m]@.len()
    &&& item.primitive == number
    &&& all_primitives(source.meshes@)[number] == source.meshes@[m]@[k]
}

proof fn lemma_item_at_own_mesh(source: ModelSource, visits: Seq<Visit>, i: int, k: int)
    requires
        0 <= i < visits.len() <= usize::MAX,
        all_primitives(source.meshes@).len() <= usize::MAX,
        0 <= k < items_at(source.nodes@, numbering(counts_of(source.meshes@)), visits, i).len(),
    ensures
        ({
            let m = source.nodes@[visits[i].node].mesh.unwrap() as int;
            let item = items_at(source.nodes@, numbering(counts_of(source.meshes@)), visits, i)[k];
            draws_own_mesh(source, visits, item, m, k) && item.placement == i
        }),
{
    let m = source.nodes@[visits[i].node].mesh.unwrap() as int;
    let counts = counts_of(source.meshes@);
    assert(counts[m] == source.meshes@[m]@.len());
    lemma_all_primitives_len(source.meshes@);
    lemma_numbering_bounded(counts, m, k);
    lemma_numbers_point_at_own_primitive(source.meshes@, m, k);
}

/// Every item draws a primitive of the mesh that its node shows, and the number
/// it carries is the one under which that primitive was built.
pub proof fn lemma_items_draw_own_mesh(source: ModelSource, visits: Seq<Visit>, n: int, j: int)
    requires
        0 <= n <= visits.len() <= usize::MAX,
        all_primitives(source.meshes@).len() <= usize::MAX,
        0 <= j < items_before(source.nodes@, numbering(counts_of(source.meshes@)), visits, n).len(),
    ensures
        exists|m: int, k: int|
            draws_own_mesh(
                source,
                visits,
                items_before(source.nodes@, numbering(counts_of(source.meshes@)), visits, n)[j],
                m,
                k,
            ),
    decreases n,
{
    let map = numbering(counts_of(source.meshes@));
    let before = items_before(source.nodes@, map, visits, n - 1);
    let all = items_before(source.nodes@, map, visits, n);
    if j < before.len() {
        lemma_items_draw_own_mesh(source, visits, n - 1, j);
        assert(all[j] == before[j]);
    } else {
        let k = j - before.len();
        assert(all[j] == items_at(source.nodes@, map, visits, n - 1)[k]);
        lemma_item_at_own_mesh(source, visits, n - 1, k);
        let m = source.nodes@[visits[n - 1].node].mesh.unwrap() as int;
        assert(draws_own_mesh(source, visits, all[j], m, k));
    }
}

/// Nothing is left out: at every visit of a node that shows a mesh, each
/// primitive of that mesh is drawn.
pub proof fn lemma_every_primitive_is_drawn(source: ModelSource, visits: Seq<Visit>, n: int, i: int, m: int, k: int)
    requires
        0 <= i < n <= visits.len() <= usize::MAX,
        all_primitives(source.meshes@).len() <= usize::MAX,
        source.nodes@[visits[i].node].mesh == Some(m as usize),
        0 <= m < source.meshes@.len() <= usize::MAX,
        0 <= k < source.meshes@[m]@.len(),
    ensures
        exists|j: int|
            0 <= j < items_before(source.nodes@, numbering(counts_of(source.meshes@)), visits, n).len() && ({
                let item = #[trigger] items_before(source.nodes@, numbering(counts_of(source.meshes@)), visits, n)[j];
                item.placement == i && draws_own_mesh(source, visits, item, m, k)
            }),
    decreases n,
{
    let map = numbering(counts_of(source.meshes@));
    let all = items_before(source.nodes@, map, visits, n);
    let before = items_before(source.nodes@, map, visits, n - 1);
    if i < n - 1 {
        lemma_every_primitive_is_drawn(source, visits, n - 1, i, m, k);
        let j = choose|j: int|
            0 <= j < before.len() && ({
                let item = #[trigger] before[j];
                item.placement == i && draws_own_mesh(source, visits, item, m, k)
            });
        assert(all[j] == before[j]);
    } else {
        assert(counts_of(source.meshes@)[m] == source.meshes@[m]@.len());
        lemma_item_at_own_mesh(source, visits, i, k);
        assert(all[before.len() + k] == items_at(source.nodes@, map, visits, i)[k]);
    }
}

} // verus!
