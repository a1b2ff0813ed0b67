//! The node hierarchy of a scene: which nodes are visited, in which order and
//! under which parent.

use vstd::prelude::*;

verus! {

/// A node of the document: the mesh it shows and the nodes below it.
#[derive(Debug)]
pub struct Node {
    pub mesh: Option<usize>,
    pub children: Vec<usize>,
}

/// One visit of a node. A node that is reachable along several paths is visited
/// once for each of them. `parent` is the index of the visit of the node above,
/// or `None` for a root of the scene.
#[derive(Clone, Copy, Debug, PartialEq, Eq)]
pub struct Placement {
    pub node: usize,
    pub parent: Option<usize>,
}

/// A visit in mathematical integers.
pub struct Visit {
    pub node: int,
    pub parent: Option<nat>,
}

/// The index of a parent's visit as a natural number.
pub open spec fn parent_visit(parent: Option<usize>) -> Option<nat> {
    match parent {
        Some(p) => Some(p as nat),
        None => None,
    }
}

impl View for Placement {
    type V = Visit;

    open spec fn view(&self) -> Visit {
        Visit { node: self.node as int, parent: parent_visit(self.parent) }
    }
}

/// Placements as visits.
pub open spec fn visits_of(placements: Seq<Placement>) -> Seq<Visit> {
    placements.map_values(|p: Placement| p@)
}

/// Node `n` exists, and so do the nodes below it, which end within `depth`
/// levels, the level of `n` included.
pub open spec fn settles(nodes: Seq<Node>, n: int, depth: nat) -> bool
    decreases depth,
{
    &&& depth > 0
    &&& 0 <= n < nodes.len()
    &&& forall|k: int|
        0 <= k < nodes[n].children@.len() ==> settles(
            nodes,
            #[trigger] nodes[n].children@[k] as int,
            (depth - 1) as nat,
        )
}

/// Every node of `list` settles within `depth` levels.
pub open spec fn all_settle(nodes: Seq<Node>, list: Seq<usize>, depth: nat) -> bool {
    forall|k: int| 0 <= k < list.len() ==> settles(nodes, #[trigger] list[k] as int, depth)
}

/// A walk down from the nodes of `list` comes to an end and meets no missing
/// node.
pub open spec fn traversable(nodes: Seq<Node>, list: Seq<usize>) -> bool {
    exists|depth: nat| all_settle(nodes, list, depth)
}

/// The visits of `n` and of what lies below it, each node before its children
/// and children in order, where the visit of `n` has the index `base`.
pub open spec fn walk_node(
    nodes: Seq<Node>,
    n: int,
    parent: Option<nat>,
    base: nat,
    depth: nat,
) -> Seq<Visit>
    decreases depth, 0nat,
{
    if depth == 0 {
        Seq::empty()
    } else {
        seq![Visit { node: n, parent }] + walk_list(
            nodes,
            nodes[n].children@,
            Some(base),
            base + 1,
            (depth - 1) as nat,
        )
    }
}

/// The visits of the nodes of `list`, one after the other, all under `parent`.
pub open spec fn walk_list(
    nodes: Seq<Node>,
    list: Seq<usize>,
    parent: Option<nat>,
    base: nat,
    depth: nat,
) -> Seq<Visit>
    decreases depth, list.len() + 1,
{
    if list.len() == 0 {
        Seq::empty()
    } else {
        let before = walk_list(nodes, list.drop_last(), parent, base, depth);
        before + walk_node(nodes, list.last() as int, parent, base + before.len(), depth)
    }
}

/// The visits of a whole scene.
pub open spec fn scene_walk(nodes: Seq<Node>, roots: Seq<usize>) -> Seq<Visit> {
    walk_list(nodes, roots, None, 0, choose|depth: nat| all_settle(nodes, roots, depth))
}

proof fn lemma_settles_deeper(nodes: Seq<Node>, n: int, d: nat, e: nat)
    requires
        settles(nodes, n, d),
        d <= e,
    ensures
        settles(nodes, n, e),
    decreases d,
{
    assert forall|k: int| 0 <= k < nodes[n].children@.len() implies settles(
        nodes,
        #[trigger] nodes[n].children@[k] as int,
        (e - 1) as nat,
    ) by {
        lemma_settles_deeper(nodes, nodes[n].children@[k] as int, (d - 1) as nat, (e - 1) as nat);
    }
}

proof fn lemma_walk_node_deeper(
    nodes: Seq<Node>,
    n: int,
    parent: Option<nat>,
    base: nat,
    d: nat,
    e: nat,
)
    requires
        settles(nodes, n, d),
        d <= e,
    ensures
        walk_node(nodes, n, parent, base, d) == walk_node(nodes, n, parent, base, e),
    decreases d, 0nat,
{
    lemma_walk_list_deeper(
        nodes,
        nodes[n].children@,
        Some(base),
        base + 1,
        (d - 1) as nat,
        (e - 1) as nat,
    );
}

proof fn lemma_walk_list_deeper(
    nodes: Seq<Node>,
    list: Seq<usize>,
    parent: Option<nat>,
    base: nat,
    d: nat,
    e: nat,
)
    requires
        all_settle(nodes, list, d),
        d <= e,
    ensures
        walk_list(nodes, list, parent, base, d) == walk_list(nodes, list, parent, base, e),
    decreases d, list.len() + 1,
{
    if list.len() > 0 {
        let front = list.drop_last();
        assert(all_settle(nodes, front, d)) by {
            assert forall|k: int| 0 <= k < front.len() implies settles(
                nodes,
                #[trigger] front[k] as int,
                d,
            ) by {
                assert(front[k] == list[k]);
            }
        }
        lemma_walk_list_deeper(nodes, front, parent, base, d, e);
        assert(settles(nodes, list[list.len() - 1] as int, d));
        let start = base + walk_list(nodes, front, parent, base, d).len();
        lemma_walk_node_deeper(nodes, list.last() as int, parent, start, d, e);
    }
}

/// The visits of a scene do not depend on how deep a walk is allowed to go, as
/// long as it comes to an end.
pub proof fn lemma_walk_has_one_result(nodes: Seq<Node>, roots: Seq<usize>, depth: nat)
    requires
        all_settle(nodes, roots, depth),
    ensures
        walk_list(nodes, roots, None, 0, depth) == scene_walk(nodes, roots),
{
    let chosen = choose|d: nat| all_settle(nodes, roots, d);
    assert(all_settle(nodes, roots, chosen));
    if depth <= chosen {
        lemma_walk_list_deeper(nodes, roots, None, 0, depth, chosen);
    } else {
        lemma_walk_list_deeper(nodes, roots, None, 0, chosen, depth);
    }
}

fn walk_into(
    nodes: &Vec<Node>,
    n: usize,
    parent: Option<usize>,
    out: &mut Vec<Placement>,
    Ghost(depth): Ghost<nat>,
)
    requires
        settles(nodes@, n as int, depth),
    ensures
        visits_of(final(out)@) == visits_of(old(out)@) + walk_node(
            nodes@,
            n as int,
            parent_visit(parent),
            old(out)@.len(),
            depth,
        ),
    decreases depth,
{
    let base: usize = out.len();
    let ghost before = visits_of(out@);
    let ghost below = (depth - 1) as nat;
    out.push(Placement { node: n, parent });
    let ghost own = seq![Visit { node: n as int, parent: parent_visit(parent) }];
    assert(visits_of(out@) =~= before + own);
    let ghost list = nodes@[n as int].children@;
    let count: usize = nodes[n].children.len();
    let mut k: usize = 0;
    assert(list.take(0) =~= Seq::empty());
    assert(visits_of(out@) =~= before + own + walk_list(nodes@, list.take(0), Some(base as nat), base as nat + 1, below));
    while k < count
        invariant
            0 <= k <= count,
            count == list.len(),
            n < nodes@.len(),
            list == nodes@[n as int].children@,
            all_settle(nodes@, list, below),
            depth > 0,
            below == depth - 1,
            before.len() == base,
            own.len() == 1,
            visits_of(out@) == before + own + walk_list(
                nodes@,
                list.take(k as int),
                Some(base as nat),
                base as nat + 1,
                below,
            ),
        decreases count - k,
    {
        let child: usize = nodes[n].children[k];
        assert(child == list[k as int]);
        proof {
            let upto = list.take(k as int + 1);
            assert(upto.drop_last() =~= list.take(k as int));
            assert(upto.last() == child);
            assert(visits_of(out@).len() == out@.len());
        }
        walk_into(nodes, child, Some(base), out, Ghost(below));
        k = k + 1;
    }
    assert(list.take(count as int) =~= list);
    assert(before + own + walk_list(nodes@, list, Some(base as nat), base as nat + 1, below) =~= before + (own
        + walk_list(nodes@, list, Some(base as nat), base as nat + 1, below)));
}

/// Visits every node of a scene.
pub fn traverse(nodes: &Vec<Node>, roots: &Vec<usize>) -> (r: Vec<Placement>)
    requires
        traversable(nodes@, roots@),
    ensures
        visits_of(r@) == scene_walk(nodes@, roots@),
        r@.filter(|p: Placement| p.parent is None).map_values(|p: Placement| p.node) == roots@,
        forall|i: usize|
            i < r@.len() ==> visited_under(r@, Some(i)) == nodes@[(#[trigger] r@[i as int]).node as int].children@,
        stays_together(r@),
{
    let ghost depth = choose|d: nat| all_settle(nodes@, roots@, d);
    let mut out: Vec<Placement> = Vec::new();
    let mut k: usize = 0;
    assert(roots@.take(0) =~= Seq::empty());
    assert(visits_of(out@) =~= walk_list(nodes@, roots@.take(0), None, 0, depth));
    while k < roots.len()
        invariant
            0 <= k <= roots@.len(),
            all_settle(nodes@, roots@, depth),
            visits_of(out@) == walk_list(nodes@, roots@.take(k as int), None, 0, depth),
        decreases roots@.len() - k,
    {
        let root: usize = roots[k];
        assert(root == roots@[k as int]);
        proof {
            let upto = roots@.take(k as int + 1);
            assert(upto.drop_last() =~= roots@.take(k as int));
            assert(upto.last() == root);
            assert(visits_of(out@).len() == out@.len());
        }
        walk_into(nodes, root, None, &mut out, Ghost(depth));
        k = k + 1;
    }
    assert(roots@.take(roots@.len() as int) =~= roots@);
    proof {
        assert(out.len() == out@.len());
        lemma_placements_are_exact(out@, nodes@, roots@);
    }
    out
}

/// How many marks of `settled` are still missing.
spec fn unsettled_count(settled: Seq<bool>) -> nat
    decreases settled.len(),
{
    if settled.len() == 0 {
        0
    } else {
        unsettled_count(settled.drop_last()) + (if settled.last() {
            0nat
        } else {
            1nat
        })
    }
}

proof fn lemma_count_shrinks(a: Seq<bool>, b: Seq<bool>)
    requires
        a.len() == b.len(),
        forall|i: int| 0 <= i < a.len() && a[i] ==> b[i],
    ensures
        unsettled_count(b) <= unsettled_count(a),
        (exists|i: int| 0 <= i < a.len() && a[i] != b[i]) ==> unsettled_count(b) < unsettled_count(a),
    decreases a.len(),
{
    if a.len() > 0 {
        lemma_count_shrinks(a.drop_last(), b.drop_last());
        if exists|i: int| 0 <= i < a.len() && a[i] != b[i] {
            let i = choose|i: int| 0 <= i < a.len() && a[i] != b[i];
            if i < a.len() - 1 {
                assert(a.drop_last()[i] != b.drop_last()[i]);
            }
        }
    }
}

proof fn lemma_settled_for_good(nodes: Seq<Node>, n: int, round: nat, depth: nat)
    requires
        forall|m: int| #![trigger settles(nodes, m, round)] settles(nodes, m, round + 1) ==> settles(nodes, m, round),
        settles(nodes, n, depth),
    ensures
        settles(nodes, n, round),
    decreases depth,
{
    assert forall|k: int| 0 <= k < nodes[n].children@.len() implies settles(
        nodes,
        #[trigger] nodes[n].children@[k] as int,
        round,
    ) by {
        lemma_settled_for_good(nodes, nodes[n].children@[k] as int, round, (depth - 1) as nat);
    }
    assert(settles(nodes, n, round + 1));
}

/// Whether every child of node `n` exists and is marked in `settled`.
fn children_settled(nodes: &Vec<Node>, n: usize, settled: &Vec<bool>, Ghost(round): Ghost<nat>) -> (r: bool)
    requires
        n < nodes@.len(),
        settled@.len() == nodes@.len(),
        forall|m: int| 0 <= m < nodes@.len() ==> settled@[m] == #[trigger] settles(nodes@, m, round),
    ensures
        r == settles(nodes@, n as int, round + 1),
{
    let ghost list = nodes@[n as int].children@;
    let mut k: usize = 0;
    while k < nodes[n].children.len()
        invariant
            n < nodes@.len(),
            settled@.len() == nodes@.len(),
            forall|m: int| 0 <= m < nodes@.len() ==> settled@[m] == #[trigger] settles(nodes@, m, round),
            list == nodes@[n as int].children@,
            0 <= k <= list.len(),
            forall|j: int| 0 <= j < k ==> settles(nodes@, #[trigger] list[j] as int, round),
        decreases list.len() - k,
    {
        let child: usize = nodes[n].children[k];
        assert(child == nodes@[n as int].children@[k as int]);
        if child >= nodes.len() || !settled[child] {
            assert(!settles(nodes@, child as int, round));
            return false;
        }
        k = k + 1;
    }
    true
}

/// Whether a walk of the scene comes to an end and meets no missing node.
pub fn is_traversable(nodes: &Vec<Node>, roots: &Vec<usize>) -> (r: bool)
    ensures
        r == traversable(nodes@, roots@),
{
    let ghost mut round: nat = 0;
    let mut settled: Vec<bool> = Vec::new();
    while settled.len() < nodes.len()
        invariant
            settled@.len() <= nodes@.len(),
            forall|m: int| 0 <= m < settled@.len() ==> !settled@[m],
        decreases nodes@.len() - settled@.len(),
    {
        settled.push(false);
    }
    let mut changed: bool = true;
    while changed
        invariant
            settled@.len() == nodes@.len(),
            forall|m: int| 0 <= m < nodes@.len() ==> settled@[m] == #[trigger] settles(nodes@, m, round),
            !changed ==> forall|m: int|
                #![trigger settles(nodes@, m, round)]
                settles(nodes@, m, round + 1) ==> settles(nodes@, m, round),
        decreases unsettled_count(settled@), (if changed { 1nat } else { 0nat }),
    {
        changed = false;
        let mut next: Vec<bool> = Vec::new();
        while next.len() < nodes.len()
            invariant
                settled@.len() == nodes@.len(),
                forall|m: int| 0 <= m < nodes@.len() ==> settled@[m] == #[trigger] settles(nodes@, m, round),
                next@.len() <= nodes@.len(),
                forall|m: int| 0 <= m < next@.len() ==> next@[m] == #[trigger] settles(nodes@, m, round + 1),
                changed <==> exists|m: int| 0 <= m < next@.len() && settled@[m] != #[trigger] next@[m],
            decreases nodes@.len() - next@.len(),
        {
            let n: usize = next.len();
            let now: bool = children_settled(nodes, n, &settled, Ghost(round));
            let ghost earlier = next@;
            next.push(now);
            assert(forall|m: int| 0 <= m < earlier.len() ==> next@[m] == earlier[m]);
            if now != settled[n] {
                assert(settled@[n as int] != next@[n as int]);
                changed = true;
            } else if changed {
                let ghost m = choose|m: int| 0 <= m < earlier.len() && settled@[m] != #[trigger] earlier[m];
                assert(settled@[m] != next@[m]);
            }
        }
        proof {
            assert forall|m: int| 0 <= m < nodes@.len() && settled@[m] implies next@[m] by {
                lemma_settles_deeper(nodes@, m, round, round + 1);
            }
            lemma_count_shrinks(settled@, next@);
            if changed {
                let m = choose|m: int| 0 <= m < next@.len() && settled@[m] != #[trigger] next@[m];
                assert(settled@[m] != next@[m]);
            } else {
                assert forall|m: int|
                    #![trigger settles(nodes@, m, round + 1)]
                    settles(nodes@, m, round + 2) implies settles(nodes@, m, round + 1) by {
                    assert forall|k: int| 0 <= k < nodes@[m].children@.len() implies settles(
                        nodes@,
                        #[trigger] nodes@[m].children@[k] as int,
                        round,
                    ) by {
                        let c = nodes@[m].children@[k] as int;
                        assert(settles(nodes@, c, round + 1));
                        assert(settled@[c] == next@[c]);
                    }
                }
            }
            round = round + 1;
        }
        settled = next;
    }
    let mut k: usize = 0;
    while k < roots.len()
        invariant
            settled@.len() == nodes@.len(),
            forall|m: int| 0 <= m < nodes@.len() ==> settled@[m] == #[trigger] settles(nodes@, m, round),
            forall|m: int|
                #![trigger settles(nodes@, m, round)]
                settles(nodes@, m, round + 1) ==> settles(nodes@, m, round),
            0 <= k <= roots@.len(),
            forall|j: int| 0 <= j < k ==> settles(nodes@, #[trigger] roots@[j] as int, round),
        decreases roots@.len() - k,
    {
        let root: usize = roots[k];
        if root >= nodes.len() || !settled[root] {
            proof {
                if traversable(nodes@, roots@) {
                    let depth = choose|d: nat| all_settle(nodes@, roots@, d);
                    assert(settles(nodes@, roots@[k as int] as int, depth));
                    lemma_settled_for_good(nodes@, root as int, round, depth);
                }
            }
            return false;
        }
        k = k + 1;
    }
    assert(all_settle(nodes@, roots@, round));
    true
}

/// `n` is one of the nodes of `list`.
pub open spec fn lists(list: Seq<usize>, n: int) -> bool {
    exists|k: int| 0 <= k < list.len() && #[trigger] list[k] as int == n
}

/// The visit at `i` follows the visit of its parent, and visits a child of the
/// node visited there. `visits` starts at the index `base` of a longer walk.
pub open spec fn hangs_below(nodes: Seq<Node>, visits: Seq<Visit>, base: nat, i: int) -> bool {
    &&& visits[i].parent matches Some(p)
    &&& base <= p < base + i
    &&& lists(nodes[visits[p - base].node].children@, visits[i].node)
}

/// Some visit is one of node `n` under `parent`.
pub open spec fn has_visit(visits: Seq<Visit>, n: int, parent: Option<nat>) -> bool {
    exists|j: int| 0 <= j < visits.len() && #[trigger] visits[j] == (Visit { node: n, parent })
}

/// Wherever a node is visited, each of its children is visited under it.
pub open spec fn children_visited(nodes: Seq<Node>, visits: Seq<Visit>, base: nat) -> bool {
    forall|i: int, k: int|
        #![trigger visits[i], nodes[visits[i].node].children@[k]]
        0 <= i < visits.len() && 0 <= k < nodes[visits[i].node].children@.len() ==> has_visit(
            visits,
            nodes[visits[i].node].children@[k] as int,
            Some((base + i) as nat),
        )
}

proof fn lemma_node_paths(nodes: Seq<Node>, n: int, parent: Option<nat>, base: nat, depth: nat)
    requires
        settles(nodes, n, depth),
    ensures
        ({
            let w = walk_node(nodes, n, parent, base, depth);
            &&& w.len() > 0
            &&& w[0] == (Visit { node: n, parent })
            &&& forall|i: int| 0 <= i < w.len() ==> 0 <= (#[trigger] w[i]).node < nodes.len()
            &&& forall|i: int| 0 < i < w.len() ==> #[trigger] hangs_below(nodes, w, base, i)
            &&& children_visited(nodes, w, base)
        }),
    decreases depth, 0nat,
{
    let w = walk_node(nodes, n, parent, base, depth);
    let below = (depth - 1) as nat;
    let list = nodes[n].children@;
    let rest = walk_list(nodes, list, Some(base), base + 1, below);
    lemma_list_paths(nodes, list, Some(base), base + 1, below);
    assert(forall|i: int| 0 < i < w.len() ==> #[trigger] w[i] == rest[i - 1]);
    assert forall|i: int| 0 < i < w.len() implies #[trigger] hangs_below(nodes, w, base, i) by {
        if !hangs_below(nodes, rest, base + 1, i - 1) {
            assert(rest[i - 1].parent == Some(base));
        } else {
            let p = rest[i - 1].parent.unwrap();
            assert(w[p - base] == rest[p - (base + 1)]);
        }
    }
    assert forall|i: int, k: int|
        #![trigger w[i], nodes[w[i].node].children@[k]]
        0 <= i < w.len() && 0 <= k < nodes[w[i].node].children@.len() implies has_visit(
        w,
        nodes[w[i].node].children@[k] as int,
        Some((base + i) as nat),
    ) by {
        let c = nodes[w[i].node].children@[k] as int;
        if i == 0 {
            assert(has_visit(rest, list[k] as int, Some(base)));
        } else {
            assert(w[i] == rest[i - 1]);
            assert(has_visit(rest, nodes[rest[i - 1].node].children@[k] as int, Some((base + 1 + (i - 1)) as nat)));
        }
        let j = choose|j: int| 0 <= j < rest.len() && #[trigger] rest[j] == (Visit { node: c, parent: Some((base + i) as nat) });
        assert(w[j + 1] == rest[j]);
    }
}

proof fn lemma_list_paths(nodes: Seq<Node>, list: Seq<usize>, parent: Option<nat>, base: nat, depth: nat)
    requires
        all_settle(nodes, list, depth),
    ensures
        ({
            let w = walk_list(nodes, list, parent, base, depth);
            &&& forall|i: int| 0 <= i < w.len() ==> 0 <= (#[trigger] w[i]).node < nodes.len()
            &&& forall|i: int|
                0 <= i < w.len() ==> #[trigger] hangs_below(nodes, w, base, i) || (w[i].parent == parent && lists(
                    list,
                    w[i].node,
                ))
            &&& forall|k: int| 0 <= k < list.len() ==> has_visit(w, #[trigger] list[k] as int, parent)
            &&& children_visited(nodes, w, base)
        }),
    decreases depth, list.len() + 1,
{
    if list.len() > 0 {
        let front = list.drop_last();
        let last = list.last() as int;
        assert(all_settle(nodes, front, depth)) by {
            assert forall|k: int| 0 <= k < front.len() implies settles(nodes, #[trigger] front[k] as int, depth) by {
                assert(front[k] == list[k]);
            }
        }
        assert(settles(nodes, list[list.len() - 1] as int, depth));
        lemma_list_paths(nodes, front, parent, base, depth);
        let a = walk_list(nodes, front, parent, base, depth);
        let start = base + a.len();
        lemma_node_paths(nodes, last, parent, start, depth);
        let b = walk_node(nodes, last, parent, start, depth);
        let w = walk_list(nodes, list, parent, base, depth);
        assert(w == a + b);
        let m = a.len() as int;
        assert(forall|i: int| 0 <= i < m ==> #[trigger] w[i] == a[i]);
        assert(forall|i: int| m <= i < w.len() ==> #[trigger] w[i] == b[i - m]);
        assert forall|i: int| 0 <= i < w.len() implies #[trigger] hangs_below(nodes, w, base, i) || (w[i].parent
            == parent && lists(list, w[i].node)) by {
            if i < m {
                if hangs_below(nodes, a, base, i) {
                    let p = a[i].parent.unwrap();
                    assert(w[p - base] == a[p - base]);
                } else {
                    let k = choose|k: int| 0 <= k < front.len() && #[trigger] front[k] as int == a[i].node;
                    assert(list[k] as int == w[i].node);
                }
            } else if i == m {
                assert(list[list.len() - 1] as int == w[i].node);
            } else {
                assert(hangs_below(nodes, b, start, i - m));
                let p = b[i - m].parent.unwrap();
                assert(w[p - base] == b[p - start]);
            }
        }
        assert forall|k: int| 0 <= k < list.len() implies has_visit(w, #[trigger] list[k] as int, parent) by {
            if k < front.len() {
                assert(front[k] == list[k]);
                let j = choose|j: int| 0 <= j < a.len() && #[trigger] a[j] == (Visit { node: front[k] as int, parent });
                assert(w[j] == a[j]);
            } else {
                assert(w[m] == b[0]);
            }
        }
        assert forall|i: int, k: int|
            #![trigger w[i], nodes[w[i].node].children@[k]]
            0 <= i < w.len() && 0 <= k < nodes[w[i].node].children@.len() implies has_visit(
            w,
            nodes[w[i].node].children@[k] as int,
            Some((base + i) as nat),
        ) by {
            let c = nodes[w[i].node].children@[k] as int;
            let above = Some((base + i) as nat);
            if i < m {
                assert(has_visit(a, nodes[a[i].node].children@[k] as int, above));
                let j = choose|j: int| 0 <= j < a.len() && #[trigger] a[j] == (Visit { node: c, parent: above });
                assert(w[j] == a[j]);
            } else {
                assert(has_visit(b, nodes[b[i - m].node].children@[k] as int, Some((start + (i - m)) as nat)));
                let j = choose|j: int| 0 <= j < b.len() && #[trigger] b[j] == (Visit { node: c, parent: above });
                assert(w[m + j] == b[j]);
            }
        }
    }
}

/// Every visit of a scene is either one of a root, without a parent, or comes
/// after the visit of its parent and visits one of the children listed there.
/// So transforms can be accumulated in a single pass over the visits.
pub proof fn lemma_visits_follow_edges(nodes: Seq<Node>, roots: Seq<usize>)
    requires
        traversable(nodes, roots),
    ensures
        ({
            let w = scene_walk(nodes, roots);
            forall|i: int|
                #![trigger w[i]]
                0 <= i < w.len() ==> {
                    &&& 0 <= w[i].node < nodes.len()
                    &&& match w[i].parent {
                        Some(p) => p < i && lists(nodes[w[p as int].node].children@, w[i].node),
                        None => lists(roots, w[i].node),
                    }
                }
        }),
{
    let depth = choose|d: nat| all_settle(nodes, roots, d);
    lemma_list_paths(nodes, roots, None, 0, depth);
    let w = scene_walk(nodes, roots);
    assert forall|i: int|
        #![trigger w[i]]
        0 <= i < w.len() implies {
        &&& 0 <= w[i].node < nodes.len()
        &&& match w[i].parent {
            Some(p) => p < i && lists(nodes[w[p as int].node].children@, w[i].node),
            None => lists(roots, w[i].node),
        }
    } by {
        assert(hangs_below(nodes, w, 0, i) || (w[i].parent is None && lists(roots, w[i].node)));
    }
}

/// Nothing is missed: every root is visited without a parent, and wherever a
/// node is visited, each of its children is visited under that visit.
pub proof fn lemma_visits_cover_scene(nodes: Seq<Node>, roots: Seq<usize>)
    requires
        traversable(nodes, roots),
    ensures
        forall|k: int| 0 <= k < roots.len() ==> has_visit(scene_walk(nodes, roots), #[trigger] roots[k] as int, None),
        children_visited(nodes, scene_walk(nodes, roots), 0),
{
    let depth = choose|d: nat| all_settle(nodes, roots, d);
    lemma_list_paths(nodes, roots, None, 0, depth);
}

/// Node numbers as integers.
pub open spec fn as_ints(list: Seq<usize>) -> Seq<int> {
    list.map_values(|n: usize| n as int)
}

/// The nodes that are visited under `parent`, in the order of their visits.
pub open spec fn nodes_under(visits: Seq<Visit>, parent: Option<nat>) -> Seq<int> {
    visits.filter(|v: Visit| v.parent == parent).map_values(|v: Visit| v.node)
}

/// The nodes that are placed under `parent`, in order.
pub open spec fn visited_under(placements: Seq<Placement>, parent: Option<usize>) -> Seq<usize> {
    placements.filter(|p: Placement| p.parent == parent).map_values(|p: Placement| p.node)
}

/// Whatever is visited between a visit and one under it is visited below the
/// former too: a node and all that lies below it are visited without a break.
/// And no visit comes before that of its parent.
pub open spec fn stays_together(placements: Seq<Placement>) -> bool {
    &&& forall|i: int| 0 <= i < placements.len() ==> ((#[trigger] placements[i]).parent matches Some(p) ==> p < i)
    &&& forall|j: int, k: int|
        #![trigger placements[j], placements[k]]
        0 <= j < k < placements.len() ==> (placements[k].parent matches Some(q) ==> (q < j ==> (
        placements[j].parent matches Some(p) && q <= p)))
}

/// Each visit is under `parent` or under an earlier visit; `visits` starts at the
/// index `base` of a longer walk.
spec fn parents_earlier(visits: Seq<Visit>, parent: Option<nat>, base: nat) -> bool {
    forall|i: int|
        0 <= i < visits.len() ==> (#[trigger] visits[i]).parent == parent || (visits[i].parent is Some && base
            <= visits[i].parent->0 < base + i)
}

/// What is visited between a visit and one under it is visited below the former.
spec fn unbroken(visits: Seq<Visit>, base: nat) -> bool {
    forall|j: int, k: int|
        #![trigger visits[j], visits[k]]
        0 <= j < k < visits.len() && visits[k].parent is Some && base <= visits[k].parent->0 < base + j
            ==> visits[j].parent is Some && visits[k].parent->0 <= visits[j].parent->0
}

/// Under each visit, the children of the node are visited once each, in order.
spec fn children_in_order(nodes: Seq<Node>, visits: Seq<Visit>, base: nat) -> bool {
    forall|i: int|
        0 <= i < visits.len() ==> nodes_under(visits, Some((base + i) as nat)) == as_ints(
            nodes[(#[trigger] visits[i]).node].children@,
        )
}

proof fn lemma_nodes_under_both(a: Seq<Visit>, b: Seq<Visit>, parent: Option<nat>)
    ensures
        nodes_under(a + b, parent) == nodes_under(a, parent) + nodes_under(b, parent),
{
    Seq::<Visit>::filter_distributes_over_add(a, b, |v: Visit| v.parent == parent);
    assert(nodes_under(a + b, parent) =~= nodes_under(a, parent) + nodes_under(b, parent));
}

proof fn lemma_nodes_under_none(visits: Seq<Visit>, parent: Option<nat>)
    requires
        forall|i: int| 0 <= i < visits.len() ==> (#[trigger] visits[i]).parent != parent,
    ensures
        nodes_under(visits, parent) == Seq::<int>::empty(),
    decreases visits.len(),
{
    reveal(Seq::filter);
    if visits.len() > 0 {
        assert(visits[visits.len() - 1].parent != parent);
        assert forall|i: int| 0 <= i < visits.drop_last().len() implies (#[trigger] visits.drop_last()[i]).parent
            != parent by {
            assert(visits[i].parent != parent);
        }
        lemma_nodes_under_none(visits.drop_last(), parent);
    }
    assert(nodes_under(visits, parent) =~= Seq::<int>::empty());
}

proof fn lemma_nodes_under_one(v: Visit, parent: Option<nat>)
    ensures
        v.parent == parent ==> nodes_under(seq![v], parent) == seq![v.node],
        v.parent != parent ==> nodes_under(seq![v], parent) == Seq::<int>::empty(),
{
    reveal_with_fuel(Seq::filter, 2);
    assert(seq![v].drop_last() =~= Seq::empty());
    if v.parent == parent {
        assert(nodes_under(seq![v], parent) =~= seq![v.node]);
    } else {
        assert(nodes_under(seq![v], parent) =~= Seq::<int>::empty());
    }
}

proof fn lemma_node_order(nodes: Seq<Node>, n: int, parent: Option<nat>, base: nat, depth: nat)
    requires
        settles(nodes, n, depth),
        parent is Some ==> parent->0 < base,
    ensures
        ({
            let w = walk_node(nodes, n, parent, base, depth);
            &&& nodes_under(w, parent) == seq![n]
            &&& parents_earlier(w, parent, base)
            &&& unbroken(w, base)
            &&& children_in_order(nodes, w, base)
        }),
    decreases depth, 0nat,
{
    let w = walk_node(nodes, n, parent, base, depth);
    let below = (depth - 1) as nat;
    let list = nodes[n].children@;
    let first = Visit { node: n, parent };
    let rest = walk_list(nodes, list, Some(base), base + 1, below);
    lemma_list_order(nodes, list, Some(base), base + 1, below);
    assert(w == seq![first] + rest);
    assert(w[0] == first);
    assert(forall|i: int| 0 < i < w.len() ==> #[trigger] w[i] == rest[i - 1]);
    lemma_nodes_under_both(seq![first], rest, parent);
    lemma_nodes_under_one(first, parent);
    lemma_nodes_under_none(rest, parent);
    assert(nodes_under(w, parent) =~= seq![n]);
    assert forall|i: int| 0 <= i < w.len() implies nodes_under(w, Some((base + i) as nat)) == as_ints(
        nodes[(#[trigger] w[i]).node].children@,
    ) by {
        let p = Some((base + i) as nat);
        lemma_nodes_under_both(seq![first], rest, p);
        lemma_nodes_under_one(first, p);
        if i > 0 {
            assert(w[i] == rest[i - 1]);
            assert((base + 1 + (i - 1)) as nat == (base + i) as nat);
        }
        assert(nodes_under(w, p) =~= nodes_under(rest, p));
    }
}

proof fn lemma_list_order(nodes: Seq<Node>, list: Seq<usize>, parent: Option<nat>, base: nat, depth: nat)
    requires
        all_settle(nodes, list, depth),
        parent is Some ==> parent->0 < base,
    ensures
        ({
            let w = walk_list(nodes, list, parent, base, depth);
            &&& nodes_under(w, parent) == as_ints(list)
            &&& parents_earlier(w, parent, base)
            &&& unbroken(w, base)
            &&& children_in_order(nodes, w, base)
        }),
    decreases depth, list.len() + 1,
{
    let w = walk_list(nodes, list, parent, base, depth);
    if list.len() > 0 {
        let front = list.drop_last();
        let last = list.last() as int;
        assert(all_settle(nodes, front, depth)) by {
            assert forall|k: int| 0 <= k < front.len() implies settles(nodes, #[trigger] front[k] as int, depth) by {
                assert(front[k] == list[k]);
            }
        }
        assert(settles(nodes, list[list.len() - 1] as int, depth));
        let a = walk_list(nodes, front, parent, base, depth);
        let start = base + a.len();
        let b = walk_node(nodes, last, parent, start, depth);
        lemma_list_order(nodes, front, parent, base, depth);
        lemma_node_order(nodes, last, parent, start, depth);
        let m = a.len() as int;
        assert(w == a + b);
        assert(forall|i: int| 0 <= i < m ==> #[trigger] w[i] == a[i]);
        assert(forall|i: int| m <= i < w.len() ==> #[trigger] w[i] == b[i - m]);
        lemma_nodes_under_both(a, b, parent);
        assert(as_ints(list) =~= as_ints(front) + seq![last]);
        assert forall|i: int| 0 <= i < w.len() implies nodes_under(w, Some((base + i) as nat)) == as_ints(
            nodes[(#[trigger] w[i]).node].children@,
        ) by {
            let p = Some((base + i) as nat);
            lemma_nodes_under_both(a, b, p);
            if i < m {
                assert(w[i] == a[i]);
                lemma_nodes_under_none(b, p);
                assert(nodes_under(w, p) =~= nodes_under(a, p));
            } else {
                assert(w[i] == b[i - m]);
                assert((start + (i - m)) as nat == (base + i) as nat);
                lemma_nodes_under_none(a, p);
                assert(nodes_under(w, p) =~= nodes_under(b, p));
            }
        }
    } else {
        lemma_nodes_under_none(w, parent);
        assert(as_ints(list) =~= Seq::<int>::empty());
    }
}

/// The visits of a scene are exactly those of its nodes: without a parent, the
/// roots are visited once each and in order; under each visit, the children of
/// the node that is visited there, once each and in order; and what lies below a
/// node is visited before anything that does not.
pub proof fn lemma_visits_are_exact(nodes: Seq<Node>, roots: Seq<usize>)
    requires
        traversable(nodes, roots),
    ensures
        ({
            let w = scene_walk(nodes, roots);
            &&& w.filter(|v: Visit| v.parent is None).map_values(|v: Visit| v.node) == roots.map_values(
                |n: usize| n as int,
            )
            &&& forall|i: int|
                0 <= i < w.len() ==> nodes_under(w, Some(i as nat)) == as_ints(nodes[(#[trigger] w[i]).node].children@)
            &&& forall|i: int| 0 <= i < w.len() ==> ((#[trigger] w[i]).parent matches Some(p) ==> p < i)
            &&& forall|j: int, k: int|
                #![trigger w[j], w[k]]
                0 <= j < k < w.len() ==> (w[k].parent matches Some(q) ==> (q < j ==> (w[j].parent matches Some(p) && q
                    <= p)))
        }),
{
    let depth = choose|d: nat| all_settle(nodes, roots, d);
    lemma_list_order(nodes, roots, None, 0, depth);
    let w = scene_walk(nodes, roots);
    let a = |v: Visit| v.parent is None;
    let none: Option<nat> = None;
    let b = |v: Visit| v.parent == none;
    assert(a =~= b);
    assert(w.filter(a).map_values(|v: Visit| v.node) == nodes_under(w, None));
    assert forall|i: int| 0 <= i < w.len() implies nodes_under(w, Some(i as nat)) == as_ints(
        nodes[(#[trigger] w[i]).node].children@,
    ) by {
        assert((0 + i) as nat == i as nat);
    }
}

proof fn lemma_visited_under_in_visits(placements: Seq<Placement>, parent: Option<usize>)
    ensures
        as_ints(visited_under(placements, parent)) == nodes_under(visits_of(placements), parent_visit(parent)),
    decreases placements.len(),
{
    reveal(Seq::filter);
    if placements.len() > 0 {
        let front = placements.drop_last();
        lemma_visited_under_in_visits(front, parent);
        assert(visits_of(placements).drop_last() =~= visits_of(front));
        assert(visits_of(placements).last() == placements.last()@);
        assert((placements.last().parent == parent) == (placements.last()@.parent == parent_visit(parent)));
        if placements.last().parent == parent {
            assert(visited_under(placements, parent) =~= visited_under(front, parent).push(placements.last().node));
            assert(nodes_under(visits_of(placements), parent_visit(parent)) =~= nodes_under(
                visits_of(front),
                parent_visit(parent),
            ).push(placements.last().node as int));
        } else {
            assert(visited_under(placements, parent) =~= visited_under(front, parent));
            assert(nodes_under(visits_of(placements), parent_visit(parent)) =~= nodes_under(
                visits_of(front),
                parent_visit(parent),
            ));
        }
    }
    assert(as_ints(visited_under(placements, parent)) =~= nodes_under(visits_of(placements), parent_visit(parent)));
}

proof fn lemma_ints_determine_list(a: Seq<usize>, b: Seq<usize>)
    requires
        as_ints(a) == as_ints(b),
    ensures
        a == b,
{
    assert(as_ints(a).len() == a.len() && as_ints(b).len() == b.len());
    assert forall|i: int| 0 <= i < a.len() implies a[i] == b[i] by {
        assert(as_ints(a)[i] == a[i] as int);
        assert(as_ints(b)[i] == b[i] as int);
    }
    assert(a =~= b);
}

/// The placements of a scene are exactly those of its nodes.
pub proof fn lemma_placements_are_exact(placements: Seq<Placement>, nodes: Seq<Node>, roots: Seq<usize>)
    requires
        placements.len() <= usize::MAX,
        traversable(nodes, roots),
        visits_of(placements) == scene_walk(nodes, roots),
    ensures
        placements.filter(|p: Placement| p.parent is None).map_values(|p: Placement| p.node) == roots,
        forall|i: usize|
            i < placements.len() ==> visited_under(placements, Some(i)) == nodes[(
            #[trigger] placements[i as int]).node as int].children@,
        stays_together(placements),
{
    lemma_visits_are_exact(nodes, roots);
    let w = scene_walk(nodes, roots);
    assert(forall|i: int| 0 <= i < placements.len() ==> (#[trigger] placements[i])@ == w[i]);
    let a = |p: Placement| p.parent is None;
    let none: Option<usize> = None;
    let b = |p: Placement| p.parent == none;
    assert(a =~= b);
    let c = |v: Visit| v.parent is None;
    let nothing: Option<nat> = None;
    let d = |v: Visit| v.parent == nothing;
    assert(c =~= d);
    lemma_visited_under_in_visits(placements, None);
    lemma_ints_determine_list(visited_under(placements, None), roots);
    assert forall|i: usize| i < placements.len() implies visited_under(placements, Some(i)) == nodes[(
    #[trigger] placements[i as int]).node as int].children@ by {
        assert(w[i as int] == placements[i as int]@);
        lemma_visited_under_in_visits(placements, Some(i));
        lemma_ints_determine_list(visited_under(placements, Some(i)), nodes[placements[i as int].node as int].children@);
    }
    assert forall|i: int| 0 <= i < placements.len() implies ((#[trigger] placements[i]).parent matches Some(p) ==> p
        < i) by {
        assert(w[i] == placements[i]@);
    }
    assert forall|j: int, k: int|
        #![trigger placements[j], placements[k]]
        0 <= j < k < placements.len() implies (placements[k].parent matches Some(q) ==> (q < j ==> (
    placements[j].parent matches Some(p) && q <= p))) by {
        assert(w[j] == placements[j]@);
        assert(w[k] == placements[k]@);
    }
}

/// `to` is reached from `from` by going down `steps` levels.
pub open spec fn descends(nodes: Seq<Node>, from: int, to: int, steps: nat) -> bool
    decreases steps,
{
    if steps == 0 {
        from == to
    } else {
        exists|k: int|
            0 <= k < nodes[from].children@.len() && descends(
                nodes,
                #[trigger] nodes[from].children@[k] as int,
                to,
                (steps - 1) as nat,
            )
    }
}

proof fn lemma_descent_settles(nodes: Seq<Node>, from: int, to: int, steps: nat, depth: nat)
    requires
        settles(nodes, from, depth),
        descends(nodes, from, to, steps),
    ensures
        steps < depth,
        settles(nodes, to, (depth - steps) as nat),
    decreases steps,
{
    if steps > 0 {
        let k = choose|k: int|
            0 <= k < nodes[from].children@.len() && descends(
                nodes,
                #[trigger] nodes[from].children@[k] as int,
                to,
                (steps - 1) as nat,
            );
        let child = nodes[from].children@[k] as int;
        lemma_descent_settles(nodes, child, to, (steps - 1) as nat, (depth - 1) as nat);
    }
}

proof fn lemma_settled_not_below_itself(nodes: Seq<Node>, n: int, steps: nat, depth: nat)
    requires
        settles(nodes, n, depth),
        steps > 0,
    ensures
        !descends(nodes, n, n, steps),
    decreases depth,
{
    if descends(nodes, n, n, steps) {
        lemma_descent_settles(nodes, n, n, steps, depth);
        lemma_settled_not_below_itself(nodes, n, steps, (depth - steps) as nat);
    }
}

/// In a scene that can be traversed, no node that is reached from a root lies
/// below itself.
pub proof fn lemma_traversable_has_no_cycle(
    nodes: Seq<Node>,
    roots: Seq<usize>,
    k: int,
    n: int,
    from_root: nat,
    around: nat,
)
    requires
        traversable(nodes, roots),
        0 <= k < roots.len(),
        descends(nodes, roots[k] as int, n, from_root),
        around > 0,
    ensures
        0 <= n < nodes.len(),
        !descends(nodes, n, n, around),
{
    let depth = choose|d: nat| all_settle(nodes, roots, d);
    assert(settles(nodes, roots[k] as int, depth));
    lemma_descent_settles(nodes, roots[k] as int, n, from_root, depth);
    lemma_settled_not_below_itself(nodes, n, around, (depth - from_root) as nat);
}

/// `n` and everything below it exists.
pub open spec fn exists_below(nodes: Seq<Node>, n: int) -> bool {
    forall|to: int, steps: nat| #[trigger] descends(nodes, n, to, steps) ==> 0 <= to < nodes.len()
}

/// Each node of `path` is a child of the one before.
spec fn goes_down(nodes: Seq<Node>, path: Seq<int>) -> bool {
    forall|i: int| 0 <= i < path.len() - 1 ==> lists(nodes[#[trigger] path[i]].children@, path[i + 1])
}

proof fn lemma_path_descends(nodes: Seq<Node>, path: Seq<int>, i: int, j: int)
    requires
        goes_down(nodes, path),
        0 <= i <= j < path.len(),
    ensures
        descends(nodes, path[i], path[j], (j - i) as nat),
    decreases j - i,
{
    if i < j {
        lemma_path_descends(nodes, path, i + 1, j);
        assert(lists(nodes[path[i]].children@, path[i + 1]));
        let k = choose|k: int|
            0 <= k < nodes[path[i]].children@.len() && #[trigger] nodes[path[i]].children@[k] as int == path[i + 1];
        assert(descends(nodes, nodes[path[i]].children@[k] as int, path[j], (j - i - 1) as nat));
    }
}

/// A node that does not settle within `depth` levels has a path of that length
/// below it.
proof fn lemma_unsettled_has_path(nodes: Seq<Node>, n: int, depth: nat) -> (path: Seq<int>)
    requires
        !settles(nodes, n, depth),
        exists_below(nodes, n),
    ensures
        path.len() == depth + 1,
        path[0] == n,
        goes_down(nodes, path),
        forall|i: int| 0 <= i < path.len() ==> 0 <= #[trigger] path[i] < nodes.len(),
    decreases depth,
{
    assert(descends(nodes, n, n, 0));
    if depth == 0 {
        seq![n]
    } else {
        let k = choose|k: int|
            0 <= k < nodes[n].children@.len() && !settles(
                nodes,
                #[trigger] nodes[n].children@[k] as int,
                (depth - 1) as nat,
            );
        let child = nodes[n].children@[k] as int;
        assert(exists_below(nodes, child)) by {
            assert forall|to: int, steps: nat| #[trigger] descends(nodes, child, to, steps) implies 0 <= to
                < nodes.len() by {
                assert(descends(nodes, nodes[n].children@[k] as int, to, (steps + 1 - 1) as nat));
                assert(descends(nodes, n, to, steps + 1));
            }
        }
        let rest = lemma_unsettled_has_path(nodes, child, (depth - 1) as nat);
        let path = seq![n] + rest;
        assert forall|i: int| 0 <= i < path.len() - 1 implies lists(
            nodes[#[trigger] path[i]].children@,
            path[i + 1],
        ) by {
            if i == 0 {
                assert(nodes[n].children@[k] as int == path[1]);
            } else {
                assert(path[i] == rest[i - 1]);
                assert(path[i + 1] == rest[i]);
            }
        }
        path
    }
}

proof fn lemma_pigeonhole(path: Seq<int>, bound: nat) -> (r: (int, int))
    requires
        path.len() > bound,
        forall|i: int| 0 <= i < path.len() ==> 0 <= #[trigger] path[i] < bound,
    ensures
        0 <= r.0 < r.1 < path.len(),
        path[r.0] == path[r.1],
{
    if path.no_duplicates() {
        path.unique_seq_to_set();
        vstd::set_lib::lemma_int_range(0, bound as int);
        assert(path.to_set().subset_of(vstd::set_lib::set_int_range(0, bound as int)));
        vstd::set_lib::lemma_len_subset(path.to_set(), vstd::set_lib::set_int_range(0, bound as int));
    }
    let (i, j) = choose|i: int, j: int| 0 <= i < path.len() && 0 <= j < path.len() && i != j && path[i] == path[j];
    if i < j {
        (i, j)
    } else {
        (j, i)
    }
}

proof fn lemma_ranked_settles(nodes: Seq<Node>, rank: spec_fn(int) -> nat, n: int, depth: nat)
    requires
        0 <= n < nodes.len(),
        rank(n) < depth,
        forall|m: int, k: int|
            0 <= m < nodes.len() && 0 <= k < nodes[m].children@.len() ==> {
                let child = #[trigger] nodes[m].children@[k] as int;
                child < nodes.len() && rank(child) < rank(m)
            },
    ensures
        settles(nodes, n, depth),
    decreases depth,
{
    assert forall|k: int| 0 <= k < nodes[n].children@.len() implies settles(
        nodes,
        #[trigger] nodes[n].children@[k] as int,
        (depth - 1) as nat,
    ) by {
        lemma_ranked_settles(nodes, rank, nodes[n].children@[k] as int, (depth - 1) as nat);
    }
}

/// A scene can be traversed if its roots and all children exist and the nodes
/// can be ranked so that every child ranks below the node that lists it.
pub proof fn lemma_ranked_is_traversable(
    nodes: Seq<Node>,
    roots: Seq<usize>,
    rank: spec_fn(int) -> nat,
    highest: nat,
)
    requires
        forall|k: int| 0 <= k < roots.len() ==> #[trigger] roots[k] < nodes.len() && rank(roots[k] as int) <= highest,
        forall|m: int, k: int|
            0 <= m < nodes.len() && 0 <= k < nodes[m].children@.len() ==> {
                let child = #[trigger] nodes[m].children@[k] as int;
                child < nodes.len() && rank(child) < rank(m)
            },
    ensures
        traversable(nodes, roots),
{
    assert forall|k: int| 0 <= k < roots.len() implies settles(nodes, #[trigger] roots[k] as int, highest + 1) by {
        lemma_ranked_settles(nodes, rank, roots[k] as int, highest + 1);
    }
    assert(all_settle(nodes, roots, highest + 1));
}

/// A scene whose nodes all exist and in which no node lies below itself can be
/// traversed.
pub proof fn lemma_acyclic_is_traversable(nodes: Seq<Node>, roots: Seq<usize>)
    requires
        forall|k: int| 0 <= k < roots.len() ==> exists_below(nodes, #[trigger] roots[k] as int),
        forall|k: int, n: int, from_root: nat, around: nat|
            0 <= k < roots.len() && #[trigger] descends(nodes, roots[k] as int, n, from_root) && around > 0
                ==> !#[trigger] descends(nodes, n, n, around),
    ensures
        traversable(nodes, roots),
{
    let depth = nodes.len();
    assert forall|k: int| 0 <= k < roots.len() implies settles(nodes, #[trigger] roots[k] as int, depth) by {
        let root = roots[k] as int;
        if !settles(nodes, root, depth) {
            let path = lemma_unsettled_has_path(nodes, root, depth);
            let (i, j) = lemma_pigeonhole(path, depth);
            lemma_path_descends(nodes, path, 0, i);
            lemma_path_descends(nodes, path, i, j);
            assert(descends(nodes, roots[k] as int, path[i], i as nat));
            assert(!descends(nodes, path[i], path[i], (j - i) as nat));
        }
    }
    assert(all_settle(nodes, roots, depth));
}

} // verus!
