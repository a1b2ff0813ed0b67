use gltf_snapshot::scene::{is_traversable, traverse, Node, Placement};

fn node(mesh: Option<usize>, children: &[usize]) -> Node {
    Node { mesh, children: children.to_vec() }
}

fn placed(node: usize, parent: Option<usize>) -> Placement {
    Placement { node, parent }
}

#[test]
fn traverse_visits_nodes_before_children() {
    let nodes = vec![node(None, &[1, 2]), node(Some(0), &[3]), node(None, &[]), node(None, &[])];
    let roots = vec![0];
    assert!(is_traversable(&nodes, &roots));
    assert_eq!(
        traverse(&nodes, &roots),
        vec![placed(0, None), placed(1, Some(0)), placed(3, Some(1)), placed(2, Some(0))]
    );
}

#[test]
fn traverse_visits_shared_node_once_per_path() {
    let nodes = vec![node(None, &[2]), node(None, &[2]), node(Some(0), &[])];
    let roots = vec![0, 1];
    assert!(is_traversable(&nodes, &roots));
    assert_eq!(
        traverse(&nodes, &roots),
        vec![placed(0, None), placed(2, Some(0)), placed(1, None), placed(2, Some(2))]
    );
}

#[test]
fn traverse_of_empty_scene() {
    let nodes = vec![node(None, &[])];
    assert!(is_traversable(&nodes, &vec![]));
    assert!(traverse(&nodes, &vec![]).is_empty());
}

#[test]
fn cycles_are_not_traversable() {
    let selfish = vec![node(None, &[0])];
    assert!(!is_traversable(&selfish, &vec![0]));
    let ring = vec![node(None, &[1]), node(None, &[2]), node(None, &[0]), node(None, &[])];
    assert!(!is_traversable(&ring, &vec![0]));
    assert!(!is_traversable(&ring, &vec![3, 2]));
    assert!(is_traversable(&ring, &vec![3]));
    let above_ring = vec![node(None, &[1]), node(None, &[1])];
    assert!(!is_traversable(&above_ring, &vec![0]));
}

#[test]
fn missing_nodes_are_not_traversable() {
    let nodes = vec![node(None, &[7])];
    assert!(!is_traversable(&nodes, &vec![0]));
    assert!(!is_traversable(&vec![], &vec![0]));
    assert!(!is_traversable(&nodes, &vec![1]));
}

#[test]
fn deep_chain_is_traversable() {
    let mut nodes: Vec<Node> = Vec::new();
    for i in 0..100usize {
        nodes.push(if i < 99 { node(None, &[i + 1]) } else { node(None, &[]) });
    }
    assert!(is_traversable(&nodes, &vec![0]));
    let placements = traverse(&nodes, &vec![0]);
    assert_eq!(placements.len(), 100);
    for (i, p) in placements.iter().enumerate() {
        assert_eq!(p.node, i);
        assert_eq!(p.parent, if i == 0 { None } else { Some(i - 1) });
    }
}

#[test]
fn parents_precede_and_list_their_children() {
    let nodes = vec![
        node(None, &[3, 1, 3]),
        node(None, &[2, 4]),
        node(None, &[]),
        node(None, &[2]),
        node(None, &[]),
    ];
    let roots = vec![0, 4];
    assert!(is_traversable(&nodes, &roots));
    let placements = traverse(&nodes, &roots);
    for (i, p) in placements.iter().enumerate() {
        match p.parent {
            Some(above) => {
                assert!(above < i);
                assert!(nodes[placements[above].node].children.contains(&p.node));
            }
            None => assert!(roots.contains(&p.node)),
        }
        for child in &nodes[p.node].children {
            assert!(placements.contains(&placed(*child, Some(i))));
        }
    }
    assert_eq!(placements.len(), 9);
}
