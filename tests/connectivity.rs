use polyhedra::distance::Distance;
use polyhedra::TopologyError;

#[test]
fn tetrahedron_is_complete() {
    let d = Distance::tetrahedron();
    assert_eq!(d.len(), 4);
    assert_eq!(d.vertices(), vec![0, 1, 2, 3]);
    assert_eq!(d.edges(), vec![[0, 1], [0, 2], [0, 3], [1, 2], [1, 3], [2, 3]]);
    assert_eq!(d.connections(2), vec![0, 1, 3]);
    assert!(!d.connected(1, 1));
}

#[test]
fn connect_is_symmetric() {
    let mut d = Distance::new(3);
    assert!(d.edges().is_empty());
    d.connect(2, 0);
    assert!(d.connected(0, 2) && d.connected(2, 0));
    d.disconnect(0, 2);
    assert!(!d.connected(2, 0));
}

#[test]
fn delete_renumbers_vertices() {
    let mut d = Distance::tetrahedron();
    d.delete(1);
    assert_eq!(d.vertices(), vec![0, 1, 2]);
    assert_eq!(d.edges(), vec![[0, 1], [0, 2], [1, 2]]);
    d.delete(0);
    assert_eq!(d.vertices(), vec![0, 1]);
    assert_eq!(d.edges(), vec![[0, 1]]);
}

#[test]
fn contract_merges_into_smaller_id() {
    // a path 0 - 1 - 2 - 3
    let mut d = Distance::new(4);
    d.connect(0, 1);
    d.connect(1, 2);
    d.connect(2, 3);
    d.contract(2, 1);
    assert_eq!(d.len(), 3);
    assert_eq!(d.edges(), vec![[0, 1], [1, 2]]);
}

#[test]
fn contract_edges_renames_later_edges() {
    let mut d = Distance::new(4);
    d.connect(0, 1);
    d.connect(1, 2);
    d.connect(2, 3);
    d.connect(3, 0);
    // after [1, 2] merges 2 into 1, vertex 3 is renamed 2
    d.contract_edges(vec![[1, 2], [3, 0]]).unwrap();
    assert_eq!(d.len(), 2);
    assert_eq!(d.edges(), vec![[0, 1]]);
}

#[test]
fn contract_edges_refuses_missing_vertex() {
    let mut d = Distance::tetrahedron();
    assert_eq!(d.contract_edges(vec![[0, 1], [2, 4]]), Err(TopologyError::InvalidTopology));
    assert_eq!(d, Distance::tetrahedron());
}

#[test]
fn grow_adds_isolated_vertices() {
    let mut d = Distance::tetrahedron();
    d.grow(2);
    assert_eq!(d.len(), 6);
    assert!(d.connections(5).is_empty());
    assert_eq!(d.edges().len(), 6);
}

#[test]
fn graphviz_lists_vertices_and_edges() {
    let mut d = Distance::new(3);
    d.connect(0, 1);
    d.connect(1, 2);
    assert_eq!(
        d.graphviz(),
        "graph G{\nlayout=neato\n\tV0 [color=\"green\"];\n\tV1 [color=\"blue\"];\n\tV2 [color=\"green\"];\n\tV0 -- V1;\n\tV1 -- V2;\n}"
    );
}

#[test]
fn graphviz_writes_ids_in_decimal() {
    let mut d = Distance::new(12);
    d.connect(10, 11);
    let text = d.graphviz();
    assert!(text.contains("\tV10 -- V11;\n"));
    assert!(text.contains("\tV11 [color=\"green\"];\n"));
    assert!(text.contains("\tV3 [color=\"red\"];\n"));
}

#[test]
fn dot_graph_parses() {
    let d = Distance::tetrahedron();
    assert!(d.dot_graph().is_some());
}

#[test]
fn well_formedness_is_checked() {
    assert!(Distance::tetrahedron().is_well_formed());
    let lopsided = Distance { matrix: vec![vec![false, true], vec![false, false]] };
    assert!(!lopsided.is_well_formed());
    let looped = Distance { matrix: vec![vec![true]] };
    assert!(!looped.is_well_formed());
}
