use polyhedra::cycles::{Cycle, Cycles};
use polyhedra::distance::Distance;
use polyhedra::shape::Shape;
use polyhedra::TopologyError;

#[test]
fn truncate_contract() {
    let mut shape = Shape::tetrahedron();
    let edges = shape.truncate().unwrap();
    println!("edges: {edges:?}");
    shape.distance.contract_edges(edges).unwrap();
    assert_eq!(shape.distance, Distance::tetrahedron());
}

#[test]
fn split_vertex_contract() {
    let mut control = Distance::new(6);
    // Outline of the remaining triangle
    control.connect(1, 2);
    control.connect(2, 3);
    control.connect(3, 1);
    // Connections
    control.connect(0, 1);
    control.connect(4, 2);
    control.connect(5, 3);
    // New face
    control.connect(0, 4);
    control.connect(4, 5);
    control.connect(5, 0);
    let mut test = Shape::tetrahedron();
    let edges = test.split_vertex(0).unwrap();
    test.distance.contract_edges(edges).unwrap();
    assert_eq!(test.distance, Distance::tetrahedron());
}

#[test]
fn split_vertex_layout() {
    let mut control = Distance::new(6);
    for [a, b] in [[1, 2], [2, 3], [3, 1], [0, 1], [4, 2], [5, 3], [0, 4], [4, 5], [5, 0]] {
        control.connect(a, b);
    }
    let mut test = Shape::tetrahedron();
    let edges = test.split_vertex(0).unwrap();
    assert_eq!(test.distance, control);
    assert_eq!(edges.len(), 3);
    assert_eq!(test.cycles.len(), 5);
    for [a, b] in edges {
        assert!([0, 4, 5].contains(&a) && [0, 4, 5].contains(&b) && a != b);
    }
    let face = test.cycles.get(4);
    assert_eq!(face.len(), 3);
    for v in [0, 4, 5] {
        assert!(face.contains(&v));
    }
}

#[test]
fn split_vertex_refuses_missing_vertex() {
    let mut test = Shape::tetrahedron();
    assert_eq!(test.split_vertex(4), Err(TopologyError::InvalidTopology));
    assert_eq!(test.distance, Distance::tetrahedron());
    assert_eq!(test.cycles.len(), 4);
}

#[test]
fn truncate_counts() {
    let mut shape = Shape::tetrahedron();
    let edges = shape.truncate().unwrap();
    assert_eq!(shape.distance.len(), 12);
    assert_eq!(shape.cycles.len(), 8);
    assert_eq!(edges.len(), 12);
    assert_eq!(shape.distance.edges().len(), 18);
    for v in shape.distance.vertices() {
        assert_eq!(shape.distance.connections(v).len(), 3);
    }
}

#[test]
fn new_shape_checks_faces() {
    let faces = Cycles::new(vec![vec![0, 1, 2]]);
    assert!(Shape::new(Distance::tetrahedron(), faces).is_ok());
    let mut path = Distance::new(3);
    path.connect(0, 1);
    path.connect(1, 2);
    let faces = Cycles::new(vec![vec![0, 1, 2]]);
    assert_eq!(Shape::new(path, faces).err(), Some(TopologyError::InvalidTopology));
}

#[test]
fn snapshot_is_independent() {
    let mut shape = Shape::tetrahedron();
    let frozen = shape.snapshot();
    shape.split_vertex(1).unwrap();
    assert_eq!(frozen.distance, Distance::tetrahedron());
    assert_eq!(frozen.cycles.len(), 4);
    assert_eq!(shape.distance.len(), 6);
}

#[test]
fn cycle_from_vertices() {
    let c = Cycle::from(vec![3, 1, 2]);
    assert_eq!(c.len(), 3);
    assert_eq!(c.get(4), 1);
    assert_eq!(c.iter().copied().collect::<Vec<_>>(), vec![3, 1, 2]);
}

#[test]
fn contract_edge_refuses_collapsing_face() {
    let mut shape = Shape::tetrahedron();
    let edges = shape.split_vertex(0).unwrap();
    let [a, b] = edges[0];
    assert_eq!(edges[0], [4, 0]);
    // the new triangle would shrink to two vertices
    assert_eq!(shape.contract_edge(a, b), Err(TopologyError::InvalidTopology));
    assert_eq!(shape.distance.len(), 6);
    assert_eq!(shape.cycles.len(), 5);
    assert_eq!(shape.contract_edge(0, 9), Err(TopologyError::InvalidTopology));
    assert_eq!(shape.contract_edge(1, 1), Err(TopologyError::InvalidTopology));
}

#[test]
fn contract_edge_keeps_faces_in_step() {
    let mut shape = Shape::tetrahedron();
    let ring = shape.truncate().unwrap();
    let kept = shape
        .distance
        .edges()
        .into_iter()
        .find(|[a, b]| !ring.iter().any(|[c, d]| (a == c && b == d) || (a == d && b == c)))
        .unwrap();
    shape.contract_edge(kept[0], kept[1]).unwrap();
    assert_eq!(shape.distance.len(), 11);
    assert_eq!(shape.cycles.len(), 8);
    for c in shape.cycles.iter() {
        assert!(c.len() >= 3);
        for v in c.iter() {
            assert!(*v < 11);
        }
    }
    assert!(Shape::new(shape.distance.snapshot(), shape.cycles.snapshot()).is_ok());
}

#[test]
fn cycle_set_wraps() {
    let mut c = Cycle::from(vec![1, 2, 3]);
    c.set(4, 9);
    assert_eq!(c.iter().copied().collect::<Vec<_>>(), vec![1, 9, 3]);
}
