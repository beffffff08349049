use polyhedra::cycles::{Cycle, Cycles};
use polyhedra::TopologyError;

fn walk(c: &Cycle) -> Vec<usize> {
    c.iter().copied().collect()
}

#[test]
fn triangle_from_edges_in_any_order() {
    let c = Cycle::from_edges(vec![[2, 1], [0, 2], [1, 0]]).unwrap();
    assert_eq!(c.len(), 3);
    for v in 0..3 {
        assert!(c.contains(&v));
    }
    let c = Cycle::from_edges(vec![[7, 5], [5, 9], [7, 9]]).unwrap();
    assert_eq!(walk(&c), vec![7, 5, 9]);
}

#[test]
fn square_from_edges() {
    let c = Cycle::from_edges(vec![[0, 1], [2, 3], [1, 2], [3, 0]]).unwrap();
    assert_eq!(walk(&c), vec![0, 1, 2, 3]);
}

#[test]
fn disconnected_edges_are_malformed() {
    assert_eq!(
        Cycle::from_edges(vec![[0, 1], [2, 3]]).err(),
        Some(TopologyError::MalformedBoundary)
    );
    assert_eq!(
        Cycle::from_edges(vec![[0, 1], [1, 2], [2, 0], [3, 4], [4, 5], [5, 3]]).err(),
        Some(TopologyError::MalformedBoundary)
    );
}

#[test]
fn degenerate_edges_are_malformed() {
    assert_eq!(Cycle::from_edges(vec![]).err(), Some(TopologyError::MalformedBoundary));
    assert_eq!(
        Cycle::from_edges(vec![[0, 1], [1, 0]]).err(),
        Some(TopologyError::MalformedBoundary)
    );
    assert_eq!(
        Cycle::from_edges(vec![[0, 1], [1, 2], [2, 0], [0, 1]]).err(),
        Some(TopologyError::MalformedBoundary)
    );
}

#[test]
fn delete_renumbers() {
    let mut c = Cycle::from(vec![4, 2, 0, 3]);
    c.delete(2);
    assert_eq!(walk(&c), vec![3, 0, 2]);
    c.delete(7);
    assert_eq!(walk(&c), vec![3, 0, 2]);
}

#[test]
fn replace_drops_occurrence_next_to_new() {
    let mut c = Cycle::from(vec![0, 4, 5, 1]);
    c.replace(5, 4);
    assert_eq!(walk(&c), vec![0, 4, 1]);
    let mut c = Cycle::from(vec![5, 1, 2, 4]);
    c.replace(5, 4);
    assert_eq!(walk(&c), vec![1, 2, 4]);
}

#[test]
fn replace_substitutes_elsewhere() {
    let mut c = Cycle::from(vec![0, 5, 1, 2]);
    c.replace(5, 9);
    assert_eq!(walk(&c), vec![0, 9, 1, 2]);
    c.replace(7, 3);
    assert_eq!(walk(&c), vec![0, 9, 1, 2]);
}

#[test]
fn cycles_delete_and_replace_every_face() {
    let mut cs = Cycles::new(vec![vec![0, 1, 2], vec![1, 3, 2]]);
    cs.replace(3, 0);
    assert_eq!(walk(cs.get(1)), vec![1, 0, 2]);
    cs.delete(1);
    assert_eq!(walk(cs.get(0)), vec![0, 1]);
    assert_eq!(walk(cs.get(1)), vec![0, 1]);
    assert_eq!(cs.len(), 2);
    assert_eq!(cs.iter().count(), 2);
}

#[test]
fn from_edges_follows_first_edge() {
    let c = Cycle::from_edges(vec![[0, 1], [1, 2], [2, 0]]).unwrap();
    assert_eq!(walk(&c), vec![0, 1, 2]);
    let c = Cycle::from_edges(vec![[1, 0], [2, 1], [0, 2]]).unwrap();
    assert_eq!(walk(&c), vec![1, 0, 2]);
    let c = Cycle::from_edges(vec![[2, 3], [0, 1], [3, 0], [1, 2]]).unwrap();
    assert_eq!(walk(&c), vec![2, 3, 0, 1]);
}

#[test]
fn from_edges_pentagon_out_of_order() {
    let c = Cycle::from_edges(vec![[4, 0], [2, 1], [3, 4], [0, 1], [2, 3]]).unwrap();
    assert_eq!(walk(&c), vec![4, 0, 1, 2, 3]);
}
