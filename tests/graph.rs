use rhombic::graph::{is_above, lattice_from_graph, subsets, Graph};

fn path_graph() -> Graph {
    Graph { vertices: vec![0, 1, 2], edges: vec![[0, 1], [1, 2]], tubes: None }
}

#[test]
fn connectivity() {
    let g = path_graph();
    assert!(!g.is_connected(&vec![]));
    assert!(g.is_connected(&vec![2]));
    assert!(g.is_connected(&vec![0, 1, 2]));
    assert!(g.is_connected(&vec![2, 1]));
    assert!(!g.is_connected(&vec![0, 2]));
}

#[test]
fn proper_subsets_in_order() {
    assert_eq!(
        subsets(&vec![0, 1, 2]),
        vec![vec![], vec![0], vec![1], vec![2], vec![0, 1], vec![0, 2], vec![1, 2]]
    );
    assert_eq!(subsets(&vec![]), Vec::<Vec<usize>>::new());
}

#[test]
fn tube_order() {
    assert!(is_above(&vec![1], &vec![1, 2]));
    assert!(!is_above(&vec![0], &vec![1, 2]));
    assert!(!is_above(&vec![1], &vec![1]));
    assert!(!is_above(&vec![], &vec![]));
}

#[test]
fn tubes_of_a_path() {
    let mut g = path_graph();
    g.find_tubes();
    assert_eq!(g.tubes, Some(vec![vec![0], vec![1], vec![2], vec![0, 1], vec![1, 2]]));
    let given = Some(vec![vec![7]]);
    let mut h = Graph { vertices: vec![0, 1], edges: vec![[0, 1]], tubes: given.clone() };
    h.find_tubes();
    assert_eq!(h.tubes, given);
}

#[test]
fn cycles_of_a_triangle() {
    let g = Graph { vertices: vec![0, 1, 2], edges: vec![[0, 1], [1, 2], [2, 0]], tubes: None };
    assert_eq!(g.ham_cycles(), vec![vec![0, 1, 2], vec![0, 2, 1]]);
    assert!(path_graph().ham_cycles().is_empty());
    let none = Graph { vertices: vec![], edges: vec![], tubes: None };
    assert!(none.ham_cycles().is_empty());
}

#[test]
fn lattice_of_a_triangle() {
    let mut g = Graph { vertices: vec![0, 1, 2], edges: vec![[0, 1], [1, 2], [2, 0]], tubes: None };
    let l = lattice_from_graph(&mut g);
    let tubes = g.tubes.clone().unwrap();
    assert_eq!(tubes, vec![vec![0], vec![1], vec![2], vec![0, 1], vec![0, 2], vec![1, 2]]);
    assert_eq!(l.faces.len(), 6);
    assert_eq!(l.faces[0].label, "[0]");
    assert_eq!(l.faces[4].label, "[0, 2]");
    assert_eq!(l.faces[0].upset, vec![3, 4]);
    assert_eq!(l.faces[5].downset, vec![1, 2]);
    assert_eq!(l.faces[5].dim, 1);
    assert_eq!(l.levels, vec![vec![0, 1, 2], vec![3, 4, 5]]);
    assert_eq!(l.dim, 1);
    assert_eq!(l.bridges[0][1], Some(3));
    assert_eq!(l.ham_cycles, vec![vec![0, 1, 2], vec![0, 2, 1]]);
}

#[test]
fn labels_of_larger_ids() {
    let mut g = Graph { vertices: vec![10, 2], edges: vec![[10, 2]], tubes: None };
    let l = lattice_from_graph(&mut g);
    assert_eq!(l.faces[0].label, "[10]");
    assert_eq!(l.faces[1].label, "[2]");
    assert_eq!(l.ham_cycles, vec![vec![0, 1]]);
}
