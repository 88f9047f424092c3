use rhombic::files::{graph_from_line, lattice_from_text, LatticeFileError};
use rhombic::graph::{single_edge_from_zero, Graph};
use rhombic::lattice::{lattice_from_faces, Face};
use rhombic::sequence::layers_to_sequence;
use rhombic::text::{parse_decimal, split_text};

fn chars(s: &str) -> Vec<char> {
    s.chars().collect()
}

const SQUARE: &str = "0: v0 {4, 7}, {}\n0: v1 {4, 5}, {}\n0: v2 {5, 6}, {}\n0: v3 {6, 7}, {}\n1: a {8}, {0, 1}\n1: b {8}, {1, 2}\n1: c {8}, {2, 3}\n1: d {8}, {3, 0}\n2: sq {}, {4, 5, 6, 7}\n[0, 1, 2, 3]\n";

#[test]
fn decimal_numbers() {
    assert_eq!(parse_decimal(&chars("0")), Some(0));
    assert_eq!(parse_decimal(&chars("+42")), Some(42));
    assert_eq!(parse_decimal(&chars("18446744073709551615")), Some(usize::MAX));
    assert_eq!(parse_decimal(&chars("18446744073709551616")), None);
    assert_eq!(parse_decimal(&chars("")), None);
    assert_eq!(parse_decimal(&chars("+")), None);
    assert_eq!(parse_decimal(&chars("4a")), None);
    assert_eq!(parse_decimal(&chars("-1")), None);
}

#[test]
fn splitting_text() {
    let pieces = split_text(&chars("1, 2, 3"), &chars(", "));
    assert_eq!(pieces, vec![chars("1"), chars("2"), chars("3")]);
    assert_eq!(split_text(&chars(""), &chars(", ")), vec![chars("")]);
    assert_eq!(split_text(&chars("a{b{"), &chars("{")), vec![chars("a"), chars("b"), chars("")]);
}

#[test]
fn lattice_file_of_the_square() {
    let l = lattice_from_text(&chars(SQUARE)).unwrap();
    assert_eq!(l.faces.len(), 9);
    assert_eq!(l.faces[0].label, "v0 {4, 7}, {}");
    assert_eq!(l.faces[0].upset, vec![4, 7]);
    assert!(l.faces[0].downset.is_empty());
    assert_eq!(l.faces[8].dim, 2);
    assert!(l.faces[8].upset.is_empty());
    assert_eq!(l.faces[8].downset, vec![4, 5, 6, 7]);
    assert_eq!(l.levels, vec![vec![0, 1, 2, 3], vec![4, 5, 6, 7], vec![8]]);
    assert_eq!(l.ham_cycles, vec![vec![0, 1, 2, 3]]);
    assert_eq!(l.bridges[0][1], Some(4));
}

#[test]
fn lattice_file_with_crlf_and_no_seed() {
    let l = lattice_from_text(&chars("0: a {}, {}\r\n0: b {}, {}")).unwrap();
    assert_eq!(l.faces.len(), 2);
    assert_eq!(l.faces[1].label, "b {}, {}");
    assert_eq!(l.ham_cycles, vec![Vec::<usize>::new()]);
}

#[test]
fn lattice_file_errors() {
    assert_eq!(lattice_from_text(&chars("")).unwrap_err(), LatticeFileError::NoFaces);
    assert_eq!(lattice_from_text(&chars("[0, 1]\n")).unwrap_err(), LatticeFileError::NoFaces);
    assert_eq!(lattice_from_text(&chars("0: a {}, {}\nx: b {}, {}\n")).unwrap_err(), LatticeFileError::Malformed(1));
    assert_eq!(lattice_from_text(&chars("0: a {}, {}\n\n")).unwrap_err(), LatticeFileError::Malformed(1));
    assert_eq!(lattice_from_text(&chars("0: a {1, z}, {}\n")).unwrap_err(), LatticeFileError::Malformed(0));
    assert_eq!(lattice_from_text(&chars("0: a\n")).unwrap_err(), LatticeFileError::Malformed(0));
    assert_eq!(lattice_from_text(&chars("[]\n0: a {}, {}\n")).unwrap_err(), LatticeFileError::Malformed(0));
    assert_eq!(
        lattice_from_text(&chars("18446744073709551615: a {}, {}\n")).unwrap_err(),
        LatticeFileError::RankTooLarge
    );
}

#[test]
fn edge_list_lines() {
    let g = graph_from_line(&chars("[(0, 1), (1, 2), (2, 0)]")).unwrap();
    assert_eq!(g.edges, vec![[0, 1], [1, 2], [2, 0]]);
    assert_eq!(g.vertices, vec![0, 1, 2]);
    assert!(g.tubes.is_none());
    let h = graph_from_line(&chars("[(3, 1), (1, 0)]")).unwrap();
    assert_eq!(h.vertices, vec![3, 1, 0]);
    assert!(graph_from_line(&chars("[(0, 1), (1)]")).is_none());
    assert!(graph_from_line(&chars("[()]")).is_none());
    assert!(graph_from_line(&chars("[]")).is_none());
}

#[test]
fn edges_from_zero() {
    let g = Graph { vertices: vec![0, 1, 2], edges: vec![[0, 1], [1, 2]], tubes: None };
    assert!(single_edge_from_zero(&g));
    let h = Graph { vertices: vec![0, 1, 2], edges: vec![[0, 1], [0, 2]], tubes: None };
    assert!(!single_edge_from_zero(&h));
    let k = Graph { vertices: vec![0, 1], edges: vec![[1, 0]], tubes: None };
    assert!(!single_edge_from_zero(&k));
}

#[test]
fn moves_of_a_square_strip() {
    let l = lattice_from_text(&chars(SQUARE)).unwrap();
    let strip = vec![vec![0, 1, 2, 3], vec![4, 5, 6, 7], vec![8]];
    assert_eq!(layers_to_sequence(&strip, &l), vec![0, 1, 0, 1, 0, 1, 0, 1, 2]);
    let single = lattice_from_faces(vec![Face { label: String::new(), dim: 0, upset: vec![], downset: vec![] }], vec![]);
    assert_eq!(layers_to_sequence(&vec![vec![0]], &single), vec![0]);
    assert_eq!(layers_to_sequence(&vec![], &single), Vec::<usize>::new());
}
