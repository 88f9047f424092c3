use rhombic::extend::{next_layers, next_layers_simple, next_layers_simple_non_cyclic};
use rhombic::gaps::gap_assignments_simple;
use rhombic::interval::{duplicates_removed, layer_ok};
use rhombic::lattice::{bridge, lattice_from_faces, Face, Lattice};
use rhombic::search::{find_first_rhombic_strip, rhombic_strip_exists, rhombic_strips_dfs_simple};

fn face(dim: usize, upset: Vec<usize>, downset: Vec<usize>) -> Face {
    Face { label: format!("f{}", dim), dim, upset, downset }
}

/// Builds a lattice from (rank, covered faces) pairs, deriving the upsets.
fn build(spec: &[(usize, Vec<usize>)]) -> Lattice {
    let mut faces: Vec<Face> = spec.iter().map(|(d, down)| face(*d, vec![], down.clone())).collect();
    for (i, (_, down)) in spec.iter().enumerate() {
        for &j in down {
            faces[j].upset.push(i);
        }
    }
    lattice_from_faces(faces, vec![])
}

/// The square: vertices 0..4, edges 4..8, the polygon 8.
fn square() -> Lattice {
    build(&[
        (0, vec![]),
        (0, vec![]),
        (0, vec![]),
        (0, vec![]),
        (1, vec![0, 1]),
        (1, vec![1, 2]),
        (1, vec![2, 3]),
        (1, vec![3, 0]),
        (2, vec![4, 5, 6, 7]),
    ])
}

/// The tetrahedron's skeleton: vertices 0..4 and an edge for every pair.
fn tetra_skeleton() -> Lattice {
    build(&[
        (0, vec![]),
        (0, vec![]),
        (0, vec![]),
        (0, vec![]),
        (1, vec![0, 1]),
        (1, vec![0, 2]),
        (1, vec![0, 3]),
        (1, vec![1, 2]),
        (1, vec![1, 3]),
        (1, vec![2, 3]),
    ])
}

/// The face lattice of the 3-cube without its empty face: a face is a word
/// over {0, 1, *}, its rank the number of stars.
fn cube() -> Lattice {
    let mut words: Vec<[u8; 3]> = Vec::new();
    for a in 0..3u8 {
        for b in 0..3u8 {
            for c in 0..3u8 {
                words.push([a, b, c]);
            }
        }
    }
    let rank = |w: &[u8; 3]| w.iter().filter(|x| **x == 2).count();
    words.sort_by_key(|w| (rank(w), *w));
    let spec: Vec<(usize, Vec<usize>)> = words
        .iter()
        .map(|w| {
            let mut down = vec![];
            for (j, v) in words.iter().enumerate() {
                let diff: Vec<usize> = (0..3).filter(|k| w[*k] != v[*k]).collect();
                if diff.len() == 1 && w[diff[0]] == 2 {
                    down.push(j);
                }
            }
            (rank(w), down)
        })
        .collect();
    build(&spec)
}

#[test]
fn interval_property_linear_and_cyclic() {
    assert!(layer_ok(&vec![], false));
    assert!(layer_ok(&vec![1, 1, 2, 3, 3], false));
    assert!(!layer_ok(&vec![1, 2, 1], false));
    assert!(layer_ok(&vec![1, 2, 1], true));
    assert!(!layer_ok(&vec![1, 2, 1, 2], true));
    assert!(layer_ok(&vec![5, 5, 5], true));
}

#[test]
fn collapsing_repetitions() {
    assert_eq!(duplicates_removed(&vec![], false), Vec::<usize>::new());
    assert_eq!(duplicates_removed(&vec![1, 1, 2, 2, 1], false), vec![1, 2, 1]);
    assert_eq!(duplicates_removed(&vec![1, 1, 2, 2, 1], true), vec![1, 2]);
    assert_eq!(duplicates_removed(&vec![8, 8, 8], true), vec![8]);
}

#[test]
fn gap_assignments_forced_slot() {
    let sols = gap_assignments_simple(&vec![vec![1, 2], vec![2]], &vec![1, 2]);
    assert_eq!(sols, vec![vec![vec![2, 1], vec![]], vec![vec![1, 2], vec![]], vec![vec![1], vec![2]]]);
}

#[test]
fn gap_assignments_two_free_slots() {
    let sols = gap_assignments_simple(&vec![vec![1, 2], vec![1, 2]], &vec![1, 2]);
    assert_eq!(
        sols,
        vec![
            vec![vec![2, 1], vec![]],
            vec![vec![1, 2], vec![]],
            vec![vec![1], vec![2]],
            vec![vec![2], vec![1]],
            vec![vec![], vec![2, 1]],
            vec![vec![], vec![1, 2]],
        ]
    );
}

#[test]
fn gap_assignments_three_faces_once_each() {
    let sols = gap_assignments_simple(&vec![vec![1, 2, 3], vec![1, 2, 3]], &vec![1, 2, 3]);
    // Each face in one of two slots, any order in a slot: 4! = 24 layouts.
    assert_eq!(sols.len(), 24);
    let mut sorted = sols.clone();
    sorted.sort();
    sorted.dedup();
    assert_eq!(sorted.len(), 24);
}

#[test]
fn gap_assignments_edge_cases() {
    assert_eq!(gap_assignments_simple(&vec![vec![1], vec![]], &vec![]), vec![vec![vec![], vec![]]]);
    assert!(gap_assignments_simple(&vec![vec![1], vec![]], &vec![7]).is_empty());
}

#[test]
fn bridges_of_the_square() {
    let l = square();
    assert_eq!(bridge(&l.faces, 0, 1), Some(4));
    assert_eq!(bridge(&l.faces, 3, 0), Some(7));
    assert_eq!(bridge(&l.faces, 0, 2), None);
    assert_eq!(bridge(&l.faces, 1, 1), Some(4));
    assert_eq!(bridge(&l.faces, 8, 8), None);
    assert_eq!(l.bridges[1][1], None);
    assert!(next_layers(&vec![1, 1], &l, false).is_empty());
    assert_eq!(bridge(&l.faces, 4, 6), Some(8));
    assert_eq!(l.bridges[5][4], Some(8));
    assert_eq!(l.levels, vec![vec![0, 1, 2, 3], vec![4, 5, 6, 7], vec![8]]);
    assert_eq!(l.dim, 2);
}

#[test]
fn first_bridge_wins() {
    // Faces 2 and 3 both cover 0 and 1: the table keeps the first.
    let l = build(&[(0, vec![]), (0, vec![]), (1, vec![0, 1]), (1, vec![0, 1])]);
    assert_eq!(l.bridges[0][1], Some(2));
    assert_eq!(l.bridges[1][0], Some(2));
}

#[test]
fn next_layers_of_the_square() {
    let l = square();
    assert_eq!(next_layers_simple_non_cyclic(&vec![0, 1, 2, 3], &l), vec![vec![7, 4, 5, 6], vec![4, 5, 6, 7]]);
    assert_eq!(next_layers_simple(&vec![0, 1, 2, 3], &l), vec![vec![4, 5, 6, 7]]);
    assert_eq!(next_layers(&vec![7, 4, 5, 6], &l, false), vec![vec![8]]);
    assert!(next_layers(&vec![0, 2], &l, false).is_empty());
    assert!(next_layers(&vec![], &l, true).is_empty());
}

#[test]
fn next_layers_keep_the_interval_property() {
    let l = cube();
    for cyclic in [false, true] {
        for seed in l.ham_paths(cyclic) {
            for layer in next_layers(&seed, &l, cyclic) {
                assert!(layer_ok(&layer, cyclic));
            }
        }
    }
}

#[test]
fn strips_of_the_square() {
    let l = square();
    let strips = rhombic_strips_dfs_simple(vec![vec![0, 1, 2, 3]], &l, 2, false);
    assert_eq!(
        strips,
        vec![
            vec![vec![0, 1, 2, 3], vec![7, 4, 5, 6], vec![8]],
            vec![vec![0, 1, 2, 3], vec![4, 5, 6, 7], vec![8]],
        ]
    );
    let cyclic = rhombic_strips_dfs_simple(vec![vec![0, 1, 2, 3]], &l, 2, true);
    assert_eq!(cyclic, vec![vec![vec![0, 1, 2, 3], vec![4, 5, 6, 7], vec![8]]]);
    assert!(rhombic_strip_exists(&vec![0, 1, 2, 3], 0, &l, 2, false));
    assert_eq!(
        find_first_rhombic_strip(vec![vec![0, 1, 2, 3]], &l, 2, false),
        Some(vec![vec![0, 1, 2, 3], vec![7, 4, 5, 6], vec![8]])
    );
    assert!(!rhombic_strip_exists(&vec![0, 2], 0, &l, 2, false));
    assert_eq!(find_first_rhombic_strip(vec![vec![0, 2]], &l, 2, false), None);
}

#[test]
fn existence_agrees_with_enumeration() {
    let l = cube();
    for cyclic in [false, true] {
        for seed in l.ham_paths(cyclic) {
            let found = rhombic_strips_dfs_simple(vec![seed.clone()], &l, l.dim, cyclic);
            assert_eq!(rhombic_strip_exists(&seed, 0, &l, l.dim, cyclic), !found.is_empty());
        }
    }
}

#[test]
fn enumeration_is_repeatable() {
    let l = cube();
    let mut other = cube();
    for f in other.faces.iter_mut() {
        f.label = String::from("relabelled");
    }
    for seed in l.ham_paths(false) {
        let mut a = rhombic_strips_dfs_simple(vec![seed.clone()], &l, l.dim, false);
        let mut b = rhombic_strips_dfs_simple(vec![seed.clone()], &other, other.dim, false);
        assert_eq!(a, b);
        a.sort();
        b.sort();
        assert_eq!(a, b);
    }
}

#[test]
fn seeds_of_a_complete_graph() {
    let l = tetra_skeleton();
    let cycles = l.ham_paths(true);
    assert_eq!(cycles, vec![vec![0, 1, 2, 3], vec![0, 1, 3, 2], vec![0, 2, 1, 3]]);
    let paths = l.ham_paths(false);
    assert_eq!(paths.len(), 12);
    for p in &paths {
        assert!(p[0] <= p[3]);
    }
    let mut sorted = paths.clone();
    sorted.sort();
    sorted.dedup();
    assert_eq!(sorted.len(), 12);
}

#[test]
fn seeds_of_the_square() {
    let l = square();
    assert_eq!(l.ham_paths(false), vec![vec![0, 1, 2, 3], vec![0, 3, 2, 1], vec![1, 0, 3, 2], vec![2, 1, 0, 3]]);
    assert_eq!(l.ham_paths(true), vec![vec![0, 1, 2, 3]]);
}

#[test]
fn cube_strip_count() {
    let l = cube();
    assert_eq!(l.dim, 3);
    let seeds = l.ham_paths(false);
    assert_eq!(seeds.len(), 72);
    let total: usize = seeds.iter().map(|s| rhombic_strips_dfs_simple(vec![s.clone()], &l, l.dim, false).len()).sum();
    assert_eq!(total, 672);
}

#[test]
fn single_face_lattice() {
    let l = lattice_from_faces(vec![face(0, vec![], vec![])], vec![]);
    assert_eq!(l.dim, 0);
    for cyclic in [false, true] {
        let seeds = l.ham_paths(cyclic);
        assert_eq!(seeds, vec![vec![0]]);
        let strips = rhombic_strips_dfs_simple(vec![seeds[0].clone()], &l, l.dim, cyclic);
        assert_eq!(strips, vec![vec![vec![0]]]);
        assert!(rhombic_strip_exists(&seeds[0], 0, &l, l.dim, cyclic));
    }
}

#[test]
fn empty_lattice_has_no_seed() {
    let l = lattice_from_faces(vec![], vec![]);
    assert_eq!(l.dim, 0);
    assert!(l.ham_paths(false).is_empty());
    assert!(l.ham_paths(true).is_empty());
}
