use canonical::coloring::{Coloring, ReversibleColoring};

/// Builds a reversible coloring over `{0, …, n-1}` with the given cells, each
/// listed with its members.
fn rc(n: usize, cells: &[&[usize]]) -> ReversibleColoring {
    let mut key = vec![0u64; n];
    for (ci, cell) in cells.iter().enumerate() {
        for &e in *cell {
            key[e] = ci as u64;
        }
    }
    ReversibleColoring::from_coloring(Coloring::from_map(&key))
}

#[test]
fn individualize_01() {
    let mut coloring = rc(1, &[&[0]]);
    coloring.individualize(&0);
    assert_eq!(coloring, rc(1, &[&[0]]))
}

#[test]
fn deindividualize_01() {
    let mut coloring = rc(1, &[&[0]]);
    coloring.deindividualize(&0);
    assert_eq!(coloring, rc(1, &[&[0]]))
}

#[test]
fn individualize_02() {
    let mut coloring = rc(2, &[&[0, 1]]);
    coloring.individualize(&0);
    assert_eq!(coloring, rc(2, &[&[0], &[1]]))
}

#[test]
fn deindividualize_02() {
    let mut coloring = rc(2, &[&[0], &[1]]);
    coloring.deindividualize(&0);
    assert_eq!(coloring, rc(2, &[&[0, 1]]))
}

#[test]
fn individualize_03() {
    let mut coloring = rc(2, &[&[0, 1]]);
    coloring.individualize(&1);
    assert_eq!(coloring, rc(2, &[&[1], &[0]]))
}

#[test]
fn deindividualize_03() {
    let mut coloring = rc(2, &[&[1], &[0]]);
    coloring.deindividualize(&1);
    assert_eq!(coloring, rc(2, &[&[0, 1]]))
}

#[test]
fn individualize_04() {
    let mut coloring = rc(3, &[&[0, 1, 2]]);
    coloring.individualize(&0);
    assert_eq!(coloring, rc(3, &[&[0], &[1, 2]]))
}

#[test]
fn deindividualize_04() {
    let mut coloring = rc(3, &[&[0], &[1, 2]]);
    coloring.deindividualize(&0);
    assert_eq!(coloring, rc(3, &[&[0, 1, 2]]))
}

#[test]
fn individualize_05() {
    let mut coloring = rc(3, &[&[0, 1, 2]]);
    coloring.individualize(&1);
    assert_eq!(coloring, rc(3, &[&[1], &[0, 2]]))
}

#[test]
fn deindividualize_05() {
    let mut coloring = rc(3, &[&[1], &[0, 2]]);
    coloring.deindividualize(&1);
    assert_eq!(coloring, rc(3, &[&[0, 1, 2]]))
}

#[test]
fn individualize_06() {
    let mut coloring = rc(3, &[&[0, 1, 2]]);
    coloring.individualize(&2);
    assert_eq!(coloring, rc(3, &[&[2], &[0, 1]]))
}

#[test]
fn deindividualize_06() {
    let mut coloring = rc(3, &[&[2], &[0, 1]]);
    coloring.deindividualize(&2);
    assert_eq!(coloring, rc(3, &[&[0, 1, 2]]))
}

#[test]
fn refine_01() {
    let mut coloring = rc(3, &[&[0, 1, 2]]);
    coloring.refine(&vec![0, 1, 2]);
    assert_eq!(coloring, rc(3, &[&[0], &[1], &[2]]))
}

#[test]
fn refine_02() {
    let mut coloring = rc(3, &[&[0, 1, 2]]);
    coloring.refine(&vec![0, 0, 1]);
    assert_eq!(coloring, rc(3, &[&[0, 1], &[2]]))
}

#[test]
fn refine_03() {
    let mut coloring = rc(3, &[&[0, 1, 2]]);
    coloring.refine(&vec![1, 1, 0]);
    assert_eq!(coloring, rc(3, &[&[2], &[0, 1]]))
}

#[test]
fn refine_04() {
    let mut coloring = rc(4, &[&[0, 1], &[2, 3]]);
    coloring.refine(&vec![0, 1, 0, 1]);
    assert_eq!(coloring, rc(4, &[&[0], &[1], &[2], &[3]]))
}

#[test]
fn refine_05() {
    let mut coloring = rc(4, &[&[0, 1], &[2, 3]]);
    coloring.refine(&vec![0, 1, 2, 2]);
    assert_eq!(coloring, rc(4, &[&[0], &[1], &[2, 3]]))
}

#[test]
fn make_equitable_01() {
    let mut coloring = rc(3, &[&[0], &[1, 2]]);
    coloring.make_equitable(&vec![vec![1], vec![0], vec![]]);
    assert_eq!(coloring, rc(3, &[&[0], &[2], &[1]]))
}

/// The cells of a coloring, read back through the public accessors.
fn cells_of(c: &ReversibleColoring) -> Vec<Vec<usize>> {
    let mut out = Vec::new();
    let mut colors = c.coloring.colors();
    while let Some(cell) = colors.next() {
        out.push(cell);
    }
    out
}

#[test]
fn from_map_groups_by_key() {
    let c = Coloring::from_map(&vec![5, 9, 5, 1]);
    let rc = ReversibleColoring::from_coloring(c);
    assert_eq!(cells_of(&rc), vec![vec![3], vec![0, 2], vec![1]]);
    assert_eq!(rc.len(), 3);
}

#[test]
fn unit_and_discrete() {
    let c = ReversibleColoring::new(3);
    assert!(c.coloring.is_unit());
    assert!(!c.coloring.is_discrete());
    let mut d = rc(2, &[&[0], &[1]]);
    assert!(d.coloring.is_discrete());
    assert!(d.as_permutation().is_some());
    assert!(!d.individualize(&0));
    let u = rc(3, &[&[0, 1, 2]]);
    assert!(u.as_permutation().is_none());
}

#[test]
fn reverse_index_matches_cells() {
    let c = rc(4, &[&[1, 3], &[0, 2]]);
    assert_eq!(c.color_index_of(&1), Some(0));
    assert_eq!(c.color_index_of(&3), Some(0));
    assert_eq!(c.color_index_of(&0), Some(1));
    assert_eq!(c.color_index_of(&2), Some(1));
    assert_eq!(c.color_index_of(&4), None);
    assert_eq!(c.coloring.color_index_of(&2), Some(1));
    assert_eq!(c.coloring.color_start(1), Some(2));
    assert_eq!(c.coloring.get(0).unwrap(), &[1, 3]);
    assert_eq!(c.coloring.get(2), None);
}

/// A scoped individualization and refinement, undone by one restore, returns
/// the coloring to its starting state.
#[test]
fn scoped_restore_is_identity() {
    let mut c = rc(5, &[&[0, 1, 2, 3, 4]]);
    let before = rc(5, &[&[0, 1, 2, 3, 4]]);
    c.begin();
    c.individualize(&2);
    c.refine(&vec![0, 1, 0, 1, 0]);
    c.restore(1);
    assert_eq!(c, before);
    assert_eq!(c.color_index_of(&4), Some(0));
}

/// Individualize followed by deindividualize is the identity when the
/// individualization split a cell.
#[test]
fn individualize_roundtrip() {
    let mut c = rc(5, &[&[0, 2, 4], &[1, 3]]);
    let before = rc(5, &[&[0, 2, 4], &[1, 3]]);
    assert!(c.individualize(&2));
    assert!(c.deindividualize(&2));
    assert_eq!(c, before);
    assert_eq!(c.color_index_of(&2), Some(0));
}

/// Counts the neighbors of `u` lying in cell `d` of the coloring.
fn degree_into(c: &ReversibleColoring, neighbors: &Vec<Vec<usize>>, u: usize, d: usize) -> usize {
    neighbors[u].iter().filter(|v| c.color_index_of(v) == Some(d)).count()
}

/// After make_equitable, any two elements of one cell have the same number of
/// neighbors in every cell.
#[test]
fn make_equitable_is_equitable() {
    // A path 0 - 1 - 2 - 3 - 4 plus the edge 0 - 5.
    let neighbors = vec![
        vec![1, 5],
        vec![0, 2],
        vec![1, 3],
        vec![2, 4],
        vec![3],
        vec![0],
    ];
    let mut c = rc(6, &[&[0, 1, 2, 3, 4, 5]]);
    c.make_equitable(&neighbors);
    let cells = cells_of(&c);
    for cell in &cells {
        for d in 0..cells.len() {
            let expected = degree_into(&c, &neighbors, cell[0], d);
            for &u in cell {
                assert_eq!(degree_into(&c, &neighbors, u, d), expected);
            }
        }
    }
}

/// make_equitable is idempotent: a second call leaves the coloring unchanged.
#[test]
fn make_equitable_idempotent() {
    let neighbors = vec![
        vec![1, 5],
        vec![0, 2],
        vec![1, 3],
        vec![2, 4],
        vec![3],
        vec![0],
    ];
    let mut c = rc(6, &[&[0, 1, 2, 3, 4, 5]]);
    c.make_equitable(&neighbors);
    let once = cells_of(&c);
    c.make_equitable(&neighbors);
    assert_eq!(cells_of(&c), once);
}

/// The worklist discipline of refine_with: for a split cell, all but the
/// last sub-cell index are appended and the last replaces the cell's
/// pre-existing entry or is appended; an unsplit cell — even one whose index
/// shifted — adds nothing.
#[test]
fn refine_with_worklist_discipline() {
    // Cell {0,1,2,3} splits into {0,1} and {2,3}; the entry naming cell 0 is
    // rewritten to the last sub-cell's index 1, and index 0 is appended.
    let mut c = rc(4, &[&[0, 1, 2, 3]]);
    let mut wl = vec![0usize];
    assert!(c.refine_with(&mut wl, &vec![0, 0, 1, 1]));
    assert_eq!(wl, vec![1, 0]);

    // Cell {0,1,2} splits into {0} and {1,2}; the singleton {3} shifts from
    // index 1 to 2 without splitting, so its entry stays as it was.
    let mut c = rc(4, &[&[0, 1, 2], &[3]]);
    let mut wl = vec![1usize];
    assert!(c.refine_with(&mut wl, &vec![0, 1, 1, 5]));
    assert_eq!(wl, vec![1, 0, 1]);
}

#[test]
fn finer_or_equal() {
    let coarse = rc(4, &[&[0, 1, 2, 3]]);
    let fine = rc(4, &[&[0, 2], &[1, 3]]);
    assert!(fine.is_finer_or_equal_to(&coarse));
    assert!(coarse.is_finer_or_equal_to(&coarse));
    assert!(!coarse.is_finer_or_equal_to(&fine));
}
