use pentominoes::dlink::{DancingMatrix, DancingNode, LinkedNode};
use pentominoes::pentomino::{Pentomino, Point};
use pentominoes::solution::{
    convertSolutions, first_unused, generateNRandomAscii, removeIsometric, solution_points, symbol_for,
};
use pentominoes::solve::{generatePlacements, solve};

fn piece(cells: &[(usize, usize)], c: u8) -> Pentomino {
    let system: Vec<Point> = cells.iter().map(|&(x, y)| (x, y, c)).collect();
    Pentomino::newFromSystem(system)
}

#[test]
fn random_letters_are_distinct_upper_case() {
    let mut used = vec![b'Q'];
    generateNRandomAscii(5, &mut used);
    assert_eq!(used.len(), 6);
    assert_eq!(used[0], b'Q');
    for i in 0..used.len() {
        assert!(used[i].is_ascii_uppercase());
        for j in 0..i {
            assert_ne!(used[i], used[j]);
        }
    }
}

#[test]
fn symbol_choice_upper_cases_and_skips_used() {
    assert_eq!(symbol_for('a', &vec![]), Some(b'A'));
    assert_eq!(symbol_for('Z', &vec![]), Some(b'Z'));
    assert_eq!(symbol_for('a', &vec![b'A']), None);
    assert_eq!(symbol_for('7', &vec![]), None);
    assert_eq!(symbol_for('é', &vec![]), None);
    assert_eq!(first_unused(&vec![b'A', b'B']), b'C');
}

#[test]
fn solutions_become_drawings() {
    let board = piece(&[(0, 0), (1, 0), (0, 1), (1, 1)], b'#');
    let domino = piece(&[(0, 0), (1, 0)], b'#');
    let pieces = vec![domino.clone(), domino];
    let (columns, placements) = generatePlacements(&board, &pieces, false, false);
    let (_, sols) = solve(&placements, &columns, 0);
    let pts = solution_points(&board, &sols[0], &placements, 2, &vec![b'A', b'B']);
    assert_eq!(pts.len(), 4);
    let boards = convertSolutions(&board, &sols, &placements, 2);
    assert_eq!(boards.len(), 2);
    for b in &boards {
        assert_eq!((b.dimX, b.dimY), (2, 2));
        let top = b.get(0, 0).to_ascii();
        assert_eq!(b.get(1, 0).to_ascii(), top);
        assert_ne!(b.get(0, 1).to_ascii(), top);
    }
}

#[test]
fn isometric_drawings_are_dropped() {
    let a = Pentomino::newFromSystem(vec![(0, 0, b'A'), (1, 0, b'A'), (0, 1, b'B'), (1, 1, b'B')]);
    let b = Pentomino::newFromSystem(vec![(0, 0, b'B'), (1, 0, b'B'), (0, 1, b'A'), (1, 1, b'A')]);
    let c = Pentomino::newFromSystem(vec![(0, 0, b'A'), (1, 0, b'B'), (0, 1, b'A'), (1, 1, b'B')]);
    let mut boards = vec![a, b];
    removeIsometric(&mut boards);
    assert_eq!(boards.len(), 1);
    let d = Pentomino::newFromSystem(vec![(0, 0, b'A'), (1, 0, b'C'), (0, 1, b'A'), (1, 1, b'C')]);
    let mut others = vec![c, d];
    removeIsometric(&mut others);
    assert_eq!(others.len(), 2);
}

#[test]
fn header_and_row_listings() {
    let mut m = DancingMatrix::new(3);
    let mut v = vec![DancingNode::EmptyNode; 4];
    v[2] = DancingNode::InnerNode(LinkedNode::new(0, 0, 0, 0), 2);
    m.insert(v);
    assert_eq!(m.iterHeader(), vec![1, 2, 3]);
    assert_eq!(m.iterRows(), vec![1]);
    m.coverCol(2);
    assert_eq!(m.iterHeader(), vec![1, 3]);
    m.uncoverCol(2);
    assert_eq!(m.iterHeader(), vec![1, 2, 3]);
}

#[test]
fn empty_solution_still_gives_a_drawing() {
    let board = piece(&[(0, 0), (1, 0)], b'#');
    let domino = piece(&[(0, 0), (1, 0)], b'#');
    let (_, placements) = generatePlacements(&board, &vec![domino], false, false);
    let boards = convertSolutions(&board, &vec![vec![], vec![0]], &placements, 1);
    assert_eq!(boards.len(), 2);
    assert_eq!((boards[0].dimX, boards[0].dimY, boards[0].size()), (1, 1, 0));
    assert_eq!((boards[1].dimX, boards[1].dimY, boards[1].size()), (2, 1, 2));
}

#[test]
fn first_board_of_each_class_is_kept() {
    let a = Pentomino::newFromSystem(vec![(0, 0, b'A'), (1, 0, b'B')]);
    let b = Pentomino::newFromSystem(vec![(0, 0, b'B'), (1, 0, b'A')]);
    let c = Pentomino::newFromSystem(vec![(0, 0, b'C'), (1, 0, b'C')]);
    let d = Pentomino::newFromSystem(vec![(0, 0, b'A'), (0, 1, b'B')]);
    let mut boards = vec![a.clone(), c.clone(), b, d];
    removeIsometric(&mut boards);
    assert_eq!(boards.len(), 2);
    assert!(boards[0] == c);
    assert!(boards[1] == a);
}
