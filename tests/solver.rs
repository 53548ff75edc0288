use pentominoes::pentomino::{Pentomino, Point};
use pentominoes::solve::{generatePlacements, permutationExists, solve, Placement};

fn piece(cells: &[(usize, usize)], c: u8) -> Pentomino {
    let system: Vec<Point> = cells.iter().map(|&(x, y)| (x, y, c)).collect();
    Pentomino::newFromSystem(system)
}

fn rect(w: usize, h: usize) -> Pentomino {
    let mut cells = Vec::new();
    for y in 0..h {
        for x in 0..w {
            cells.push((x, y));
        }
    }
    piece(&cells, b'#')
}

fn run(board: &Pentomino, pieces: &Vec<Pentomino>, rot: bool, refl: bool, max: usize) -> (usize, Vec<Vec<usize>>) {
    let (columns, placements) = generatePlacements(board, pieces, rot, refl);
    solve(&placements, &columns, max)
}

#[test]
fn one_cell_board_one_cell_piece_has_one_solution() {
    let board = rect(1, 1);
    let pieces = vec![piece(&[(0, 0)], b'#')];
    let (columns, placements) = generatePlacements(&board, &pieces, true, true);
    assert_eq!(placements.len(), 1);
    assert_eq!(columns, vec![(true, 1), (true, 1)]);
    let (n, sols) = solve(&placements, &columns, 0);
    assert_eq!(n, 1);
    assert_eq!(sols, vec![vec![0]]);
}

#[test]
fn piece_too_large_gives_no_rows_and_no_solution() {
    let board = rect(2, 1);
    let pieces = vec![piece(&[(0, 0), (1, 0), (2, 0)], b'#')];
    let (columns, placements) = generatePlacements(&board, &pieces, true, true);
    assert_eq!(placements.len(), 0);
    assert_eq!(columns, vec![(true, 0), (false, 0), (false, 0)]);
    let (n, _) = run(&board, &pieces, true, true, 0);
    assert_eq!(n, 0);
}

#[test]
fn two_dominoes_tile_a_square_four_ways_with_rotations() {
    let board = rect(2, 2);
    let domino = piece(&[(0, 0), (1, 0)], b'#');
    let pieces = vec![domino.clone(), domino];
    let (n, sols) = run(&board, &pieces, true, false, 0);
    assert_eq!(n, 4);
    assert_eq!(sols.len(), 4);
    for s in &sols {
        assert_eq!(s.len(), 2);
    }
}

#[test]
fn two_dominoes_tile_a_square_two_ways_without_rotations() {
    let board = rect(2, 2);
    let domino = piece(&[(0, 0), (1, 0)], b'#');
    let pieces = vec![domino.clone(), domino];
    let (n, _) = run(&board, &pieces, false, false, 0);
    assert_eq!(n, 2);
}

#[test]
fn reflections_of_symmetric_piece_add_no_rows() {
    let board = rect(3, 2);
    let pieces = vec![piece(&[(0, 0), (1, 0), (2, 0)], b'#')];
    let (_, without) = generatePlacements(&board, &pieces, true, false);
    let (_, with) = generatePlacements(&board, &pieces, true, true);
    assert_eq!(without.len(), 2);
    assert_eq!(with.len(), without.len());
    for i in 0..with.len() {
        for j in 0..with.len() {
            if i != j {
                assert!(with[i].filled() != with[j].filled());
            }
        }
    }
}

#[test]
fn uncoverable_cell_reports_nothing() {
    let board = rect(2, 1);
    let pieces = vec![piece(&[(0, 0)], b'#')];
    let (n, sols) = run(&board, &pieces, true, true, 0);
    assert_eq!(n, 0);
    assert!(sols.is_empty());
}

#[test]
fn solution_bound_stops_the_search() {
    let board = rect(2, 2);
    let domino = piece(&[(0, 0), (1, 0)], b'#');
    let pieces = vec![domino.clone(), domino];
    let (n, sols) = run(&board, &pieces, true, false, 1);
    assert_eq!(n, 1);
    assert_eq!(sols.len(), 1);
}

#[test]
fn obstacle_cells_reject_placements() {
    let board = Pentomino::newFromSystem(vec![(0, 0, b'#'), (1, 0, b'X'), (2, 0, b'#'), (3, 0, b'#')]);
    let pieces = vec![piece(&[(0, 0), (1, 0)], b'#')];
    let (columns, placements) = generatePlacements(&board, &pieces, false, false);
    assert_eq!(placements.len(), 1);
    assert_eq!(placements[0].filled(), &vec![0, 3, 4]);
    assert_eq!(columns[2], (false, 0));
    let (n, sols) = solve(&placements, &columns, 0);
    assert_eq!(n, 1);
    assert_eq!(sols, vec![vec![0]]);
    let two = vec![pieces[0].clone(), pieces[0].clone()];
    let (n2, _) = run(&board, &two, false, false, 0);
    assert_eq!(n2, 0);
}

#[test]
fn obstacle_cells_are_left_out_of_the_cover() {
    let board = Pentomino::newFromSystem(vec![(0, 0, b'#'), (1, 0, b'#'), (2, 0, b'X')]);
    let pieces = vec![piece(&[(0, 0), (1, 0)], b'#')];
    let (n, sols) = run(&board, &pieces, true, true, 0);
    assert_eq!(n, 1);
    assert_eq!(sols, vec![vec![0]]);
}

#[test]
fn placement_lookup_by_filled_columns() {
    let a = Placement::new(vec![0, 2], vec![true, false, true]);
    let b = Placement::new(vec![0, 1], vec![true, true, false]);
    let all = vec![b];
    assert!(!permutationExists(&a, &all));
    let c = Placement::new(vec![0, 2], vec![true, false, true]);
    let all2 = vec![c];
    assert!(permutationExists(&a, &all2));
    assert_eq!(a.inner(), &vec![true, false, true]);
}

#[test]
fn exact_covers_fill_every_cell_once() {
    let board = rect(3, 2);
    let l = piece(&[(0, 0), (0, 1), (1, 1)], b'#');
    let pieces = vec![l.clone(), l];
    let (columns, placements) = generatePlacements(&board, &pieces, true, true);
    let (n, sols) = solve(&placements, &columns, 0);
    assert!(n > 0);
    for s in &sols {
        let mut hits = vec![0usize; columns.len()];
        for &p in s {
            for &c in placements[p].filled() {
                hits[c] += 1;
            }
        }
        assert!(hits.iter().all(|&h| h == 1));
    }
}

fn sets(sols: &Vec<Vec<usize>>) -> Vec<Vec<usize>> {
    let mut out: Vec<Vec<usize>> = sols
        .iter()
        .map(|s| {
            let mut v = s.clone();
            v.sort();
            v
        })
        .collect();
    out.sort();
    out
}

#[test]
fn generator_rows_for_two_dominoes_on_a_square() {
    let board = rect(2, 2);
    let domino = piece(&[(0, 0), (1, 0)], b'#');
    let pieces = vec![domino.clone(), domino];
    let (columns, placements) = generatePlacements(&board, &pieces, false, false);
    let lists: Vec<Vec<usize>> = placements.iter().map(|p| p.filled().clone()).collect();
    assert_eq!(lists, vec![vec![0, 2, 3], vec![0, 4, 5], vec![1, 2, 3], vec![1, 4, 5]]);
    assert_eq!(columns, vec![(true, 2); 6]);
    let (n, sols) = solve(&placements, &columns, 0);
    assert_eq!(n, 2);
    assert_eq!(sets(&sols), vec![vec![0, 3], vec![1, 2]]);
}

#[test]
fn mirror_image_of_a_symmetric_domino_adds_no_row() {
    let board = rect(2, 2);
    let domino = piece(&[(0, 0), (1, 0)], b'#');
    let (columns, placements) = generatePlacements(&board, &vec![domino], false, true);
    let lists: Vec<Vec<usize>> = placements.iter().map(|p| p.filled().clone()).collect();
    assert_eq!(lists, vec![vec![0, 1, 2], vec![0, 3, 4]]);
    assert_eq!(columns, vec![(true, 2), (true, 1), (true, 1), (true, 1), (true, 1)]);
}

#[test]
fn all_four_domino_tilings_are_reported_once() {
    let board = rect(2, 2);
    let domino = piece(&[(0, 0), (1, 0)], b'#');
    let pieces = vec![domino.clone(), domino];
    let (columns, placements) = generatePlacements(&board, &pieces, true, false);
    assert_eq!(placements.len(), 8);
    let (n, sols) = solve(&placements, &columns, 0);
    assert_eq!(n, 4);
    let s = sets(&sols);
    for i in 0..s.len() {
        for j in 0..i {
            assert_ne!(s[i], s[j]);
        }
    }
}

#[test]
fn bound_is_reached_when_enough_covers_exist() {
    let board = rect(2, 2);
    let domino = piece(&[(0, 0), (1, 0)], b'#');
    let pieces = vec![domino.clone(), domino];
    let (n, _) = run(&board, &pieces, true, false, 3);
    assert_eq!(n, 3);
    let (n, _) = run(&board, &pieces, true, false, 9);
    assert_eq!(n, 4);
}

#[test]
fn domino_on_one_cell_board_has_no_solution() {
    let board = rect(1, 1);
    let pieces = vec![piece(&[(0, 0), (1, 0)], b'#')];
    let (columns, placements) = generatePlacements(&board, &pieces, true, true);
    assert!(placements.is_empty());
    assert_eq!(columns, vec![(true, 0), (false, 0)]);
    let (n, sols) = solve(&placements, &columns, 0);
    assert_eq!(n, 0);
    assert!(sols.is_empty());
}
