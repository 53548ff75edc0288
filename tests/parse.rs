use pentominoes::cmd::parseOption;
use pentominoes::parse::{discoverBoard, discoverPoints, parse_pieces, parse_points};
use pentominoes::pentomino::Pentomino;

#[test]
fn parse_points_marks_non_space_cells() {
    let text = b"ab\n c\n".to_vec();
    let ps = parse_points(&text);
    assert_eq!(ps, vec![(0, 0, b'a'), (1, 0, b'b'), (1, 1, b'c')]);
}

#[test]
fn parse_pieces_groups_touching_cells() {
    let text = b"##  #\n#   #\n\n  ##\n".to_vec();
    let pieces = parse_pieces(&text);
    assert_eq!(pieces.len(), 3);
    let mut sizes: Vec<usize> = pieces.iter().map(|p| p.size()).collect();
    sizes.sort();
    assert_eq!(sizes, vec![2, 2, 3]);
}

#[test]
fn diagonal_cells_touch() {
    let text = b"#\n #\n".to_vec();
    let pieces = parse_pieces(&text);
    assert_eq!(pieces.len(), 1);
    assert_eq!((pieces[0].dimX, pieces[0].dimY), (2, 2));
}

#[test]
fn discover_points_moves_the_touching_group() {
    let mut system = vec![(5, 5, b'#'), (0, 0, b'#'), (1, 1, b'#'), (9, 0, b'#')];
    let mut group = vec![(0, 1, b'#')];
    discoverPoints(0, 1, &mut system, &mut group);
    assert_eq!(group.len(), 3);
    assert_eq!(system.len(), 2);
    assert!(group.contains(&(0, 0, b'#')));
    assert!(group.contains(&(1, 1, b'#')));
    assert!(system.contains(&(5, 5, b'#')));
}

#[test]
fn discover_board_takes_the_largest_first() {
    let a = Pentomino::newFromSystem(vec![(0, 0, b'#'), (1, 0, b'#')]);
    let b = Pentomino::newFromSystem(vec![(0, 0, b'#'), (1, 1, b'#')]);
    let c = Pentomino::newFromSystem(vec![(0, 0, b'#'), (1, 1, b'#'), (0, 1, b'#')]);
    let mut ps = vec![a, b, c];
    let board = discoverBoard(&mut ps);
    assert_eq!((board.dimX, board.dimY), (2, 2));
    assert_eq!(board.size(), 2);
    assert_eq!(ps.len(), 2);
    assert_eq!(ps[1].size(), 3);
}

#[test]
fn parse_option_splits_key_and_value() {
    let (k, v) = parseOption(b"--solutions=5");
    assert_eq!(k, b"solutions".to_vec());
    assert_eq!(v, Some(b"5".to_vec()));
    let (k, v) = parseOption(b"-h");
    assert_eq!(k, b"h".to_vec());
    assert_eq!(v, None);
    let (k, v) = parseOption(b"--all-solutions");
    assert_eq!(k, b"all-solutions".to_vec());
    assert_eq!(v, None);
    let (k, v) = parseOption(b"--output=");
    assert_eq!(k, b"output".to_vec());
    assert_eq!(v, None);
    let (k, v) = parseOption(b"-o=a=b");
    assert_eq!(k, b"o".to_vec());
    assert_eq!(v, Some(b"a=b".to_vec()));
}

#[test]
fn discover_points_follows_chains() {
    let mut system = vec![(4, 0, b'#'), (9, 9, b'#'), (2, 0, b'#'), (3, 1, b'#'), (6, 0, b'#')];
    let mut group = vec![(1, 0, b'#')];
    discoverPoints(1, 0, &mut system, &mut group);
    assert_eq!(group.len(), 4);
    assert!(group.contains(&(2, 0, b'#')));
    assert!(group.contains(&(3, 1, b'#')));
    assert!(group.contains(&(4, 0, b'#')));
    assert_eq!(system.len(), 2);
    assert!(system.contains(&(9, 9, b'#')));
    assert!(system.contains(&(6, 0, b'#')));
}
