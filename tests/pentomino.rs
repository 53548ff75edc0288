use pentominoes::pentomino::{Pentomino, Square};

fn l_piece() -> Pentomino {
    // X.
    // X.
    // XX
    Pentomino::newFromSystem(vec![(5, 7, b'a'), (5, 8, b'b'), (5, 9, b'c'), (6, 9, b'd')])
}

fn cells(p: &Pentomino) -> Vec<u8> {
    let mut out = Vec::new();
    for y in 0..p.dimY {
        for x in 0..p.dimX {
            out.push(p.get(x, y).to_ascii());
        }
    }
    out
}

#[test]
fn new_from_system_normalizes_to_origin() {
    let p = l_piece();
    assert_eq!((p.dimX, p.dimY), (2, 3));
    assert_eq!(p.size(), 4);
    assert_eq!(p.area(), 6);
    assert_eq!(cells(&p), b"a b cd".to_vec());
}

#[test]
fn rotate_right_turns_clockwise() {
    let r = l_piece().rotateRight();
    assert_eq!((r.dimX, r.dimY), (3, 2));
    assert_eq!(cells(&r), b"cbad  ".to_vec());
}

#[test]
fn rotate_left_turns_counter_clockwise() {
    let r = l_piece().rotateLeft();
    assert_eq!((r.dimX, r.dimY), (3, 2));
    assert_eq!(cells(&r), b"  dabc".to_vec());
}

#[test]
fn reflections_mirror_the_grid() {
    let p = l_piece();
    assert_eq!(cells(&p.reflectX()), b" a bdc".to_vec());
    assert_eq!(cells(&p.reflectY()), b"cdb a ".to_vec());
}

#[test]
fn four_right_turns_come_back() {
    let p = l_piece();
    let r = p.rotateRight().rotateRight().rotateRight().rotateRight();
    assert!(r == p);
    assert!(p.rotateRight() != p);
}

#[test]
fn rotations_and_reflections_lists() {
    let p = l_piece();
    let rs = p.rotations();
    assert_eq!(rs.len(), 4);
    assert!(rs[0] == p);
    assert!(rs[1] == p.rotateRight());
    assert!(rs[3] == p.rotateLeft());
    let fs = p.reflections();
    assert_eq!(fs.len(), 2);
    assert!(fs[1] == p.reflectX());
}

#[test]
fn can_place_checks_bounds_and_symbols() {
    let board = Pentomino::newFromSystem(vec![(0, 0, b'#'), (1, 0, b'#'), (2, 0, b'X')]);
    let domino = Pentomino::newFromSystem(vec![(0, 0, b'#'), (1, 0, b'#')]);
    assert!(board.canPlace(&domino, 0, 0));
    assert!(!board.canPlace(&domino, 1, 0));
    assert!(!board.canPlace(&domino, 2, 0));
    assert!(!board.canPlace(&domino, 0, 1));
    assert!(!board.canPlace(&domino, usize::MAX, 0));
}

#[test]
fn coordinates_and_filled_cells() {
    let p = l_piece();
    let all = p.coordinates();
    assert_eq!(all.len(), 6);
    assert_eq!(all[1], (1, 0, b' '));
    assert_eq!(all[5], (1, 2, b'd'));
    let f = p.filled();
    assert_eq!(f, vec![(0, 0, b'a'), (0, 1, b'b'), (0, 2, b'c'), (1, 2, b'd')]);
}

#[test]
fn index_and_coordinates_agree() {
    let p = l_piece();
    assert_eq!(p.getIndex(1, 2), 5);
    assert_eq!(p.getCoordinates(5), (1, 2));
    assert_eq!(p.get_opt(2, 0), None);
    assert_eq!(p.get_opt(0, 1), Some(Square::Filled(b'b')));
    assert_eq!(p.range(), 0..6);
    assert_eq!(p.iter().len(), 6);
    assert_eq!(p.squares().len(), 6);
}
