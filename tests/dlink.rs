use pentominoes::dlink::{DancingMatrix, DancingNode, LinkedNode};

fn row(cols: usize, entries: &[usize]) -> Vec<DancingNode> {
    let mut v = vec![DancingNode::EmptyNode; cols + 1];
    for &c in entries {
        v[c] = DancingNode::InnerNode(LinkedNode::new(0, 0, 0, 0), c);
    }
    v
}

fn snapshot(m: &DancingMatrix) -> Vec<(usize, usize, usize, usize, usize)> {
    let mut out = Vec::new();
    for r in 0..=m.len() {
        for c in 0..m.cols() {
            let n = m.get(r, c);
            out.push((n.up(), n.down(), n.left(), n.right(), n.len()));
        }
    }
    out
}

fn header_cols(m: &DancingMatrix) -> Vec<usize> {
    let mut out = Vec::new();
    let mut c = m.root().right();
    while c != 0 {
        out.push(c);
        c = m.get(0, c).right();
    }
    out
}

fn count_down(m: &DancingMatrix, c: usize) -> usize {
    let mut n = 0;
    let mut r = m.get(0, c).down();
    while r != 0 {
        n += 1;
        r = m.get(r, c).down();
    }
    n
}

#[test]
fn new_matrix_links_columns_in_order() {
    let m = DancingMatrix::new(3);
    assert_eq!(m.cols(), 4);
    assert_eq!(m.len(), 0);
    assert_eq!(header_cols(&m), vec![1, 2, 3]);
    assert_eq!(m.root().left(), 3);
    for c in 1..4 {
        assert_eq!(m.get(0, c).len(), 0);
    }
}

#[test]
fn insert_links_rows_and_counts_sizes() {
    let mut m = DancingMatrix::new(3);
    assert!(m.insert(row(3, &[1, 3])));
    assert!(m.insert(row(3, &[2, 3])));
    assert_eq!(m.len(), 2);
    assert_eq!(m.get(0, 1).len(), 1);
    assert_eq!(m.get(0, 2).len(), 1);
    assert_eq!(m.get(0, 3).len(), 2);
    assert_eq!(m.get(1, 1).right(), 3);
    assert_eq!(m.get(1, 3).right(), 1);
    assert_eq!(m.get(1, 3).down(), 2);
    assert_eq!(m.get(0, 3).up(), 2);
}

#[test]
fn insert_rejects_duplicate_row() {
    let mut m = DancingMatrix::new(3);
    assert!(m.insert(row(3, &[1, 2])));
    assert!(!m.insert(row(3, &[1, 2])));
    assert_eq!(m.len(), 1);
    assert_eq!(m.get(0, 1).len(), 1);
}

#[test]
fn sizes_equal_linked_rows_after_inserts_and_covers() {
    let mut m = DancingMatrix::new(4);
    m.insert(row(4, &[1, 2]));
    m.insert(row(4, &[2, 3]));
    m.insert(row(4, &[3, 4]));
    m.insert(row(4, &[1, 4]));
    for c in 1..5 {
        assert_eq!(m.get(0, c).len(), count_down(&m, c));
    }
    m.coverCol(2);
    for c in [1usize, 3, 4] {
        assert_eq!(m.get(0, c).len(), count_down(&m, c));
    }
    assert_eq!(m.get(0, 1).len(), 1);
    assert_eq!(m.get(0, 3).len(), 1);
    m.uncoverCol(2);
    for c in 1..5 {
        assert_eq!(m.get(0, c).len(), count_down(&m, c));
    }
}

#[test]
fn cover_then_uncover_restores_every_link() {
    let mut m = DancingMatrix::new(4);
    m.insert(row(4, &[1, 2]));
    m.insert(row(4, &[2, 3]));
    m.insert(row(4, &[3, 4]));
    m.insert(row(4, &[1, 3, 4]));
    let before = snapshot(&m);
    m.coverCol(3);
    assert_eq!(header_cols(&m), vec![1, 2, 4]);
    assert_ne!(snapshot(&m), before);
    m.coverCol(1);
    assert_eq!(header_cols(&m), vec![2, 4]);
    m.uncoverCol(1);
    m.uncoverCol(3);
    assert_eq!(snapshot(&m), before);
}

#[test]
fn root_is_never_covered() {
    let mut m = DancingMatrix::new(2);
    m.insert(row(2, &[1]));
    let before = snapshot(&m);
    m.coverCol(0);
    assert_eq!(snapshot(&m), before);
    m.deleteCol(0);
    assert_eq!(snapshot(&m), before);
}

#[test]
fn delete_and_undelete_column_relinks_header() {
    let mut m = DancingMatrix::new(3);
    let before = snapshot(&m);
    m.deleteCol(2);
    assert_eq!(header_cols(&m), vec![1, 3]);
    m.undeleteCol(2);
    assert_eq!(snapshot(&m), before);
}

#[test]
fn delete_and_undelete_node_keep_size() {
    let mut m = DancingMatrix::new(2);
    m.insert(row(2, &[1]));
    m.insert(row(2, &[1, 2]));
    let before = snapshot(&m);
    m.deleteNode(1, 1);
    assert_eq!(m.get(0, 1).down(), 2);
    assert_eq!(m.get(0, 1).len(), 2);
    m.undeleteNode(1, 1);
    assert_eq!(snapshot(&m), before);
}

#[test]
fn node_accessors_and_counters() {
    let mut n = DancingNode::ColumnNode(LinkedNode::new(1, 2, 3, 4), 5);
    assert_eq!((n.up(), n.down(), n.right(), n.left()), (1, 2, 3, 4));
    n.incr();
    assert_eq!(n.len(), 6);
    n.decr();
    n.decr();
    assert_eq!(n.len(), 4);
    n.setUp(9);
    n.setDown(8);
    n.setLeft(7);
    n.setRight(6);
    assert_eq!((n.up(), n.down(), n.left(), n.right()), (9, 8, 7, 6));
    let mut root = DancingNode::Root(LinkedNode::default());
    root.incr();
    assert_eq!(root.len(), usize::MAX);
    assert_eq!(DancingNode::EmptyNode.len(), 0);
    assert!(DancingNode::InnerNode(LinkedNode::new(1, 1, 1, 1), 3) == DancingNode::InnerNode(LinkedNode::new(0, 0, 0, 0), 3));
    assert!(DancingNode::InnerNode(LinkedNode::new(0, 0, 0, 0), 3) != DancingNode::InnerNode(LinkedNode::new(0, 0, 0, 0), 2));
}

#[test]
fn header_returns_root_and_columns() {
    let m = DancingMatrix::new(2);
    let h = m.header();
    assert_eq!(h.len(), 3);
    assert!(matches!(h[0], DancingNode::Root(_)));
    assert!(matches!(h[1], DancingNode::ColumnNode(_, 0)));
}

#[test]
fn nested_covers_unwind_in_reverse_order() {
    let mut m = DancingMatrix::new(6);
    m.insert(row(6, &[1, 2]));
    m.insert(row(6, &[3, 4]));
    m.insert(row(6, &[5, 6]));
    m.insert(row(6, &[1, 4, 6]));
    m.insert(row(6, &[2, 3, 5]));
    let before = snapshot(&m);
    m.coverCol(1);
    let after1 = snapshot(&m);
    m.coverCol(3);
    let after2 = snapshot(&m);
    m.coverCol(5);
    m.coverCol(6);
    m.uncoverCol(6);
    m.uncoverCol(5);
    assert_eq!(snapshot(&m), after2);
    m.uncoverCol(3);
    assert_eq!(snapshot(&m), after1);
    m.uncoverCol(1);
    assert_eq!(snapshot(&m), before);
}
