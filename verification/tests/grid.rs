use boids::geometry::{Rect, Vect};
use boids::grid::{Cell, Grid};

fn grid() -> Grid {
    Grid::new(100, 10, 6).unwrap()
}

#[test]
fn grid_rejects_unusable_parameters() {
    assert!(Grid::new(0, 10, 6).is_none());
    assert!(Grid::new(-5, 10, 6).is_none());
    assert!(Grid::new(100, 0, 6).is_none());
    assert!(Grid::new(100, 10, 0).is_none());
    assert!(Grid::new(100, usize::MAX, 2).is_none());
    assert!(Grid::new(1, 1, 1).is_some());
}

#[test]
fn new_grid_is_empty() {
    let g = grid();
    assert_eq!(g.count(), 0);
    assert_eq!(g.cells.len(), 60);
    let mut out = vec![];
    g.query(Rect { min: Vect::new(-1000, -1000), max: Vect::new(5000, 5000) }, &mut out);
    assert!(out.is_empty());
}

#[test]
fn cell_of_divides_and_clamps() {
    let g = grid();
    assert_eq!(g.cell_of(Vect::new(250, 130)), Cell { col: 2, row: 1 });
    assert_eq!(g.cell_of(Vect::new(0, 0)), Cell { col: 0, row: 0 });
    assert_eq!(g.cell_of(Vect::new(99, 100)), Cell { col: 0, row: 1 });
    assert_eq!(g.cell_of(Vect::new(-1, -700)), Cell { col: 0, row: 0 });
    assert_eq!(g.cell_of(Vect::new(999, 599)), Cell { col: 9, row: 5 });
    assert_eq!(g.cell_of(Vect::new(1000, 600)), Cell { col: 9, row: 5 });
    assert_eq!(g.cell_of(Vect::new(i64::MAX, i64::MIN)), Cell { col: 9, row: 0 });
}

#[test]
fn insert_files_under_the_cell_of_the_position() {
    let mut g = grid();
    let at = g.insert(Vect::new(250, 130), 7);
    assert_eq!(at, Cell { col: 2, row: 1 });
    assert!(g.contains(at, 7));
    assert!(!g.contains(at, 8));
    assert!(!g.contains(Cell { col: 3, row: 1 }, 7));
    assert!(!g.contains(Cell { col: 10, row: 1 }, 7));
    assert_eq!(g.cells[12], vec![7]);
    assert_eq!(g.count(), 1);
}

#[test]
fn query_appends_without_clearing() {
    let mut g = grid();
    g.insert(Vect::new(10, 10), 0);
    g.insert(Vect::new(650, 350), 1);
    let mut out = vec![42];
    g.query(Rect { min: Vect::new(0, 0), max: Vect::new(999, 599) }, &mut out);
    assert_eq!(out, vec![42, 0, 1]);
}

#[test]
fn query_reads_only_the_cells_it_touches() {
    let mut g = grid();
    g.insert(Vect::new(10, 10), 0);
    g.insert(Vect::new(150, 10), 1);
    g.insert(Vect::new(250, 10), 2);
    g.insert(Vect::new(150, 150), 3);
    let mut out = vec![];
    g.query(Rect { min: Vect::new(100, 0), max: Vect::new(199, 99) }, &mut out);
    assert_eq!(out, vec![1]);
    out.clear();
    g.query(Rect { min: Vect::new(50, 50), max: Vect::new(150, 150) }, &mut out);
    assert_eq!(out, vec![0, 1, 3]);
    out.clear();
    g.query(Rect { min: Vect::new(150, 150), max: Vect::new(50, 50) }, &mut out);
    assert!(out.is_empty());
}

#[test]
fn query_covers_radius_for_small_and_large_cells() {
    let sizes: [i64; 4] = [1, 7, 20, 500];
    for size in sizes {
        let mut g = Grid::new(size, 40, 40).unwrap();
        let points = [Vect::new(30, 30), Vect::new(35, 30), Vect::new(30, 50), Vect::new(90, 90)];
        for (id, p) in points.iter().enumerate() {
            g.insert(*p, id);
        }
        let mut out = vec![];
        g.query(Rect::cube(Vect::new(30, 30), 20), &mut out);
        assert!(out.contains(&0));
        assert!(out.contains(&1));
        assert!(out.contains(&2));
    }
}

#[test]
fn remove_takes_the_identifier_out() {
    let mut g = grid();
    let a = g.insert(Vect::new(10, 10), 0);
    let b = g.insert(Vect::new(20, 20), 1);
    assert_eq!(a, b);
    g.remove(a, 0);
    assert!(!g.contains(a, 0));
    assert!(g.contains(a, 1));
    assert_eq!(g.count(), 1);
    assert_eq!(g.cells[0], vec![1]);
}

#[test]
fn update_within_a_cell_changes_nothing() {
    let mut g = grid();
    let a = g.insert(Vect::new(10, 10), 0);
    g.insert(Vect::new(20, 20), 1);
    g.insert(Vect::new(150, 20), 2);
    let before = g.cells.clone();
    let b = g.update(Vect::new(99, 99), 0, a);
    assert_eq!(a, b);
    assert_eq!(g.cells, before);
}

#[test]
fn update_across_cells_refiles() {
    let mut g = grid();
    let a = g.insert(Vect::new(10, 10), 0);
    g.insert(Vect::new(20, 20), 1);
    let b = g.update(Vect::new(650, 350), 0, a);
    assert_eq!(b, Cell { col: 6, row: 3 });
    assert!(g.contains(b, 0));
    assert!(!g.contains(a, 0));
    assert!(g.contains(a, 1));
    assert_eq!(g.count(), 2);
    let mut out = vec![];
    g.query(Rect { min: Vect::new(400, 400), max: Vect::new(600, 600) }, &mut out);
    assert!(out.is_empty());
    g.query(Rect { min: Vect::new(600, 300), max: Vect::new(600, 300) }, &mut out);
    assert_eq!(out, vec![0]);
}

#[test]
fn update_twice_is_update_once() {
    let mut g = grid();
    let a = g.insert(Vect::new(10, 10), 0);
    g.insert(Vect::new(650, 350), 1);
    let b = g.update(Vect::new(650, 350), 0, a);
    let once = g.cells.clone();
    let c = g.update(Vect::new(650, 350), 0, b);
    assert_eq!(b, c);
    assert_eq!(g.cells, once);
}
