use gridpath::errors::PlanError;
use gridpath::world::{Cell, NeighborIter, Neighbors, World};

fn mkworld() -> World {
    World::new(4, 4, vec![Cell::Open; 16]).unwrap()
}

#[test]
fn id_at() {
    let uut = mkworld();
    assert_eq!(uut.id_at(0, 0), Some(0));
    assert_eq!(uut.id_at(3, 0), Some(3));
    assert_eq!(uut.id_at(0, 3), Some(12));
    assert_eq!(uut.id_at(1, 1), Some(5));
    assert_eq!(uut.id_at(3, 3), Some(15));
    assert_eq!(uut.id_at(3, 4), None);
    assert_eq!(uut.id_at(4, 3), None);
}

#[test]
fn cell_at() {
    let uut = mkworld();
    assert_eq!(*(uut.cell_at(1, 1).unwrap()), Cell::Open);
    assert_eq!(uut.cell_at(3, 4), None);
}

#[test]
fn neighbor_iter_all() {
    let mut ni = NeighborIter::new(1, 1, Neighbors::CardinalAndDiagonal);
    assert_eq!(ni.next().unwrap(), (2, 1));
    assert_eq!(ni.next().unwrap(), (2, 2));
    assert_eq!(ni.next().unwrap(), (1, 2));
    assert_eq!(ni.next().unwrap(), (0, 2));
    assert_eq!(ni.next().unwrap(), (0, 1));
    assert_eq!(ni.next().unwrap(), (0, 0));
    assert_eq!(ni.next().unwrap(), (1, 0));
    assert_eq!(ni.next().unwrap(), (2, 0));
    assert_eq!(ni.next(), None);

    let mut ni = NeighborIter::new(0, 1, Neighbors::CardinalAndDiagonal);
    assert_eq!(ni.next().unwrap(), (1, 1));
    assert_eq!(ni.next().unwrap(), (1, 2));
    assert_eq!(ni.next().unwrap(), (0, 2));
    assert_eq!(ni.next().unwrap(), (0, 0));
    assert_eq!(ni.next().unwrap(), (1, 0));
    assert_eq!(ni.next(), None);

    let mut ni = NeighborIter::new(1, 0, Neighbors::CardinalAndDiagonal);
    assert_eq!(ni.next().unwrap(), (2, 0));
    assert_eq!(ni.next().unwrap(), (2, 1));
    assert_eq!(ni.next().unwrap(), (1, 1));
    assert_eq!(ni.next().unwrap(), (0, 1));
    assert_eq!(ni.next().unwrap(), (0, 0));
    assert_eq!(ni.next(), None);

    let mut ni = NeighborIter::new(0, 0, Neighbors::CardinalAndDiagonal);
    assert_eq!(ni.next().unwrap(), (1, 0));
    assert_eq!(ni.next().unwrap(), (1, 1));
    assert_eq!(ni.next().unwrap(), (0, 1));
    assert_eq!(ni.next(), None);
}

#[test]
fn neighbor_iter_card() {
    let mut ni = NeighborIter::new(1, 1, Neighbors::Cardinal);
    assert_eq!(ni.next().unwrap(), (2, 1));
    assert_eq!(ni.next().unwrap(), (1, 2));
    assert_eq!(ni.next().unwrap(), (0, 1));
    assert_eq!(ni.next().unwrap(), (1, 0));
    assert_eq!(ni.next(), None);

    let mut ni = NeighborIter::new(0, 0, Neighbors::Cardinal);
    assert_eq!(ni.next().unwrap(), (1, 0));
    assert_eq!(ni.next().unwrap(), (0, 1));
    assert_eq!(ni.next(), None);

    let mut ni = NeighborIter::new(0, 1, Neighbors::Cardinal);
    assert_eq!(ni.next().unwrap(), (1, 1));
    assert_eq!(ni.next().unwrap(), (0, 2));
    assert_eq!(ni.next().unwrap(), (0, 0));
    assert_eq!(ni.next(), None);

    let mut ni = NeighborIter::new(1, 0, Neighbors::Cardinal);
    assert_eq!(ni.next().unwrap(), (2, 0));
    assert_eq!(ni.next().unwrap(), (1, 1));
    assert_eq!(ni.next().unwrap(), (0, 0));
    assert_eq!(ni.next(), None);
}

#[test]
fn neighbor_list_matches_iterator() {
    for &strat in &[Neighbors::Cardinal, Neighbors::CardinalAndDiagonal] {
        for &(x, y) in &[(0usize, 0usize), (0, 2), (2, 0), (3, 5)] {
            let listed = gridpath::world::neighbor_list(x, y, strat);
            let mut it = NeighborIter::new(x, y, strat);
            let mut walked = Vec::new();
            while let Some(c) = it.next() {
                walked.push(c);
            }
            assert_eq!(listed, walked);
        }
    }
}

#[test]
fn coords_roundtrip() {
    let uut = World::new(7, 3, vec![Cell::Open; 21]).unwrap();
    for x in 0..7 {
        for y in 0..3 {
            let id = uut.id_at(x, y).unwrap();
            assert_eq!(uut.coords_for(id), Some((x, y)));
        }
    }
    assert_eq!(uut.coords_for(21), None);
    assert_eq!(uut.id_at(7, 0), None);
    assert_eq!(uut.id_at(0, 3), None);
}

#[test]
fn new_dimension_mismatch() {
    assert_eq!(
        World::new(4, 4, vec![Cell::Open; 15]).unwrap_err(),
        PlanError::DimensionMismatch
    );
    assert!(World::new(4, 4, vec![Cell::Open; 16]).is_ok());
}

#[test]
fn clear_keeps_obstacles() {
    let mut w = World::new(2, 2, vec![
        Cell::Obstacle,
        Cell::Open,
        Cell::Visited { g: 5, h: 6, k: 0, parent: 0 },
        Cell::Open,
    ])
    .unwrap();
    w.clear();
    assert_eq!(*w.cell(0).unwrap(), Cell::Obstacle);
    assert_eq!(*w.cell(1).unwrap(), Cell::Open);
    assert_eq!(*w.cell(2).unwrap(), Cell::Open);
    assert_eq!(*w.cell(3).unwrap(), Cell::Open);
}
