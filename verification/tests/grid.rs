use hat_tiling::{HexError, HexPos, KiteGrid, EMPTY};

fn labels<const N: usize>(g: &KiteGrid<N>) -> Vec<u8> {
    let mut all = Vec::new();
    for y in 0..N as isize {
        for x in 0..N as isize {
            for k in 0..6 {
                all.push(g.get(HexPos(x, y), k).unwrap());
            }
        }
    }
    all
}

fn covered<const N: usize>(g: &KiteGrid<N>) -> Vec<((isize, isize), usize)> {
    let mut found = Vec::new();
    for y in 0..N as isize {
        for x in 0..N as isize {
            for k in 0..6 {
                if g.get(HexPos(x, y), k).unwrap() != EMPTY {
                    found.push(((x, y), k));
                }
            }
        }
    }
    found
}

#[test]
fn a_new_grid_is_empty() {
    let g = KiteGrid::<8>::new();
    assert_eq!(labels(&g), vec![EMPTY; 8 * 8 * 6]);
    assert_eq!(EMPTY, 0);
}

#[test]
fn a_grid_without_hexagons_can_be_made() {
    let g = KiteGrid::<0>::new();
    assert!(!g.valid(HexPos(0, 0)));
    assert_eq!(g.get(HexPos(0, 0), 0), Err(HexError::OutOfRange));
}

#[test]
fn valid_is_the_square_of_the_grid() {
    let g = KiteGrid::<5>::new();
    for x in -2isize..8 {
        for y in -2isize..8 {
            assert_eq!(g.valid(HexPos(x, y)), 0 <= x && x < 5 && 0 <= y && y < 5);
        }
    }
    assert!(!g.valid(HexPos(isize::MIN, 0)));
    assert!(!g.valid(HexPos(0, isize::MAX)));
}

#[test]
fn set_writes_one_kite_only() {
    let mut g = KiteGrid::<4>::new();
    assert_eq!(g.set(HexPos(1, 2), 3, 9), Ok(()));
    assert_eq!(g.get(HexPos(1, 2), 3), Ok(9));
    assert_eq!(covered(&g), vec![((1, 2), 3)]);
    assert_eq!(g.set(HexPos(2, 1), 3, 4), Ok(()));
    assert_eq!(g.get(HexPos(2, 1), 3), Ok(4));
    assert_eq!(g.get(HexPos(1, 2), 3), Ok(9));
    assert_eq!(g.set(HexPos(1, 2), 3, EMPTY), Ok(()));
    assert_eq!(covered(&g), vec![((2, 1), 3)]);
}

#[test]
fn every_kite_has_a_place_of_its_own() {
    let mut g = KiteGrid::<3>::new();
    let mut next = 1u8;
    for y in 0..3 {
        for x in 0..3 {
            for k in 0..6 {
                g.set(HexPos(x, y), k, next).unwrap();
                next += 1;
            }
        }
    }
    let all = labels(&g);
    assert_eq!(all, (1..=54).collect::<Vec<u8>>());
}

#[test]
fn get_and_set_refuse_what_lies_outside() {
    let mut g = KiteGrid::<8>::new();
    let before = labels(&g);
    for h in [HexPos(-1, 0), HexPos(0, -1), HexPos(8, 0), HexPos(0, 8), HexPos(8, 8)] {
        assert_eq!(g.get(h, 0), Err(HexError::OutOfRange));
        assert_eq!(g.set(h, 0, 1), Err(HexError::OutOfRange));
    }
    assert_eq!(g.get(HexPos(3, 3), 6), Err(HexError::InvalidDirection));
    assert_eq!(g.set(HexPos(3, 3), 6, 1), Err(HexError::InvalidDirection));
    assert_eq!(g.get(HexPos(-1, 0), 6), Err(HexError::InvalidDirection));
    assert_eq!(g.set(HexPos(8, 8), 7, 1), Err(HexError::InvalidDirection));
    assert_eq!(labels(&g), before);
}

#[test]
fn a_hat_covers_the_eight_kites_of_its_footprint() {
    let mut g = KiteGrid::<8>::new();
    assert_eq!(g.hat_set(HexPos(2, 2), 0, 1), Ok(()));
    let mut expected = vec![
        ((2, 2), 0),
        ((2, 2), 1),
        ((3, 1), 2),
        ((3, 1), 3),
        ((3, 2), 0),
        ((3, 2), 3),
        ((3, 2), 4),
        ((3, 2), 5),
    ];
    let mut found = covered(&g);
    expected.sort();
    found.sort();
    assert_eq!(found, expected);

    let mut g = KiteGrid::<8>::new();
    assert_eq!(g.hat_set(HexPos(3, 4), 5, 7), Ok(()));
    let mut expected = vec![
        ((3, 4), 5),
        ((3, 4), 0),
        ((3, 3), 1),
        ((3, 3), 2),
        ((4, 4), 5),
        ((4, 4), 2),
        ((4, 4), 3),
        ((4, 4), 4),
    ];
    let mut found = covered(&g);
    expected.sort();
    found.sort();
    assert_eq!(found, expected);
    for (h, k) in found {
        assert_eq!(g.get(HexPos(h.0, h.1), k), Ok(7));
    }
}

#[test]
fn every_interior_hat_covers_eight_distinct_kites_inside() {
    for y in 2..6 {
        for x in 2..6 {
            for k in 0..6 {
                let mut g = KiteGrid::<8>::new();
                assert_eq!(g.hat_is_empty(HexPos(x, y), k), Ok(true));
                assert_eq!(g.hat_set(HexPos(x, y), k, 3), Ok(()));
                let found = covered(&g);
                assert_eq!(found.len(), 8);
                let hexes: std::collections::BTreeSet<_> = found.iter().map(|s| s.0).collect();
                assert_eq!(hexes.len(), 3);
                assert!(hexes.contains(&(x, y)));
            }
        }
    }
}

#[test]
fn hat_is_empty_sees_each_of_the_eight_kites() {
    let footprint = [
        ((2, 2), 0),
        ((2, 2), 1),
        ((3, 1), 2),
        ((3, 1), 3),
        ((3, 2), 0),
        ((3, 2), 3),
        ((3, 2), 4),
        ((3, 2), 5),
    ];
    for (h, k) in footprint {
        let mut g = KiteGrid::<8>::new();
        g.set(HexPos(h.0, h.1), k, 1).unwrap();
        assert_eq!(g.hat_is_empty(HexPos(2, 2), 0), Ok(false));
    }
    // A kite of the same hexagons that is not under the hat does not count.
    for (h, k) in [((2, 2), 2), ((2, 2), 5), ((3, 1), 1), ((3, 1), 4), ((3, 2), 1), ((3, 2), 2)] {
        let mut g = KiteGrid::<8>::new();
        g.set(HexPos(h.0, h.1), k, 1).unwrap();
        assert_eq!(g.hat_is_empty(HexPos(2, 2), 0), Ok(true));
    }
}

#[test]
fn hat_is_empty_does_not_change_the_grid() {
    let mut g = KiteGrid::<8>::new();
    g.hat_set(HexPos(4, 4), 2, 5).unwrap();
    let before = labels(&g);
    for y in -1..9 {
        for x in -1..9 {
            for k in 0..7 {
                let _ = g.hat_is_empty(HexPos(x, y), k);
            }
        }
    }
    assert_eq!(labels(&g), before);
}

#[test]
fn a_hat_that_reaches_outside_is_refused_whole() {
    let mut g = KiteGrid::<8>::new();
    let before = labels(&g);
    // Anchor outside.
    assert_eq!(g.hat_is_empty(HexPos(-1, 3), 0), Err(HexError::OutOfRange));
    assert_eq!(g.hat_set(HexPos(8, 3), 0, 1), Err(HexError::OutOfRange));
    // Anchor inside, a neighbour outside.
    assert_eq!(g.hat_is_empty(HexPos(0, 0), 3), Err(HexError::OutOfRange));
    assert_eq!(g.hat_set(HexPos(0, 0), 3, 1), Err(HexError::OutOfRange));
    assert_eq!(g.hat_set(HexPos(7, 7), 0, 1), Err(HexError::OutOfRange));
    assert_eq!(g.hat_set(HexPos(2, 0), 0, 1), Err(HexError::OutOfRange));
    // No orientation.
    assert_eq!(g.hat_is_empty(HexPos(3, 3), 6), Err(HexError::InvalidDirection));
    assert_eq!(g.hat_set(HexPos(3, 3), 6, 1), Err(HexError::InvalidDirection));
    assert_eq!(g.hat_set(HexPos(-1, -1), 9, 1), Err(HexError::InvalidDirection));
    assert_eq!(labels(&g), before);
}

#[test]
fn a_hat_next_to_the_border_fits_where_its_neighbours_do() {
    let mut g = KiteGrid::<8>::new();
    // From (0, 0) directions 2 and 3 stay inside.
    assert_eq!(g.hat_is_empty(HexPos(0, 0), 1), Ok(true));
    assert_eq!(g.hat_set(HexPos(0, 0), 1, 2), Ok(()));
    let mut found = covered(&g);
    found.sort();
    let mut expected = vec![
        ((0, 0), 1),
        ((0, 0), 2),
        ((1, 0), 3),
        ((1, 0), 4),
        ((0, 1), 1),
        ((0, 1), 4),
        ((0, 1), 5),
        ((0, 1), 0),
    ];
    expected.sort();
    assert_eq!(found, expected);
}

#[test]
fn placing_and_removing_restores_the_grid() {
    let mut g = KiteGrid::<8>::new();
    g.hat_set(HexPos(2, 2), 0, 4).unwrap();
    g.set(HexPos(7, 7), 5, 200).unwrap();
    let before = labels(&g);
    for y in 2..6 {
        for x in 2..6 {
            for k in 0..6 {
                if g.hat_is_empty(HexPos(x, y), k) == Ok(true) {
                    g.hat_place(HexPos(x, y), k, 9);
                    assert_ne!(labels(&g), before);
                    assert_eq!(g.hat_is_empty(HexPos(x, y), k), Ok(false));
                    g.hat_remove(HexPos(x, y), k);
                    assert_eq!(labels(&g), before);
                }
            }
        }
    }
}

#[test]
fn hat_set_with_empty_takes_a_hat_away() {
    let mut g = KiteGrid::<8>::new();
    g.hat_set(HexPos(3, 3), 4, 1).unwrap();
    assert_eq!(covered(&g).len(), 8);
    g.hat_set(HexPos(3, 3), 4, EMPTY).unwrap();
    assert_eq!(covered(&g).len(), 0);
}

#[test]
fn hat_set_overwrites_what_was_there() {
    let mut g = KiteGrid::<8>::new();
    g.hat_set(HexPos(2, 2), 0, 1).unwrap();
    g.hat_set(HexPos(2, 2), 1, 2).unwrap();
    // The two hats share kite 1 of the anchor; the later label stands.
    assert_eq!(g.get(HexPos(2, 2), 1), Ok(2));
    assert_eq!(g.get(HexPos(2, 2), 0), Ok(1));
    assert_eq!(g.get(HexPos(2, 2), 2), Ok(2));
}
