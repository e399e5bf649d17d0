//! The grid of kites: which placement, if any, owns each kite of each hexagon.

use vstd::prelude::*;
use crate::hex::{neighbor_of, turn, HexError, HexPos};

verus! {

/// What a kite holds: `EMPTY`, or the label of the placement that covers it.
pub type KiteColor = u8;

/// The label of a kite that no placement covers.
pub const EMPTY: KiteColor = 0;

/// One kite of the lattice: a hexagon, and the direction of the kite inside it.
pub type Slot = ((int, int), int);

/// The contents of a grid: the label of every kite in it.
pub type Kites = Map<Slot, KiteColor>;

/// Whether hexagon `h` lies in a grid of `n` columns and `n` rows.
pub open spec fn in_grid(n: int, h: (int, int)) -> bool {
    0 <= h.0 < n && 0 <= h.1 < n
}

/// Whether `s` is a kite of a grid of `n` columns and `n` rows.
pub open spec fn slot_in_grid(n: int, s: Slot) -> bool {
    in_grid(n, s.0) && 0 <= s.1 < 6
}

/// A grid of `n` by `n` hexagons in which every kite is empty.
pub open spec fn blank(n: int) -> Kites {
    Map::new(|s: Slot| slot_in_grid(n, s), |s: Slot| EMPTY)
}

/// The eight kites of the hat anchored at `h` with orientation `k`: two in the
/// anchor, two in its neighbour one turn on, four in its neighbour two turns on.
pub open spec fn footprint(h: (int, int), k: int) -> Seq<Slot> {
    let n1 = neighbor_of(h, turn(k, 1));
    let n2 = neighbor_of(h, turn(k, 2));
    seq![
        (h, k),
        (h, turn(k, 1)),
        (n1, turn(k, 2)),
        (n1, turn(k, 3)),
        (n2, k),
        (n2, turn(k, 3)),
        (n2, turn(k, 4)),
        (n2, turn(k, 5)),
    ]
}

/// Whether the three hexagons under the hat at `h`, `k` all lie in the grid.
pub open spec fn footprint_in_grid(n: int, h: (int, int), k: int) -> bool {
    &&& in_grid(n, h)
    &&& in_grid(n, neighbor_of(h, turn(k, 1)))
    &&& in_grid(n, neighbor_of(h, turn(k, 2)))
}

/// Whether every kite under the hat at `h`, `k` is empty in `m`.
pub open spec fn hat_empty(m: Kites, h: (int, int), k: int) -> bool {
    forall|i: int| 0 <= i < 8 ==> m[#[trigger] footprint(h, k)[i]] == EMPTY
}

/// `m` with label `c` written into each of `slots` that it holds.
pub open spec fn paint(m: Kites, slots: Seq<Slot>, c: KiteColor) -> Kites {
    Map::new(
        |s: Slot| m.dom().contains(s),
        |s: Slot|
            if slots.contains(s) {
                c
            } else {
                m[s]
            },
    )
}

/// Where the label of kite `s` is kept in a grid of side `n`.
spec fn cell_index(n: int, s: Slot) -> int {
    (s.0.0 * n + s.0.1) * 6 + s.1
}

/// Every kite of the grid has its place among the stored labels.
proof fn lemma_cell_index_bounds(n: int, s: Slot)
    requires
        slot_in_grid(n, s),
    ensures
        0 <= cell_index(n, s) < n * n * 6,
{
    let (x, y) = s.0;
    assert(x * n + y < n * n) by (nonlinear_arith)
        requires
            0 <= x < n,
            0 <= y < n,
    ;
    assert(0 <= x * n) by (nonlinear_arith)
        requires
            0 <= x,
            0 <= n,
    ;
    assert((x * n + y) * 6 + s.1 < n * n * 6) by (nonlinear_arith)
        requires
            x * n + y < n * n,
            s.1 < 6,
    ;
}

/// No two kites of the grid share a place.
proof fn lemma_cell_index_injective(n: int, s: Slot, t: Slot)
    requires
        slot_in_grid(n, s),
        slot_in_grid(n, t),
        cell_index(n, s) == cell_index(n, t),
    ensures
        s == t,
{
    let a = s.0.0 * n + s.0.1;
    let b = t.0.0 * n + t.0.1;
    assert(a == b);
    assert(s.0.0 == t.0.0) by (nonlinear_arith)
        requires
            s.0.0 * n + s.0.1 == t.0.0 * n + t.0.1,
            0 <= s.0.1 < n,
            0 <= t.0.1 < n,
    ;
}

/// A square grid of `N` by `N` hexagons with six kites each.
#[derive(Clone, Debug)]
pub struct KiteGrid<const N: usize> {
    cells: Vec<KiteColor>,
}

impl<const N: usize> View for KiteGrid<N> {
    type V = Kites;

    closed spec fn view(&self) -> Kites {
        Map::new(
            |s: Slot| slot_in_grid(N as int, s),
            |s: Slot| self.cells@[cell_index(N as int, s)],
        )
    }
}

impl<const N: usize> KiteGrid<N> {
    /// Whether the grid stores one label for each of its kites. Every grid
    /// that this module hands out does, and every operation keeps it so.
    pub closed spec fn wf(&self) -> bool {
        self.cells@.len() == N * N * 6
    }

    /// A grid holds exactly the kites of its `N` by `N` hexagons.
    pub proof fn lemma_domain(&self)
        ensures
            forall|s: Slot| self@.dom().contains(s) <==> slot_in_grid(N as int, s),
    {
    }

    /// A grid in which every kite is empty.
    pub fn new() -> (g: Self)
        requires
            N * N * 6 <= usize::MAX,
        ensures
            g.wf(),
            g@ == blank(N as int),
    {
        assert(N * N <= N * N * 6) by (nonlinear_arith);
        let g = KiteGrid { cells: vec![EMPTY; N * N * 6] };
        assert(g@ =~= blank(N as int)) by {
            let n = N as int;
            assert forall|s: Slot| #[trigger] slot_in_grid(n, s) implies g.cells@[cell_index(n, s)]
                == EMPTY by {
                lemma_cell_index_bounds(n, s);
            }
        }
        g
    }

    /// The place of a kite of the grid among the stored labels.
    fn locate(&self, h: HexPos, kite: usize) -> (i: usize)
        requires
            self.wf(),
            slot_in_grid(N as int, (h@, kite as int)),
        ensures
            i == cell_index(N as int, (h@, kite as int)),
            i < self.cells@.len(),
    {
        let x = h.0 as usize;
        let y = h.1 as usize;
        proof {
            lemma_cell_index_bounds(N as int, (h@, kite as int));
            assert(self.cells.len() == N * N * 6);
            assert(0 <= x * N <= x * N + y < N * N <= N * N * 6) by (nonlinear_arith)
                requires
                    0 <= x < N,
                    0 <= y < N,
            ;
        }
        (x * N + y) * 6 + kite
    }

    /// The stored labels are no more than `usize` can count.
    pub proof fn lemma_side_bound(&self)
        requires
            self.wf(),
        ensures
            N * N * 6 <= usize::MAX,
    {
        assert(self.cells.len() == N * N * 6);
    }

    /// The side of a grid is small enough that a step out of any of its
    /// hexagons stays within `isize`.
    pub proof fn lemma_side_fits(&self)
        requires
            self.wf(),
        ensures
            N < isize::MAX,
    {
        assert(self.cells.len() == N * N * 6);
        assert(N * 6 <= N * N * 6) by (nonlinear_arith);
    }

    /// The label of a kite that is known to lie in the grid.
    pub(crate) fn label(&self, h: HexPos, kite: usize) -> (c: KiteColor)
        requires
            self.wf(),
            slot_in_grid(N as int, (h@, kite as int)),
        ensures
            c == self@[(h@, kite as int)],
    {
        let i = self.locate(h, kite);
        self.cells[i]
    }

    /// Writes the label of a kite that is known to lie in the grid.
    fn put(&mut self, h: HexPos, kite: usize, c: KiteColor)
        requires
            old(self).wf(),
            slot_in_grid(N as int, (h@, kite as int)),
        ensures
            final(self).wf(),
            final(self)@ == old(self)@.insert((h@, kite as int), c),
    {
        let ghost slot: Slot = (h@, kite as int);
        let i = self.locate(h, kite);
        self.cells.set(i, c);
        proof {
            let n = N as int;
            assert forall|s: Slot| #[trigger] slot_in_grid(n, s) && s != slot implies self.cells@[cell_index(
                n,
                s,
            )] == old(self).cells@[cell_index(n, s)] by {
                lemma_cell_index_bounds(n, s);
                if cell_index(n, s) == cell_index(n, slot) {
                    lemma_cell_index_injective(n, s, slot);
                }
            }
            assert(self@ =~= old(self)@.insert(slot, c));
        }
    }

    /// The two hexagons besides the anchor that the hat at `h`, `kite` covers,
    /// or the reason why that hat has no place in the grid.
    fn hat_hexes(&self, h: HexPos, kite: usize) -> (r: Result<(HexPos, HexPos), HexError>)
        requires
            self.wf(),
        ensures
            kite >= 6 ==> r == Err::<(HexPos, HexPos), HexError>(HexError::InvalidDirection),
            kite < 6 && !footprint_in_grid(N as int, h@, kite as int) ==> r == Err::<
                (HexPos, HexPos),
                HexError,
            >(HexError::OutOfRange),
            kite < 6 && footprint_in_grid(N as int, h@, kite as int) ==> r is Ok && r->Ok_0.0@
                == neighbor_of(h@, turn(kite as int, 1)) && r->Ok_0.1@ == neighbor_of(
                h@,
                turn(kite as int, 2),
            ),
    {
        if kite >= 6 {
            return Err(HexError::InvalidDirection);
        }
        if !self.valid(h) {
            return Err(HexError::OutOfRange);
        }
        proof {
            self.lemma_side_fits();
        }
        let n1 = h.step((kite + 1) % 6);
        let n2 = h.step((kite + 2) % 6);
        if self.valid(n1) && self.valid(n2) {
            Ok((n1, n2))
        } else {
            Err(HexError::OutOfRange)
        }
    }

    /// Whether hexagon `h` lies in the grid.
    pub fn valid(&self, h: HexPos) -> (r: bool)
        ensures
            r == in_grid(N as int, h@),
    {
        let HexPos(x, y) = h;
        0 <= x && (x as usize) < N && 0 <= y && (y as usize) < N
    }

    /// The label of kite `kite` of hexagon `h`.
    pub fn get(&self, h: HexPos, kite: usize) -> (r: Result<KiteColor, HexError>)
        requires
            self.wf(),
        ensures
            kite >= 6 ==> r == Err::<KiteColor, HexError>(HexError::InvalidDirection),
            kite < 6 && !in_grid(N as int, h@) ==> r == Err::<KiteColor, HexError>(
                HexError::OutOfRange,
            ),
            kite < 6 && in_grid(N as int, h@) ==> r == Ok::<KiteColor, HexError>(
                self@[(h@, kite as int)],
            ),
    {
        if kite >= 6 {
            return Err(HexError::InvalidDirection);
        }
        if !self.valid(h) {
            return Err(HexError::OutOfRange);
        }
        Ok(self.label(h, kite))
    }

    /// Writes label `c` into kite `kite` of hexagon `h`. A refused write
    /// leaves the grid as it was.
    pub fn set(&mut self, h: HexPos, kite: usize, c: KiteColor) -> (r: Result<(), HexError>)
        requires
            old(self).wf(),
        ensures
            final(self).wf(),
            kite >= 6 ==> r == Err::<(), HexError>(HexError::InvalidDirection),
            kite < 6 && !in_grid(N as int, h@) ==> r == Err::<(), HexError>(HexError::OutOfRange),
            kite < 6 && in_grid(N as int, h@) ==> r == Ok::<(), HexError>(()),
            r is Ok ==> final(self)@ == old(self)@.insert((h@, kite as int), c),
            r is Err ==> final(self)@ == old(self)@,
    {
        if kite >= 6 {
            return Err(HexError::InvalidDirection);
        }
        if !self.valid(h) {
            return Err(HexError::OutOfRange);
        }
        self.put(h, kite, c);
        Ok(())
    }

    /// Whether all eight kites under the hat at `h`, `kite` are empty. The
    /// grid is only read.
    pub fn hat_is_empty(&self, h: HexPos, kite: usize) -> (r: Result<bool, HexError>)
        requires
            self.wf(),
        ensures
            kite >= 6 ==> r == Err::<bool, HexError>(HexError::InvalidDirection),
            kite < 6 && !footprint_in_grid(N as int, h@, kite as int) ==> r == Err::<
                bool,
                HexError,
            >(HexError::OutOfRange),
            kite < 6 && footprint_in_grid(N as int, h@, kite as int) ==> r == Ok::<
                bool,
                HexError,
            >(hat_empty(self@, h@, kite as int)),
    {
        let (n1, n2) = match self.hat_hexes(h, kite) {
            Ok(pair) => pair,
            Err(e) => {
                return Err(e);
            },
        };
        let ghost fp = footprint(h@, kite as int);
        let empty = self.label(h, kite) == EMPTY && self.label(h, (kite + 1) % 6) == EMPTY
            && self.label(n1, (kite + 2) % 6) == EMPTY && self.label(n1, (kite + 3) % 6) == EMPTY
            && self.label(n2, kite) == EMPTY && self.label(n2, (kite + 3) % 6) == EMPTY
            && self.label(n2, (kite + 4) % 6) == EMPTY && self.label(n2, (kite + 5) % 6) == EMPTY;
        proof {
            if empty {
                assert forall|i: int| 0 <= i < 8 implies self@[#[trigger] fp[i]] == EMPTY by {}
            } else {
                assert(self@[fp[0]] != EMPTY || self@[fp[1]] != EMPTY || self@[fp[2]] != EMPTY
                    || self@[fp[3]] != EMPTY || self@[fp[4]] != EMPTY || self@[fp[5]] != EMPTY
                    || self@[fp[6]] != EMPTY || self@[fp[7]] != EMPTY);
            }
        }
        Ok(empty)
    }

    /// Writes label `c` into all eight kites under the hat at `h`, `kite`,
    /// whatever they held. A hat that does not lie in the grid is refused and
    /// nothing is written.
    pub fn hat_set(&mut self, h: HexPos, kite: usize, c: KiteColor) -> (r: Result<(), HexError>)
        requires
            old(self).wf(),
        ensures
            final(self).wf(),
            kite >= 6 ==> r == Err::<(), HexError>(HexError::InvalidDirection),
            kite < 6 && !footprint_in_grid(N as int, h@, kite as int) ==> r == Err::<(), HexError>(
                HexError::OutOfRange,
            ),
            kite < 6 && footprint_in_grid(N as int, h@, kite as int) ==> r == Ok::<(), HexError>(
                (),
            ),
            r is Ok ==> final(self)@ == paint(old(self)@, footprint(h@, kite as int), c),
            r is Err ==> final(self)@ == old(self)@,
    {
        let (n1, n2) = match self.hat_hexes(h, kite) {
            Ok(pair) => pair,
            Err(e) => {
                return Err(e);
            },
        };
        self.put(h, kite, c);
        self.put(h, (kite + 1) % 6, c);
        self.put(n1, (kite + 2) % 6, c);
        self.put(n1, (kite + 3) % 6, c);
        self.put(n2, kite, c);
        self.put(n2, (kite + 3) % 6, c);
        self.put(n2, (kite + 4) % 6, c);
        self.put(n2, (kite + 5) % 6, c);
        proof {
            let fp = footprint(h@, kite as int);
            let painted = paint(old(self)@, fp, c);
            old(self).lemma_domain();
            assert forall|s: Slot| self@.dom().contains(s) implies self@[s] == painted[s] by {
                lemma_footprint_slots(h@, kite as int, s);
            }
            assert(self@ =~= painted);
        }
        Ok(())
    }

    /// Places a hat: writes `label` into the eight kites under the hat at
    /// `h`, `kite`, which the caller has found empty.
    pub fn hat_place(&mut self, h: HexPos, kite: usize, label: KiteColor)
        requires
            old(self).wf(),
            kite < 6,
            footprint_in_grid(N as int, h@, kite as int),
            hat_empty(old(self)@, h@, kite as int),
        ensures
            final(self).wf(),
            final(self)@ == paint(old(self)@, footprint(h@, kite as int), label),
    {
        let _ = self.hat_set(h, kite, label);
    }

    /// Takes a hat away: empties the eight kites under the hat at `h`, `kite`.
    pub fn hat_remove(&mut self, h: HexPos, kite: usize)
        requires
            old(self).wf(),
            kite < 6,
            footprint_in_grid(N as int, h@, kite as int),
        ensures
            final(self).wf(),
            final(self)@ == paint(old(self)@, footprint(h@, kite as int), EMPTY),
    {
        let _ = self.hat_set(h, kite, EMPTY);
    }
}

/// The kites of a footprint are the eight that its definition lists.
pub proof fn lemma_footprint_slots(h: (int, int), k: int, s: Slot)
    ensures
        footprint(h, k).len() == 8,
        footprint(h, k).contains(s) <==> {
            let n1 = neighbor_of(h, turn(k, 1));
            let n2 = neighbor_of(h, turn(k, 2));
            ||| s == (h, k)
            ||| s == (h, turn(k, 1))
            ||| s == (n1, turn(k, 2))
            ||| s == (n1, turn(k, 3))
            ||| s == (n2, k)
            ||| s == (n2, turn(k, 3))
            ||| s == (n2, turn(k, 4))
            ||| s == (n2, turn(k, 5))
        },
{
    let fp = footprint(h, k);
    assert(fp[0] == (h, k));
    assert(fp[1] == (h, turn(k, 1)));
    assert(fp[2].1 == turn(k, 2));
    assert(fp[3].1 == turn(k, 3));
    assert(fp[4].1 == k);
    assert(fp[5].1 == turn(k, 3));
    assert(fp[6].1 == turn(k, 4));
    assert(fp[7].1 == turn(k, 5));
}

/// The eight kites of a hat are pairwise distinct.
pub proof fn lemma_footprint_distinct(h: (int, int), k: int)
    requires
        0 <= k < 6,
    ensures
        footprint(h, k).no_duplicates(),
{
    crate::hex::lemma_neighbors_distinct(h, turn(k, 1), turn(k, 2));
}

/// A hat that lies in the grid covers kites of the grid only.
pub proof fn lemma_footprint_within(n: int, h: (int, int), k: int)
    requires
        0 <= k < 6,
        footprint_in_grid(n, h, k),
    ensures
        forall|i: int| 0 <= i < 8 ==> slot_in_grid(n, #[trigger] footprint(h, k)[i]),
{
}

/// Placing a hat on empty kites and taking it away again restores the grid.
pub proof fn lemma_place_then_remove(m: Kites, h: (int, int), k: int, c: KiteColor)
    requires
        hat_empty(m, h, k),
    ensures
        paint(paint(m, footprint(h, k), c), footprint(h, k), EMPTY) == m,
{
    let fp = footprint(h, k);
    let back = paint(paint(m, fp, c), fp, EMPTY);
    assert forall|s: Slot| m.dom().contains(s) implies back[s] == m[s] by {
        if fp.contains(s) {
            let i = choose|i: int| 0 <= i < fp.len() && fp[i] == s;
            assert(m[fp[i]] == EMPTY);
        }
    }
    assert(back =~= m);
}

} // verus!
