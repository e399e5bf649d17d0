//! Positions on the hexagonal lattice and the six steps between neighbours.

use vstd::prelude::*;

verus! {

/// Why an operation on the lattice was refused.
#[derive(Clone, Copy, Debug, PartialEq, Eq, Structural)]
pub enum HexError {
    /// A direction or kite index outside `0..6`.
    InvalidDirection,
    /// A hexagon outside the grid.
    OutOfRange,
}

/// A hexagon of the lattice, by column and row.
#[derive(Clone, Copy, Debug, PartialEq, Eq, Structural)]
pub struct HexPos(pub isize, pub isize);

impl View for HexPos {
    type V = (int, int);

    open spec fn view(&self) -> (int, int) {
        (self.0 as int, self.1 as int)
    }
}

/// How far a step out of column `column` is shifted down: odd columns sit half
/// a hexagon lower, so their sideways steps land one row further down.
pub open spec fn column_shift(column: int) -> int {
    if column % 2 != 0 {
        1
    } else {
        0
    }
}

/// The hexagon next to `p` in direction `d`. Direction 0 points up and the
/// others follow clockwise. Outside `0..6` there is no step and `p` stays.
pub open spec fn neighbor_of(p: (int, int), d: int) -> (int, int) {
    let shift = column_shift(p.0);
    if d == 0 {
        (p.0, p.1 - 1)
    } else if d == 1 {
        (p.0 + 1, p.1 + shift - 1)
    } else if d == 2 {
        (p.0 + 1, p.1 + shift)
    } else if d == 3 {
        (p.0, p.1 + 1)
    } else if d == 4 {
        (p.0 - 1, p.1 + shift)
    } else if d == 5 {
        (p.0 - 1, p.1 + shift - 1)
    } else {
        p
    }
}

/// The direction `steps` places clockwise from `d`.
pub open spec fn turn(d: int, steps: int) -> int {
    (d + steps) % 6
}

impl HexPos {
    /// Whether the neighbour in the given direction has coordinates that fit
    /// in `isize`. Where the direction is none of the six, nothing is asked.
    pub open spec fn can_step(self, direction: usize) -> bool {
        let n = neighbor_of(self@, direction as int);
        isize::MIN <= n.0 <= isize::MAX && isize::MIN <= n.1 <= isize::MAX
    }

    /// The neighbouring hexagon in a direction that is known to be one of
    /// the six.
    pub(crate) fn step(self, direction: usize) -> (r: HexPos)
        requires
            direction < 6,
            self.can_step(direction),
        ensures
            r@ == neighbor_of(self@, direction as int),
    {
        let HexPos(x, y) = self;
        let odd = x % 2 != 0;
        match direction {
            0 => HexPos(x, y - 1),
            1 => if odd {
                HexPos(x + 1, y)
            } else {
                HexPos(x + 1, y - 1)
            },
            2 => if odd {
                HexPos(x + 1, y + 1)
            } else {
                HexPos(x + 1, y)
            },
            3 => HexPos(x, y + 1),
            4 => if odd {
                HexPos(x - 1, y + 1)
            } else {
                HexPos(x - 1, y)
            },
            _ => if odd {
                HexPos(x - 1, y)
            } else {
                HexPos(x - 1, y - 1)
            },
        }
    }

    /// The neighbouring hexagon in the given direction, or
    /// `InvalidDirection` when the direction is not one of the six.
    pub fn neighbor(self, direction: usize) -> (r: Result<HexPos, HexError>)
        requires
            self.can_step(direction),
        ensures
            direction < 6 ==> r is Ok && r->Ok_0@ == neighbor_of(self@, direction as int),
            direction >= 6 ==> r == Err::<HexPos, HexError>(HexError::InvalidDirection),
    {
        if direction < 6 {
            Ok(self.step(direction))
        } else {
            Err(HexError::InvalidDirection)
        }
    }
}

/// The six neighbours of `h`, in the order of their directions.
pub fn all_neighbors(h: (isize, isize)) -> (r: Vec<(isize, isize)>)
    requires
        forall|d: usize| d < 6 ==> HexPos(h.0, h.1).can_step(d),
    ensures
        r@.len() == 6,
        forall|d: int|
            0 <= d < 6 ==> (#[trigger] r@[d].0 as int, r@[d].1 as int) == neighbor_of(
                (h.0 as int, h.1 as int),
                d,
            ),
{
    let mut r: Vec<(isize, isize)> = Vec::new();
    let mut d: usize = 0;
    while d < 6
        invariant
            d <= 6,
            forall|e: usize| e < 6 ==> HexPos(h.0, h.1).can_step(e),
            r@.len() == d,
            forall|e: int|
                0 <= e < d ==> (#[trigger] r@[e].0 as int, r@[e].1 as int) == neighbor_of(
                    (h.0 as int, h.1 as int),
                    e,
                ),
        decreases 6 - d,
    {
        let n = HexPos(h.0, h.1).step(d);
        r.push((n.0, n.1));
        d += 1;
    }
    r
}

/// A step followed by the step in the opposite direction leads back to the
/// start, whatever the parity of the column.
pub proof fn lemma_neighbor_round_trip(p: (int, int), d: int)
    requires
        0 <= d < 6,
    ensures
        neighbor_of(neighbor_of(p, d), turn(d, 3)) == p,
{
}

/// The six neighbours of a hexagon differ from it and from one another.
pub proof fn lemma_neighbors_distinct(p: (int, int), d: int, e: int)
    requires
        0 <= d < 6,
        0 <= e < 6,
    ensures
        neighbor_of(p, d) != p,
        d != e ==> neighbor_of(p, d) != neighbor_of(p, e),
{
}

} // verus!
