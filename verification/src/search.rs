//! Depth-first enumeration of hat placements.
//!
//! A search with budget `b` places `b` hats one after another, each on kites
//! that are still empty, and reports the grid every time all `b` are in place.
//! Hats are anchored in the interior of the grid only: two hexagons away from
//! every border, so that no hat reaches outside.

use vstd::prelude::*;
use crate::grid::{
    footprint, footprint_in_grid, hat_empty, lemma_place_then_remove, paint, KiteGrid, Kites,
};
use crate::hex::{HexError, HexPos};

verus! {

/// Whether hexagon `h` may anchor a hat in a grid of side `n`.
pub open spec fn interior(n: int, h: (int, int)) -> bool {
    2 <= h.0 < n - 2 && 2 <= h.1 < n - 2
}

/// The number of columns, and of rows, of the interior of a grid of side `n`.
pub open spec fn interior_side(n: int) -> int {
    if n > 4 {
        n - 4
    } else {
        0
    }
}

/// The number of candidates of one level: every interior hexagon in each of
/// the six orientations.
pub open spec fn candidate_count(n: int) -> int {
    interior_side(n) * interior_side(n) * 6
}

/// The place of the hat at `h` with orientation `d` in the order in which one
/// level tries its candidates: row by row, within a row column by column,
/// within a hexagon by ascending orientation.
pub open spec fn rank(n: int, h: (int, int), d: int) -> int {
    ((h.1 - 2) * interior_side(n) + (h.0 - 2)) * 6 + d
}

/// The anchor and orientation of the candidate that is tried `i`-th.
pub open spec fn candidate(n: int, i: int) -> ((int, int), int) {
    let side = interior_side(n);
    let cell = i / 6;
    ((2 + cell % side, 2 + cell / side), i % 6)
}

/// What trying the hat at `h`, `d` reports: nothing if some kite under it is
/// taken; else all that the search with one hat fewer reports once the hat is
/// placed with the budget as its label.
pub open spec fn attempt(n: int, m: Kites, budget: u8, h: (int, int), d: int) -> Seq<Kites>
    decreases budget, 0nat, 0nat,
{
    if budget > 0 && hat_empty(m, h, d) {
        reports(n, paint(m, footprint(h, d), budget), (budget - 1) as u8)
    } else {
        Seq::empty()
    }
}

/// What the first `upto` candidates of a level report, in order.
pub open spec fn level(n: int, m: Kites, budget: u8, upto: nat) -> Seq<Kites>
    decreases budget, 1nat, upto,
{
    if upto == 0 {
        Seq::empty()
    } else {
        let c = candidate(n, upto - 1);
        level(n, m, budget, (upto - 1) as nat) + attempt(n, m, budget, c.0, c.1)
    }
}

/// The grids that a search with the given budget reports when started on `m`,
/// in the order in which it reports them. With no budget left the search
/// reports the grid it was handed; else it tries every candidate in turn.
pub open spec fn reports(n: int, m: Kites, budget: u8) -> Seq<Kites>
    decreases budget, 2nat, 0nat,
{
    if budget == 0 {
        seq![m]
    } else {
        level(n, m, budget, candidate_count(n) as nat)
    }
}

/// Whether `answer` is what `report` may have returned for a grid that holds `m`.
pub open spec fn shown<const N: usize, R, F: Fn(&KiteGrid<N>) -> R>(
    report: &F,
    m: Kites,
    answer: R,
) -> bool {
    exists|g: KiteGrid<N>| g.wf() && g@ == m && call_ensures(*report, (&g,), answer)
}

/// Whether `after` is `before` followed by one answer of `report` for each of
/// `grids`, in their order.
pub open spec fn delivered<const N: usize, R, F: Fn(&KiteGrid<N>) -> R>(
    report: &F,
    grids: Seq<Kites>,
    before: Seq<R>,
    after: Seq<R>,
) -> bool {
    &&& after.len() == before.len() + grids.len()
    &&& forall|j: int| 0 <= j < before.len() ==> after[j] == before[j]
    &&& forall|j: int|
        before.len() <= j < after.len() ==> shown::<N, R, F>(
            report,
            grids[j - before.len()],
            #[trigger] after[j],
        )
}

impl<const N: usize> KiteGrid<N> {
    /// Tries the hat at `h`, `kite`: if all its kites are empty, places it
    /// with `budget` as its label, searches on with one hat fewer, and takes
    /// it away again. A hat on taken kites is passed over. A hat that does not
    /// lie in the grid is refused.
    pub fn try_position<R, F: Fn(&KiteGrid<N>) -> R>(
        &mut self,
        h: HexPos,
        kite: usize,
        budget: u8,
        report: &F,
        out: &mut Vec<R>,
    ) -> (r: Result<(), HexError>)
        requires
            old(self).wf(),
            budget > 0,
            forall|g: &KiteGrid<N>| g.wf() ==> call_requires(*report, (g,)),
        ensures
            final(self).wf(),
            final(self)@ == old(self)@,
            kite >= 6 ==> r == Err::<(), HexError>(HexError::InvalidDirection),
            kite < 6 && !footprint_in_grid(N as int, h@, kite as int) ==> r == Err::<(), HexError>(
                HexError::OutOfRange,
            ),
            kite < 6 && footprint_in_grid(N as int, h@, kite as int) ==> r == Ok::<(), HexError>(
                (),
            ),
            r is Err ==> final(out)@ == old(out)@,
            r is Ok ==> delivered::<N, R, F>(
                report,
                attempt(N as int, old(self)@, budget, h@, kite as int),
                old(out)@,
                final(out)@,
            ),
        decreases budget, 0nat,
    {
        match self.hat_is_empty(h, kite) {
            Err(e) => Err(e),
            Ok(false) => Ok(()),
            Ok(true) => {
                self.hat_place(h, kite, budget);
                self.search(budget - 1, report, out);
                self.hat_remove(h, kite);
                proof {
                    lemma_place_then_remove(old(self)@, h@, kite as int, budget);
                }
                Ok(())
            },
        }
    }

    /// Searches for every way to place `budget` more hats and hands each grid
    /// in which all of them are placed to `report`, whose answers are appended
    /// to `out`. The grid is the same afterwards as before.
    pub fn search<R, F: Fn(&KiteGrid<N>) -> R>(&mut self, budget: u8, report: &F, out: &mut Vec<R>)
        requires
            old(self).wf(),
            forall|g: &KiteGrid<N>| g.wf() ==> call_requires(*report, (g,)),
        ensures
            final(self).wf(),
            final(self)@ == old(self)@,
            delivered::<N, R, F>(
                report,
                reports(N as int, old(self)@, budget),
                old(out)@,
                final(out)@,
            ),
        decreases budget, 1nat,
    {
        if budget == 0 {
            let answer = report(&*self);
            out.push(answer);
            proof {
                assert(shown::<N, R, F>(report, old(self)@, answer));
            }
            return ;
        }
        let ghost n = N as int;
        let ghost m = old(self)@;
        let ghost side = interior_side(n);
        let end: usize = if N > 4 {
            N - 2
        } else {
            2
        };
        proof {
            self.lemma_side_fits();
        }
        let mut y: usize = 2;
        while y < end
            invariant
                2 <= y <= end,
                end == side + 2,
                n == N as int,
                side == interior_side(n),
                N < isize::MAX,
                budget > 0,
                self.wf(),
                self@ == m,
                forall|g: &KiteGrid<N>| g.wf() ==> call_requires(*report, (g,)),
                0 <= (y - 2) * side * 6,
                delivered::<N, R, F>(
                    report,
                    level(n, m, budget, ((y - 2) * side * 6) as nat),
                    old(out)@,
                    out@,
                ),
            decreases end - y,
        {
            let mut x: usize = 2;
            while x < end
                invariant
                    2 <= x <= end,
                    2 <= y < end,
                    end == side + 2,
                    n == N as int,
                    side == interior_side(n),
                    N < isize::MAX,
                    budget > 0,
                    self.wf(),
                    self@ == m,
                    forall|g: &KiteGrid<N>| g.wf() ==> call_requires(*report, (g,)),
                    0 <= ((y - 2) * side + (x - 2)) * 6,
                    delivered::<N, R, F>(
                        report,
                        level(n, m, budget, (((y - 2) * side + (x - 2)) * 6) as nat),
                        old(out)@,
                        out@,
                    ),
                decreases end - x,
            {
                let h = HexPos(x as isize, y as isize);
                let mut d: usize = 0;
                while d < 6
                    invariant
                        d <= 6,
                        2 <= x < end,
                        2 <= y < end,
                        end == side + 2,
                        n == N as int,
                        side == interior_side(n),
                        h@ == (x as int, y as int),
                        budget > 0,
                        self.wf(),
                        self@ == m,
                        forall|g: &KiteGrid<N>| g.wf() ==> call_requires(*report, (g,)),
                        0 <= rank(n, h@, d as int),
                        delivered::<N, R, F>(
                            report,
                            level(n, m, budget, rank(n, h@, d as int) as nat),
                            old(out)@,
                            out@,
                        ),
                    decreases 6 - d,
                {
                    let ghost sofar = out@;
                    let ghost k = rank(n, h@, d as int);
                    proof {
                        lemma_interior_footprint(n, h@, d as int);
                        lemma_candidate_of_rank(n, h@, d as int);
                    }
                    let _ = self.try_position(h, d, budget, report, out);
                    proof {
                        lemma_delivered_append::<N, R, F>(
                            report,
                            level(n, m, budget, k as nat),
                            attempt(n, m, budget, h@, d as int),
                            old(out)@,
                            sofar,
                            out@,
                        );
                        assert(level(n, m, budget, (k + 1) as nat) == level(n, m, budget, k as nat)
                            + attempt(n, m, budget, h@, d as int));
                    }
                    d += 1;
                }
                proof {
                    assert(rank(n, h@, 6) == ((y - 2) * side + (x + 1 - 2)) * 6);
                }
                x += 1;
            }
            proof {
                assert(((y - 2) * side + side) * 6 == (y + 1 - 2) * side * 6) by (nonlinear_arith);
                assert(0 <= (y + 1 - 2) * side * 6) by (nonlinear_arith)
                    requires
                        y >= 2,
                        side >= 0,
                ;
            }
            y += 1;
        }
        proof {
            assert((y - 2) * side * 6 == candidate_count(n)) by (nonlinear_arith)
                requires
                    y - 2 == side,
                    candidate_count(n) == side * side * 6,
            ;
        }
    }
}

/// Answers appended for one run of grids and then for another are the
/// answers for the two runs joined.
proof fn lemma_delivered_append<const N: usize, R, F: Fn(&KiteGrid<N>) -> R>(
    report: &F,
    first: Seq<Kites>,
    second: Seq<Kites>,
    before: Seq<R>,
    between: Seq<R>,
    after: Seq<R>,
)
    requires
        delivered::<N, R, F>(report, first, before, between),
        delivered::<N, R, F>(report, second, between, after),
    ensures
        delivered::<N, R, F>(report, first + second, before, after),
{
    let joined = first + second;
    assert forall|j: int| before.len() <= j < after.len() implies shown::<N, R, F>(
        report,
        joined[j - before.len()],
        #[trigger] after[j],
    ) by {
        if j < between.len() {
            assert(after[j] == between[j]);
        } else {
            assert(joined[j - before.len()] == second[j - between.len()]);
        }
    }
}

/// A hat anchored in the interior lies in the grid, whatever its orientation.
pub proof fn lemma_interior_footprint(n: int, h: (int, int), d: int)
    requires
        interior(n, h),
        0 <= d < 6,
    ensures
        footprint_in_grid(n, h, d),
{
}

/// Every interior anchor and orientation is some candidate of a level: its
/// rank is one of the level's places, and the candidate at that place is the
/// hat itself.
pub proof fn lemma_candidate_of_rank(n: int, h: (int, int), d: int)
    requires
        interior(n, h),
        0 <= d < 6,
    ensures
        0 <= rank(n, h, d) < candidate_count(n),
        candidate(n, rank(n, h, d)) == (h, d),
{
    let side = interior_side(n);
    let cell = (h.1 - 2) * side + (h.0 - 2);
    assert(0 <= (h.1 - 2) * side && cell < side * side) by (nonlinear_arith)
        requires
            0 <= h.1 - 2 < side,
            0 <= h.0 - 2 < side,
            cell == (h.1 - 2) * side + (h.0 - 2),
    ;
    vstd::arithmetic::div_mod::lemma_fundamental_div_mod_converse(cell * 6 + d, 6, cell, d);
    vstd::arithmetic::div_mod::lemma_fundamental_div_mod_converse(cell, side, h.1 - 2, h.0 - 2);
    assert(cell * 6 + d < side * side * 6);
}

/// Every place of a level holds an interior anchor with one of the six
/// orientations, and no two places hold the same hat: the rank of the
/// candidate at place `i` is `i`.
pub proof fn lemma_rank_of_candidate(n: int, i: int)
    requires
        0 <= i < candidate_count(n),
    ensures
        interior(n, candidate(n, i).0),
        0 <= candidate(n, i).1 < 6,
        rank(n, candidate(n, i).0, candidate(n, i).1) == i,
{
    let side = interior_side(n);
    let cell = i / 6;
    assert(side > 0) by (nonlinear_arith)
        requires
            0 < side * side * 6,
            side >= 0,
    ;
    assert(0 <= cell < side * side);
    vstd::arithmetic::div_mod::lemma_fundamental_div_mod(cell, side);
    vstd::arithmetic::div_mod::lemma_mod_bound(cell, side);
    assert(0 <= cell / side < side) by (nonlinear_arith)
        requires
            0 <= cell < side * side,
            side > 0,
            cell == side * (cell / side) + cell % side,
            0 <= cell % side < side,
    ;
    assert((cell / side) * side == side * (cell / side)) by (nonlinear_arith);
}

/// What the first candidates of a level report stands at the head of what
/// more of them report.
proof fn lemma_level_extends(n: int, m: Kites, budget: u8, i: nat, j: nat)
    requires
        i <= j,
    ensures
        level(n, m, budget, i).len() <= level(n, m, budget, j).len(),
        level(n, m, budget, j).subrange(0, level(n, m, budget, i).len() as int) == level(
            n,
            m,
            budget,
            i,
        ),
    decreases j,
{
    let short = level(n, m, budget, i);
    if i == j {
        assert(short.subrange(0, short.len() as int) =~= short);
    } else {
        let rest = level(n, m, budget, (j - 1) as nat);
        let c = candidate(n, j - 1);
        lemma_level_extends(n, m, budget, i, (j - 1) as nat);
        assert((rest + attempt(n, m, budget, c.0, c.1)).subrange(0, short.len() as int)
            =~= rest.subrange(0, short.len() as int));
    }
}

/// Within one level every interior hat is tried exactly once. The hat at `h`,
/// `d` is tried at the place that its rank gives: what trying it reports
/// stands in the reports of the level right behind all that the candidates
/// before it have reported. And no other place of the level holds that hat.
pub proof fn lemma_tried_exactly_once(n: int, m: Kites, budget: u8, h: (int, int), d: int)
    requires
        interior(n, h),
        0 <= d < 6,
        budget > 0,
    ensures
        0 <= rank(n, h, d) < candidate_count(n),
        ({
            let before = level(n, m, budget, rank(n, h, d) as nat);
            let here = attempt(n, m, budget, h, d);
            &&& before.len() + here.len() <= reports(n, m, budget).len()
            &&& reports(n, m, budget).subrange(
                before.len() as int,
                (before.len() + here.len()) as int,
            ) == here
        }),
        forall|i: int|
            0 <= i < candidate_count(n) && i != rank(n, h, d) ==> #[trigger] candidate(n, i) != (
                h,
                d,
            ),
{
    let place = rank(n, h, d);
    lemma_candidate_of_rank(n, h, d);
    let before = level(n, m, budget, place as nat);
    let here = attempt(n, m, budget, h, d);
    let upto = level(n, m, budget, (place + 1) as nat);
    assert(upto == before + here);
    lemma_level_extends(n, m, budget, (place + 1) as nat, candidate_count(n) as nat);
    let all = reports(n, m, budget);
    let from = before.len() as int;
    let to = (before.len() + here.len()) as int;
    assert(all.subrange(from, to) =~= all.subrange(0, upto.len() as int).subrange(from, to));
    assert(upto.subrange(from, to) =~= here);
    assert forall|i: int| 0 <= i < candidate_count(n) && i != place implies #[trigger] candidate(
        n,
        i,
    ) != (h, d) by {
        lemma_rank_of_candidate(n, i);
    }
}

/// With no budget left a search reports the grid it was handed, once.
pub proof fn lemma_reports_without_budget(n: int, m: Kites)
    ensures
        reports(n, m, 0) == seq![m],
{
}

} // verus!
