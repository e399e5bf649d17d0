//! The picture of a grid: where each hexagon and kite lies on a canvas of
//! pixels, and which marks show the hats on it.

use vstd::prelude::*;
use crate::grid::{in_grid, KiteGrid, Kites, EMPTY};
use crate::hex::{neighbor_of, turn, HexPos};

verus! {

/// Half the height of a hexagon on the canvas, in pixels.
pub const RADIUS: isize = 32;

/// `a` divided by a positive `b`, rounded towards zero.
pub open spec fn quot(a: int, b: int) -> int {
    if a >= 0 {
        a / b
    } else {
        -((-a) / b)
    }
}

/// What is left of `a` after division by a positive `b` rounded towards
/// zero; it has the sign of `a`.
pub open spec fn rem(a: int, b: int) -> int {
    a - b * quot(a, b)
}

/// The pixel at the centre of hexagon `p`. Columns are 2 cos 30 degrees times
/// `RADIUS` apart and rows twice `RADIUS`. A column of odd index is shifted by
/// half a row: down where the index is positive, and, as the remainder takes
/// the sign of the index, up where it is negative.
#[verifier::opaque]
pub open spec fn center_of(p: (int, int)) -> (int, int) {
    (quot(RADIUS * (p.0 * 2 + 1) * 866, 1000), RADIUS * (p.1 * 2 + 1 + rem(p.0, 2)))
}

/// The pixel halfway between two pixels.
#[verifier::opaque]
pub open spec fn midway(p1: (int, int), p2: (int, int)) -> (int, int) {
    (quot(p1.0 + p2.0, 2), quot(p1.1 + p2.1, 2))
}

/// The pixel at the centre of gravity of three pixels.
#[verifier::opaque]
pub open spec fn midway3(p1: (int, int), p2: (int, int), p3: (int, int)) -> (int, int) {
    (quot(p1.0 + p2.0 + p3.0, 3), quot(p1.1 + p2.1 + p3.1, 3))
}

/// Whether `v` is a value of `isize`.
pub open spec fn fits(v: int) -> bool {
    isize::MIN <= v <= isize::MAX
}

impl HexPos {
    /// Whether the centre of this hexagon can be computed within `isize`.
    pub open spec fn can_project(self) -> bool {
        &&& fits(RADIUS * (self.0 * 2 + 1) * 866)
        &&& fits(RADIUS * (self.1 * 2 + 1 + rem(self.0 as int, 2)))
    }

    /// The pixel at the centre of this hexagon.
    pub fn display_center(self) -> (c: (isize, isize))
        requires
            self.can_project(),
        ensures
            (c.0 as int, c.1 as int) == center_of(self@),
    {
        proof {
            reveal(center_of);
            let t = self.0 * 2 + 1;
            assert(fits(self.0 * 2) && fits(t) && fits(RADIUS * t)) by (nonlinear_arith)
                requires
                    fits(RADIUS * t * 866),
                    t == self.0 * 2 + 1,
                    RADIUS == 32,
                    isize::MIN <= -0x8000_0000,
                    isize::MAX >= 0x7fff_ffff,
            ;
            let u = self.1 * 2 + 1 + rem(self.0 as int, 2);
            assert(-1 <= rem(self.0 as int, 2) <= 1);
            assert(fits(u - 2) && fits(u + 2)) by (nonlinear_arith)
                requires
                    fits(RADIUS * u),
                    RADIUS == 32,
                    isize::MIN <= -0x8000_0000,
                    isize::MAX >= 0x7fff_ffff,
            ;
        }
        let y = RADIUS * (self.1 * 2 + 1 + self.0 % 2);
        let x = RADIUS * (self.0 * 2 + 1) * 866 / 1000;
        (x, y)
    }
}

/// The pixel halfway between `p1` and `p2`.
pub fn avg(p1: (isize, isize), p2: (isize, isize)) -> (c: (isize, isize))
    requires
        fits(p1.0 + p2.0),
        fits(p1.1 + p2.1),
    ensures
        (c.0 as int, c.1 as int) == midway((p1.0 as int, p1.1 as int), (p2.0 as int, p2.1 as int)),
{
    proof {
        reveal(midway);
    }
    ((p1.0 + p2.0) / 2, (p1.1 + p2.1) / 2)
}

/// The pixel at the centre of gravity of `p1`, `p2` and `p3`.
pub fn avg3(p1: (isize, isize), p2: (isize, isize), p3: (isize, isize)) -> (c: (isize, isize))
    requires
        fits(p1.0 + p2.0),
        fits(p1.0 + p2.0 + p3.0),
        fits(p1.1 + p2.1),
        fits(p1.1 + p2.1 + p3.1),
    ensures
        (c.0 as int, c.1 as int) == midway3(
            (p1.0 as int, p1.1 as int),
            (p2.0 as int, p2.1 as int),
            (p3.0 as int, p3.1 as int),
        ),
{
    proof {
        reveal(midway3);
    }
    ((p1.0 + p2.0 + p3.0) / 3, (p1.1 + p2.1 + p3.1) / 3)
}

/// The colour of the dot at the centre of each hexagon.
pub const WHITE: u32 = 0xFFFFFF;

/// The colour of the block that fills a covered kite.
pub const GREY: u32 = 0x7F7F7F;

/// The colour of the lines between kites of different hats.
pub const YELLOW: u32 = 0xFFFF00;

/// One mark to make on a canvas.
#[derive(Clone, Copy, Debug, PartialEq, Eq)]
pub enum Stroke {
    /// One pixel in a colour.
    Plot { at: (isize, isize), color: u32 },
    /// A straight line between two pixels in a colour.
    Line { from: (isize, isize), to: (isize, isize), color: u32 },
}

/// What a stroke stands for: a mark between pixels of the unbounded plane.
pub enum Mark {
    Dot { at: (int, int), color: u32 },
    Segment { from: (int, int), to: (int, int), color: u32 },
}

impl View for Stroke {
    type V = Mark;

    open spec fn view(&self) -> Mark {
        match *self {
            Stroke::Plot { at, color } => Mark::Dot { at: (at.0 as int, at.1 as int), color },
            Stroke::Line { from, to, color } => Mark::Segment {
                from: (from.0 as int, from.1 as int),
                to: (to.0 as int, to.1 as int),
                color,
            },
        }
    }
}

/// A picture as the list of strokes that draw it on a blank canvas, first
/// stroke first.
#[derive(Clone, Debug)]
pub struct Drawing {
    /// Width of the canvas in pixels.
    pub width: isize,
    /// Height of the canvas in pixels.
    pub height: isize,
    /// The strokes, in the order in which they are made.
    pub strokes: Vec<Stroke>,
}

/// What a drawing stands for.
pub struct Picture {
    pub width: int,
    pub height: int,
    pub marks: Seq<Mark>,
}

/// The marks that a list of strokes stands for.
pub open spec fn marks_of(strokes: Seq<Stroke>) -> Seq<Mark> {
    Seq::new(strokes.len(), |i: int| strokes[i]@)
}

impl View for Drawing {
    type V = Picture;

    open spec fn view(&self) -> Picture {
        Picture {
            width: self.width as int,
            height: self.height as int,
            marks: marks_of(self.strokes@),
        }
    }
}

/// The block of seven by seven grey dots around pixel `c`, column by column.
pub open spec fn block(c: (int, int)) -> Seq<Mark> {
    Seq::new(49, |i: int| Mark::Dot { at: (c.0 + i / 7 - 3, c.1 + i % 7 - 3), color: GREY })
}

/// The pixel in the middle of the side that hexagon `h` shares with its
/// neighbour in direction `k`.
pub open spec fn side_middle(h: (int, int), k: int) -> (int, int) {
    midway(center_of(h), center_of(neighbor_of(h, k)))
}

/// The pixel at the corner that hexagon `h` shares with its neighbours in
/// directions `k` and one turn on.
pub open spec fn corner(h: (int, int), k: int) -> (int, int) {
    midway3(center_of(h), center_of(neighbor_of(h, k)), center_of(neighbor_of(h, turn(k, 1))))
}

/// The pixel in the middle of kite `k` of hexagon `h`.
pub open spec fn kite_middle(h: (int, int), k: int) -> (int, int) {
    midway3(center_of(h), corner(h, k), side_middle(h, k))
}

/// A grey block in the middle of kite `k` of hexagon `h`, if it is covered.
pub open spec fn fill_marks(m: Kites, h: (int, int), k: int) -> Seq<Mark> {
    if m[(h, k)] != EMPTY {
        block(kite_middle(h, k))
    } else {
        Seq::empty()
    }
}

/// A line along the edge of kite `k` that runs to the centre of hexagon `h`,
/// if the kite before it in the hexagon holds another label.
pub open spec fn spoke_marks(m: Kites, h: (int, int), k: int) -> Seq<Mark> {
    if m[(h, k)] != m[(h, turn(k, 5))] {
        seq![Mark::Segment { from: center_of(h), to: side_middle(h, k), color: YELLOW }]
    } else {
        Seq::empty()
    }
}

/// A line along the outer edge of kite `k` of hexagon `h`, if the kite across
/// that edge lies in the grid and holds another label.
pub open spec fn rim_marks(n: int, m: Kites, h: (int, int), k: int) -> Seq<Mark> {
    let near = neighbor_of(h, k);
    if in_grid(n, near) && m[(h, k)] != m[(near, turn(k, 2))] {
        seq![Mark::Segment { from: side_middle(h, k), to: corner(h, k), color: YELLOW }]
    } else {
        Seq::empty()
    }
}

/// The marks for kite `k` of hexagon `h`: its block, then the line towards
/// the centre, then the line along the outer edge.
pub open spec fn kite_marks(n: int, m: Kites, h: (int, int), k: int) -> Seq<Mark> {
    fill_marks(m, h, k) + spoke_marks(m, h, k) + rim_marks(n, m, h, k)
}

/// The marks for hexagon `h`: a white dot at its centre, then the marks of
/// its first `upto` kites.
pub open spec fn hex_marks(n: int, m: Kites, h: (int, int), upto: nat) -> Seq<Mark>
    decreases upto,
{
    if upto == 0 {
        seq![Mark::Dot { at: center_of(h), color: WHITE }]
    } else {
        hex_marks(n, m, h, (upto - 1) as nat) + kite_marks(n, m, h, upto - 1)
    }
}

/// The marks for the first `upto` hexagons of row `y`.
pub open spec fn row_marks(n: int, m: Kites, y: int, upto: nat) -> Seq<Mark>
    decreases upto,
{
    if upto == 0 {
        Seq::empty()
    } else {
        row_marks(n, m, y, (upto - 1) as nat) + hex_marks(n, m, (upto - 1, y), 6)
    }
}

/// The marks for the first `upto` rows.
pub open spec fn rows_marks(n: int, m: Kites, upto: nat) -> Seq<Mark>
    decreases upto,
{
    if upto == 0 {
        Seq::empty()
    } else {
        rows_marks(n, m, (upto - 1) as nat) + row_marks(n, m, upto - 1, n as nat)
    }
}

/// The picture of a grid of side `n` that holds `m`: hexagon by hexagon, row
/// by row, on a canvas that all the hexagons fit on.
pub open spec fn picture(n: int, m: Kites) -> Picture {
    Picture {
        width: quot(n * 2 * RADIUS * 866, 1000),
        height: n * 2 * RADIUS,
        marks: rows_marks(n, m, n as nat),
    }
}

/// How far from the origin, along either axis, the centre of a hexagon in or
/// next to a grid of side `n` can lie.
spec fn reach(n: int) -> int {
    64 * (n + 2)
}

/// Whether both coordinates of pixel `p` lie within `bound` of the origin.
spec fn within(p: (int, int), bound: int) -> bool {
    -bound <= p.0 <= bound && -bound <= p.1 <= bound
}

/// In a grid whose labels can be counted, every sum that the projection
/// forms fits in `isize`.
proof fn lemma_reach_fits(n: int)
    requires
        0 <= n,
        n * n * 6 <= usize::MAX,
    ensures
        fits(27712 * (2 * n + 3)),
        fits(3 * reach(n) + 3),
{
    if n >= 20000 {
        assert(n * n * 3 - 1 >= 27712 * (2 * n + 3)) by (nonlinear_arith)
            requires
                n >= 20000,
        ;
    }
}

/// The centre of a hexagon in or next to the grid can be computed, and lies
/// within reach.
proof fn lemma_center_within(n: int, p: (int, int))
    requires
        0 <= n,
        n * n * 6 <= usize::MAX,
        -1 <= p.0 <= n,
        -1 <= p.1 <= n,
    ensures
        fits(RADIUS * (p.0 * 2 + 1) * 866),
        fits(RADIUS * (p.1 * 2 + 1 + rem(p.0, 2))),
        within(center_of(p), reach(n)),
{
    reveal(center_of);
    lemma_reach_fits(n);
}

/// One more stroke stands for one more mark.
proof fn lemma_marks_push(strokes: Seq<Stroke>, stroke: Stroke)
    ensures
        marks_of(strokes.push(stroke)) == marks_of(strokes).push(stroke@),
{
    assert(marks_of(strokes.push(stroke)) =~= marks_of(strokes).push(stroke@));
}

/// Appends the grey block around `c`.
fn fill_block(strokes: &mut Vec<Stroke>, c: (isize, isize))
    requires
        fits(c.0 - 3),
        fits(c.0 + 3),
        fits(c.1 - 3),
        fits(c.1 + 3),
    ensures
        marks_of(final(strokes)@) == marks_of(old(strokes)@) + block((c.0 as int, c.1 as int)),
{
    let ghost base = marks_of(strokes@);
    let ghost all = block((c.0 as int, c.1 as int));
    assert(base =~= base + all.take(0));
    let mut dx: isize = -3;
    while dx <= 3
        invariant
            -3 <= dx <= 4,
            fits(c.0 - 3),
            fits(c.0 + 3),
            fits(c.1 - 3),
            fits(c.1 + 3),
            all == block((c.0 as int, c.1 as int)),
            marks_of(strokes@) == base + all.take(7 * (dx + 3)),
        decreases 4 - dx,
    {
        let mut dy: isize = -3;
        while dy <= 3
            invariant
                -3 <= dx <= 3,
                -3 <= dy <= 4,
                fits(c.0 - 3),
                fits(c.0 + 3),
                fits(c.1 - 3),
                fits(c.1 + 3),
                all == block((c.0 as int, c.1 as int)),
                marks_of(strokes@) == base + all.take(7 * (dx + 3) + (dy + 3)),
            decreases 4 - dy,
        {
            let stroke = Stroke::Plot { at: (c.0 + dx, c.1 + dy), color: GREY };
            proof {
                let k = 7 * (dx + 3) + (dy + 3);
                lemma_marks_push(strokes@, stroke);
                assert(all[k] == stroke@);
                assert(all.take(k + 1) =~= all.take(k).push(all[k]));
                assert((base + all.take(k)).push(stroke@) =~= base + all.take(k + 1));
            }
            strokes.push(stroke);
            dy += 1;
        }
        dx += 1;
    }
    proof {
        assert(all.take(49) =~= all);
    }
}

/// A pixel halfway between two pixels lies no further out than they do.
proof fn lemma_midway_within(p1: (int, int), p2: (int, int), bound: int)
    requires
        within(p1, bound),
        within(p2, bound),
    ensures
        within(midway(p1, p2), bound),
{
    reveal(midway);
}

/// The centre of gravity of three pixels lies no further out than they do.
proof fn lemma_midway3_within(p1: (int, int), p2: (int, int), p3: (int, int), bound: int)
    requires
        within(p1, bound),
        within(p2, bound),
        within(p3, bound),
    ensures
        within(midway3(p1, p2, p3), bound),
{
    reveal(midway3);
}

/// The pixels that the marks of one kite run between.
struct KitePoints {
    center: (isize, isize),
    midpoint: (isize, isize),
    corner: (isize, isize),
    middle: (isize, isize),
}

impl KitePoints {
    spec fn describes(self, h: (int, int), k: int) -> bool {
        &&& (self.center.0 as int, self.center.1 as int) == center_of(h)
        &&& (self.midpoint.0 as int, self.midpoint.1 as int) == side_middle(h, k)
        &&& (self.corner.0 as int, self.corner.1 as int) == corner(h, k)
        &&& (self.middle.0 as int, self.middle.1 as int) == kite_middle(h, k)
    }
}

impl<const N: usize> KiteGrid<N> {
    /// Where kite `kite` of hexagon `h` lies on the canvas.
    fn kite_points(&self, h: HexPos, kite: usize) -> (p: KitePoints)
        requires
            self.wf(),
            in_grid(N as int, h@),
            kite < 6,
        ensures
            p.describes(h@, kite as int),
            fits(p.middle.0 - 3),
            fits(p.middle.0 + 3),
            fits(p.middle.1 - 3),
            fits(p.middle.1 + 3),
    {
        let ghost n = N as int;
        let ghost k = kite as int;
        let ghost near_at = neighbor_of(h@, k);
        let ghost next_at = neighbor_of(h@, turn(k, 1));
        proof {
            self.lemma_side_fits();
            self.lemma_side_bound();
            lemma_reach_fits(n);
            lemma_center_within(n, h@);
            lemma_center_within(n, near_at);
            lemma_center_within(n, next_at);
            lemma_midway_within(center_of(h@), center_of(near_at), reach(n));
            lemma_midway3_within(center_of(h@), center_of(near_at), center_of(next_at), reach(n));
            lemma_midway3_within(center_of(h@), corner(h@, k), side_middle(h@, k), reach(n));
        }
        let center = h.display_center();
        let near = h.step(kite).display_center();
        let next = h.step((kite + 1) % 6).display_center();
        let corner = avg3(center, near, next);
        let midpoint = avg(center, near);
        let middle = avg3(center, corner, midpoint);
        KitePoints { center, midpoint, corner, middle }
    }

    /// Appends the marks for kite `kite` of hexagon `h`.
    fn draw_kite(&self, h: HexPos, kite: usize, strokes: &mut Vec<Stroke>)
        requires
            self.wf(),
            in_grid(N as int, h@),
            kite < 6,
        ensures
            marks_of(final(strokes)@) == marks_of(old(strokes)@) + kite_marks(
                N as int,
                self@,
                h@,
                kite as int,
            ),
    {
        let ghost n = N as int;
        let ghost k = kite as int;
        let ghost base = marks_of(strokes@);
        let ghost fill = fill_marks(self@, h@, k);
        let ghost spoke = spoke_marks(self@, h@, k);
        let ghost rim = rim_marks(n, self@, h@, k);
        proof {
            self.lemma_side_fits();
        }
        let p = self.kite_points(h, kite);
        let near = h.step(kite);
        let here = self.label(h, kite);
        if here != EMPTY {
            fill_block(strokes, p.middle);
        }
        assert(marks_of(strokes@) =~= base + fill);
        if here != self.label(h, (kite + 5) % 6) {
            let stroke = Stroke::Line { from: p.center, to: p.midpoint, color: YELLOW };
            proof {
                lemma_marks_push(strokes@, stroke);
            }
            strokes.push(stroke);
        }
        assert(marks_of(strokes@) =~= base + (fill + spoke));
        if self.valid(near) && here != self.label(near, (kite + 2) % 6) {
            let stroke = Stroke::Line { from: p.midpoint, to: p.corner, color: YELLOW };
            proof {
                lemma_marks_push(strokes@, stroke);
            }
            strokes.push(stroke);
        }
        assert(marks_of(strokes@) =~= base + (fill + spoke + rim));
    }

    /// Appends the marks for hexagon `h`.
    fn draw_hex(&self, h: HexPos, strokes: &mut Vec<Stroke>)
        requires
            self.wf(),
            in_grid(N as int, h@),
        ensures
            marks_of(final(strokes)@) == marks_of(old(strokes)@) + hex_marks(
                N as int,
                self@,
                h@,
                6,
            ),
    {
        let ghost n = N as int;
        let ghost base = marks_of(strokes@);
        proof {
            self.lemma_side_bound();
            lemma_center_within(n, h@);
        }
        let dot = Stroke::Plot { at: h.display_center(), color: WHITE };
        proof {
            lemma_marks_push(strokes@, dot);
            assert(base.push(dot@) =~= base + hex_marks(n, self@, h@, 0));
        }
        strokes.push(dot);
        let mut kite: usize = 0;
        while kite < 6
            invariant
                kite <= 6,
                self.wf(),
                n == N as int,
                in_grid(n, h@),
                marks_of(strokes@) == base + hex_marks(n, self@, h@, kite as nat),
            decreases 6 - kite,
        {
            let ghost sofar = hex_marks(n, self@, h@, kite as nat);
            self.draw_kite(h, kite, strokes);
            proof {
                let more = kite_marks(n, self@, h@, kite as int);
                assert((base + sofar) + more =~= base + (sofar + more));
            }
            kite += 1;
        }
    }

    /// The picture of the grid: for every hexagon a dot at its centre, a
    /// block in each covered kite, and a line wherever two kites that touch
    /// hold different labels.
    pub fn display_tiling(&self) -> (d: Drawing)
        requires
            self.wf(),
        ensures
            d@ == picture(N as int, self@),
    {
        let ghost n = N as int;
        let ghost m = self@;
        proof {
            self.lemma_side_fits();
            self.lemma_side_bound();
            lemma_reach_fits(n);
            assert(0 <= N * 2 <= N * 2 * RADIUS <= N * 2 * RADIUS * 866 <= 27712 * (2 * n + 3))
                by (nonlinear_arith)
                requires
                    N >= 0,
                    n == N,
                    RADIUS == 32,
            ;
        }
        let side = N as isize;
        let width = side * 2 * RADIUS * 866 / 1000;
        let height = side * 2 * RADIUS;
        let mut strokes: Vec<Stroke> = Vec::new();
        assert(marks_of(strokes@) =~= rows_marks(n, m, 0));
        let mut y: usize = 0;
        while y < N
            invariant
                y <= N,
                self.wf(),
                n == N as int,
                m == self@,
                N < isize::MAX,
                marks_of(strokes@) == rows_marks(n, m, y as nat),
            decreases N - y,
        {
            let ghost above = rows_marks(n, m, y as nat);
            assert(marks_of(strokes@) =~= above + row_marks(n, m, y as int, 0));
            let mut x: usize = 0;
            while x < N
                invariant
                    x <= N,
                    y < N,
                    self.wf(),
                    n == N as int,
                    m == self@,
                    N < isize::MAX,
                    marks_of(strokes@) == above + row_marks(n, m, y as int, x as nat),
                decreases N - x,
            {
                let ghost sofar = row_marks(n, m, y as int, x as nat);
                let h = HexPos(x as isize, y as isize);
                self.draw_hex(h, &mut strokes);
                proof {
                    let more = hex_marks(n, m, h@, 6);
                    assert((above + sofar) + more =~= above + (sofar + more));
                }
                x += 1;
            }
            y += 1;
        }
        Drawing { width, height, strokes }
    }
}

} // verus!
