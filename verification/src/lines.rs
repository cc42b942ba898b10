//! Chords between pegs: canonical line identifiers, integer rasterization of
//! a chord into the ordered sequence of pixels it passes through, and the
//! table holding one segment for every unordered pair of pegs.

use vstd::prelude::*;
use crate::geometry::Point;

verus! {

/// Identifier of the chord between two distinct pegs, canonicalized so the
/// smaller peg index comes first: `(a, b)` and `(b, a)` name the same line.
#[derive(Debug, PartialEq, Eq, Structural, Clone, Copy, Hash)]
pub struct LineID {
    pub start: u16,
    pub end: u16,
}

/// The canonical identifier of the unordered pair `{a, b}`.
pub open spec fn line_id(a: u16, b: u16) -> LineID {
    if a < b {
        LineID { start: a, end: b }
    } else {
        LineID { start: b, end: a }
    }
}

/// Builds the canonical identifier: smaller peg index first.
pub fn get_line_id(a: u16, b: u16) -> (r: LineID)
    ensures
        r == line_id(a, b),
{
    if a < b {
        LineID { start: a, end: b }
    } else {
        LineID { start: b, end: a }
    }
}

/// The canonical identifier is symmetric: both orders of a pair of pegs name
/// the same line.
pub proof fn lemma_line_id_symmetric(a: u16, b: u16)
    ensures
        line_id(a, b) == line_id(b, a),
{
}

/// Distinct unordered pairs have distinct identifiers: from one peg `a`, the
/// lines to two different pegs never share an identifier.
pub proof fn lemma_line_id_injective(a: u16, b: u16, c: u16)
    requires
        b != c,
    ensures
        line_id(a, b) != line_id(a, c),
{
}

/// `t` lies in the axis-aligned bounding box spanned by `p` and `q`.
pub open spec fn point_in_box(t: Point, p: Point, q: Point) -> bool {
    &&& (if p.x <= q.x {
        p.x <= t.x <= q.x
    } else {
        q.x <= t.x <= p.x
    })
    &&& (if p.y <= q.y {
        p.y <= t.y <= q.y
    } else {
        q.y <= t.y <= p.y
    })
}

/// `seg` is a rasterized chord from `p` to `q`: nonempty, starting at `p`,
/// ending at `q`, never leaving the bounding box of the two endpoints, and
/// no longer than one more than the sum of the axis distances.
pub open spec fn seg_connects(seg: Seq<Point>, p: Point, q: Point) -> bool {
    &&& seg.len() >= 1
    &&& seg[0] == p
    &&& seg[seg.len() - 1] == q
    &&& forall|k: int| 0 <= k < seg.len() ==> point_in_box(#[trigger] seg[k], p, q)
    &&& seg.len() <= (if p.x <= q.x {
        q.x - p.x
    } else {
        p.x - q.x
    }) + (if p.y <= q.y {
        q.y - p.y
    } else {
        p.y - q.y
    }) + 1
}

/// `s` is the straight horizontal walk from `(x0, y)` to `(x1, y)`, one
/// pixel per step.
pub open spec fn axis_walk_x(s: Seq<Point>, x0: u16, x1: u16, y: u16) -> bool {
    &&& s.len() == (if x0 <= x1 {
        x1 - x0
    } else {
        x0 - x1
    }) + 1
    &&& forall|k: int|
        0 <= k < s.len() ==> (#[trigger] s[k]).y == y && s[k].x == (if x0 <= x1 {
            x0 + k
        } else {
            x0 - k
        })
}

/// `s` is the straight vertical walk from `(x, y0)` to `(x, y1)`, one pixel
/// per step.
pub open spec fn axis_walk_y(s: Seq<Point>, y0: u16, y1: u16, x: u16) -> bool {
    &&& s.len() == (if y0 <= y1 {
        y1 - y0
    } else {
        y0 - y1
    }) + 1
    &&& forall|k: int|
        0 <= k < s.len() ==> (#[trigger] s[k]).x == x && s[k].y == (if y0 <= y1 {
            y0 + k
        } else {
            y0 - k
        })
}

/// An axis-stepped walk visits the same pixels in both direction orders —
/// the two runs are equal as unordered sets — and repeats no pixel.
pub proof fn lemma_axis_walk_x_set_symmetric(
    s1: Seq<Point>,
    s2: Seq<Point>,
    x0: u16,
    x1: u16,
    y: u16,
)
    requires
        axis_walk_x(s1, x0, x1, y),
        axis_walk_x(s2, x1, x0, y),
    ensures
        forall|p: Point| s1.contains(p) <==> s2.contains(p),
        s1.no_duplicates(),
{
    assert forall|p: Point| s1.contains(p) implies s2.contains(p) by {
        let k = choose|k: int| 0 <= k < s1.len() && s1[k] == p;
        assert(s2[s2.len() - 1 - k] == p);
    }
    assert forall|p: Point| s2.contains(p) implies s1.contains(p) by {
        let k = choose|k: int| 0 <= k < s2.len() && s2[k] == p;
        assert(s1[s1.len() - 1 - k] == p);
    }
}

/// The vertical counterpart: both direction orders visit the same pixel
/// set, with no pixel repeated.
pub proof fn lemma_axis_walk_y_set_symmetric(
    s1: Seq<Point>,
    s2: Seq<Point>,
    y0: u16,
    y1: u16,
    x: u16,
)
    requires
        axis_walk_y(s1, y0, y1, x),
        axis_walk_y(s2, y1, y0, x),
    ensures
        forall|p: Point| s1.contains(p) <==> s2.contains(p),
        s1.no_duplicates(),
{
    assert forall|p: Point| s1.contains(p) implies s2.contains(p) by {
        let k = choose|k: int| 0 <= k < s1.len() && s1[k] == p;
        assert(s2[s2.len() - 1 - k] == p);
    }
    assert forall|p: Point| s2.contains(p) implies s1.contains(p) by {
        let k = choose|k: int| 0 <= k < s2.len() && s2[k] == p;
        assert(s1[s1.len() - 1 - k] == p);
    }
}

/// One run of Bresenham's stepping from `(cx, cy)` toward `(x1, y1)`:
/// the current point, then, unless the target is reached, the points after
/// advancing the error accumulator. The fuel bounds the recursion; every
/// reachable state holds enough of it.
pub open spec fn bres_rec(
    cx: int,
    cy: int,
    err: int,
    sx: int,
    sy: int,
    dx: int,
    dy: int,
    x1: int,
    y1: int,
    fuel: nat,
) -> Seq<Point>
    decreases fuel,
{
    let pt = Point { x: cx as u16, y: cy as u16 };
    if (cx == x1 && cy == y1) || fuel == 0 {
        seq![pt]
    } else {
        let e2 = 2 * err;
        let cx2 = if e2 > -dy {
            cx + sx
        } else {
            cx
        };
        let err1 = if e2 > -dy {
            err - dy
        } else {
            err
        };
        let cy2 = if e2 < dx {
            cy + sy
        } else {
            cy
        };
        let err2 = if e2 < dx {
            err1 + dx
        } else {
            err1
        };
        seq![pt] + bres_rec(cx2, cy2, err2, sx, sy, dx, dy, x1, y1, (fuel - 1) as nat)
    }
}

/// The exact pixel sequence Bresenham's algorithm produces from `p` to `q`.
pub open spec fn bres_seq(p: Point, q: Point) -> Seq<Point> {
    let dx: int = if p.x < q.x {
        q.x - p.x
    } else {
        p.x - q.x
    };
    let dy: int = if p.y < q.y {
        q.y - p.y
    } else {
        p.y - q.y
    };
    let sx: int = if p.x < q.x {
        1
    } else {
        -1
    };
    let sy: int = if p.y < q.y {
        1
    } else {
        -1
    };
    bres_rec(
        p.x as int,
        p.y as int,
        dx - dy,
        sx,
        sy,
        dx,
        dy,
        q.x as int,
        q.y as int,
        (dx + dy) as nat,
    )
}

/// Rasterizes the chord from `(x0, y0)` to `(x1, y1)` with Bresenham's
/// integer line algorithm: an error accumulator decides at each step whether
/// to advance on the x axis, the y axis, or both. The result contains both
/// endpoints and stays inside their bounding box.
pub fn bresenham(x0: u16, y0: u16, x1: u16, y1: u16) -> (line: Vec<Point>)
    ensures
        line@ == bres_seq(Point { x: x0, y: y0 }, Point { x: x1, y: y1 }),
        seg_connects(line@, Point { x: x0, y: y0 }, Point { x: x1, y: y1 }),
        y0 == y1 ==> axis_walk_x(line@, x0, x1, y0),
        x0 == x1 ==> axis_walk_y(line@, y0, y1, x0),
{
    let mut cx: i64 = x0 as i64;
    let mut cy: i64 = y0 as i64;
    let dx: i64 = if x0 < x1 {
        x1 as i64 - x0 as i64
    } else {
        x0 as i64 - x1 as i64
    };
    let dy: i64 = if y0 < y1 {
        y1 as i64 - y0 as i64
    } else {
        y0 as i64 - y1 as i64
    };
    let sx: i64 = if x0 < x1 {
        1
    } else {
        -1
    };
    let sy: i64 = if y0 < y1 {
        1
    } else {
        -1
    };
    let mut err: i64 = dx - dy;
    let mut line: Vec<Point> = Vec::new();
    // Remaining distances to the target on each axis.
    let ghost mut a: int = if sx == 1 {
        x1 - cx
    } else {
        cx - x1
    };
    let ghost mut b: int = if sy == 1 {
        y1 - cy
    } else {
        cy - y1
    };
    proof {
        assert((dy as int) * (dx as int) == (dx as int) * (dy as int)) by (nonlinear_arith);
        assert(line@ + bres_rec(
            cx as int,
            cy as int,
            err as int,
            sx as int,
            sy as int,
            dx as int,
            dy as int,
            x1 as int,
            y1 as int,
            (dx + dy - line@.len()) as nat,
        ) =~= bres_rec(
            cx as int,
            cy as int,
            err as int,
            sx as int,
            sy as int,
            dx as int,
            dy as int,
            x1 as int,
            y1 as int,
            (dx + dy - line@.len()) as nat,
        ));
    }
    loop
        invariant
            sx == 1 || sx == -1,
            sy == 1 || sy == -1,
            x0 < x1 ==> sx == 1,
            x1 <= x0 ==> sx == -1,
            y0 < y1 ==> sy == 1,
            y1 <= y0 ==> sy == -1,
            dx == if x0 < x1 { x1 - x0 } else { x0 - x1 } as int,
            dy == if y0 < y1 { y1 - y0 } else { y0 - y1 } as int,
            a == if sx == 1 { x1 - cx } else { cx - x1 } as int,
            b == if sy == 1 { y1 - cy } else { cy - y1 } as int,
            0 <= a <= dx,
            0 <= b <= dy,
            err == dx - dy + dy * a - dx * b,
            line@.len() + a + b <= dx + dy,
            bres_seq(Point { x: x0, y: y0 }, Point { x: x1, y: y1 }) == line@ + bres_rec(
                cx as int,
                cy as int,
                err as int,
                sx as int,
                sy as int,
                dx as int,
                dy as int,
                x1 as int,
                y1 as int,
                (dx + dy - line@.len()) as nat,
            ),
            y0 == y1 ==> b == 0 && line@.len() == dx - a && (forall|k: int|
                0 <= k < line@.len() ==> (#[trigger] line@[k]).y == y0 && line@[k].x == (
                if x0 <= x1 {
                    x0 + k
                } else {
                    x0 - k
                })),
            x0 == x1 ==> a == 0 && line@.len() == dy - b && (forall|k: int|
                0 <= k < line@.len() ==> (#[trigger] line@[k]).x == x0 && line@[k].y == (
                if y0 <= y1 {
                    y0 + k
                } else {
                    y0 - k
                })),
            line@.len() == 0 ==> cx == x0 && cy == y0,
            line@.len() > 0 ==> line@[0] == (Point { x: x0, y: y0 }),
            forall|k: int|
                0 <= k < line@.len() ==> point_in_box(
                    #[trigger] line@[k],
                    Point { x: x0, y: y0 },
                    Point { x: x1, y: y1 },
                ),
        decreases a + b,
    {
        proof {
            // The current point lies in the bounding box of the endpoints.
            assert(if x0 <= x1 {
                x0 <= cx <= x1
            } else {
                x1 <= cx <= x0
            });
            assert(if y0 <= y1 {
                y0 <= cy <= y1
            } else {
                y1 <= cy <= y0
            });
        }
        let ghost line0: Seq<Point> = line@;
        let ghost cx0: int = cx as int;
        let ghost cy0: int = cy as int;
        let ghost errg: int = err as int;
        let ghost f0: nat = (dx + dy - line@.len()) as nat;
        line.push(Point { x: cx as u16, y: cy as u16 });
        if cx == x1 as i64 && cy == y1 as i64 {
            proof {
                assert(line@ =~= line0 + seq![Point { x: cx0 as u16, y: cy0 as u16 }]);
                assert(line@ == bres_seq(Point { x: x0, y: y0 }, Point { x: x1, y: y1 }));
            }
            return line;
        }
        proof {
            assert(a > 0 || b > 0);
            // Bound the error accumulator so that doubling it cannot overflow.
            assert(dy * a <= 65535 * 65535) by (nonlinear_arith)
                requires
                    0 <= dy <= 65535,
                    0 <= a <= 65535,
            ;
            assert(dx * b <= 65535 * 65535) by (nonlinear_arith)
                requires
                    0 <= dx <= 65535,
                    0 <= b <= 65535,
            ;
            assert(dy * a >= 0 && dx * b >= 0) by (nonlinear_arith)
                requires
                    0 <= dy,
                    0 <= a,
                    0 <= dx,
                    0 <= b,
            ;
        }
        let e2: i64 = 2 * err;
        let ghost a0: int = a;
        let ghost b0: int = b;
        let ghost err0: int = err as int;
        if e2 > 0 - dy {
            proof {
                // No overshoot: at a == 0 the x branch can never fire.
                if a == 0 {
                    assert(b >= 1);
                    assert(dy * a == 0) by (nonlinear_arith)
                        requires
                            a == 0,
                    ;
                    assert(dx * b >= dx) by (nonlinear_arith)
                        requires
                            b >= 1,
                            dx >= 0,
                    ;
                    assert(err <= 0 - dy);
                    assert(false);
                }
                assert(dy * (a - 1) == dy * a - dy) by (nonlinear_arith);
                a = a - 1;
            }
            err = err - dy;
            cx = cx + sx;
        }
        if e2 < dx {
            proof {
                // No overshoot: at b == 0 the y branch can never fire.
                if b == 0 {
                    assert(b0 == 0);
                    assert(a0 >= 1);
                    assert(dx * b0 == 0) by (nonlinear_arith)
                        requires
                            b0 == 0,
                    ;
                    assert(dy * a0 >= dy) by (nonlinear_arith)
                        requires
                            a0 >= 1,
                            dy >= 0,
                    ;
                    assert(err0 >= dx);
                    assert(false);
                }
                assert(dx * (b - 1) == dx * b - dx) by (nonlinear_arith);
                b = b - 1;
            }
            err = err + dx;
            cy = cy + sy;
        }
        proof {
            let pt = Point { x: cx0 as u16, y: cy0 as u16 };
            assert(f0 >= 1);
            assert(bres_rec(
                cx0,
                cy0,
                errg,
                sx as int,
                sy as int,
                dx as int,
                dy as int,
                x1 as int,
                y1 as int,
                f0,
            ) == seq![pt] + bres_rec(
                cx as int,
                cy as int,
                err as int,
                sx as int,
                sy as int,
                dx as int,
                dy as int,
                x1 as int,
                y1 as int,
                (f0 - 1) as nat,
            ));
            assert(line0 + (seq![pt] + bres_rec(
                cx as int,
                cy as int,
                err as int,
                sx as int,
                sy as int,
                dx as int,
                dy as int,
                x1 as int,
                y1 as int,
                (f0 - 1) as nat,
            )) =~= line@ + bres_rec(
                cx as int,
                cy as int,
                err as int,
                sx as int,
                sy as int,
                dx as int,
                dy as int,
                x1 as int,
                y1 as int,
                (f0 - 1) as nat,
            ));
            assert((f0 - 1) as nat == (dx + dy - line@.len()) as nat);
        }
    }
}

/// Number of table entries in the rows before row `a`, for `n` pegs: row `k`
/// holds the pairs `(k, k+1) .. (k, n-1)`.
pub open spec fn row_base(a: int, n: int) -> int
    decreases a,
{
    if a <= 0 {
        0
    } else {
        row_base(a - 1, n) + (n - a)
    }
}

/// Position of the pair `(a, b)`, `a < b`, in the row-by-row enumeration of
/// all unordered pairs of `n` pegs.
pub open spec fn pair_index(a: int, b: int, n: int) -> int {
    row_base(a, n) + (b - a - 1)
}

/// Closed form of `row_base`: twice the number of entries before row `a` is
/// `a * (2n - a - 1)`.
pub proof fn lemma_row_base_closed(a: int, n: int)
    requires
        0 <= a <= n,
    ensures
        2 * row_base(a, n) == a * (2 * n - a - 1),
    decreases a,
{
    if a == 0 {
        assert(0 * (2 * n - 0 - 1) == 0) by (nonlinear_arith);
    } else {
        lemma_row_base_closed(a - 1, n);
        assert((a - 1) * (2 * n - (a - 1) - 1) + 2 * (n - a) == a * (2 * n - a - 1))
            by (nonlinear_arith);
    }
}

/// The full table over `n` pegs has exactly `n * (n - 1) / 2` entries.
pub proof fn lemma_pair_count(n: int)
    requires
        0 <= n,
    ensures
        2 * row_base(n, n) == n * (n - 1),
{
    lemma_row_base_closed(n, n);
    assert(n * (2 * n - n - 1) == n * (n - 1)) by (nonlinear_arith);
}

/// `row_base` grows with the row number.
pub proof fn lemma_row_base_monotone(a1: int, a2: int, n: int)
    requires
        0 <= a1 <= a2 <= n,
    ensures
        row_base(a1, n) <= row_base(a2, n),
    decreases a2 - a1,
{
    if a1 < a2 {
        lemma_row_base_monotone(a1, a2 - 1, n);
    }
}

/// Every pair `(a, b)` with `a < b < n` gets an index below the table size,
/// and the enumeration is ordered row by row.
pub proof fn lemma_pair_index_bounds(a: int, b: int, n: int)
    requires
        0 <= a < b < n,
    ensures
        0 <= pair_index(a, b, n),
        pair_index(a, b, n) < row_base(a + 1, n),
        row_base(a + 1, n) <= row_base(n, n),
{
    assert(row_base(a, n) >= 0) by {
        lemma_row_base_monotone(0, a, n);
    }
    lemma_row_base_monotone(a + 1, n, n);
}

/// The chord a table stores for the pair `(a, b)` stays within the image
/// square and is short enough to score.
pub proof fn lemma_segment_in_image(t: LineTable, coords: Seq<Point>, size: int, a: int, b: int)
    requires
        table_matches(t, coords),
        coords.len() <= 32767,
        0 <= a < b < coords.len(),
        forall|i: int|
            0 <= i < coords.len() ==> (#[trigger] coords[i]).x < size && coords[i].y < size,
        1 <= size,
    ensures
        1 <= spec_lookup(t, LineID { start: a as u16, end: b as u16 }).len() <= 2 * size,
        forall|k: int|
            0 <= k < spec_lookup(t, LineID { start: a as u16, end: b as u16 }).len() ==> (
            #[trigger] spec_lookup(t, LineID { start: a as u16, end: b as u16 })[k]).x < size
                && spec_lookup(t, LineID { start: a as u16, end: b as u16 })[k].y < size,
{
    let seg = spec_lookup(t, LineID { start: a as u16, end: b as u16 });
    assert(seg_connects(t.segments@[pair_index(a, b, t.n as int)]@, coords[a], coords[b]));
    assert(seg == t.segments@[pair_index(a, b, t.n as int)]@);
    assert forall|k: int| 0 <= k < seg.len() implies (#[trigger] seg[k]).x < size && seg[k].y
        < size by {
        assert(point_in_box(seg[k], coords[a], coords[b]));
    }
}

/// The precomputed table of rasterized chords, one entry for every unordered
/// pair of distinct pegs, laid out row by row by canonical identifier.
pub struct LineTable {
    pub n: usize,
    pub segments: Vec<Vec<Point>>,
}

/// The table holds, for every pair `a < b` of pegs of `coords`, the
/// rasterized chord between peg `a` and peg `b`.
pub open spec fn table_matches(t: LineTable, coords: Seq<Point>) -> bool {
    &&& t.n == coords.len()
    &&& t.segments.len() == row_base(t.n as int, t.n as int)
    &&& forall|a: int, b: int|
        0 <= a < b < t.n ==> seg_connects(
            #[trigger] t.segments@[pair_index(a, b, t.n as int)]@,
            coords[a],
            coords[b],
        )
}

/// Every entry of the table is exactly the Bresenham run between its two
/// pegs, rasterized from the lower-numbered peg to the higher.
pub open spec fn table_exact(t: LineTable, coords: Seq<Point>) -> bool {
    forall|a: int, b: int|
        0 <= a < b < coords.len() ==> #[trigger] t.segments@[pair_index(a, b, t.n as int)]@
            == bres_seq(coords[a], coords[b])
}

/// The segment a table answers for an identifier, as a pure function of the
/// table and the identifier.
pub open spec fn spec_lookup(t: LineTable, id: LineID) -> Seq<Point> {
    t.segments@[pair_index(id.start as int, id.end as int, t.n as int)]@
}

/// Line-table lookup depends only on the unordered pair: querying with the
/// identifier built from `(a, b)` or from `(b, a)` answers the identical
/// segment.
pub proof fn lemma_lookup_unordered(t: LineTable, a: u16, b: u16)
    ensures
        spec_lookup(t, line_id(a, b)) == spec_lookup(t, line_id(b, a)),
{
    lemma_line_id_symmetric(a, b);
}

/// Computes the table position of the pair `(a, b)`.
fn pair_index_exec(a: usize, b: usize, n: usize) -> (r: usize)
    requires
        a < b,
        b < n,
        n <= 32767,
    ensures
        r == pair_index(a as int, b as int, n as int),
        r < row_base(n as int, n as int),
{
    proof {
        lemma_row_base_closed(a as int, n as int);
        lemma_pair_index_bounds(a as int, b as int, n as int);
        assert(a * (2 * n - a - 1) <= 32767 * 65533) by (nonlinear_arith)
            requires
                0 <= a,
                a < n,
                n <= 32767,
        ;
        assert(a * (2 * n - a - 1) >= 0) by (nonlinear_arith)
            requires
                0 <= a,
                a < n,
        ;
    }
    let t: usize = a * (2 * n - a - 1);
    proof {
        assert((2 * row_base(a as int, n as int)) / 2 == row_base(a as int, n as int)) by {
            vstd::arithmetic::div_mod::lemma_div_by_multiple(row_base(a as int, n as int), 2);
        }
    }
    t / 2 + (b - a - 1)
}

impl LineTable {
    /// Looks the segment for a canonical identifier up. The same identifier
    /// always answers the identical segment.
    pub fn get(&self, id: LineID) -> (seg: &Vec<Point>)
        requires
            id.start < id.end,
            (id.end as int) < self.n,
            self.n <= 32767,
            self.segments@.len() == row_base(self.n as int, self.n as int),
        ensures
            seg@ == spec_lookup(*self, id),
    {
        let idx: usize = pair_index_exec(id.start as usize, id.end as usize, self.n);
        &self.segments[idx]
    }
}

/// Builds the full line table: for every unordered pair of distinct pegs,
/// the rasterized chord between their positions, covering all
/// `n * (n - 1) / 2` pairs.
pub fn map_of_lines(circle_coords: &Vec<Point>) -> (t: LineTable)
    requires
        circle_coords@.len() <= 32767,
    ensures
        table_matches(t, circle_coords@),
        table_exact(t, circle_coords@),
{
    let n: usize = circle_coords.len();
    let mut segments: Vec<Vec<Point>> = Vec::new();
    for a in 0..n
        invariant
            n == circle_coords@.len(),
            n <= 32767,
            segments@.len() == row_base(a as int, n as int),
            forall|i: int, j: int|
                0 <= i < j < n && i < a ==> seg_connects(
                    #[trigger] segments@[pair_index(i, j, n as int)]@,
                    circle_coords@[i],
                    circle_coords@[j],
                ),
            forall|i: int, j: int|
                0 <= i < j < n && i < a ==> #[trigger] segments@[pair_index(i, j, n as int)]@
                    == bres_seq(circle_coords@[i], circle_coords@[j]),
    {
        for b in (a + 1)..n
            invariant
                n == circle_coords@.len(),
                n <= 32767,
                a < n,
                a < b,
                segments@.len() == pair_index(a as int, b as int, n as int),
                forall|i: int, j: int|
                    0 <= i < j < n && (i < a || (i == a && j < b)) ==> seg_connects(
                        #[trigger] segments@[pair_index(i, j, n as int)]@,
                        circle_coords@[i],
                        circle_coords@[j],
                    ),
                forall|i: int, j: int|
                    0 <= i < j < n && (i < a || (i == a && j < b)) ==> #[trigger] segments@[
                        pair_index(i, j, n as int)]@ == bres_seq(
                        circle_coords@[i],
                        circle_coords@[j],
                    ),
        {
            let pa: Point = circle_coords[a];
            let pb: Point = circle_coords[b];
            let seg: Vec<Point> = bresenham(pa.x, pa.y, pb.x, pb.y);
            proof {
                lemma_pair_index_bounds(a as int, b as int, n as int);
                assert forall|i: int, j: int|
                    0 <= i < j < n && (i < a || (i == a && j < b)) implies pair_index(
                    i,
                    j,
                    n as int,
                ) < pair_index(a as int, b as int, n as int) by {
                    if i < a {
                        lemma_pair_index_bounds(i, j, n as int);
                        lemma_row_base_monotone(i + 1, a as int, n as int);
                    }
                }
            }
            let ghost segs0: Seq<Vec<Point>> = segments@;
            segments.push(seg);
            proof {
                assert forall|i: int, j: int|
                    0 <= i < j < n && (i < a || (i == a && j <= b)) implies seg_connects(
                    #[trigger] segments@[pair_index(i, j, n as int)]@,
                    circle_coords@[i],
                    circle_coords@[j],
                ) by {
                    if i == a && j == b {
                        assert(segments@[pair_index(i, j, n as int)]@ == seg@);
                    } else {
                        lemma_pair_index_bounds(i, j, n as int);
                        assert(pair_index(i, j, n as int) < segs0.len());
                        assert(segments@[pair_index(i, j, n as int)] == segs0[pair_index(
                            i,
                            j,
                            n as int,
                        )]);
                    }
                }
                assert forall|i: int, j: int|
                    0 <= i < j < n && (i < a || (i == a && j <= b)) implies #[trigger] segments@[
                    pair_index(i, j, n as int)]@ == bres_seq(
                    circle_coords@[i],
                    circle_coords@[j],
                ) by {
                    if i == a && j == b {
                        assert(segments@[pair_index(i, j, n as int)]@ == seg@);
                        assert(seg@ == bres_seq(circle_coords@[i], circle_coords@[j]));
                    } else {
                        lemma_pair_index_bounds(i, j, n as int);
                        assert(pair_index(i, j, n as int) < segs0.len());
                        assert(segments@[pair_index(i, j, n as int)] == segs0[pair_index(
                            i,
                            j,
                            n as int,
                        )]);
                        assert(segs0[pair_index(i, j, n as int)]@ == bres_seq(
                            circle_coords@[i],
                            circle_coords@[j],
                        ));
                    }
                }
            }
        }
    }
    proof {
        assert(segments@.len() == row_base(n as int, n as int));
    }
    LineTable { n, segments }
}

} // verus!
