use vstd::prelude::*;

use crate::braille::{braille_char, dots_code, glyph};
use crate::text::push_char;

verus! {

/// A point of a dot canvas; coordinates may lie outside it.
#[derive(Debug, Clone, Copy, PartialEq, Eq, Structural)]
pub struct Position {
    pub x: i32,
    pub y: i32,
}

/// A canvas of dots, one byte each: 0 for off, anything else for on.
pub struct DotCanvas {
    width: usize,
    height: usize,
    data: Vec<u8>,
}

/// `a / b` rounded toward zero, for positive `b`.
pub open spec fn trunc_div(a: int, b: int) -> int {
    if a >= 0 {
        a / b
    } else {
        -((-a) / b)
    }
}

pub open spec fn abs(a: int) -> int {
    if a >= 0 {
        a
    } else {
        -a
    }
}

/// The number of steps of a line: its longer extent.
pub open spec fn line_steps(p1: Position, p2: Position) -> int {
    let (dx, dy) = (abs(p2.x - p1.x), abs(p2.y - p1.y));
    if dx >= dy {
        dx
    } else {
        dy
    }
}

/// Step `i` of the line from `p1` to `p2`, each coordinate interpolated and rounded
/// toward the start.
pub open spec fn line_point(p1: Position, p2: Position, i: int) -> (int, int) {
    let n = line_steps(p1, p2);
    (p1.x + trunc_div((p2.x - p1.x) * i, n), p1.y + trunc_div((p2.y - p1.y) * i, n))
}

/// `(px, py)` is one of the steps `0..k` of the line.
pub open spec fn on_line_before(p1: Position, p2: Position, k: int, px: int, py: int) -> bool {
    exists|i: int| 0 <= i < k && #[trigger] line_point(p1, p2, i) == (px, py)
}

/// `(px, py)` lies on the outline of the rectangle with corners `p1` and `p2`.
pub open spec fn on_rect_border(p1: Position, p2: Position, px: int, py: int) -> bool {
    (p1.x <= px <= p2.x && (py == p1.y || py == p2.y)) || (p1.y <= py <= p2.y && (px == p1.x
        || px == p2.x))
}

/// `(px, py)` lies in the rectangle with corners `p1` and `p2`.
pub open spec fn in_rect(p1: Position, p2: Position, px: int, py: int) -> bool {
    p1.x <= px <= p2.x && p1.y <= py <= p2.y
}

/// The state `(y, d)` of the midpoint circle algorithm at step `k`, where `x == k`:
/// `d` decides whether `y` moves inward on the next step.
pub open spec fn circle_state(r: int, k: nat) -> (int, int)
    decreases k,
{
    if k == 0 {
        (r, 3 - 2 * r)
    } else {
        let (y, d) = circle_state(r, (k - 1) as nat);
        let x = k - 1;
        if d < 0 {
            (y, d + 4 * x + 6)
        } else {
            (y - 1, d + 4 * (x - y) + 10)
        }
    }
}

/// `(px, py)` is one of the eight mirror images of `(x, y)` about `c`.
pub open spec fn octant_point(c: Position, x: int, y: int, px: int, py: int) -> bool {
    ((px == c.x + x || px == c.x - x) && (py == c.y + y || py == c.y - y)) || ((px == c.x + y
        || px == c.x - y) && (py == c.y + x || py == c.y - x))
}

/// `(px, py)` is plotted by one of the steps `0..k` of the circle of radius `r`.
pub open spec fn on_circle_before(c: Position, r: int, k: nat, px: int, py: int) -> bool {
    exists|j: nat|
        j < k && j <= circle_state(r, j).0 && #[trigger] octant_point(
            c,
            j as int,
            circle_state(r, j).0,
            px,
            py,
        )
}

/// `(px, py)` is plotted by the midpoint circle of radius `r` about `c`: one of the
/// eight mirror images of a step `(x, y)` taken while `x <= y`.
pub open spec fn on_circle(c: Position, r: int, px: int, py: int) -> bool {
    exists|j: nat|
        j <= circle_state(r, j).0 && #[trigger] octant_point(c, j as int, circle_state(r, j).0, px, py)
}

proof fn lemma_index_unique(x1: int, y1: int, x2: int, y2: int, w: int)
    requires
        0 <= x1 < w,
        0 <= x2 < w,
        0 <= y1,
        0 <= y2,
        y1 * w + x1 == y2 * w + x2,
    ensures
        x1 == x2 && y1 == y2,
{
    if y1 < y2 {
        assert(y1 * w + x1 < y2 * w + x2) by (nonlinear_arith)
            requires
                0 <= x1 < w,
                0 <= x2,
                y1 < y2,
        ;
    } else if y2 < y1 {
        assert(y2 * w + x2 < y1 * w + x1) by (nonlinear_arith)
            requires
                0 <= x2 < w,
                0 <= x1,
                y2 < y1,
        ;
    }
}

proof fn lemma_trunc_between(d: int, i: int, n: int)
    requires
        0 <= i <= n,
        0 < n,
        abs(d) <= n,
    ensures
        d >= 0 ==> 0 <= trunc_div(d * i, n) <= d,
        d < 0 ==> d <= trunc_div(d * i, n) <= 0,
{
    if d >= 0 {
        assert(0 <= d * i <= d * n) by (nonlinear_arith)
            requires
                0 <= i <= n,
                0 <= d,
        ;
        vstd::arithmetic::div_mod::lemma_div_is_ordered(d * i, d * n, n);
        assert(d * n == n * d) by (nonlinear_arith);
        vstd::arithmetic::div_mod::lemma_div_multiples_vanish(d, n);
        vstd::arithmetic::div_mod::lemma_div_pos_is_pos(d * i, n);
    } else {
        let e = -d;
        assert(d * i == -(e * i)) by (nonlinear_arith)
            requires
                e == -d,
        ;
        assert(0 <= e * i <= e * n) by (nonlinear_arith)
            requires
                0 <= i <= n,
                0 <= e,
        ;
        vstd::arithmetic::div_mod::lemma_div_is_ordered(e * i, e * n, n);
        assert(e * n == n * e) by (nonlinear_arith);
        vstd::arithmetic::div_mod::lemma_div_multiples_vanish(e, n);
        vstd::arithmetic::div_mod::lemma_div_pos_is_pos(e * i, n);
    }
}

/// `x - y` grows with every step of the circle, so once `x` passes `y` it stays past.
proof fn lemma_circle_passed(r: int, k: nat, j: nat)
    requires
        k <= j,
        k > circle_state(r, k).0,
    ensures
        j > circle_state(r, j).0,
    decreases j - k,
{
    if j > k {
        lemma_circle_passed(r, k, (j - 1) as nat);
    }
}

impl DotCanvas {
    pub closed spec fn spec_width(&self) -> nat {
        self.width as nat
    }

    pub closed spec fn spec_height(&self) -> nat {
        self.height as nat
    }

    /// One byte per dot.
    pub closed spec fn wf(&self) -> bool {
        self.data@.len() == self.width * self.height
    }

    /// The dot at column `x`, row `y`.
    pub closed spec fn dot(&self, x: int, y: int) -> u8 {
        self.data@[y * self.width + x]
    }

    /// `(x, y)` lies on the canvas.
    pub open spec fn contains(&self, x: int, y: int) -> bool {
        0 <= x < self.spec_width() && 0 <= y < self.spec_height()
    }

    /// `other` has this canvas's size.
    pub open spec fn same_size(&self, other: &DotCanvas) -> bool {
        other.wf() && other.spec_width() == self.spec_width() && other.spec_height()
            == self.spec_height()
    }

    /// A `width` by `height` canvas with every dot off.
    pub fn new(width: usize, height: usize) -> (r: DotCanvas)
        requires
            width * height <= usize::MAX,
        ensures
            r.wf(),
            r.spec_width() == width,
            r.spec_height() == height,
            forall|x: int, y: int| r.contains(x, y) ==> #[trigger] r.dot(x, y) == 0,
    {
        let r = DotCanvas { width, height, data: vec![0; width * height] };
        assert forall|x: int, y: int| r.contains(x, y) implies #[trigger] r.dot(x, y) == 0 by {
            crate::canvas::lemma_index_in_bounds(x, y, width as int, height as int);
        }
        r
    }

    /// Sets the dot at `(x, y)` to `value`.
    fn put(&mut self, x: usize, y: usize, value: u8)
        requires
            old(self).wf(),
            x < old(self).spec_width(),
            y < old(self).spec_height(),
        ensures
            old(self).same_size(final(self)),
            forall|px: int, py: int|
                old(self).contains(px, py) ==> #[trigger] final(self).dot(px, py) == if px == x
                    && py == y {
                    value
                } else {
                    old(self).dot(px, py)
                },
    {
        let len = self.data.len();
        proof {
            crate::canvas::lemma_index_in_bounds(
                x as int,
                y as int,
                self.width as int,
                self.height as int,
            );
        }
        let i = y * self.width + x;
        self.data.set(i, value);
        proof {
            assert forall|px: int, py: int| old(self).contains(px, py) implies #[trigger] self.dot(
                px,
                py,
            ) == if px == x && py == y {
                value
            } else {
                old(self).dot(px, py)
            } by {
                crate::canvas::lemma_index_in_bounds(
                    px,
                    py,
                    self.width as int,
                    self.height as int,
                );
                if px != x || py != y {
                    if py * self.width + px == y * self.width + x {
                        lemma_index_unique(px, py, x as int, y as int, self.width as int);
                    }
                }
            }
        }
    }

    /// Sets the dot at `(x, y)` to `value` (0 or 1).
    pub fn set(&mut self, x: i32, y: i32, value: u8)
        requires
            old(self).wf(),
            old(self).contains(x as int, y as int),
        ensures
            old(self).same_size(final(self)),
            forall|px: int, py: int|
                old(self).contains(px, py) ==> #[trigger] final(self).dot(px, py) == if px == x
                    && py == y {
                    value
                } else {
                    old(self).dot(px, py)
                },
    {
        self.put(x as usize, y as usize, value)
    }

    /// The dot at `(x, y)`.
    pub fn get(&self, x: usize, y: usize) -> (r: u8)
        requires
            self.wf(),
            self.contains(x as int, y as int),
        ensures
            r == self.dot(x as int, y as int),
    {
        let len = self.data.len();
        proof {
            crate::canvas::lemma_index_in_bounds(
                x as int,
                y as int,
                self.width as int,
                self.height as int,
            );
        }
        self.data[y * self.width + x]
    }

    /// Turns on the dots of the line from `p1` to `p2`: `line_steps + 1` points, from
    /// `p1` to `p2`, each coordinate interpolated and rounded toward `p1`.
    pub fn draw_line(&mut self, p1: Position, p2: Position)
        requires
            old(self).wf(),
            p1 != p2,
            old(self).contains(p1.x as int, p1.y as int),
            old(self).contains(p2.x as int, p2.y as int),
        ensures
            old(self).same_size(final(self)),
            forall|px: int, py: int|
                old(self).contains(px, py) ==> #[trigger] final(self).dot(px, py) == if on_line_before(
                    p1,
                    p2,
                    line_steps(p1, p2) + 1,
                    px,
                    py,
                ) {
                    1
                } else {
                    old(self).dot(px, py)
                },
    {
        let ghost start = *self;
        let dx = p2.x as i128 - p1.x as i128;
        let dy = p2.y as i128 - p1.y as i128;
        let ax = if dx >= 0 {
            dx
        } else {
            -dx
        };
        let ay = if dy >= 0 {
            dy
        } else {
            -dy
        };
        let steps = if ax >= ay {
            ax
        } else {
            ay
        };
        let ghost n = line_steps(p1, p2);
        assert(steps == n);
        let mut i: i128 = 0;
        while i <= steps
            invariant
                start.wf(),
                start.same_size(self),
                0 < steps == n,
                n == line_steps(p1, p2),
                dx == p2.x - p1.x,
                dy == p2.y - p1.y,
                start.contains(p1.x as int, p1.y as int),
                start.contains(p2.x as int, p2.y as int),
                0 <= i <= steps + 1,
                forall|px: int, py: int|
                    start.contains(px, py) ==> #[trigger] self.dot(px, py) == if on_line_before(
                        p1,
                        p2,
                        i as int,
                        px,
                        py,
                    ) {
                        1
                    } else {
                        start.dot(px, py)
                    },
            decreases steps + 1 - i,
        {
            proof {
                lemma_trunc_between(dx as int, i as int, n);
                lemma_trunc_between(dy as int, i as int, n);
            }
            assert(-0x1_0000_0000 * 0x1_0000_0000 <= dx * i <= 0x1_0000_0000 * 0x1_0000_0000) by (nonlinear_arith)
                requires
                    -0x1_0000_0000 <= dx <= 0x1_0000_0000,
                    0 <= i <= 0x1_0000_0000,
            ;
            assert(-0x1_0000_0000 * 0x1_0000_0000 <= dy * i <= 0x1_0000_0000 * 0x1_0000_0000) by (nonlinear_arith)
                requires
                    -0x1_0000_0000 <= dy <= 0x1_0000_0000,
                    0 <= i <= 0x1_0000_0000,
            ;
            let x = p1.x as i128 + dx * i / steps;
            let y = p1.y as i128 + dy * i / steps;
            assert((x as int, y as int) == line_point(p1, p2, i as int));
            let ghost before = *self;
            self.put(x as usize, y as usize, 1);
            proof {
                assert forall|px: int, py: int| start.contains(px, py) implies #[trigger] self.dot(
                    px,
                    py,
                ) == if on_line_before(p1, p2, i + 1, px, py) {
                    1
                } else {
                    start.dot(px, py)
                } by {
                    if px == x && py == y {
                        assert(line_point(p1, p2, i as int) == (px, py));
                    } else if on_line_before(p1, p2, i + 1, px, py) {
                        let j = choose|j: int| 0 <= j < i + 1 && #[trigger] line_point(p1, p2, j) == (px, py);
                        assert(j != i);
                        assert(on_line_before(p1, p2, i as int, px, py));
                    }
                }
            }
            i += 1;
        }
    }

    /// Turns on the dots of the outline of the rectangle with corners `p1` (top left)
    /// and `p2` (bottom right).
    pub fn draw_rect(&mut self, p1: Position, p2: Position)
        requires
            old(self).wf(),
            p1.x <= p2.x ==> old(self).contains(p1.x as int, p1.y as int) && old(self).contains(
                p2.x as int,
                p2.y as int,
            ),
            p1.y <= p2.y ==> old(self).contains(p1.x as int, p1.y as int) && old(self).contains(
                p2.x as int,
                p2.y as int,
            ),
        ensures
            old(self).same_size(final(self)),
            forall|px: int, py: int|
                old(self).contains(px, py) ==> #[trigger] final(self).dot(px, py) == if on_rect_border(
                    p1,
                    p2,
                    px,
                    py,
                ) {
                    1
                } else {
                    old(self).dot(px, py)
                },
    {
        let ghost start = *self;
        let mut x: i64 = p1.x as i64;
        while x <= p2.x as i64
            invariant
                start.wf(),
                start.same_size(self),
                p1.x <= x,
                p1.x <= p2.x ==> x <= p2.x + 1,
                p1.x > p2.x ==> x == p1.x,
                p1.y <= p2.y ==> start.contains(p1.x as int, p1.y as int) && start.contains(
                    p2.x as int,
                    p2.y as int,
                ),
                p1.x <= p2.x ==> start.contains(p1.x as int, p1.y as int) && start.contains(
                    p2.x as int,
                    p2.y as int,
                ),
                forall|px: int, py: int|
                    start.contains(px, py) ==> #[trigger] self.dot(px, py) == if p1.x <= px < x && (
                    py == p1.y || py == p2.y) {
                        1
                    } else {
                        start.dot(px, py)
                    },
            decreases p2.x + 1 - x,
        {
            self.put(x as usize, p1.y as usize, 1);
            self.put(x as usize, p2.y as usize, 1);
            x += 1;
        }
        let mut y: i64 = p1.y as i64;
        while y <= p2.y as i64
            invariant
                start.wf(),
                start.same_size(self),
                p1.y <= y,
                p1.y <= p2.y ==> y <= p2.y + 1,
                p1.y > p2.y ==> y == p1.y,
                p1.y <= p2.y ==> start.contains(p1.x as int, p1.y as int) && start.contains(
                    p2.x as int,
                    p2.y as int,
                ),
                forall|px: int, py: int|
                    start.contains(px, py) ==> #[trigger] self.dot(px, py) == if (p1.x <= px <= p2.x
                        && (py == p1.y || py == p2.y)) || (p1.y <= py < y && (px == p1.x || px
                        == p2.x)) {
                        1
                    } else {
                        start.dot(px, py)
                    },
            decreases p2.y + 1 - y,
        {
            self.put(p1.x as usize, y as usize, 1);
            self.put(p2.x as usize, y as usize, 1);
            y += 1;
        }
    }

    /// Plots the midpoint circle of radius `radius` about `p` (see `on_circle`).
    pub fn draw_circle(&mut self, p: Position, radius: i32)
        requires
            old(self).wf(),
            radius >= 0 ==> old(self).contains(p.x - radius, p.y - radius) && old(self).contains(
                p.x + radius,
                p.y + radius,
            ),
        ensures
            old(self).same_size(final(self)),
            forall|px: int, py: int|
                old(self).contains(px, py) ==> #[trigger] final(self).dot(px, py) == if on_circle(
                    p,
                    radius as int,
                    px,
                    py,
                ) {
                    1
                } else {
                    old(self).dot(px, py)
                },
    {
        self.plot_circle(p, radius)
    }

    /// Plots the same points as `draw_circle`: the midpoint circle of radius
    /// `radius` about `center`.
    pub fn fill_circle(&mut self, center: Position, radius: i32)
        requires
            old(self).wf(),
            radius >= 0 ==> old(self).contains(center.x - radius, center.y - radius) && old(
                self,
            ).contains(center.x + radius, center.y + radius),
        ensures
            old(self).same_size(final(self)),
            forall|px: int, py: int|
                old(self).contains(px, py) ==> #[trigger] final(self).dot(px, py) == if on_circle(
                    center,
                    radius as int,
                    px,
                    py,
                ) {
                    1
                } else {
                    old(self).dot(px, py)
                },
    {
        self.plot_circle(center, radius)
    }

    fn plot_circle(&mut self, c: Position, radius: i32)
        requires
            old(self).wf(),
            radius >= 0 ==> old(self).contains(c.x - radius, c.y - radius) && old(self).contains(
                c.x + radius,
                c.y + radius,
            ),
        ensures
            old(self).same_size(final(self)),
            forall|px: int, py: int|
                old(self).contains(px, py) ==> #[trigger] final(self).dot(px, py) == if on_circle(
                    c,
                    radius as int,
                    px,
                    py,
                ) {
                    1
                } else {
                    old(self).dot(px, py)
                },
    {
        let ghost start = *self;
        let ghost r = radius as int;
        if radius < 0 {
            proof {
                assert forall|px: int, py: int| start.contains(px, py) implies !on_circle(c, r, px, py) by {
                    if on_circle(c, r, px, py) {
                        let j = choose|j: nat|
                            j <= circle_state(r, j).0 && #[trigger] octant_point(
                                c,
                                j as int,
                                circle_state(r, j).0,
                                px,
                                py,
                            );
                        lemma_circle_passed(r, 0, j);
                    }
                }
            }
            return;
        }
        let (cx, cy) = (c.x as i64, c.y as i64);
        let mut x: i64 = 0;
        let mut y: i64 = radius as i64;
        let mut d: i128 = 3 - 2 * radius as i128;
        assert(-(x + 1) * (4 * r + 16) <= d <= (x + 1) * (4 * r + 16)) by (nonlinear_arith)
            requires
                x == 0,
                d == 3 - 2 * r,
                0 <= r,
        ;
        while x <= y
            invariant
                start.wf(),
                start.same_size(self),
                r == radius,
                0 <= r,
                cx == c.x && cy == c.y,
                0 <= x,
                y <= r,
                x <= r + 1,
                (y as int, d as int) == circle_state(r, x as nat),
                -(x + 1) * (4 * r + 16) <= d <= (x + 1) * (4 * r + 16),
                r >= 0 ==> start.contains(c.x - r, c.y - r) && start.contains(c.x + r, c.y + r),
                forall|px: int, py: int|
                    start.contains(px, py) ==> #[trigger] self.dot(px, py) == if on_circle_before(
                        c,
                        r,
                        x as nat,
                        px,
                        py,
                    ) {
                        1
                    } else {
                        start.dot(px, py)
                    },
            decreases r + 1 - x,
        {
            let ghost k = x as nat;
            let ghost before = *self;
            self.put((cx + x) as usize, (cy + y) as usize, 1);
            self.put((cx + x) as usize, (cy - y) as usize, 1);
            self.put((cx - x) as usize, (cy + y) as usize, 1);
            self.put((cx - x) as usize, (cy - y) as usize, 1);
            self.put((cx + y) as usize, (cy + x) as usize, 1);
            self.put((cx + y) as usize, (cy - x) as usize, 1);
            self.put((cx - y) as usize, (cy + x) as usize, 1);
            self.put((cx - y) as usize, (cy - x) as usize, 1);
            proof {
                assert forall|px: int, py: int| start.contains(px, py) implies #[trigger] self.dot(
                    px,
                    py,
                ) == if on_circle_before(c, r, k + 1, px, py) {
                    1
                } else {
                    start.dot(px, py)
                } by {
                    if octant_point(c, x as int, y as int, px, py) {
                        assert(octant_point(c, k as int, circle_state(r, k).0, px, py));
                    } else if on_circle_before(c, r, k + 1, px, py) {
                        let j = choose|j: nat|
                            j < k + 1 && j <= circle_state(r, j).0 && #[trigger] octant_point(
                                c,
                                j as int,
                                circle_state(r, j).0,
                                px,
                                py,
                            );
                        assert(j != k);
                        assert(on_circle_before(c, r, k, px, py));
                    }
                }
                assert(-(x + 2) * (4 * r + 16) == -(x + 1) * (4 * r + 16) - (4 * r + 16))
                    by (nonlinear_arith);
                assert((x + 2) * (4 * r + 16) == (x + 1) * (4 * r + 16) + (4 * r + 16))
                    by (nonlinear_arith);
                assert((x + 1) * (4 * r + 16) <= (r + 2) * (4 * r + 16)) by (nonlinear_arith)
                    requires
                        x <= r + 1,
                        0 <= r,
                ;
                assert((r + 2) * (4 * r + 16) <= 0x1_0000_0000 * 0x10_0000_0000) by (nonlinear_arith)
                    requires
                        0 <= r <= 0x8000_0000,
                ;
            }
            if d < 0 {
                d = d + 4 * x as i128 + 6;
            } else {
                d = d + 4 * (x as i128 - y as i128) + 10;
                y -= 1;
            }
            x += 1;
        }
        proof {
            assert forall|px: int, py: int| start.contains(px, py) implies #[trigger] self.dot(
                px,
                py,
            ) == if on_circle(c, r, px, py) {
                1
            } else {
                start.dot(px, py)
            } by {
                if on_circle(c, r, px, py) {
                    let j = choose|j: nat|
                        j <= circle_state(r, j).0 && #[trigger] octant_point(
                            c,
                            j as int,
                            circle_state(r, j).0,
                            px,
                            py,
                        );
                    if j >= x {
                        lemma_circle_passed(r, x as nat, j);
                    }
                    assert(on_circle_before(c, r, x as nat, px, py));
                } else if on_circle_before(c, r, x as nat, px, py) {
                    let j = choose|j: nat|
                        j < x && j <= circle_state(r, j).0 && #[trigger] octant_point(
                            c,
                            j as int,
                            circle_state(r, j).0,
                            px,
                            py,
                        );
                    assert(on_circle(c, r, px, py));
                }
            }
        }
    }

    /// Turns on every dot of the rectangle with corners `p1` (top left) and `p2`
    /// (bottom right).
    pub fn fill_rect(&mut self, p1: Position, p2: Position)
        requires
            old(self).wf(),
            p1.x <= p2.x && p1.y <= p2.y ==> old(self).contains(p1.x as int, p1.y as int) && old(
                self,
            ).contains(p2.x as int, p2.y as int),
        ensures
            old(self).same_size(final(self)),
            forall|px: int, py: int|
                old(self).contains(px, py) ==> #[trigger] final(self).dot(px, py) == if in_rect(
                    p1,
                    p2,
                    px,
                    py,
                ) {
                    1
                } else {
                    old(self).dot(px, py)
                },
    {
        let ghost start = *self;
        let mut y: i64 = p1.y as i64;
        while y <= p2.y as i64
            invariant
                start.wf(),
                start.same_size(self),
                p1.y <= y,
                p1.y <= p2.y ==> y <= p2.y + 1,
                p1.y > p2.y ==> y == p1.y,
                p1.x <= p2.x && p1.y <= p2.y ==> start.contains(p1.x as int, p1.y as int)
                    && start.contains(p2.x as int, p2.y as int),
                forall|px: int, py: int|
                    start.contains(px, py) ==> #[trigger] self.dot(px, py) == if p1.x <= px <= p2.x
                        && p1.y <= py < y {
                        1
                    } else {
                        start.dot(px, py)
                    },
            decreases p2.y + 1 - y,
        {
            let mut x: i64 = p1.x as i64;
            while x <= p2.x as i64
                invariant
                    start.wf(),
                    start.same_size(self),
                    p1.y <= y <= p2.y,
                    p1.x <= x,
                    p1.x <= p2.x ==> x <= p2.x + 1,
                    p1.x > p2.x ==> x == p1.x,
                    p1.x <= p2.x ==> start.contains(p1.x as int, p1.y as int) && start.contains(
                        p2.x as int,
                        p2.y as int,
                    ),
                    forall|px: int, py: int|
                        start.contains(px, py) ==> #[trigger] self.dot(px, py) == if (p1.x <= px
                            <= p2.x && p1.y <= py < y) || (p1.x <= px < x && py == y) {
                            1
                        } else {
                            start.dot(px, py)
                        },
                decreases p2.x + 1 - x,
            {
                self.put(x as usize, y as usize, 1);
                x += 1;
            }
            y += 1;
        }
    }

    /// Turns every dot off.
    pub fn clear(&mut self)
        requires
            old(self).wf(),
        ensures
            old(self).same_size(final(self)),
            forall|px: int, py: int| old(self).contains(px, py) ==> #[trigger] final(self).dot(px, py) == 0,
    {
        let n = self.data.len();
        let mut i: usize = 0;
        while i < n
            invariant
                n == self.data@.len(),
                n == self.width * self.height,
                self.width == old(self).width,
                self.height == old(self).height,
                i <= n,
                forall|j: int| 0 <= j < i ==> self.data@[j] == 0,
            decreases n - i,
        {
            self.data.set(i, 0);
            i += 1;
        }
        proof {
            assert forall|px: int, py: int| old(self).contains(px, py) implies #[trigger] self.dot(
                px,
                py,
            ) == 0 by {
                crate::canvas::lemma_index_in_bounds(
                    px,
                    py,
                    self.width as int,
                    self.height as int,
                );
            }
        }
    }

    /// The Braille pattern of the 2 by 4 block of dots whose top-left corner is
    /// `(2 * cx, 4 * cy)`: a dot that is on is raised.
    pub open spec fn cell_pattern(&self, cx: int, cy: int) -> int {
        let (x, y) = (2 * cx, 4 * cy);
        dots_code(
            self.dot(x, y) != 0,
            self.dot(x, y + 1) != 0,
            self.dot(x, y + 2) != 0,
            self.dot(x, y + 3) != 0,
            self.dot(x + 1, y) != 0,
            self.dot(x + 1, y + 1) != 0,
            self.dot(x + 1, y + 2) != 0,
            self.dot(x + 1, y + 3) != 0,
        )
    }

    /// The glyphs of the first `n` blocks of block row `cy`.
    pub open spec fn braille_row(&self, cy: int, n: nat) -> Seq<char>
        decreases n,
    {
        if n == 0 {
            Seq::empty()
        } else {
            self.braille_row(cy, (n - 1) as nat).push(glyph(self.cell_pattern(n - 1, cy)))
        }
    }

    /// The first `rows` block rows of `cols` glyphs each, every row ended by a line break.
    pub open spec fn braille_text(&self, cols: nat, rows: nat) -> Seq<char>
        decreases rows,
    {
        if rows == 0 {
            Seq::empty()
        } else {
            self.braille_text(cols, (rows - 1) as nat) + self.braille_row(rows - 1, cols).push('\n')
        }
    }

    /// The canvas as Braille text: one character per whole 2 by 4 block of dots, one
    /// line per row of blocks; dots past the last whole block are left out.
    pub fn to_braille(&self) -> (r: String)
        requires
            self.wf(),
        ensures
            r@ == self.braille_text(self.spec_width() / 2, self.spec_height() / 4),
    {
        let cell_cols = self.width / 2;
        let cell_rows = self.height / 4;
        let mut output = String::new();
        let mut cy: usize = 0;
        while cy < cell_rows
            invariant
                self.wf(),
                cell_cols == self.spec_width() / 2,
                cell_rows == self.spec_height() / 4,
                cy <= cell_rows,
                output@ == self.braille_text(cell_cols as nat, cy as nat),
            decreases cell_rows - cy,
        {
            let ghost start = output@;
            let y = cy * 4;
            let mut cx: usize = 0;
            while cx < cell_cols
                invariant
                    self.wf(),
                    cell_cols == self.spec_width() / 2,
                    cell_rows == self.spec_height() / 4,
                    cy < cell_rows,
                    y == 4 * cy,
                    cx <= cell_cols,
                    start == self.braille_text(cell_cols as nat, cy as nat),
                    output@ == start + self.braille_row(cy as int, cx as nat),
                decreases cell_cols - cx,
            {
                let x = cx * 2;
                let mut cell: u8 = 0;
                if self.get(x, y) != 0 {
                    cell = cell + 0x01;
                }
                if self.get(x, y + 1) != 0 {
                    cell = cell + 0x02;
                }
                if self.get(x, y + 2) != 0 {
                    cell = cell + 0x04;
                }
                if self.get(x, y + 3) != 0 {
                    cell = cell + 0x40;
                }
                if self.get(x + 1, y) != 0 {
                    cell = cell + 0x08;
                }
                if self.get(x + 1, y + 1) != 0 {
                    cell = cell + 0x10;
                }
                if self.get(x + 1, y + 2) != 0 {
                    cell = cell + 0x20;
                }
                if self.get(x + 1, y + 3) != 0 {
                    cell = cell + 0x80;
                }
                assert(cell == self.cell_pattern(cx as int, cy as int));
                push_char(&mut output, braille_char(cell));
                cx += 1;
                assert(output@ =~= start + self.braille_row(cy as int, cx as nat));
            }
            push_char(&mut output, '\n');
            cy += 1;
            assert(output@ =~= self.braille_text(cell_cols as nat, cy as nat));
        }
        output
    }

    /// A copy with the same size and dots.
    pub fn clone(&self) -> (r: DotCanvas)
        requires
            self.wf(),
        ensures
            self.same_size(&r),
            forall|px: int, py: int| self.contains(px, py) ==> #[trigger] r.dot(px, py) == self.dot(px, py),
    {
        DotCanvas { width: self.width, height: self.height, data: self.data.clone() }
    }
}

} // verus!
