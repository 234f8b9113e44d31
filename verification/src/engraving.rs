//! Engraving patterns drawn by iterating a complex-like map.
//!
//! A point is squared, divided componentwise, and shifted by the starting
//! point, over and over.  A point is engraved when a hundred iterations
//! never leave the drawing area.  All arithmetic is exact: products of
//! whole numbers and division that cuts toward zero, as the machine does.

use vstd::prelude::*;

verus! {

/// The magnitude of a number.
pub open spec fn iabs(a: int) -> int {
    if a >= 0 {
        a
    } else {
        -a
    }
}

/// Division that cuts toward zero: the magnitudes are divided and the
/// signs combined, as machine division does.
pub open spec fn tdiv(a: int, b: int) -> int {
    if (a < 0) == (b < 0) {
        iabs(a) / iabs(b)
    } else {
        -(iabs(a) / iabs(b))
    }
}

/// Toward-zero division never grows the magnitude.
proof fn lemma_tdiv_bound(a: int, b: int)
    requires
        b >= 1,
    ensures
        iabs(tdiv(a, b)) <= iabs(a),
        b == 1 ==> tdiv(a, b) == a,
{
    vstd::arithmetic::div_mod::lemma_fundamental_div_mod(iabs(a), b);
    assert(iabs(a) / b <= iabs(a)) by (nonlinear_arith)
        requires
            b >= 1,
            iabs(a) >= 0,
            iabs(a) == b * (iabs(a) / b) + iabs(a) % b,
            0 <= iabs(a) % b < b,
    ;
    if b == 1 {
        vstd::arithmetic::div_mod::lemma_fundamental_div_mod(iabs(a), 1);
    }
}

/// Computes toward-zero division out of non-negative divisions alone.
fn div_trunc(a: i64, b: i64) -> (r: i64)
    requires
        b != 0,
        a > i64::MIN,
        b > i64::MIN,
    ensures
        r == tdiv(a as int, b as int),
{
    if a >= 0 && b > 0 {
        a / b
    } else if a < 0 && b > 0 {
        -((-a) / b)
    } else if a >= 0 {
        -(a / (-b))
    } else {
        (-a) / (-b)
    }
}

/// A point of the drawing plane, held as two whole coordinates.
#[derive(Clone, Copy)]
pub struct Complex {
    pub x: i64,
    pub y: i64,
}

/// The first coordinate of one drawing iteration: square the point,
/// divide by `div` toward zero, shift by the starting point.
pub open spec fn estep_x(rx: int, ry: int, ax: int, div: int) -> int {
    tdiv(rx * rx - ry * ry, div) + ax
}

/// The second coordinate of one drawing iteration.
pub open spec fn estep_y(rx: int, ry: int, ay: int, div: int) -> int {
    tdiv(rx * ry + ry * rx, div) + ay
}

impl Complex {
    /// A point from its two coordinates.
    pub fn new(x: i64, y: i64) -> (r: Complex)
        ensures
            r.x == x && r.y == y,
    {
        Complex { x, y }
    }

    /// Componentwise sum.
    pub fn add(self, rhs: Complex) -> (r: Complex)
        requires
            i64::MIN <= self.x + rhs.x <= i64::MAX,
            i64::MIN <= self.y + rhs.y <= i64::MAX,
        ensures
            r.x == self.x + rhs.x,
            r.y == self.y + rhs.y,
    {
        Complex { x: self.x + rhs.x, y: self.y + rhs.y }
    }

    /// The complex product.
    pub fn mul(self, rhs: Complex) -> (r: Complex)
        requires
            i64::MIN <= self.x * rhs.x <= i64::MAX,
            i64::MIN <= self.y * rhs.y <= i64::MAX,
            i64::MIN <= self.x * rhs.y <= i64::MAX,
            i64::MIN <= self.y * rhs.x <= i64::MAX,
            i64::MIN <= self.x * rhs.x - self.y * rhs.y <= i64::MAX,
            i64::MIN <= self.x * rhs.y + self.y * rhs.x <= i64::MAX,
        ensures
            r.x == self.x * rhs.x - self.y * rhs.y,
            r.y == self.x * rhs.y + self.y * rhs.x,
    {
        Complex { x: self.x * rhs.x - self.y * rhs.y, y: self.x * rhs.y + self.y * rhs.x }
    }

    /// Componentwise division, cutting toward zero.
    pub fn div(self, rhs: Complex) -> (r: Complex)
        requires
            rhs.x != 0 && rhs.y != 0,
            self.x > i64::MIN && self.y > i64::MIN,
            rhs.x > i64::MIN && rhs.y > i64::MIN,
        ensures
            r.x == tdiv(self.x as int, rhs.x as int),
            r.y == tdiv(self.y as int, rhs.y as int),
    {
        Complex { x: div_trunc(self.x, rhs.x), y: div_trunc(self.y, rhs.y) }
    }
}

/// One bounded drawing iteration, executed with overflow-free arithmetic.
fn step_exec(r: Complex, a: Complex, div: i64) -> (s: Complex)
    requires
        1 <= div <= 1_000_000,
        iabs(r.x as int) <= 3_000_000 && iabs(r.y as int) <= 3_000_000,
        iabs(a.x as int) <= 100_000_000 && iabs(a.y as int) <= 100_000_000,
    ensures
        s.x as int == estep_x(r.x as int, r.y as int, a.x as int, div as int),
        s.y as int == estep_y(r.x as int, r.y as int, a.y as int, div as int),
        iabs(s.x as int) <= 18_100_000_000_000 && iabs(s.y as int) <= 18_100_000_000_000,
{
    proof {
        assert(iabs(r.x * r.x) <= 9_000_000_000_000 && iabs(r.y * r.y) <= 9_000_000_000_000
            && iabs(r.x * r.y) <= 9_000_000_000_000 && iabs(r.y * r.x)
            <= 9_000_000_000_000) by (nonlinear_arith)
            requires
                iabs(r.x as int) <= 3_000_000 && iabs(r.y as int) <= 3_000_000,
        ;
        lemma_tdiv_bound(r.x * r.x - r.y * r.y, div as int);
        lemma_tdiv_bound(r.x * r.y + r.y * r.x, div as int);
    }
    let m = r.mul(r);
    let d = m.div(Complex::new(div, div));
    d.add(a)
}

/// The point after `k` drawing iterations from `(0, 0)`, divisor 10.
pub open spec fn carved(ax: int, ay: int, k: nat) -> (int, int)
    decreases k,
{
    if k == 0 {
        (0, 0)
    } else {
        let prev = carved(ax, ay, (k - 1) as nat);
        (estep_x(prev.0, prev.1, ax, 10), estep_y(prev.0, prev.1, ay, 10))
    }
}

/// Runs three drawing iterations from the origin.
pub fn part_1(a: Complex) -> (r: Complex)
    requires
        iabs(a.x as int) <= 1000,
        iabs(a.y as int) <= 1000,
    ensures
        (r.x as int, r.y as int) == carved(a.x as int, a.y as int, 3),
{
    let r0 = Complex::new(0, 0);
    let r1 = step_exec(r0, a, 10);
    proof {
        lemma_tdiv_bound(0, 10);
        assert(carved(a.x as int, a.y as int, 0) == (0int, 0int));
        assert((r1.x as int, r1.y as int) == carved(a.x as int, a.y as int, 1));
        assert(iabs(r1.x as int) <= 1000 && iabs(r1.y as int) <= 1000);
    }
    let r2 = step_exec(r1, a, 10);
    proof {
        assert((r2.x as int, r2.y as int) == carved(a.x as int, a.y as int, 2));
        assert(iabs(r1.x * r1.x - r1.y * r1.y) <= 2_000_000 && iabs(r1.x * r1.y + r1.y * r1.x)
            <= 2_000_000) by (nonlinear_arith)
            requires
                iabs(r1.x as int) <= 1000 && iabs(r1.y as int) <= 1000,
        ;
        lemma_tdiv_bound(r1.x * r1.x - r1.y * r1.y, 10);
        lemma_tdiv_bound(r1.x * r1.y + r1.y * r1.x, 10);
        assert(iabs(r2.x as int) <= 3_000_000 && iabs(r2.y as int) <= 3_000_000);
    }
    let r3 = step_exec(r2, a, 10);
    proof {
        assert((r3.x as int, r3.y as int) == carved(a.x as int, a.y as int, 3));
    }
    r3
}

/// The drawing area: no coordinate magnitude beyond a million.
pub open spec fn in_area(x: int, y: int) -> bool {
    iabs(x) <= 1_000_000 && iabs(y) <= 1_000_000
}

/// Whether `k` more iterations, divisor one hundred thousand, stay inside
/// the drawing area.
pub open spec fn stays_in_area(rx: int, ry: int, ax: int, ay: int, k: nat) -> bool
    decreases k,
{
    if k == 0 {
        true
    } else {
        let nx = estep_x(rx, ry, ax, 100_000);
        let ny = estep_y(rx, ry, ay, 100_000);
        if !in_area(nx, ny) {
            false
        } else {
            stays_in_area(nx, ny, ax, ay, (k - 1) as nat)
        }
    }
}

/// Whether a hundred iterations from the origin stay inside the drawing
/// area: the mark of an engraved point.
pub fn is_engraved(a: Complex) -> (r: bool)
    requires
        iabs(a.x as int) <= 100_000_000,
        iabs(a.y as int) <= 100_000_000,
    ensures
        r == stays_in_area(0, 0, a.x as int, a.y as int, 100),
{
    let mut rx: i64 = 0;
    let mut ry: i64 = 0;
    let mut k: usize = 0;
    while k < 100
        invariant
            iabs(a.x as int) <= 100_000_000,
            iabs(a.y as int) <= 100_000_000,
            k <= 100,
            iabs(rx as int) <= 1_000_000 && iabs(ry as int) <= 1_000_000,
            stays_in_area(0, 0, a.x as int, a.y as int, 100) == stays_in_area(
                rx as int,
                ry as int,
                a.x as int,
                a.y as int,
                (100 - k) as nat,
            ),
        decreases 100 - k,
    {
        let next = step_exec(Complex { x: rx, y: ry }, a, 100_000);
        if next.x < -1_000_000 || next.x > 1_000_000 || next.y < -1_000_000 || next.y
            > 1_000_000 {
            return false;
        }
        rx = next.x;
        ry = next.y;
        k = k + 1;
    }
    true
}

/// How many engraved grid points lie in one column, walking `y` by
/// `step` while it stays within the square.
pub open spec fn column_count(x: int, y: int, yend: int, ax_step: int) -> int
    decreases yend + ax_step - y,
{
    if y > yend || ax_step < 1 {
        0
    } else {
        (if stays_in_area(0, 0, x, y, 100) {
            1int
        } else {
            0int
        }) + column_count(x, y + ax_step, yend, ax_step)
    }
}

/// How many engraved grid points lie in the square, walking `x` by
/// `step`.
pub open spec fn grid_count(x: int, xend: int, y0: int, yend: int, step: int) -> int
    decreases xend + step - x,
{
    if x > xend || step < 1 {
        0
    } else {
        column_count(x, y0, yend, step) + grid_count(x + step, xend, y0, yend, step)
    }
}

proof fn lemma_column_count_bound(x: int, y: int, yend: int, step: int)
    ensures
        0 <= column_count(x, y, yend, step) <= imax0(yend - y + 1, 0),
    decreases yend + step - y,
{
    if y <= yend && step >= 1 {
        lemma_column_count_bound(x, y + step, yend, step);
    }
}

proof fn lemma_grid_count_bound(x: int, xend: int, y0: int, yend: int, step: int, cap: int)
    requires
        0 <= imax0(yend - y0 + 1, 0) <= cap,
    ensures
        0 <= grid_count(x, xend, y0, yend, step) <= imax0(xend - x + 1, 0) * cap,
    decreases xend + step - x,
{
    let whole = imax0(xend - x + 1, 0);
    if x <= xend && step >= 1 {
        lemma_grid_count_bound(x + step, xend, y0, yend, step, cap);
        lemma_column_count_bound(x, y0, yend, step);
        let rest = imax0(xend - x - step + 1, 0);
        assert(rest + 1 <= whole);
        assert(rest * cap + cap <= whole * cap) by (nonlinear_arith)
            requires
                0 <= rest,
                rest + 1 <= whole,
                cap >= 0,
        ;
    } else {
        assert(whole * cap >= 0) by (nonlinear_arith)
            requires
                whole >= 0,
                cap >= 0,
        ;
    }
}

/// The greater of a number and zero.
pub open spec fn imax0(a: int, b: int) -> int {
    if a >= b {
        a
    } else {
        b
    }
}

/// Counts the engraved points of the thousand-by-thousand square at
/// `origin`, sampling every `step`-th coordinate.
pub fn part_2(origin: Complex, step: usize) -> (r: usize)
    requires
        1 <= step <= 1000,
        iabs(origin.x as int) <= 99_000_000,
        iabs(origin.y as int) <= 99_000_000,
    ensures
        r == grid_count(
            origin.x as int,
            origin.x as int + 1000,
            origin.y as int,
            origin.y as int + 1000,
            step as int,
        ),
{
    let xend: i64 = origin.x + 1000;
    let yend: i64 = origin.y + 1000;
    let mut total: usize = 0;
    let mut x: i64 = origin.x;
    while x <= xend
        invariant
            1 <= step <= 1000,
            iabs(origin.x as int) <= 99_000_000,
            iabs(origin.y as int) <= 99_000_000,
            xend == origin.x + 1000,
            yend == origin.y + 1000,
            origin.x <= x <= xend + 1000,
            total + grid_count(x as int, xend as int, origin.y as int, yend as int, step as int)
                == grid_count(
                origin.x as int,
                xend as int,
                origin.y as int,
                yend as int,
                step as int,
            ),
            total <= 1_100_000,
        decreases xend + 1000 - x,
    {
        let mut y: i64 = origin.y;
        while y <= yend
            invariant
                1 <= step <= 1000,
                iabs(origin.x as int) <= 99_000_000,
                iabs(origin.y as int) <= 99_000_000,
                origin.x <= x <= xend,
                xend == origin.x + 1000,
                yend == origin.y + 1000,
                origin.y <= y <= yend + 1000,
                total + column_count(x as int, y as int, yend as int, step as int) + grid_count(
                    x as int + step,
                    xend as int,
                    origin.y as int,
                    yend as int,
                    step as int,
                ) == grid_count(
                    origin.x as int,
                    xend as int,
                    origin.y as int,
                    yend as int,
                    step as int,
                ),
                total <= 1_100_000,
            decreases yend + 1000 - y,
        {
            proof {
                lemma_column_count_bound(x as int, y as int, yend as int, step as int);
                lemma_grid_count_bound(
                    x as int + step,
                    xend as int,
                    origin.y as int,
                    yend as int,
                    step as int,
                    1001,
                );
                lemma_grid_count_bound(
                    origin.x as int,
                    xend as int,
                    origin.y as int,
                    yend as int,
                    step as int,
                    1001,
                );
                assert(imax0(xend - origin.x + 1, 0) == 1001);
                assert(imax0(xend - origin.x + 1, 0) * 1001 <= 1_100_000);
            }
            if is_engraved(Complex::new(x, y)) {
                total = total + 1;
            }
            y = y + step as i64;
        }
        x = x + step as i64;
    }
    total
}

} // verus!
