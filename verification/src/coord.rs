//! Wrap-around coordinates on a toroidal grid: normalization into the grid
//! rectangle, shortest signed differences, and the wrap-around L1 distance
//! together with its basic laws (triangle inequality, unit-step change).

use vstd::prelude::*;
use vstd::arithmetic::div_mod::lemma_fundamental_div_mod_converse_mod;

verus! {

/// Largest accepted grid dimension on either axis.
pub const DIM_MAX: i32 = 1024;

/// Largest magnitude a raw (un-normalized) coordinate component may have.
pub const COORD_LIMIT: i32 = 1000000;

/// Grid coordinate as a (row, column) pair; may be outside the grid until
/// normalized against a bound.
#[derive(Clone, Copy, Debug, Eq, PartialEq, Structural, Hash)]
pub struct Coord(pub i32, pub i32);

/// A unit step (or the zero step) between neighbouring cells, as (row, column).
#[derive(Clone, Copy, Debug, Eq, PartialEq, Structural)]
pub struct Dir(pub i32, pub i32);

/// Absolute value over mathematical integers.
pub open spec fn iabs(v: int) -> int {
    if v < 0 {
        -v
    } else {
        v
    }
}

/// Euclidean remainder of `v` modulo `n`; the normalized position of `v` on a
/// circle of `n` cells.
pub open spec fn norm1(v: int, n: int) -> int {
    v % n
}

/// Wrap-around distance between two already-normalized positions `a` and `b`
/// on a circle of `n` cells: the shorter way around.
pub open spec fn wd1(a: int, b: int, n: int) -> int {
    let d = iabs(a - b);
    if d <= n - d {
        d
    } else {
        n - d
    }
}

/// Shortest signed delta from normalized `b` to normalized `a` on a circle of
/// `n` cells: the raw difference pulled into `[-n/2, n/2]`.
pub open spec fn sdelta1(a: int, b: int, n: int) -> int {
    let d0 = a - b;
    if d0 > n / 2 {
        d0 - n
    } else if d0 < -(n / 2) {
        d0 + n
    } else {
        d0
    }
}

/// A bound coordinate is a pair of valid grid dimensions.
pub open spec fn valid_bound(b: Coord) -> bool {
    1 <= b.ys() <= DIM_MAX && 1 <= b.xs() <= DIM_MAX
}

impl Coord {
    /// Row component as a mathematical integer.
    pub open spec fn ys(self) -> int {
        self.0 as int
    }

    /// Column component as a mathematical integer.
    pub open spec fn xs(self) -> int {
        self.1 as int
    }

    /// Both components within magnitude `b`.
    pub open spec fn bounded(self, b: int) -> bool {
        -b <= self.ys() <= b && -b <= self.xs() <= b
    }

    /// Normalized into the grid rectangle given by `bound`.
    pub open spec fn normed(self, bound: Coord) -> bool {
        0 <= self.ys() < bound.ys() && 0 <= self.xs() < bound.xs()
    }

    /// The normalization of `self` against `bound`, as a spec value.
    pub open spec fn norm_spec(self, bound: Coord) -> Coord {
        Coord((norm1(self.ys(), bound.ys())) as i32, (norm1(self.xs(), bound.xs())) as i32)
    }

    /// Wrap-around L1 distance to `other`; both must be normalized.
    pub open spec fn wdist(self, other: Coord, bound: Coord) -> int {
        wd1(self.ys(), other.ys(), bound.ys()) + wd1(self.xs(), other.xs(), bound.xs())
    }

    /// Plain L1 norm of the pair itself.
    pub open spec fn l1(self) -> int {
        iabs(self.ys()) + iabs(self.xs())
    }

    pub fn y(&self) -> (r: i32)
        ensures
            r as int == self.ys(),
    {
        self.0
    }

    pub fn x(&self) -> (r: i32)
        ensures
            r as int == self.xs(),
    {
        self.1
    }

    pub fn y_mut(&mut self) -> (r: &mut i32)
        ensures
            *r as int == old(self).ys(),
            final(self).0 == *final(r),
            final(self).1 == old(self).1,
    {
        &mut self.0
    }

    pub fn x_mut(&mut self) -> (r: &mut i32)
        ensures
            *r as int == old(self).xs(),
            final(self).1 == *final(r),
            final(self).0 == old(self).0,
    {
        &mut self.1
    }

    /// L1 norm: |row| + |column|.
    pub fn abs(&self) -> (r: i32)
        requires
            self.bounded(COORD_LIMIT as int),
        ensures
            r as int == self.l1(),
    {
        let ay = if self.0 < 0 {
            -self.0
        } else {
            self.0
        };
        let ax = if self.1 < 0 {
            -self.1
        } else {
            self.1
        };
        ay + ax
    }

    /// Component-wise sum.
    pub fn add(self, other: Coord) -> (r: Coord)
        requires
            self.bounded(COORD_LIMIT as int),
            other.bounded(COORD_LIMIT as int),
        ensures
            r.ys() == self.ys() + other.ys(),
            r.xs() == self.xs() + other.xs(),
    {
        Coord(self.0 + other.0, self.1 + other.1)
    }

    /// Component-wise difference.
    pub fn sub(self, other: Coord) -> (r: Coord)
        requires
            self.bounded(COORD_LIMIT as int),
            other.bounded(COORD_LIMIT as int),
        ensures
            r.ys() == self.ys() - other.ys(),
            r.xs() == self.xs() - other.xs(),
    {
        Coord(self.0 - other.0, self.1 - other.1)
    }

    /// Normalize against a raw (rows, columns) pair.
    pub fn mod_bound(&self, bound: &(i32, i32)) -> (r: Coord)
        requires
            self.bounded(COORD_LIMIT as int),
            1 <= bound.0 <= DIM_MAX,
            1 <= bound.1 <= DIM_MAX,
        ensures
            r.ys() == norm1(self.ys(), bound.0 as int),
            r.xs() == norm1(self.xs(), bound.1 as int),
            r.normed(Coord(bound.0, bound.1)),
    {
        let y = wrap1(self.0, bound.0);
        let x = wrap1(self.1, bound.1);
        Coord(y, x)
    }

    /// Normalize against grid dimensions held in a coordinate.
    pub fn modulo(&self, bound: &Coord) -> (r: Coord)
        requires
            self.bounded(COORD_LIMIT as int),
            valid_bound(*bound),
        ensures
            r == self.norm_spec(*bound),
            r.normed(*bound),
    {
        let y = wrap1(self.0, bound.0);
        let x = wrap1(self.1, bound.1);
        Coord(y, x)
    }

    /// Shortest signed wrap-around difference `self - other` on the torus:
    /// each component is pulled into `[-dim/2, dim/2]`, and its magnitude is
    /// exactly the wrap-around distance of the normalized components.
    pub fn diff_wrap_around(&self, other: &Coord, bound: &Coord) -> (r: Coord)
        requires
            self.bounded(COORD_LIMIT as int),
            other.bounded(COORD_LIMIT as int),
            valid_bound(*bound),
        ensures
            r.ys() == sdelta1(
                norm1(self.ys(), bound.ys()),
                norm1(other.ys(), bound.ys()),
                bound.ys(),
            ),
            r.xs() == sdelta1(
                norm1(self.xs(), bound.xs()),
                norm1(other.xs(), bound.xs()),
                bound.xs(),
            ),
            r.l1() == self.norm_spec(*bound).wdist(other.norm_spec(*bound), *bound),
            r.bounded(DIM_MAX as int),
    {
        let sn = self.modulo(bound);
        let on = other.modulo(bound);
        let n_y = bound.0;
        let n_x = bound.1;
        proof {
            lemma_sdelta_is_wd(sn.ys(), on.ys(), n_y as int);
            lemma_sdelta_is_wd(sn.xs(), on.xs(), n_x as int);
        }
        let mut dy = sn.0 - on.0;
        let mut dx = sn.1 - on.1;
        if dy > n_y / 2 {
            dy = dy - n_y;
        } else if dy < -(n_y / 2) {
            dy = dy + n_y;
        }
        if dx > n_x / 2 {
            dx = dx - n_x;
        } else if dx < -(n_x / 2) {
            dx = dx + n_x;
        }
        Coord(dy, dx)
    }
}

/// Normalize one component into `[0, n)`, agreeing with the Euclidean
/// remainder also for negative values.
fn wrap1(v: i32, n: i32) -> (r: i32)
    requires
        1 <= n <= DIM_MAX,
        -COORD_LIMIT <= v <= COORD_LIMIT,
    ensures
        r as int == norm1(v as int, n as int),
        0 <= r < n,
{
    if v >= 0 {
        v % n
    } else {
        let w = -1 - v;
        let m = w % n;
        proof {
            lemma_neg_mod(v as int, n as int);
        }
        n - 1 - m
    }
}

/// For negative `v` the Euclidean remainder is `n - 1 - ((-1 - v) % n)`.
proof fn lemma_neg_mod(v: int, n: int)
    requires
        n >= 1,
        v < 0,
    ensures
        v % n == n - 1 - ((-1 - v) % n),
{
    let w = -1 - v;
    let q = w / n;
    let m = w % n;
    vstd::arithmetic::div_mod::lemma_fundamental_div_mod(w, n);
    assert(v == (-q - 1) * n + (n - 1 - m)) by (nonlinear_arith)
        requires
            v == -1 - w,
            w == q * n + m,
    ;
    lemma_fundamental_div_mod_converse_mod(v, n, -q - 1, n - 1 - m);
}

/// The magnitude of the shortest signed delta of two normalized positions is
/// their wrap-around distance.
pub proof fn lemma_sdelta_is_wd(a: int, b: int, n: int)
    requires
        n >= 1,
        0 <= a < n,
        0 <= b < n,
    ensures
        iabs(sdelta1(a, b, n)) == wd1(a, b, n),
        -n / 2 - 1 <= sdelta1(a, b, n) <= n / 2 + 1,
{
}

/// Triangle inequality for the one-axis wrap-around distance.
pub proof fn lemma_wd1_triangle(a: int, b: int, c: int, n: int)
    requires
        n >= 1,
        0 <= a < n,
        0 <= b < n,
        0 <= c < n,
    ensures
        wd1(a, c, n) <= wd1(a, b, n) + wd1(b, c, n),
{
}

/// Values already within one wrap of the range normalize by one shift.
pub proof fn lemma_norm_small(v: int, n: int)
    requires
        n >= 1,
        -n <= v < 2 * n,
    ensures
        norm1(v, n) == if v < 0 {
            v + n
        } else if v >= n {
            v - n
        } else {
            v
        },
{
    if v < 0 {
        lemma_fundamental_div_mod_converse_mod(v, n, -1, v + n);
    } else if v >= n {
        lemma_fundamental_div_mod_converse_mod(v, n, 1, v - n);
    } else {
        lemma_fundamental_div_mod_converse_mod(v, n, 0, v);
    }
}

/// The cell reached from `f` by step `d`, wrapped into the grid.
pub open spec fn step_to(f: Coord, d: Dir, dim: Coord) -> Coord {
    Coord((norm1(f.ys() + d.ys(), dim.ys())) as i32, (norm1(f.xs() + d.xs(), dim.xs())) as i32)
}

/// Stepping along the sign of the shortest signed delta brings the position
/// one closer to the goal.
pub proof fn lemma_wd1_toward(a: int, b: int, n: int, s: int)
    requires
        n >= 1,
        0 <= a < n,
        0 <= b < n,
        (s == 1 && sdelta1(b, a, n) >= 1) || (s == -1 && sdelta1(b, a, n) <= -1),
    ensures
        wd1(norm1(a + s, n), b, n) == wd1(a, b, n) - 1,
{
    lemma_norm_small(a + s, n);
}

/// On a circle of at least two cells, a unit step lands one away.
pub proof fn lemma_wd1_unit_step(a: int, s: int, n: int)
    requires
        n >= 2,
        0 <= a < n,
        s == 1 || s == -1,
    ensures
        wd1(norm1(a + s, n), a, n) == 1,
{
    lemma_norm_small(a + s, n);
}

/// Adding the shortest signed delta to the origin lands exactly on the
/// normalized target.
pub proof fn lemma_norm_step_delta(a: int, b: int, n: int)
    requires
        n >= 1,
        0 <= a < n,
        0 <= b < n,
    ensures
        norm1(a + sdelta1(b, a, n), n) == b,
{
    lemma_norm_small(a + sdelta1(b, a, n), n);
}

impl Dir {
    /// Row component of the step.
    pub open spec fn ys(self) -> int {
        self.0 as int
    }

    /// Column component of the step.
    pub open spec fn xs(self) -> int {
        self.1 as int
    }

    /// One of the four axis-aligned unit steps.
    pub open spec fn is_unit(self) -> bool {
        iabs(self.ys()) + iabs(self.xs()) == 1
    }

    /// The step taken by a unit (or zero) coordinate delta.
    pub fn from_delta(c: Coord) -> (r: Dir)
        requires
            c.bounded(DIM_MAX as int),
        ensures
            r.ys() == c.ys(),
            r.xs() == c.xs(),
    {
        Dir(c.0, c.1)
    }
}

} // verus!
