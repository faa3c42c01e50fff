//! The resource-richness location selector: a fixed-point convolution kernel
//! (uniform or an unnormalized Gaussian bell), wrap-around convolution of the
//! halite field against it, and the descending ranking of the scored cells
//! with random tie order.

use vstd::prelude::*;
use crate::coord::{Coord, norm1, valid_bound, DIM_MAX};
use crate::mapraw::RESOURCE_CELL_MAX;
use crate::rng::shuffle_vec;

verus! {

/// Kernel weights are fixed-point fractions of this scale.
pub const KERNEL_SCALE: u64 = 65536;

/// Largest accepted kernel side.
pub const KERNEL_SIDE_MAX: usize = 64;

/// Which built-in kernel to convolve with.
#[derive(Debug, Copy, Clone, Eq, PartialEq, Structural)]
pub enum ConvolveKernelVal {
    Uniform,
    Gaussian,
}

/// The unnormalized Gaussian bell sampled at squared distance `d2` from the
/// kernel center, as a fixed-point weight; zero once the bell has decayed
/// below one scale unit.
pub open spec fn spec_gauss_weight(d2: int) -> u64 {
    if d2 <= 0 {
        26144
    } else if d2 == 1 {
        15857
    } else if d2 == 2 {
        9618
    } else if d2 == 3 {
        5833
    } else if d2 == 4 {
        3538
    } else if d2 == 5 {
        2146
    } else if d2 == 6 {
        1302
    } else if d2 == 7 {
        790
    } else if d2 == 8 {
        479
    } else if d2 == 9 {
        291
    } else if d2 == 10 {
        176
    } else if d2 == 11 {
        107
    } else if d2 == 12 {
        65
    } else if d2 == 13 {
        39
    } else if d2 == 14 {
        24
    } else if d2 == 15 {
        15
    } else if d2 == 16 {
        9
    } else if d2 == 17 {
        5
    } else if d2 == 18 {
        3
    } else if d2 == 19 {
        2
    } else if d2 == 20 {
        1
    } else if d2 == 21 {
        1
    } else {
        0
    }
}

/// The weight the built-in kernel of side `k` puts at row `i`, column `j`:
/// constant for the uniform kernel, the Gaussian bell around the center cell
/// otherwise.
pub open spec fn spec_kernel_weight(kv: ConvolveKernelVal, k: int, i: int, j: int) -> u64 {
    match kv {
        ConvolveKernelVal::Uniform => (KERNEL_SCALE as int / (k * k)) as u64,
        ConvolveKernelVal::Gaussian => spec_gauss_weight(
            (i - k / 2) * (i - k / 2) + (j - k / 2) * (j - k / 2),
        ),
    }
}

/// The Gaussian bell weight at squared distance `d2`.
fn gauss_weight(d2: i64) -> (r: u64)
    ensures
        r == spec_gauss_weight(d2 as int),
        r <= 26144,
{
    if d2 <= 0 {
        26144
    } else if d2 <= 21 {
        let table: [u64; 21] = [
            15857,
            9618,
            5833,
            3538,
            2146,
            1302,
            790,
            479,
            291,
            176,
            107,
            65,
            39,
            24,
            15,
            9,
            5,
            3,
            2,
            1,
            1,
        ];
        table[(d2 - 1) as usize]
    } else {
        0
    }
}

/// Build the built-in convolution kernel of side `ker_size`: uniform weights
/// `1 / k²` of the scale, or the Gaussian bell around the center cell.
pub fn get_kernel_builtin(ker_val: ConvolveKernelVal, ker_size: usize) -> (r: Vec<Vec<u64>>)
    requires
        1 <= ker_size <= KERNEL_SIDE_MAX,
    ensures
        r@.len() == ker_size,
        forall|i: int| 0 <= i < ker_size ==> (#[trigger] r@[i])@.len() == ker_size,
        forall|i: int, j: int|
            0 <= i < ker_size && 0 <= j < ker_size ==> #[trigger] r@[i]@[j] == spec_kernel_weight(
                ker_val,
                ker_size as int,
                i,
                j,
            ),
        forall|i: int, j: int|
            0 <= i < ker_size && 0 <= j < ker_size ==> #[trigger] r@[i]@[j] <= KERNEL_SCALE,
{
    let k = ker_size;
    let mut r: Vec<Vec<u64>> = Vec::new();
    let mut i: usize = 0;
    proof {
        assert(1 <= ker_size * ker_size <= 4096) by (nonlinear_arith)
            requires
                1 <= ker_size <= 64,
        ;
    }
    let uniform_w: u64 = KERNEL_SCALE / ((k * k) as u64);
    while i < k
        invariant
            1 <= k <= KERNEL_SIDE_MAX,
            1 <= k * k <= 4096,
            uniform_w == KERNEL_SCALE as int / (k * k) as int,
            uniform_w <= KERNEL_SCALE,
            0 <= i <= k,
            r@.len() == i,
            forall|a: int| 0 <= a < i ==> (#[trigger] r@[a])@.len() == k,
            forall|a: int, b: int|
                0 <= a < i && 0 <= b < k ==> #[trigger] r@[a]@[b] == spec_kernel_weight(
                    ker_val,
                    k as int,
                    a,
                    b,
                ) && r@[a]@[b] <= KERNEL_SCALE,
        decreases k - i,
    {
        let mut row: Vec<u64> = Vec::new();
        let mut j: usize = 0;
        while j < k
            invariant
                1 <= k <= KERNEL_SIDE_MAX,
                1 <= k * k <= 4096,
                uniform_w == KERNEL_SCALE as int / (k * k) as int,
                uniform_w <= KERNEL_SCALE,
                0 <= i < k,
                0 <= j <= k,
                row@.len() == j,
                forall|b: int|
                    0 <= b < j ==> #[trigger] row@[b] == spec_kernel_weight(
                        ker_val,
                        k as int,
                        i as int,
                        b,
                    ) && row@[b] <= KERNEL_SCALE,
            decreases k - j,
        {
            let w = match ker_val {
                ConvolveKernelVal::Uniform => uniform_w,
                ConvolveKernelVal::Gaussian => {
                    let di = (i as i64) - ((k / 2) as i64);
                    let dj = (j as i64) - ((k / 2) as i64);
                    proof {
                        assert(0 <= di * di <= 4096 && 0 <= dj * dj <= 4096) by (nonlinear_arith)
                            requires
                                -64 <= di <= 64,
                                -64 <= dj <= 64,
                        ;
                    }
                    gauss_weight(di * di + dj * dj)
                },
            };
            row.push(w);
            j = j + 1;
        }
        r.push(row);
        i = i + 1;
    }
    r
}

/// One row's share of the convolution at window row `yy`, covering columns
/// `x0 .. x0 + cnt` of the wrapped halite field, weighted by the kernel row.
pub open spec fn conv_row(
    m: Seq<Vec<usize>>,
    dim: Coord,
    kerrow: Seq<u64>,
    yy: int,
    x0: int,
    cnt: nat,
) -> int
    decreases cnt,
{
    if cnt == 0 {
        0
    } else {
        conv_row(m, dim, kerrow, yy, x0, (cnt - 1) as nat) + kerrow[cnt - 1] * m[norm1(
            yy,
            dim.ys(),
        )]@[norm1(x0 + cnt - 1, dim.xs())]
    }
}

/// The convolution score of the window whose top-left corner is (y0, x0):
/// the kernel laid over the wrapped halite field.
pub open spec fn conv_cell(
    m: Seq<Vec<usize>>,
    dim: Coord,
    ker: Seq<Vec<u64>>,
    y0: int,
    x0: int,
    rows: nat,
) -> int
    decreases rows,
{
    if rows == 0 {
        0
    } else {
        conv_cell(m, dim, ker, y0, x0, (rows - 1) as nat) + conv_row(
            m,
            dim,
            ker[rows - 1]@,
            y0 + rows - 1,
            x0,
            ker[rows - 1]@.len() as nat,
        )
    }
}

/// The ranking score of cell (y, x) under a kernel of side `k`.
pub open spec fn spec_score(
    m: Seq<Vec<usize>>,
    dim: Coord,
    ker: Seq<Vec<u64>>,
    y: int,
    x: int,
) -> int {
    conv_cell(m, dim, ker, y - ker.len() / 2, x - ker.len() / 2, ker.len() as nat)
}

/// A halite field of the given dimensions with capped cells.
pub open spec fn field_ok(m: Seq<Vec<usize>>, dim: Coord) -> bool {
    &&& valid_bound(dim)
    &&& m.len() == dim.ys()
    &&& forall|y: int| 0 <= y < m.len() ==> (#[trigger] m[y])@.len() == dim.xs()
    &&& forall|y: int, x: int|
        0 <= y < dim.ys() && 0 <= x < dim.xs() ==> #[trigger] m[y]@[x] <= RESOURCE_CELL_MAX
}

/// A square kernel of side `k` with capped weights.
pub open spec fn kernel_ok(ker: Seq<Vec<u64>>, k: int) -> bool {
    &&& 1 <= k <= KERNEL_SIDE_MAX
    &&& ker.len() == k
    &&& forall|i: int| 0 <= i < k ==> (#[trigger] ker[i])@.len() == k
    &&& forall|i: int, j: int| 0 <= i < k && 0 <= j < k ==> #[trigger] ker[i]@[j] <= KERNEL_SCALE
}

/// Wrap-around convolution of the halite field against the kernel: the score
/// of each cell is the kernel laid over the field around it, contributions
/// wrapping across the grid edges.
pub fn convolution(map: &Vec<Vec<usize>>, dim: Coord, kernel: Vec<Vec<u64>>) -> (r: Vec<Vec<u64>>)
    requires
        field_ok(map@, dim),
        kernel_ok(kernel@, kernel@.len() as int),
    ensures
        r@.len() == dim.ys(),
        forall|y: int| 0 <= y < dim.ys() ==> (#[trigger] r@[y])@.len() == dim.xs(),
        forall|y: int, x: int|
            0 <= y < dim.ys() && 0 <= x < dim.xs() ==> #[trigger] r@[y]@[x] == spec_score(
                map@,
                dim,
                kernel@,
                y,
                x,
            ),
{
    let rows = map.len();
    let cols = map[0].len();
    let k = kernel.len();
    let kmid = k / 2;
    let mut r: Vec<Vec<u64>> = Vec::new();
    let mut y: usize = 0;
    while y < rows
        invariant
            field_ok(map@, dim),
            kernel_ok(kernel@, kernel@.len() as int),
            rows == dim.ys(),
            cols == dim.xs(),
            k == kernel@.len(),
            kmid == k / 2,
            0 <= y <= rows,
            r@.len() == y,
            forall|a: int| 0 <= a < y ==> (#[trigger] r@[a])@.len() == cols,
            forall|a: int, b: int|
                0 <= a < y && 0 <= b < cols ==> #[trigger] r@[a]@[b] == spec_score(
                    map@,
                    dim,
                    kernel@,
                    a,
                    b,
                ),
        decreases rows - y,
    {
        let mut row: Vec<u64> = Vec::new();
        let mut x: usize = 0;
        while x < cols
            invariant
                field_ok(map@, dim),
                kernel_ok(kernel@, kernel@.len() as int),
                rows == dim.ys(),
                cols == dim.xs(),
                k == kernel@.len(),
                kmid == k / 2,
                0 <= y < rows,
                0 <= x <= cols,
                row@.len() == x,
                forall|b: int|
                    0 <= b < x ==> #[trigger] row@[b] == spec_score(
                        map@,
                        dim,
                        kernel@,
                        y as int,
                        b,
                    ),
            decreases cols - x,
        {
            let y0: i32 = (y as i32) - (kmid as i32);
            let x0: i32 = (x as i32) - (kmid as i32);
            let mut acc: u64 = 0;
            let mut i: usize = 0;
            while i < k
                invariant
                    field_ok(map@, dim),
                    kernel_ok(kernel@, kernel@.len() as int),
                    rows == dim.ys(),
                    cols == dim.xs(),
                    k == kernel@.len(),
                    0 <= i <= k,
                    y0 + k <= 2 * DIM_MAX,
                    x0 + k <= 2 * DIM_MAX,
                    -DIM_MAX <= y0,
                    -DIM_MAX <= x0,
                    acc == conv_cell(map@, dim, kernel@, y0 as int, x0 as int, i as nat),
                    acc <= i * 4194304000,
                decreases k - i,
            {
                let mut j: usize = 0;
                let ghost acc_row_base = acc;
                while j < k
                    invariant
                        field_ok(map@, dim),
                        kernel_ok(kernel@, kernel@.len() as int),
                        rows == dim.ys(),
                        cols == dim.xs(),
                        k == kernel@.len(),
                        0 <= i < k,
                        0 <= j <= k,
                        y0 + k <= 2 * DIM_MAX,
                        x0 + k <= 2 * DIM_MAX,
                        -DIM_MAX <= y0,
                        -DIM_MAX <= x0,
                        acc_row_base == conv_cell(map@, dim, kernel@, y0 as int, x0 as int, i as nat),
                        acc == acc_row_base + conv_row(
                            map@,
                            dim,
                            kernel@[i as int]@,
                            y0 + i,
                            x0 as int,
                            j as nat,
                        ),
                        acc_row_base <= i * 4194304000,
                        acc <= i * 4194304000 + j * 65536000,
                    decreases k - j,
                {
                    let w = kernel[i][j];
                    let yy = wrap_i32(y0 + (i as i32), dim.0);
                    let xx = wrap_i32(x0 + (j as i32), dim.1);
                    let v = map[yy as usize][xx as usize];
                    proof {
                        assert(map@[yy as int]@[xx as int] <= RESOURCE_CELL_MAX);
                        assert(w * (v as u64) <= 65536000) by (nonlinear_arith)
                            requires
                                w <= 65536,
                                v <= 1000,
                        ;
                    }
                    acc = acc + w * (v as u64);
                    j = j + 1;
                }
                i = i + 1;
            }
            row.push(acc);
            x = x + 1;
        }
        r.push(row);
        y = y + 1;
    }
    r
}

/// An entry of the ranking is a real cell of the score grid.
pub open spec fn entry_of(e: (Coord, u64), v: Seq<Vec<u64>>) -> bool {
    &&& 0 <= e.0.ys() < v.len()
    &&& 0 <= e.0.xs() < v[e.0.ys()]@.len()
    &&& v[e.0.ys()]@[e.0.xs()] == e.1
}

/// The ranking lists the cell (y, x).
pub open spec fn coord_listed(r: Seq<(Coord, u64)>, y: int, x: int) -> bool {
    exists|i: int| 0 <= i < r.len() && (#[trigger] r[i]).0.ys() == y && r[i].0.xs() == x
}

/// Swapping two positions leaves the multiset of elements alone.
pub proof fn lemma_swap_multiset<A>(s0: Seq<A>, s1: Seq<A>, a: int, b: int)
    requires
        0 <= a < s0.len(),
        0 <= b < s0.len(),
        s1 == s0.update(a, s0[b]).update(b, s0[a]),
    ensures
        s1.to_multiset() == s0.to_multiset(),
{
    broadcast use vstd::seq_lib::group_to_multiset_ensures;
    broadcast use vstd::seq_lib::to_multiset_update;
    broadcast use vstd::multiset::group_multiset_axioms;

    let mid = s0.update(a, s0[b]);
    assert(mid.to_multiset() == s0.to_multiset().insert(s0[b]).remove(s0[a]));
    assert(mid[b] == if a == b {
        s0[b]
    } else {
        s0[b]
    });
    assert(s1.to_multiset() == mid.to_multiset().insert(s0[a]).remove(mid[b]));
    assert(s1.to_multiset() =~= s0.to_multiset());
}

/// Sort the scored cells in place, highest score first.
fn sort_desc(v: &mut Vec<(Coord, u64)>)
    ensures
        final(v)@.len() == old(v)@.len(),
        final(v)@.to_multiset() == old(v)@.to_multiset(),
        forall|a: int, b: int|
            0 <= a < b < final(v)@.len() ==> (#[trigger] final(v)@[a]).1 >= (
            #[trigger] final(v)@[b]).1,
{
    let n = v.len();
    let mut i: usize = 0;
    while i < n
        invariant
            n == v@.len(),
            0 <= i <= n,
            v@.to_multiset() == old(v)@.to_multiset(),
            forall|a: int, b: int|
                0 <= a < b < i ==> (#[trigger] v@[a]).1 >= (#[trigger] v@[b]).1,
            forall|a: int, b: int|
                0 <= a < i && i <= b < n ==> (#[trigger] v@[a]).1 >= (#[trigger] v@[b]).1,
        decreases n - i,
    {
        let mut best: usize = i;
        let mut j: usize = i + 1;
        while j < n
            invariant
                n == v@.len(),
                0 <= i <= best < n,
                i < j <= n,
                i <= best < j || best == i,
                forall|t: int| i <= t < j ==> (#[trigger] v@[t]).1 <= v@[best as int].1,
            decreases n - j,
        {
            if v[j].1 > v[best].1 {
                best = j;
            }
            j = j + 1;
        }
        let ghost before = v@;
        let vi = v[i];
        let vb = v[best];
        v[i] = vb;
        v[best] = vi;
        proof {
            lemma_swap_multiset(before, v@, i as int, best as int);
            assert forall|a: int, b: int|
                0 <= a < b < i + 1 implies (#[trigger] v@[a]).1 >= (#[trigger] v@[b]).1 by {
                if b < i {
                    assert(v@[a] == before[a] && v@[b] == before[b]);
                } else {
                    assert(v@[b] == before[best as int]);
                    if a < i {
                        assert(v@[a] == before[a]);
                        assert(before[a].1 >= before[best as int].1);
                    }
                }
            }
            assert forall|a: int, b: int|
                0 <= a < i + 1 && i + 1 <= b < n implies (#[trigger] v@[a]).1 >= (
            #[trigger] v@[b]).1 by {
                let vb_old = if b == best {
                    before[i as int]
                } else {
                    before[b]
                };
                assert(v@[b] == vb_old);
                if a < i {
                    assert(v@[a] == before[a]);
                } else {
                    assert(v@[a] == before[best as int]);
                    if b == best {
                        assert(before[best as int].1 >= before[i as int].1);
                    } else {
                        assert(before[b].1 <= before[best as int].1);
                    }
                }
            }
        }
        i = i + 1;
    }
}

/// A permutation of the scored cells keeps every entry genuine, keeps the
/// cells pairwise distinct, and keeps every grid cell listed.
proof fn lemma_perm_ranking(v0: Seq<(Coord, u64)>, v1: Seq<(Coord, u64)>, grid: Seq<Vec<u64>>)
    requires
        v1.to_multiset() == v0.to_multiset(),
        forall|i: int| 0 <= i < v0.len() ==> entry_of(#[trigger] v0[i], grid),
        forall|i: int, j: int|
            0 <= i < v0.len() && 0 <= j < v0.len() && i != j ==> (#[trigger] v0[i]).0 != (
            #[trigger] v0[j]).0,
    ensures
        forall|i: int| 0 <= i < v1.len() ==> entry_of(#[trigger] v1[i], grid),
        forall|i: int, j: int|
            0 <= i < v1.len() && 0 <= j < v1.len() && i != j ==> (#[trigger] v1[i]).0 != (
            #[trigger] v1[j]).0,
        forall|y: int, x: int| coord_listed(v0, y, x) ==> coord_listed(v1, y, x),
        v1.len() == v0.len(),
{
    broadcast use vstd::seq_lib::group_to_multiset_ensures;

    assert(v1.len() == v1.to_multiset().len());
    assert(v0.len() == v0.to_multiset().len());
    assert forall|i: int| 0 <= i < v1.len() implies entry_of(#[trigger] v1[i], grid) by {
        assert(v1.contains(v1[i]));
        assert(v1.to_multiset().count(v1[i]) > 0);
        assert(v0.contains(v1[i]));
        let j = choose|j: int| 0 <= j < v0.len() && v0[j] == v1[i];
        assert(entry_of(v0[j], grid));
    }
    assert forall|i: int, j: int|
        0 <= i < v0.len() && 0 <= j < v0.len() && i != j implies v0[i] != v0[j] by {
        assert(v0[i].0 != v0[j].0);
    }
    v0.lemma_multiset_has_no_duplicates();
    v1.lemma_multiset_has_no_duplicates_conv();
    assert forall|i: int, j: int|
        0 <= i < v1.len() && 0 <= j < v1.len() && i != j implies (#[trigger] v1[i]).0 != (
    #[trigger] v1[j]).0 by {
        if v1[i].0 == v1[j].0 {
            assert(entry_of(v1[i], grid) && entry_of(v1[j], grid));
            assert(v1[i] == v1[j]);
            assert(v1.no_duplicates());
        }
    }
    assert forall|y: int, x: int| coord_listed(v0, y, x) implies coord_listed(v1, y, x) by {
        let i = choose|i: int| 0 <= i < v0.len() && (#[trigger] v0[i]).0.ys() == y && v0[i].0.xs()
            == x;
        assert(v0.contains(v0[i]));
        assert(v0.to_multiset().count(v0[i]) > 0);
        assert(v1.contains(v0[i]));
        let j = choose|j: int| 0 <= j < v1.len() && v1[j] == v0[i];
        assert(v1[j].0.ys() == y && v1[j].0.xs() == x);
    }
}

/// Flatten the score grid to (cell, score) pairs, shuffle to break score
/// ties fairly, then rank by descending score; a requested prefix length
/// trims the tail. Every cell appears exactly once before trimming.
pub fn get_max(v: &Vec<Vec<u64>>, num_loc: Option<usize>) -> (r: Vec<(Coord, u64)>)
    requires
        1 <= v@.len() <= DIM_MAX,
        forall|y: int|
            0 <= y < v@.len() ==> 1 <= (#[trigger] v@[y])@.len() <= DIM_MAX && v@[y]@.len()
                == v@[0]@.len(),
    ensures
        forall|i: int| 0 <= i < r@.len() ==> entry_of(#[trigger] r@[i], v@),
        forall|a: int, b: int|
            0 <= a < b < r@.len() ==> (#[trigger] r@[a]).1 >= (#[trigger] r@[b]).1,
        forall|i: int, j: int|
            0 <= i < r@.len() && 0 <= j < r@.len() && i != j ==> (#[trigger] r@[i]).0 != (
            #[trigger] r@[j]).0,
        match num_loc {
            Some(nl) => r@.len() == if nl <= v@.len() * v@[0]@.len() {
                nl as int
            } else {
                (v@.len() * v@[0]@.len()) as int
            },
            None => r@.len() == v@.len() * v@[0]@.len() && forall|y: int, x: int|
                0 <= y < v@.len() && 0 <= x < v@[0]@.len() ==> coord_listed(r@, y, x),
        },
{
    let rows = v.len();
    let cols = v[0].len();
    let mut flat: Vec<(Coord, u64)> = Vec::new();
    let mut y: usize = 0;
    while y < rows
        invariant
            rows == v@.len(),
            cols == v@[0]@.len(),
            1 <= rows <= DIM_MAX,
            1 <= cols <= DIM_MAX,
            forall|yy: int|
                0 <= yy < v@.len() ==> 1 <= (#[trigger] v@[yy])@.len() <= DIM_MAX && v@[yy]@.len()
                    == v@[0]@.len(),
            0 <= y <= rows,
            flat@.len() == y * cols,
            forall|i: int| 0 <= i < flat@.len() ==> entry_of(#[trigger] flat@[i], v@),
            forall|i: int|
                0 <= i < flat@.len() ==> (#[trigger] flat@[i]).0.ys() * cols + flat@[i].0.xs()
                    == i,
            forall|yy: int, xx: int|
                0 <= yy < y && 0 <= xx < cols ==> coord_listed(flat@, yy, xx),
        decreases rows - y,
    {
        let mut x: usize = 0;
        while x < cols
            invariant
                rows == v@.len(),
                cols == v@[0]@.len(),
                1 <= rows <= DIM_MAX,
                1 <= cols <= DIM_MAX,
                forall|yy: int|
                    0 <= yy < v@.len() ==> 1 <= (#[trigger] v@[yy])@.len() <= DIM_MAX
                        && v@[yy]@.len() == v@[0]@.len(),
                0 <= y < rows,
                0 <= x <= cols,
                flat@.len() == y * cols + x,
                forall|i: int| 0 <= i < flat@.len() ==> entry_of(#[trigger] flat@[i], v@),
                forall|i: int|
                    0 <= i < flat@.len() ==> (#[trigger] flat@[i]).0.ys() * cols + flat@[i].0.xs()
                        == i,
                forall|yy: int, xx: int|
                    0 <= yy < y && 0 <= xx < cols ==> coord_listed(flat@, yy, xx),
                forall|xx: int| 0 <= xx < x ==> coord_listed(flat@, y as int, xx),
        decreases cols - x,
        {
            let ghost flat0 = flat@;
            let score = v[y][x];
            flat.push((Coord(y as i32, x as i32), score));
            proof {
                assert(y * cols + x + 1 <= 1048576) by (nonlinear_arith)
                    requires
                        0 <= y < rows <= 1024,
                        0 <= x < cols <= 1024,
                ;
                assert(flat@[flat0.len() as int].0.ys() * cols + flat@[flat0.len() as int].0.xs()
                    == flat0.len()) by (nonlinear_arith)
                    requires
                        flat@[flat0.len() as int].0.ys() == y as int,
                        flat@[flat0.len() as int].0.xs() == x as int,
                        flat0.len() == y * cols + x,
                ;
                assert forall|i: int| 0 <= i < flat@.len() implies entry_of(
                    #[trigger] flat@[i],
                    v@,
                ) by {
                    if i < flat0.len() {
                        assert(flat@[i] == flat0[i]);
                    }
                }
                assert forall|i: int|
                    0 <= i < flat@.len() implies (#[trigger] flat@[i]).0.ys() * cols
                    + flat@[i].0.xs() == i by {
                    if i < flat0.len() {
                        assert(flat@[i] == flat0[i]);
                    }
                }
                assert forall|yy: int, xx: int|
                    (0 <= yy < y && 0 <= xx < cols) || (yy == y && 0 <= xx < x
                        + 1) implies coord_listed(flat@, yy, xx) by {
                    if yy == y as int && xx == x as int {
                        assert(flat@[flat0.len() as int].0.ys() == yy && flat@[flat0.len() as int].0.xs()
                            == xx);
                    } else {
                        assert(coord_listed(flat0, yy, xx));
                        let i = choose|i: int|
                            0 <= i < flat0.len() && (#[trigger] flat0[i]).0.ys() == yy
                                && flat0[i].0.xs() == xx;
                        assert(flat@[i] == flat0[i]);
                    }
                }
            }
            x = x + 1;
        }
        proof {
            assert((y + 1) * cols == y * cols + cols) by (nonlinear_arith);
        }
        y = y + 1;
    }
    proof {
        assert forall|i: int, j: int|
            0 <= i < flat@.len() && 0 <= j < flat@.len() && i != j implies (
        #[trigger] flat@[i]).0 != (#[trigger] flat@[j]).0 by {
            if flat@[i].0 == flat@[j].0 {
                assert(flat@[i].0.ys() * cols + flat@[i].0.xs() == i);
                assert(flat@[j].0.ys() * cols + flat@[j].0.xs() == j);
            }
        }
    }
    let ghost flat_before = flat@;
    shuffle_vec(&mut flat);
    proof {
        lemma_perm_ranking(flat_before, flat@, v@);
    }
    let ghost flat_shuffled = flat@;
    sort_desc(&mut flat);
    proof {
        lemma_perm_ranking(flat_shuffled, flat@, v@);
        assert forall|y2: int, x2: int|
            0 <= y2 < v@.len() && 0 <= x2 < cols implies coord_listed(flat@, y2, x2) by {
            assert(coord_listed(flat_before, y2, x2));
            assert(coord_listed(flat_shuffled, y2, x2));
        }
    }
    match num_loc {
        Some(nl) => {
            let ghost whole = flat@;
            flat.truncate(nl);
            proof {
                assert forall|i: int| 0 <= i < flat@.len() implies entry_of(
                    #[trigger] flat@[i],
                    v@,
                ) by {
                    assert(flat@[i] == whole[i]);
                }
            }
        },
        None => {},
    }
    flat
}

/// One row's share of the built-in-kernel score, written directly over the
/// kernel weight function.
pub open spec fn score_kv_row(
    m: Seq<Vec<usize>>,
    dim: Coord,
    kv: ConvolveKernelVal,
    k: int,
    i: int,
    yy: int,
    x0: int,
    cnt: nat,
) -> int
    decreases cnt,
{
    if cnt == 0 {
        0
    } else {
        score_kv_row(m, dim, kv, k, i, yy, x0, (cnt - 1) as nat) + spec_kernel_weight(
            kv,
            k,
            i,
            cnt - 1,
        ) * m[norm1(yy, dim.ys())]@[norm1(x0 + cnt - 1, dim.xs())]
    }
}

/// The built-in-kernel score of the window with top-left corner (y0, x0).
pub open spec fn score_kv_cell(
    m: Seq<Vec<usize>>,
    dim: Coord,
    kv: ConvolveKernelVal,
    k: int,
    y0: int,
    x0: int,
    rows: nat,
) -> int
    decreases rows,
{
    if rows == 0 {
        0
    } else {
        score_kv_cell(m, dim, kv, k, y0, x0, (rows - 1) as nat) + score_kv_row(
            m,
            dim,
            kv,
            k,
            rows - 1,
            y0 + rows - 1,
            x0,
            k as nat,
        )
    }
}

/// The ranking score of cell (y, x) under the built-in kernel `kv` of side
/// `k`: the kernel laid over the wrapped halite field around the cell.
pub open spec fn spec_score_kv(
    m: Seq<Vec<usize>>,
    dim: Coord,
    kv: ConvolveKernelVal,
    k: int,
    y: int,
    x: int,
) -> int {
    score_kv_cell(m, dim, kv, k, y - k / 2, x - k / 2, k as nat)
}

/// The grid dimensions of a halite field.
pub open spec fn dims_of(m: Seq<Vec<usize>>) -> Coord {
    Coord(m.len() as i32, m[0]@.len() as i32)
}

/// A kernel whose entries are the built-in weights scores rows identically
/// to the weight function.
proof fn lemma_row_kv(
    m: Seq<Vec<usize>>,
    dim: Coord,
    kerrow: Seq<u64>,
    kv: ConvolveKernelVal,
    k: int,
    i: int,
    yy: int,
    x0: int,
    cnt: nat,
)
    requires
        kerrow.len() == k,
        forall|j: int| 0 <= j < k ==> kerrow[j] == spec_kernel_weight(kv, k, i, j),
        cnt <= k,
    ensures
        conv_row(m, dim, kerrow, yy, x0, cnt) == score_kv_row(m, dim, kv, k, i, yy, x0, cnt),
    decreases cnt,
{
    if cnt > 0 {
        lemma_row_kv(m, dim, kerrow, kv, k, i, yy, x0, (cnt - 1) as nat);
    }
}

/// A kernel whose entries are the built-in weights scores cells identically
/// to the weight function.
proof fn lemma_cell_kv(
    m: Seq<Vec<usize>>,
    dim: Coord,
    ker: Seq<Vec<u64>>,
    kv: ConvolveKernelVal,
    k: int,
    y0: int,
    x0: int,
    rows: nat,
)
    requires
        ker.len() == k,
        forall|i: int| 0 <= i < k ==> (#[trigger] ker[i])@.len() == k,
        forall|i: int, j: int|
            0 <= i < k && 0 <= j < k ==> #[trigger] ker[i]@[j] == spec_kernel_weight(kv, k, i, j),
        rows <= k,
    ensures
        conv_cell(m, dim, ker, y0, x0, rows) == score_kv_cell(m, dim, kv, k, y0, x0, rows),
    decreases rows,
{
    if rows > 0 {
        lemma_cell_kv(m, dim, ker, kv, k, y0, x0, (rows - 1) as nat);
        lemma_row_kv(m, dim, ker[rows - 1]@, kv, k, rows - 1, y0 + rows - 1, x0, k as nat);
    }
}

/// The ranked list names the cell (y, x).
pub open spec fn loc_listed(r: Seq<Coord>, y: int, x: int) -> bool {
    exists|i: int| 0 <= i < r.len() && (#[trigger] r[i]).ys() == y && r[i].xs() == x
}

/// Rank the cells of the halite field by their built-in-kernel convolution
/// score, best first, score ties in random order; a requested prefix length
/// trims the tail, otherwise every cell appears exactly once.
pub fn get_best_locations(
    ker_val: ConvolveKernelVal,
    ker_size: usize,
    map: &Vec<Vec<usize>>,
    num_loc: Option<usize>,
) -> (r: Vec<Coord>)
    requires
        field_ok(map@, dims_of(map@)),
        1 <= ker_size <= KERNEL_SIDE_MAX,
    ensures
        forall|i: int| 0 <= i < r@.len() ==> (#[trigger] r@[i]).normed(dims_of(map@)),
        forall|a: int, b: int|
            0 <= a < b < r@.len() ==> spec_score_kv(
                map@,
                dims_of(map@),
                ker_val,
                ker_size as int,
                (#[trigger] r@[a]).ys(),
                r@[a].xs(),
            ) >= spec_score_kv(
                map@,
                dims_of(map@),
                ker_val,
                ker_size as int,
                (#[trigger] r@[b]).ys(),
                r@[b].xs(),
            ),
        forall|i: int, j: int|
            0 <= i < r@.len() && 0 <= j < r@.len() && i != j ==> (#[trigger] r@[i]) != (
            #[trigger] r@[j]),
        num_loc is None ==> r@.len() == map@.len() * map@[0]@.len() && forall|y: int, x: int|
            0 <= y < dims_of(map@).ys() && 0 <= x < dims_of(map@).xs() ==> loc_listed(r@, y, x),
        num_loc matches Some(nl) ==> r@.len() == if nl <= map@.len() * map@[0]@.len() {
            nl as int
        } else {
            (map@.len() * map@[0]@.len()) as int
        },
{
    let ghost dim = dims_of(map@);
    let kernel = get_kernel_builtin(ker_val, ker_size);
    let ghost kernel_view = kernel@;
    let rows = map.len();
    let cols = map[0].len();
    let dimc = Coord(rows as i32, cols as i32);
    proof {
        assert(dimc == dim);
    }
    let filt = convolution(map, dimc, kernel);
    let scored = get_max(&filt, num_loc);
    proof {
        assert forall|y: int, x: int|
            0 <= y < dim.ys() && 0 <= x < dim.xs() implies #[trigger] filt@[y]@[x]
            == spec_score_kv(map@, dim, ker_val, ker_size as int, y, x) by {
            lemma_cell_kv(
                map@,
                dim,
                kernel_view,
                ker_val,
                ker_size as int,
                y - ker_size as int / 2,
                x - ker_size as int / 2,
                ker_size as nat,
            );
        }
    }
    let mut r: Vec<Coord> = Vec::new();
    let n = scored.len();
    let mut i: usize = 0;
    while i < n
        invariant
            n == scored@.len(),
            0 <= i <= n,
            r@.len() == i,
            forall|t: int| 0 <= t < i ==> #[trigger] r@[t] == scored@[t].0,
        decreases n - i,
    {
        let (c, s) = scored[i];
        r.push(c);
        i = i + 1;
    }
    proof {
        assert forall|t: int| 0 <= t < r@.len() implies (#[trigger] r@[t]).normed(dim) by {
            assert(entry_of(scored@[t], filt@));
        }
        assert forall|a: int, b: int| 0 <= a < b < r@.len() implies spec_score_kv(
            map@,
            dim,
            ker_val,
            ker_size as int,
            (#[trigger] r@[a]).ys(),
            r@[a].xs(),
        ) >= spec_score_kv(
            map@,
            dim,
            ker_val,
            ker_size as int,
            (#[trigger] r@[b]).ys(),
            r@[b].xs(),
        ) by {
            assert(entry_of(scored@[a], filt@));
            assert(entry_of(scored@[b], filt@));
            assert(filt@[r@[a].ys()]@[r@[a].xs()] == scored@[a].1);
            assert(filt@[r@[b].ys()]@[r@[b].xs()] == scored@[b].1);
            assert(scored@[a].1 >= scored@[b].1);
        }
        assert forall|i2: int, j2: int|
            0 <= i2 < r@.len() && 0 <= j2 < r@.len() && i2 != j2 implies (#[trigger] r@[i2]) != (
        #[trigger] r@[j2]) by {
            assert(scored@[i2].0 != scored@[j2].0);
        }
        if num_loc is None {
            assert forall|y: int, x: int|
                0 <= y < dim.ys() && 0 <= x < dim.xs() implies loc_listed(r@, y, x) by {
                assert(coord_listed(scored@, y, x));
                let t = choose|t: int|
                    0 <= t < scored@.len() && (#[trigger] scored@[t]).0.ys() == y
                        && scored@[t].0.xs() == x;
                assert(r@[t] == scored@[t].0);
            }
        }
    }
    r
}

/// Two distinct offsets within one window never wrap onto the same column.
proof fn lemma_window_hit_unique(x0: int, j1: int, j2: int, n: int)
    requires
        n >= 1,
        0 <= j1 < j2 < n,
    ensures
        norm1(x0 + j1, n) != norm1(x0 + j2, n),
{
    if norm1(x0 + j1, n) == norm1(x0 + j2, n) {
        vstd::arithmetic::div_mod::lemma_fundamental_div_mod(x0 + j1, n);
        vstd::arithmetic::div_mod::lemma_fundamental_div_mod(x0 + j2, n);
        let q1 = (x0 + j1) / n;
        let q2 = (x0 + j2) / n;
        let rr = norm1(x0 + j1, n);
        assert(j2 - j1 == n * (q2 - q1)) by (nonlinear_arith)
            requires
                x0 + j1 == n * q1 + rr,
                x0 + j2 == n * q2 + rr,
        ;
        assert(false) by (nonlinear_arith)
            requires
                j2 - j1 == n * (q2 - q1),
                0 < j2 - j1 < n,
        ;
    }
}

/// The kernel window at row `yy` covers the single source column.
pub open spec fn window_hits(x0: int, cnt: int, zc: int, n: int) -> bool {
    exists|j: int| 0 <= j < cnt && norm1(x0 + #[trigger] win_off(j), n) == zc
}

/// The window offset itself, behind a marker that quantifiers can trigger on.
pub open spec fn win_off(j: int) -> int {
    j
}

/// Over a field with a single nonzero cell, one row of the uniform-kernel
/// score is the uniform weight times the source value when the window row
/// wraps onto the source, and zero otherwise.
proof fn lemma_uniform_row(
    m: Seq<Vec<usize>>,
    dim: Coord,
    k: int,
    z: Coord,
    v: usize,
    i: int,
    yy: int,
    x0: int,
    cnt: nat,
)
    requires
        field_ok(m, dim),
        1 <= k,
        z.normed(dim),
        m[z.ys()]@[z.xs()] == v,
        forall|a: int, b: int|
            0 <= a < dim.ys() && 0 <= b < dim.xs() && !(a == z.ys() && b == z.xs())
                ==> #[trigger] m[a]@[b] == 0,
        cnt <= dim.xs(),
    ensures
        score_kv_row(m, dim, ConvolveKernelVal::Uniform, k, i, yy, x0, cnt) == if norm1(
            yy,
            dim.ys(),
        ) == z.ys() && window_hits(x0, cnt as int, z.xs(), dim.xs()) {
            spec_kernel_weight(ConvolveKernelVal::Uniform, k, i, 0) * v
        } else {
            0
        },
    decreases cnt,
{
    let ny = dim.ys();
    let nx = dim.xs();
    let w = spec_kernel_weight(ConvolveKernelVal::Uniform, k, i, 0);
    if cnt == 0 {
        assert(!window_hits(x0, 0, z.xs(), nx));
    } else {
        lemma_uniform_row(m, dim, k, z, v, i, yy, x0, (cnt - 1) as nat);
        let a = norm1(yy, ny);
        let b = norm1(x0 + cnt - 1, nx);
        assert(score_kv_row(m, dim, ConvolveKernelVal::Uniform, k, i, yy, x0, cnt)
            == score_kv_row(m, dim, ConvolveKernelVal::Uniform, k, i, yy, x0, (cnt - 1) as nat)
            + spec_kernel_weight(ConvolveKernelVal::Uniform, k, i, cnt - 1) * m[a]@[b]);
        vstd::arithmetic::div_mod::lemma_mod_division_less_than_divisor(yy, ny);
        vstd::arithmetic::div_mod::lemma_mod_division_less_than_divisor(x0 + cnt - 1, nx);
        assert(spec_kernel_weight(ConvolveKernelVal::Uniform, k, i, cnt - 1) == w);
        if a == z.ys() && b == z.xs() {
            assert(m[a]@[b] == v);
            assert(norm1(x0 + win_off(cnt - 1), nx) == z.xs());
            assert(window_hits(x0, cnt as int, z.xs(), nx));
            assert(!window_hits(x0, cnt - 1, z.xs(), nx)) by {
                if window_hits(x0, cnt - 1, z.xs(), nx) {
                    let j = choose|j: int|
                        0 <= j < cnt - 1 && norm1(x0 + #[trigger] win_off(j), nx) == z.xs();
                    lemma_window_hit_unique(x0, j, cnt - 1, nx);
                }
            }
        } else {
            assert(m[a]@[b] == 0);
            if a == z.ys() {
                assert(b != z.xs());
                assert(window_hits(x0, cnt as int, z.xs(), nx) == window_hits(
                    x0,
                    cnt - 1,
                    z.xs(),
                    nx,
                )) by {
                    if window_hits(x0, cnt as int, z.xs(), nx) {
                        let j = choose|j: int|
                            0 <= j < cnt && norm1(x0 + #[trigger] win_off(j), nx) == z.xs();
                        if j == cnt - 1 {
                            assert(norm1(x0 + cnt - 1, nx) == z.xs());
                            assert(false);
                        }
                        assert(window_hits(x0, cnt - 1, z.xs(), nx));
                    }
                    if window_hits(x0, cnt - 1, z.xs(), nx) {
                        let j = choose|j: int|
                            0 <= j < cnt - 1 && norm1(x0 + #[trigger] win_off(j), nx) == z.xs();
                        assert(window_hits(x0, cnt as int, z.xs(), nx));
                    }
                }
            }
        }
    }
}

/// Over a field with a single nonzero cell of value `v`, the uniform-kernel
/// score of a window is the uniform weight (the scale over k squared) times
/// `v` when the window wraps onto the source cell on both axes, and zero
/// otherwise — wrapping past the grid edges counts, as long as the kernel is
/// no larger than the grid.
pub proof fn lemma_uniform_single_source(
    m: Seq<Vec<usize>>,
    dim: Coord,
    k: int,
    z: Coord,
    v: usize,
    y0: int,
    x0: int,
    rows: nat,
)
    requires
        field_ok(m, dim),
        1 <= k <= dim.xs(),
        rows <= dim.ys(),
        z.normed(dim),
        m[z.ys()]@[z.xs()] == v,
        forall|a: int, b: int|
            0 <= a < dim.ys() && 0 <= b < dim.xs() && !(a == z.ys() && b == z.xs())
                ==> #[trigger] m[a]@[b] == 0,
    ensures
        score_kv_cell(m, dim, ConvolveKernelVal::Uniform, k, y0, x0, rows) == if window_hits(
            y0,
            rows as int,
            z.ys(),
            dim.ys(),
        ) && window_hits(x0, k, z.xs(), dim.xs()) {
            spec_kernel_weight(ConvolveKernelVal::Uniform, k, 0, 0) * v
        } else {
            0
        },
    decreases rows,
{
    let ny = dim.ys();
    let nx = dim.xs();
    let w = spec_kernel_weight(ConvolveKernelVal::Uniform, k, 0, 0);
    if rows == 0 {
        assert(!window_hits(y0, 0, z.ys(), ny));
    } else {
        lemma_uniform_single_source(m, dim, k, z, v, y0, x0, (rows - 1) as nat);
        lemma_uniform_row(m, dim, k, z, v, rows - 1, y0 + rows - 1, x0, k as nat);
        let a = norm1(y0 + rows - 1, ny);
        vstd::arithmetic::div_mod::lemma_mod_division_less_than_divisor(y0 + rows - 1, ny);
        assert(spec_kernel_weight(ConvolveKernelVal::Uniform, k, rows - 1, 0) == w);
        if a == z.ys() {
            assert(norm1(y0 + win_off(rows - 1), ny) == z.ys());
            assert(window_hits(y0, rows as int, z.ys(), ny));
            assert(!window_hits(y0, rows - 1, z.ys(), ny)) by {
                if window_hits(y0, rows - 1, z.ys(), ny) {
                    let j = choose|j: int|
                        0 <= j < rows - 1 && norm1(y0 + #[trigger] win_off(j), ny) == z.ys();
                    lemma_window_hit_unique(y0, j, rows - 1, ny);
                }
            }
        } else {
            assert(window_hits(y0, rows as int, z.ys(), ny) == window_hits(
                y0,
                rows - 1,
                z.ys(),
                ny,
            )) by {
                if window_hits(y0, rows as int, z.ys(), ny) {
                    let j = choose|j: int|
                        0 <= j < rows && norm1(y0 + #[trigger] win_off(j), ny) == z.ys();
                    if j < rows - 1 {
                        assert(window_hits(y0, rows - 1, z.ys(), ny));
                    }
                }
                if window_hits(y0, rows - 1, z.ys(), ny) {
                    let j = choose|j: int|
                        0 <= j < rows - 1 && norm1(y0 + #[trigger] win_off(j), ny) == z.ys();
                    assert(window_hits(y0, rows as int, z.ys(), ny));
                }
            }
        }
    }
}

/// At the source cell itself the uniform-kernel score is exactly the uniform
/// weight times the source value: the window of side `k` around the cell
/// always covers the cell.
pub proof fn lemma_uniform_score_at_source(
    m: Seq<Vec<usize>>,
    dim: Coord,
    k: int,
    z: Coord,
    v: usize,
)
    requires
        field_ok(m, dim),
        1 <= k <= dim.xs(),
        k <= dim.ys(),
        z.normed(dim),
        m[z.ys()]@[z.xs()] == v,
        forall|a: int, b: int|
            0 <= a < dim.ys() && 0 <= b < dim.xs() && !(a == z.ys() && b == z.xs())
                ==> #[trigger] m[a]@[b] == 0,
    ensures
        spec_score_kv(m, dim, ConvolveKernelVal::Uniform, k, z.ys(), z.xs())
            == spec_kernel_weight(ConvolveKernelVal::Uniform, k, 0, 0) * v,
{
    lemma_uniform_single_source(m, dim, k, z, v, z.ys() - k / 2, z.xs() - k / 2, k as nat);
    assert(norm1(z.ys() - k / 2 + win_off(k / 2), dim.ys()) == z.ys()) by {
        crate::coord::lemma_norm_small(z.ys(), dim.ys());
    }
    assert(window_hits(z.ys() - k / 2, k, z.ys(), dim.ys()));
    assert(norm1(z.xs() - k / 2 + win_off(k / 2), dim.xs()) == z.xs()) by {
        crate::coord::lemma_norm_small(z.xs(), dim.xs());
    }
    assert(window_hits(z.xs() - k / 2, k, z.xs(), dim.xs()));
}

/// Normalize one component into `[0, n)` (wrapper around the coordinate
/// normalization for plain components).
fn wrap_i32(v: i32, n: i32) -> (r: i32)
    requires
        1 <= n <= DIM_MAX,
        -4 * DIM_MAX <= v <= 4 * DIM_MAX,
    ensures
        r as int == norm1(v as int, n as int),
        0 <= r < n,
{
    let c = Coord(v, 0).modulo(&Coord(n, 1));
    c.0
}

} // verus!
