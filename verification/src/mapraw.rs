//! The typed per-turn field maps: halite amounts, unit occupancy with its
//! owner-to-ship reverse index, and dropoff ownership, all over the generic
//! wrap-around grid.

use vstd::prelude::*;
use crate::coord::{Coord, valid_bound, norm1, COORD_LIMIT, DIM_MAX};
use crate::grid::MapGeneric;

verus! {

/// Largest halite amount a single cell can hold.
pub const RESOURCE_CELL_MAX: usize = 1000;

/// A player, by id.
#[derive(Clone, Copy, Debug, Eq, PartialEq, Structural, Hash, Default)]
pub struct Player(pub usize);

/// What occupies a cell of the unit map.
#[derive(Clone, Copy, Debug, Eq, PartialEq, Structural)]
pub enum Unit {
    Ship { player: usize, id: i32, halite: usize },
    Empty,
}

impl Unit {
    /// This is the ship of `p` with id `id`.
    pub open spec fn is_ship_of(self, p: usize, id: i32) -> bool {
        match self {
            Unit::Ship { player, id: i, halite } => player == p && i == id,
            Unit::Empty => false,
        }
    }

    /// Some ship is here.
    pub open spec fn is_ship(self) -> bool {
        !(self is Empty)
    }

    /// A ship of player `p` is here, whatever its id.
    pub open spec fn owned_by(self, p: usize) -> bool {
        match self {
            Unit::Ship { player, id, halite } => player == p,
            Unit::Empty => false,
        }
    }
}

/// Sum of one row of halite amounts.
pub open spec fn sum_row(row: Seq<usize>) -> int
    decreases row.len(),
{
    if row.len() == 0 {
        0
    } else {
        sum_row(row.drop_last()) + row.last()
    }
}

/// Sum of a whole grid of halite amounts.
pub open spec fn sum_grid(g: Seq<Vec<usize>>) -> int
    decreases g.len(),
{
    if g.len() == 0 {
        0
    } else {
        sum_grid(g.drop_last()) + sum_row(g.last()@)
    }
}

/// Halite amount per cell, addressed with wrap-around.
pub struct ResourceMap {
    pub base: MapGeneric<usize>,
}

impl ResourceMap {
    /// Proper rectangle whose every cell is within the halite cap.
    pub open spec fn wf(self) -> bool {
        &&& self.base.wf()
        &&& forall|y: int, x: int|
            0 <= y < self.base.dim.ys() && 0 <= x < self.base.dim.xs()
                ==> #[trigger] self.base.cell(y, x) <= RESOURCE_CELL_MAX
    }

    /// Cell value at arbitrary integer (row, column), wrapped into range.
    pub open spec fn read_at(self, y: int, x: int) -> usize {
        self.base.cell(norm1(y, self.base.dim.ys()), norm1(x, self.base.dim.xs()))
    }

    /// Sum of the window row at `y` covering columns `x0 .. x0 + cnt`.
    pub open spec fn area_row_sum(self, y: int, x0: int, cnt: nat) -> int
        decreases cnt,
    {
        if cnt == 0 {
            0
        } else {
            self.area_row_sum(y, x0, (cnt - 1) as nat) + self.read_at(y, x0 + cnt - 1)
        }
    }

    /// Sum of the window covering rows `y0 .. y0 + rows` by columns
    /// `x0 .. x0 + cols`, wrapping at the edges.
    pub open spec fn area_sum(self, y0: int, x0: int, rows: nat, cols: nat) -> int
        decreases rows,
    {
        if rows == 0 {
            0
        } else {
            self.area_sum(y0, x0, (rows - 1) as nat, cols) + self.area_row_sum(
                y0 + rows - 1,
                x0,
                cols,
            )
        }
    }

    /// Fresh all-zero resource map.
    pub fn new(dim: Coord) -> (r: Self)
        requires
            valid_bound(dim),
        ensures
            r.wf(),
            r.base.dim == dim,
            forall|y: int, x: int|
                0 <= y < dim.ys() && 0 <= x < dim.xs() ==> #[trigger] r.base.cell(y, x) == 0,
    {
        ResourceMap { base: MapGeneric::new(dim, 0) }
    }

    pub fn dim(&self) -> (r: Coord)
        ensures
            r == self.base.dim,
    {
        self.base.dim
    }

    /// Halite at `c`, wrapping `c` into range.
    pub fn get(&self, c: Coord) -> (r: usize)
        requires
            self.wf(),
            c.bounded(COORD_LIMIT as int),
        ensures
            r == self.base.read(c),
            r <= RESOURCE_CELL_MAX,
    {
        proof {
            let cn = c.norm_spec(self.base.dim);
            assert(self.base.cell(cn.ys(), cn.xs()) <= RESOURCE_CELL_MAX);
        }
        self.base.get_map(c)
    }

    /// Set the halite at `c`, wrapping `c` into range.
    pub fn set(&mut self, c: Coord, halite: usize)
        requires
            old(self).wf(),
            c.bounded(COORD_LIMIT as int),
            halite <= RESOURCE_CELL_MAX,
        ensures
            final(self).wf(),
            final(self).base.dim == old(self).base.dim,
            final(self).base.read(c) == halite,
            forall|y: int, x: int|
                0 <= y < old(self).base.dim.ys() && 0 <= x < old(self).base.dim.xs() && !(y
                    == c.norm_spec(old(self).base.dim).ys() && x == c.norm_spec(
                    old(self).base.dim,
                ).xs()) ==> #[trigger] final(self).base.cell(y, x) == old(self).base.cell(y, x),
    {
        self.base.set_map(c, halite);
    }

    /// Total halite left on the whole grid.
    pub fn total_remain(&self) -> (r: usize)
        requires
            self.wf(),
        ensures
            r == sum_grid(self.base.cells@),
    {
        let rows = self.base.cells.len();
        let mut acc: usize = 0;
        let mut i: usize = 0;
        while i < rows
            invariant
                self.wf(),
                rows == self.base.cells@.len(),
                0 <= i <= rows,
                rows <= DIM_MAX,
                acc == sum_grid(self.base.cells@.take(i as int)),
                acc <= i * 1024000,
            decreases rows - i,
        {
            let row_len = self.base.cells[i].len();
            let mut j: usize = 0;
            while j < row_len
                invariant
                    self.wf(),
                    rows == self.base.cells@.len(),
                    0 <= i < rows,
                    rows <= DIM_MAX,
                    row_len == self.base.cells@[i as int]@.len(),
                    row_len <= DIM_MAX,
                    0 <= j <= row_len,
                    acc == sum_grid(self.base.cells@.take(i as int)) + sum_row(
                        self.base.cells@[i as int]@.take(j as int),
                    ),
                    acc <= i * 1024000 + j * 1000,
                decreases row_len - j,
            {
                let v = self.base.cells[i][j];
                proof {
                    assert(self.base.cell(i as int, j as int) <= RESOURCE_CELL_MAX);
                    let row = self.base.cells@[i as int]@;
                    assert(row.take(j + 1).drop_last() =~= row.take(j as int));
                    assert(row.take(j + 1).last() == row[j as int]);
                }
                acc = acc + v;
                j = j + 1;
            }
            proof {
                let g = self.base.cells@;
                assert(g.take(i + 1).drop_last() =~= g.take(i as int));
                assert(g.take(i + 1).last() == g[i as int]);
                assert(g[i as int]@.take(row_len as int) =~= g[i as int]@);
            }
            i = i + 1;
        }
        proof {
            assert(self.base.cells@.take(rows as int) =~= self.base.cells@);
        }
        acc
    }

    /// Sum of the square window of side `2 * radius + 1` centered at `c`,
    /// wrapping at the edges.
    pub fn area_remain(&self, c: Coord, radius: i32) -> (r: usize)
        requires
            self.wf(),
            c.bounded((COORD_LIMIT - 2 * DIM_MAX) as int),
            0 <= radius <= DIM_MAX,
        ensures
            r == self.area_sum(
                c.ys() - radius,
                c.xs() - radius,
                (2 * radius + 1) as nat,
                (2 * radius + 1) as nat,
            ),
    {
        let side = 2 * radius + 1;
        let y0 = c.0 - radius;
        let x0 = c.1 - radius;
        let mut acc: usize = 0;
        let mut dy: i32 = 0;
        while dy < side
            invariant
                self.wf(),
                1 <= side <= 2049,
                y0 == c.ys() - radius,
                x0 == c.xs() - radius,
                -COORD_LIMIT <= y0 <= COORD_LIMIT - 2 * DIM_MAX,
                -COORD_LIMIT <= x0 <= COORD_LIMIT - 2 * DIM_MAX,
                0 <= dy <= side,
                acc == self.area_sum(y0 as int, x0 as int, dy as nat, side as nat),
                acc <= dy * 2049000,
            decreases side - dy,
        {
            let mut dx: i32 = 0;
            while dx < side
                invariant
                    self.wf(),
                    1 <= side <= 2049,
                    y0 == c.ys() - radius,
                    x0 == c.xs() - radius,
                    -COORD_LIMIT <= y0 <= COORD_LIMIT - 2 * DIM_MAX,
                    -COORD_LIMIT <= x0 <= COORD_LIMIT - 2 * DIM_MAX,
                    0 <= dy < side,
                    0 <= dx <= side,
                    acc == self.area_sum(y0 as int, x0 as int, dy as nat, side as nat)
                        + self.area_row_sum(y0 + dy, x0 as int, dx as nat),
                    acc <= dy * 2049000 + dx * 1000,
                decreases side - dx,
            {
                let cc = Coord(y0 + dy, x0 + dx);
                let v = self.get(cc);
                proof {
                    assert(self.base.read(cc) == self.read_at(cc.ys(), cc.xs()));
                }
                acc = acc + v;
                dx = dx + 1;
            }
            dy = dy + 1;
        }
        acc
    }

    /// Average halite per cell, in thousandths.
    pub fn avg_remain_milli(&self) -> (r: u64)
        requires
            self.wf(),
        ensures
            r == sum_grid(self.base.cells@) * 1000 / (self.base.dim.ys() * self.base.dim.xs()),
    {
        let total = self.total_remain();
        let rows = self.base.dim.0;
        let cols = self.base.dim.1;
        proof {
            assert(total <= 1024 * 1024000) by {
                lemma_sum_grid_bound(*self);
            }
            assert(1 <= rows as int * cols as int <= 1024 * 1024) by (nonlinear_arith)
                requires
                    1 <= rows <= 1024,
                    1 <= cols <= 1024,
            ;
        }
        (total as u64) * 1000 / ((rows as u64) * (cols as u64))
    }
}

/// The total halite on a well-formed resource map is bounded by the cell cap
/// times the grid area.
proof fn lemma_sum_grid_bound(m: ResourceMap)
    requires
        m.wf(),
    ensures
        0 <= sum_grid(m.base.cells@) <= 1024 * 1024000,
{
    lemma_sum_grid_prefix_bound(m, m.base.cells@.len() as int);
    assert(m.base.cells@.take(m.base.cells@.len() as int) =~= m.base.cells@);
}

/// Every prefix of the rows sums to at most the cap times the cells covered.
proof fn lemma_sum_grid_prefix_bound(m: ResourceMap, i: int)
    requires
        m.wf(),
        0 <= i <= m.base.cells@.len(),
    ensures
        0 <= sum_grid(m.base.cells@.take(i)) <= i * 1024000,
    decreases i,
{
    if i > 0 {
        lemma_sum_grid_prefix_bound(m, i - 1);
        lemma_sum_row_bound(m, i - 1, m.base.cells@[i - 1]@.len() as int);
        assert(m.base.cells@.take(i).drop_last() =~= m.base.cells@.take(i - 1));
        assert(m.base.cells@[i - 1]@.take(m.base.cells@[i - 1]@.len() as int) =~= m.base.cells@[i
            - 1]@);
        assert((i - 1) * 1024000 + 1024000 == i * 1024000) by (nonlinear_arith);
    }
}

/// Unit occupancy per cell, with a reverse index from (owner, ship id) to the
/// ship's cell. The index and the grid always agree: a set or remove updates
/// both together.
pub struct UnitMap {
    pub base: MapGeneric<Unit>,
}

impl UnitMap {
    /// The cell at (y, x) is either empty or holds a ship that the reverse
    /// index records exactly here.
    pub open spec fn cell_ok(self, y: int, x: int) -> bool {
        match self.base.cell(y, x) {
            Unit::Ship { player, id, halite } => self.base.inv_has(player, id)
                && self.base.inv_at(player, id).ys() == y && self.base.inv_at(player, id).xs()
                == x,
            Unit::Empty => true,
        }
    }

    /// The unit at offset (dy, dx) from `c`, wrapped into range.
    pub open spec fn at_off(self, c: Coord, dy: int, dx: int) -> Unit {
        self.base.cell(
            norm1(c.ys() + dy, self.base.dim.ys()),
            norm1(c.xs() + dx, self.base.dim.xs()),
        )
    }

    /// Grid and reverse index agree in both directions.
    pub open spec fn wf(self) -> bool {
        &&& self.base.wf()
        &&& self.base.blank == Unit::Empty
        &&& forall|j: int|
            0 <= j < self.base.invmap@.len() ==> {
                let e = #[trigger] self.base.invmap@[j];
                self.base.at(e.at).is_ship_of(e.player, e.id)
            }
        &&& forall|y: int, x: int|
            0 <= y < self.base.dim.ys() && 0 <= x < self.base.dim.xs()
                ==> #[trigger] self.cell_ok(y, x)
    }

    /// Fresh all-empty unit map.
    pub fn new(dim: Coord) -> (r: Self)
        requires
            valid_bound(dim),
        ensures
            r.wf(),
            r.base.dim == dim,
            forall|y: int, x: int|
                0 <= y < dim.ys() && 0 <= x < dim.xs() ==> #[trigger] r.base.cell(y, x)
                    == Unit::Empty,
    {
        let r = UnitMap { base: MapGeneric::new(dim, Unit::Empty) };
        proof {
            assert forall|y: int, x: int|
                0 <= y < dim.ys() && 0 <= x < dim.xs() implies #[trigger] r.cell_ok(y, x) by {
                assert(r.base.cell(y, x) == Unit::Empty);
            }
        }
        r
    }

    pub fn dim(&self) -> (r: Coord)
        ensures
            r == self.base.dim,
    {
        self.base.dim
    }

    /// The unit at `c`, wrapping `c` into range.
    pub fn get(&self, c: Coord) -> (r: Unit)
        requires
            self.wf(),
            c.bounded(COORD_LIMIT as int),
        ensures
            r == self.base.read(c),
    {
        self.base.get_map(c)
    }

    /// Clear the cell at `c` and, in the same step, drop the reverse-index
    /// record of whichever ship was there.
    pub fn remove(&mut self, c: Coord)
        requires
            old(self).wf(),
            c.bounded(COORD_LIMIT as int),
        ensures
            final(self).wf(),
            final(self).base.dim == old(self).base.dim,
            final(self).base.read(c) == Unit::Empty,
            forall|y: int, x: int|
                0 <= y < old(self).base.dim.ys() && 0 <= x < old(self).base.dim.xs() && !(y
                    == c.norm_spec(old(self).base.dim).ys() && x == c.norm_spec(
                    old(self).base.dim,
                ).xs()) ==> #[trigger] final(self).base.cell(y, x) == old(self).base.cell(y, x),
            forall|p: usize, i: i32|
                !old(self).base.read(c).is_ship_of(p, i) ==> #[trigger] final(self).base.inv_has(
                    p,
                    i,
                ) == old(self).base.inv_has(p, i),
            forall|p: usize, i: i32|
                !old(self).base.read(c).is_ship_of(p, i) && old(self).base.inv_has(p, i)
                    ==> #[trigger] final(self).base.inv_at(p, i) == old(self).base.inv_at(p, i),
            forall|p: usize, i: i32|
                old(self).base.read(c).is_ship_of(p, i) ==> !(#[trigger] final(self).base.inv_has(
                    p,
                    i,
                )),
    {
        let ghost pre = *self;
        let cn = c.modulo(&self.base.dim);
        proof {
            crate::grid::lemma_norm_identity(cn, self.base.dim);
        }
        match self.base.get_map(cn) {
            Unit::Ship { player, id, halite } => {
                proof {
                    assert(pre.cell_ok(cn.ys(), cn.xs()));
                }
                self.base.remove_item_from_inv_map(player, id);
            },
            Unit::Empty => {},
        }
        let ghost mid = *self;
        self.base.set_map(cn, Unit::Empty);
        proof {
            crate::grid::lemma_inv_preserved(mid.base, self.base);
            let dim = pre.base.dim;
            assert forall|j: int| 0 <= j < self.base.invmap@.len() implies {
                let e = #[trigger] self.base.invmap@[j];
                self.base.at(e.at).is_ship_of(e.player, e.id)
            } by {
                let e = self.base.invmap@[j];
                assert(crate::grid::entry_for(mid.base.invmap@[j], e.player, e.id));
                assert(mid.base.inv_has(e.player, e.id));
                assert(mid.base.inv_idx(e.player, e.id) == j);
                assert(mid.base.inv_at(e.player, e.id) == e.at);
                assert(!pre.base.read(c).is_ship_of(e.player, e.id)) by {
                    if pre.base.read(c).is_ship_of(e.player, e.id) {
                        assert(!mid.base.inv_has(e.player, e.id));
                    }
                }
                assert(pre.base.inv_has(e.player, e.id) == mid.base.inv_has(e.player, e.id));
                assert(pre.base.inv_at(e.player, e.id) == mid.base.inv_at(e.player, e.id));
                let j0 = pre.base.inv_idx(e.player, e.id);
                assert(pre.base.invmap@[j0].at == e.at);
                assert(pre.base.at(e.at).is_ship_of(e.player, e.id));
                if e.at.ys() == cn.ys() && e.at.xs() == cn.xs() {
                    assert(pre.base.read(c).is_ship_of(e.player, e.id));
                    assert(!self.base.inv_has(e.player, e.id));
                    assert(crate::grid::entry_for(self.base.invmap@[j], e.player, e.id));
                    assert(false);
                } else {
                    assert(self.base.cell(e.at.ys(), e.at.xs()) == pre.base.cell(
                        e.at.ys(),
                        e.at.xs(),
                    ));
                }
            }
            assert forall|y: int, x: int|
                0 <= y < dim.ys() && 0 <= x < dim.xs() implies #[trigger] self.cell_ok(y, x) by {
                if y == cn.ys() && x == cn.xs() {
                    assert(self.base.cell(y, x) == Unit::Empty);
                } else {
                    assert(self.base.cell(y, x) == pre.base.cell(y, x));
                    assert(pre.cell_ok(y, x));
                    match pre.base.cell(y, x) {
                        Unit::Ship { player, id, halite } => {
                            assert(pre.base.inv_at(player, id).ys() == y);
                            assert(!pre.base.read(c).is_ship_of(player, id)) by {
                                if pre.base.read(c).is_ship_of(player, id) {
                                    assert(pre.cell_ok(cn.ys(), cn.xs()));
                                    assert(pre.base.inv_at(player, id).ys() == cn.ys());
                                }
                            }
                            assert(self.base.inv_has(player, id) == pre.base.inv_has(player, id));
                            assert(self.base.inv_at(player, id) == pre.base.inv_at(player, id));
                        },
                        Unit::Empty => {},
                    }
                }
            }
        }
    }

    /// Put `unit` on the cell at `c`. For a ship this is a move: the ship's
    /// previous cell (if any) is cleared, a displaced occupant of the target
    /// cell loses its index record, and the index is pointed at `c` — grid and
    /// index change together.
    pub fn set(&mut self, c: Coord, unit: Unit)
        requires
            old(self).wf(),
            c.bounded(COORD_LIMIT as int),
        ensures
            final(self).wf(),
            final(self).base.dim == old(self).base.dim,
            final(self).base.read(c) == unit,
            forall|p: usize, i: i32|
                old(self).base.read(c).is_ship_of(p, i) && !unit.is_ship_of(p, i) ==> !(
                #[trigger] final(self).base.inv_has(p, i)),
            match unit {
                Unit::Ship { player, id, halite } => {
                    &&& final(self).base.inv_has(player, id)
                    &&& final(self).base.inv_at(player, id) == c.norm_spec(old(self).base.dim)
                    &&& (old(self).base.inv_has(player, id) && old(self).base.inv_at(player, id)
                        != c.norm_spec(old(self).base.dim) ==> final(self).base.at(
                        old(self).base.inv_at(player, id),
                    ) == Unit::Empty)
                    &&& forall|y: int, x: int|
                        0 <= y < old(self).base.dim.ys() && 0 <= x < old(self).base.dim.xs() && !(y
                            == c.norm_spec(old(self).base.dim).ys() && x == c.norm_spec(
                            old(self).base.dim,
                        ).xs()) && !(old(self).base.inv_has(player, id) && old(self).base.inv_at(player, id).ys() == y && old(self).base.inv_at(
                            player,
                            id,
                        ).xs() == x) ==> #[trigger] final(self).base.cell(y, x) == old(self).base.cell(y, x)
                    &&& forall|p: usize, i: i32|
                        !(p == player && i == id) && !old(self).base.read(c).is_ship_of(p, i)
                            ==> #[trigger] final(self).base.inv_has(p, i) == old(self).base.inv_has(p, i)
                    &&& forall|p: usize, i: i32|
                        !(p == player && i == id) && !old(self).base.read(c).is_ship_of(p, i) && old(self).base.inv_has(p, i) ==> #[trigger] final(self).base.inv_at(p, i) == old(self).base.inv_at(p, i)
                },
                Unit::Empty => {
                    &&& forall|y: int, x: int|
                        0 <= y < old(self).base.dim.ys() && 0 <= x < old(self).base.dim.xs() && !(y
                            == c.norm_spec(old(self).base.dim).ys() && x == c.norm_spec(
                            old(self).base.dim,
                        ).xs()) ==> #[trigger] final(self).base.cell(y, x) == old(self).base.cell(y, x)
                    &&& forall|p: usize, i: i32|
                        !old(self).base.read(c).is_ship_of(p, i) ==> #[trigger] final(self).base.inv_has(p, i) == old(self).base.inv_has(p, i)
                    &&& forall|p: usize, i: i32|
                        !old(self).base.read(c).is_ship_of(p, i) && old(self).base.inv_has(p, i)
                            ==> #[trigger] final(self).base.inv_at(p, i) == old(self).base.inv_at(p, i)
                },
            },
    {
        let ghost pre = *self;
        let cn = c.modulo(&self.base.dim);
        proof {
            crate::grid::lemma_norm_identity(cn, self.base.dim);
        }
        self.remove(c);
        let ghost s1 = *self;
        match unit {
            Unit::Ship { player, id, halite } => {
                let ghost had_old = s1.base.inv_has(player, id);
                let ghost op = s1.base.inv_at(player, id);
                let ghost mut s1b = s1;
                match self.base.find_item(player, id) {
                    Some(oldc) => {
                        proof {
                            assert(s1.base.at(oldc).is_ship_of(player, id)) by {
                                let j = s1.base.inv_idx(player, id);
                                assert(crate::grid::entry_for(s1.base.invmap@[j], player, id));
                            }
                            assert(oldc.normed(pre.base.dim)) by {
                                let j = s1.base.inv_idx(player, id);
                            }
                            assert(!(oldc.ys() == cn.ys() && oldc.xs() == cn.xs())) by {
                                assert(s1.base.read(c) == Unit::Empty);
                            }
                            crate::grid::lemma_norm_identity(oldc, pre.base.dim);
                        }
                        self.base.set_map(oldc, Unit::Empty);
                        proof {
                            crate::grid::lemma_inv_preserved(s1.base, self.base);
                            s1b = *self;
                        }
                        self.base.remove_item_from_inv_map(player, id);
                    },
                    None => {},
                }
                let ghost s2 = *self;
                proof {
                    assert(!s2.base.inv_has(player, id));
                    assert(s2.base.cells == s1b.base.cells);
                }
                self.base.set_map(c, unit);
                let ghost s3 = *self;
                proof {
                    crate::grid::lemma_inv_preserved(s2.base, self.base);
                }
                self.base.add_item_inv_map(player, id, c);
                proof {
                    let dim = pre.base.dim;
                    assert(self.base.cells == s3.base.cells);
                    // relate the intermediate state to the state after the removal
                    assert(!(had_old && (op.ys() == cn.ys() && op.xs() == cn.xs())));
                    assert(s2.base.dim == dim && s2.base.blank == Unit::Empty);
                    assert forall|y: int, x: int|
                        0 <= y < dim.ys() && 0 <= x < dim.xs() && !(had_old && op.ys() == y
                            && op.xs() == x) implies #[trigger] s2.base.cell(y, x)
                        == s1.base.cell(y, x) by {
                        if had_old {
                            assert(s1b.base.cell(y, x) == s1.base.cell(y, x));
                            assert(s2.base.cell(y, x) == s1b.base.cell(y, x));
                        }
                    }
                    assert(had_old ==> s2.base.at(op) == Unit::Empty) by {
                        if had_old {
                            assert(s1b.base.read(op) == Unit::Empty);
                            assert(op.norm_spec(dim) == op);
                            assert(s2.base.at(op) == s1b.base.at(op));
                        }
                    }
                    assert forall|p: usize, i: i32| !(p == player && i == id) implies
                        #[trigger] s2.base.inv_has(p, i) == s1.base.inv_has(p, i) && (
                    s1.base.inv_has(p, i) ==> s2.base.inv_at(p, i) == s1.base.inv_at(p, i)) by {
                        if had_old {
                            assert(s1b.base.inv_has(p, i) == s1.base.inv_has(p, i));
                            assert(s2.base.inv_has(p, i) == s1b.base.inv_has(p, i));
                            if s1.base.inv_has(p, i) {
                                assert(s1b.base.inv_at(p, i) == s1.base.inv_at(p, i));
                                assert(s2.base.inv_at(p, i) == s1b.base.inv_at(p, i));
                            }
                        }
                    }
                    // cells of the final state
                    assert(self.base.read(c) == unit);
                    assert(self.base.at(cn) == unit);
                    assert forall|y: int, x: int|
                        0 <= y < dim.ys() && 0 <= x < dim.xs() && !(y == cn.ys() && x == cn.xs())
                            && !(had_old && op.ys() == y && op.xs() == x) implies
                        #[trigger] self.base.cell(y, x) == pre.base.cell(y, x) by {
                        assert(s3.base.cell(y, x) == s2.base.cell(y, x));
                        assert(self.base.cell(y, x) == s3.base.cell(y, x));
                        assert(s2.base.cell(y, x) == s1.base.cell(y, x));
                        assert(s1.base.cell(y, x) == pre.base.cell(y, x));
                    }
                    // index of the final state
                    assert(self.base.inv_has(player, id) && self.base.inv_at(player, id) == cn);
                    assert forall|p: usize, i: i32|
                        !(p == player && i == id) && !pre.base.read(c).is_ship_of(p, i) implies
                        #[trigger] self.base.inv_has(p, i) == pre.base.inv_has(p, i) && (
                    pre.base.inv_has(p, i) ==> self.base.inv_at(p, i) == pre.base.inv_at(
                        p,
                        i,
                    )) by {
                        assert(self.base.inv_has(p, i) == s2.base.inv_has(p, i));
                        assert(s1.base.inv_has(p, i) == pre.base.inv_has(p, i));
                        if pre.base.inv_has(p, i) {
                            assert(s1.base.inv_at(p, i) == pre.base.inv_at(p, i));
                            assert(self.base.inv_at(p, i) == s2.base.inv_at(p, i));
                        }
                    }
                    assert forall|p: usize, i: i32|
                        pre.base.read(c).is_ship_of(p, i) && !(p == player && i
                            == id) implies !(#[trigger] self.base.inv_has(p, i)) by {
                        assert(!s1.base.inv_has(p, i));
                        assert(s2.base.inv_has(p, i) == s1.base.inv_has(p, i));
                        assert(self.base.inv_has(p, i) == s2.base.inv_has(p, i));
                    }
                    // the ship's old cell is cleared
                    assert(pre.base.inv_has(player, id) && pre.base.inv_at(player, id) != cn
                        ==> self.base.at(pre.base.inv_at(player, id)) == Unit::Empty) by {
                        if pre.base.inv_has(player, id) && pre.base.inv_at(player, id) != cn {
                            let pp = pre.base.inv_at(player, id);
                            assert(pp.normed(dim)) by {
                                let j = pre.base.inv_idx(player, id);
                            }
                            assert(!(pp.ys() == cn.ys() && pp.xs() == cn.xs()));
                            assert(!pre.base.read(c).is_ship_of(player, id)) by {
                                if pre.base.read(c).is_ship_of(player, id) {
                                    assert(pre.cell_ok(cn.ys(), cn.xs()));
                                }
                            }
                            assert(s1.base.inv_has(player, id) && s1.base.inv_at(player, id)
                                == pp);
                            assert(had_old && op == pp);
                            assert(s3.base.cell(pp.ys(), pp.xs()) == s2.base.cell(
                                pp.ys(),
                                pp.xs(),
                            ));
                            assert(self.base.cell(pp.ys(), pp.xs()) == s3.base.cell(
                                pp.ys(),
                                pp.xs(),
                            ));
                        }
                    }
                    // well-formedness: every index record points at its ship
                    assert forall|j: int| 0 <= j < self.base.invmap@.len() implies {
                        let e = #[trigger] self.base.invmap@[j];
                        self.base.at(e.at).is_ship_of(e.player, e.id)
                    } by {
                        let e = self.base.invmap@[j];
                        assert(self.base.inv_has(e.player, e.id) && self.base.inv_at(
                            e.player,
                            e.id,
                        ) == e.at) by {
                            assert(crate::grid::entry_for(self.base.invmap@[j], e.player, e.id));
                            assert(self.base.inv_idx(e.player, e.id) == j);
                        }
                        if e.player == player && e.id == id {
                            assert(e.at == cn);
                            assert(self.base.at(cn) == unit);
                        } else {
                            assert(s2.base.inv_has(e.player, e.id) && s2.base.inv_at(
                                e.player,
                                e.id,
                            ) == e.at);
                            assert(s1.base.inv_has(e.player, e.id) && s1.base.inv_at(
                                e.player,
                                e.id,
                            ) == e.at);
                            let j1 = s1.base.inv_idx(e.player, e.id);
                            assert(crate::grid::entry_for(s1.base.invmap@[j1], e.player, e.id));
                            assert(s1.base.at(e.at).is_ship_of(e.player, e.id));
                            assert(e.at.normed(dim));
                            assert(!(e.at.ys() == cn.ys() && e.at.xs() == cn.xs())) by {
                                assert(s1.base.read(c) == Unit::Empty);
                            }
                            assert(!(had_old && op.ys() == e.at.ys() && op.xs()
                                == e.at.xs())) by {
                                if had_old && op.ys() == e.at.ys() && op.xs() == e.at.xs() {
                                    let jo = s1.base.inv_idx(player, id);
                                    assert(crate::grid::entry_for(
                                        s1.base.invmap@[jo],
                                        player,
                                        id,
                                    ));
                                    assert(s1.base.at(op).is_ship_of(player, id));
                                    assert(op == e.at);
                                }
                            }
                            assert(s2.base.cell(e.at.ys(), e.at.xs()) == s1.base.cell(
                                e.at.ys(),
                                e.at.xs(),
                            ));
                            assert(s3.base.cell(e.at.ys(), e.at.xs()) == s2.base.cell(
                                e.at.ys(),
                                e.at.xs(),
                            ));
                            assert(self.base.cell(e.at.ys(), e.at.xs()) == s3.base.cell(
                                e.at.ys(),
                                e.at.xs(),
                            ));
                        }
                    }
                    // well-formedness: every ship cell is indexed here
                    assert forall|y: int, x: int|
                        0 <= y < dim.ys() && 0 <= x < dim.xs() implies #[trigger] self.cell_ok(
                        y,
                        x,
                    ) by {
                        if y == cn.ys() && x == cn.xs() {
                            assert(self.base.cell(y, x) == unit);
                        } else if had_old && op.ys() == y && op.xs() == x {
                            assert(op.normed(dim)) by {
                                let jo = s1.base.inv_idx(player, id);
                                assert(crate::grid::entry_for(s1.base.invmap@[jo], player, id));
                            }
                            assert(s2.base.at(op) == Unit::Empty);
                            assert(s3.base.cell(y, x) == s2.base.cell(y, x));
                            assert(self.base.cell(y, x) == s3.base.cell(y, x));
                        } else {
                            assert(s3.base.cell(y, x) == s2.base.cell(y, x));
                            assert(self.base.cell(y, x) == s3.base.cell(y, x));
                            assert(s2.base.cell(y, x) == s1.base.cell(y, x));
                            assert(s1.base.cell(y, x) == pre.base.cell(y, x));
                            assert(pre.cell_ok(y, x));
                            match pre.base.cell(y, x) {
                                Unit::Ship { player: q, id: i, halite: h } => {
                                    assert(pre.base.inv_at(q, i).ys() == y && pre.base.inv_at(
                                        q,
                                        i,
                                    ).xs() == x);
                                    assert(!(q == player && i == id)) by {
                                        if q == player && i == id {
                                            assert(pre.base.inv_has(player, id)
                                                && pre.base.inv_at(player, id) != cn);
                                            assert(!pre.base.read(c).is_ship_of(player, id)) by {
                                                if pre.base.read(c).is_ship_of(player, id) {
                                                    assert(pre.cell_ok(cn.ys(), cn.xs()));
                                                }
                                            }
                                            assert(s1.base.inv_has(player, id));
                                            assert(op == pre.base.inv_at(player, id));
                                            assert(op.ys() == y && op.xs() == x);
                                        }
                                    }
                                    assert(!pre.base.read(c).is_ship_of(q, i)) by {
                                        if pre.base.read(c).is_ship_of(q, i) {
                                            assert(pre.cell_ok(cn.ys(), cn.xs()));
                                            assert(pre.base.inv_at(q, i).ys() == cn.ys());
                                        }
                                    }
                                    assert(self.base.inv_has(q, i) == pre.base.inv_has(q, i));
                                    assert(self.base.inv_at(q, i) == pre.base.inv_at(q, i));
                                },
                                Unit::Empty => {},
                            }
                        }
                    }
                }
            },
            Unit::Empty => {},
        }
    }
}

impl UnitMap {
    /// All of a player's ships as (id, cell, cargo), via the reverse index.
    pub fn get_player_agents(&self, player_id: usize) -> (r: Vec<(i32, Coord, usize)>)
        requires
            self.wf(),
        ensures
            forall|j: int|
                0 <= j < r@.len() ==> self.base.inv_has(player_id, (#[trigger] r@[j]).0)
                    && self.base.inv_at(player_id, r@[j].0) == r@[j].1 && self.base.at(r@[j].1)
                    == (Unit::Ship { player: player_id, id: r@[j].0, halite: r@[j].2 }),
            forall|id: i32|
                self.base.inv_has(player_id, id) ==> exists|j: int|
                    0 <= j < r@.len() && (#[trigger] r@[j]).0 == id,
            forall|j: int, k: int|
                0 <= j < r@.len() && 0 <= k < r@.len() && j != k ==> (#[trigger] r@[j]).0 != (
                #[trigger] r@[k]).0,
    {
        let list = self.base.get_inv_map(player_id);
        let mut r: Vec<(i32, Coord, usize)> = Vec::new();
        let n = list.len();
        let mut m: usize = 0;
        while m < n
            invariant
                self.wf(),
                n == list@.len(),
                0 <= m <= n,
                forall|t: int|
                    0 <= t < n ==> self.base.inv_has(player_id, (#[trigger] list@[t]).0)
                        && self.base.inv_at(player_id, list@[t].0) == list@[t].1,
                forall|id: i32|
                    self.base.inv_has(player_id, id) ==> exists|t: int|
                        0 <= t < n && (#[trigger] list@[t]).0 == id,
                forall|t: int, k: int|
                    0 <= t < n && 0 <= k < n && t != k ==> (#[trigger] list@[t]).0 != (
                    #[trigger] list@[k]).0,
                r@.len() == m,
                forall|j: int| 0 <= j < m ==> (#[trigger] r@[j]).0 == list@[j].0 && r@[j].1
                    == list@[j].1,
                forall|j: int|
                    0 <= j < m ==> self.base.at((#[trigger] r@[j]).1) == (Unit::Ship {
                        player: player_id,
                        id: r@[j].0,
                        halite: r@[j].2,
                    }),
            decreases n - m,
        {
            let (id, at) = list[m];
            proof {
                let j = self.base.inv_idx(player_id, id);
                assert(crate::grid::entry_for(self.base.invmap@[j], player_id, id));
                assert(self.base.at(self.base.invmap@[j].at).is_ship_of(player_id, id));
                assert(at.normed(self.base.dim));
                crate::grid::lemma_norm_identity(at, self.base.dim);
            }
            let u = self.base.get_map(at);
            match u {
                Unit::Ship { player: q, id: i2, halite } => {
                    r.push((id, at, halite));
                },
                Unit::Empty => {
                    proof {
                        assert(false);
                    }
                },
            }
            m = m + 1;
        }
        proof {
            assert forall|id: i32| self.base.inv_has(player_id, id) implies exists|j: int|
                0 <= j < r@.len() && (#[trigger] r@[j]).0 == id by {
                let t = choose|t: int| 0 <= t < n && (#[trigger] list@[t]).0 == id;
                assert(r@[t].0 == id);
            }
        }
        r
    }

    /// Remove all of a player's ships: their cells are emptied and their
    /// reverse-index records dropped together; everything else is untouched.
    pub fn clear_player_agents(&mut self, player_id: usize)
        requires
            old(self).wf(),
        ensures
            final(self).wf(),
            final(self).base.dim == old(self).base.dim,
            !final(self).base.inv_has_player(player_id),
            forall|p: usize, i: i32|
                p != player_id ==> #[trigger] final(self).base.inv_has(p, i) == old(self).base.inv_has(p, i),
            forall|p: usize, i: i32|
                p != player_id && old(self).base.inv_has(p, i) ==> #[trigger] final(self).base.inv_at(p, i) == old(self).base.inv_at(p, i),
            forall|y: int, x: int|
                0 <= y < old(self).base.dim.ys() && 0 <= x < old(self).base.dim.xs() && old(self).base.cell(y, x).owned_by(player_id) ==> #[trigger] final(self).base.cell(y, x)
                    == Unit::Empty,
            forall|y: int, x: int|
                0 <= y < old(self).base.dim.ys() && 0 <= x < old(self).base.dim.xs() && !old(self).base.cell(y, x).owned_by(player_id) ==> #[trigger] final(self).base.cell(y, x)
                    == old(self).base.cell(y, x),
    {
        let ghost pre = *self;
        self.base.clear_player_item_inv_map(player_id);
        proof {
            let dim = pre.base.dim;
            assert forall|y: int, x: int|
                0 <= y < dim.ys() && 0 <= x < dim.xs() && pre.base.cell(y, x).owned_by(
                    player_id,
                ) implies #[trigger] self.base.cell(y, x) == Unit::Empty by {
                assert(pre.cell_ok(y, x));
                match pre.base.cell(y, x) {
                    Unit::Ship { player, id, halite } => {
                        assert(pre.base.inv_has(player, id) && pre.base.inv_at(player, id).ys()
                            == y && pre.base.inv_at(player, id).xs() == x);
                        assert(self.base.at(pre.base.inv_at(player, id)) == Unit::Empty);
                    },
                    Unit::Empty => {},
                }
            }
            assert forall|y: int, x: int|
                0 <= y < dim.ys() && 0 <= x < dim.xs() && !pre.base.cell(y, x).owned_by(
                    player_id,
                ) implies #[trigger] self.base.cell(y, x) == pre.base.cell(y, x) by {
                assert(!(exists|i: i32|
                    #[trigger] pre.base.inv_has(player_id, i) && pre.base.inv_at(
                        player_id,
                        i,
                    ).ys() == y && pre.base.inv_at(player_id, i).xs() == x)) by {
                    if exists|i: i32|
                        #[trigger] pre.base.inv_has(player_id, i) && pre.base.inv_at(
                            player_id,
                            i,
                        ).ys() == y && pre.base.inv_at(player_id, i).xs() == x {
                        let i = choose|i: i32|
                            #[trigger] pre.base.inv_has(player_id, i) && pre.base.inv_at(
                                player_id,
                                i,
                            ).ys() == y && pre.base.inv_at(player_id, i).xs() == x;
                        let j = pre.base.inv_idx(player_id, i);
                        assert(crate::grid::entry_for(pre.base.invmap@[j], player_id, i));
                        assert(pre.base.at(pre.base.invmap@[j].at).is_ship_of(player_id, i));
                        assert(pre.base.cell(y, x).owned_by(player_id));
                    }
                }
            }
            assert forall|j: int| 0 <= j < self.base.invmap@.len() implies {
                let e = #[trigger] self.base.invmap@[j];
                self.base.at(e.at).is_ship_of(e.player, e.id)
            } by {
                let e = self.base.invmap@[j];
                assert(crate::grid::entry_for(self.base.invmap@[j], e.player, e.id));
                assert(self.base.inv_has(e.player, e.id));
                assert(e.player != player_id) by {
                    if e.player == player_id {
                        assert(self.base.inv_has_player(player_id));
                    }
                }
                assert(pre.base.inv_has(e.player, e.id));
                assert(self.base.inv_idx(e.player, e.id) == j);
                assert(self.base.inv_at(e.player, e.id) == e.at);
                assert(pre.base.inv_at(e.player, e.id) == e.at);
                let j0 = pre.base.inv_idx(e.player, e.id);
                assert(crate::grid::entry_for(pre.base.invmap@[j0], e.player, e.id));
                assert(pre.base.at(e.at).is_ship_of(e.player, e.id));
                assert(e.at.normed(dim));
                assert(!pre.base.cell(e.at.ys(), e.at.xs()).owned_by(player_id));
                assert(self.base.cell(e.at.ys(), e.at.xs()) == pre.base.cell(
                    e.at.ys(),
                    e.at.xs(),
                ));
            }
            assert forall|y: int, x: int|
                0 <= y < dim.ys() && 0 <= x < dim.xs() implies #[trigger] self.cell_ok(y, x) by {
                if pre.base.cell(y, x).owned_by(player_id) {
                    assert(self.base.cell(y, x) == Unit::Empty);
                } else {
                    assert(self.base.cell(y, x) == pre.base.cell(y, x));
                    assert(pre.cell_ok(y, x));
                    match pre.base.cell(y, x) {
                        Unit::Ship { player, id, halite } => {
                            assert(player != player_id);
                            assert(self.base.inv_has(player, id) == pre.base.inv_has(player, id));
                            assert(self.base.inv_at(player, id) == pre.base.inv_at(player, id));
                        },
                        Unit::Empty => {},
                    }
                }
            }
        }
    }
}

/// Ownership of dropoff cells, with a reverse index from (owner, dropoff id)
/// to the dropoff's cell.
pub struct DropoffMap {
    pub base: MapGeneric<Option<Player>>,
}

impl DropoffMap {
    pub open spec fn wf(self) -> bool {
        &&& self.base.wf()
        &&& self.base.blank == Option::<Player>::None
    }

    /// Fresh map with no dropoffs.
    pub fn new(dim: Coord) -> (r: Self)
        requires
            valid_bound(dim),
        ensures
            r.wf(),
            r.base.dim == dim,
            forall|y: int, x: int|
                0 <= y < dim.ys() && 0 <= x < dim.xs() ==> #[trigger] r.base.cell(y, x)
                    == Option::<Player>::None,
    {
        DropoffMap { base: MapGeneric::new(dim, Option::None) }
    }

    pub fn dim(&self) -> (r: Coord)
        ensures
            r == self.base.dim,
    {
        self.base.dim
    }

    /// The owner of the dropoff at `c`, if any, wrapping `c` into range.
    pub fn get(&self, c: Coord) -> (r: Option<Player>)
        requires
            self.wf(),
            c.bounded(COORD_LIMIT as int),
        ensures
            r == self.base.read(c),
    {
        self.base.get_map(c)
    }

    /// Register a dropoff of `player` at `c`: the cell is marked owned and the
    /// reverse index records the dropoff, in one step.
    pub fn set(&mut self, dropoff_id: i32, c: Coord, player: Player)
        requires
            old(self).wf(),
            c.bounded(COORD_LIMIT as int),
        ensures
            final(self).wf(),
            final(self).base.dim == old(self).base.dim,
            final(self).base.read(c) == Some(player),
            forall|y: int, x: int|
                0 <= y < old(self).base.dim.ys() && 0 <= x < old(self).base.dim.xs() && !(y
                    == c.norm_spec(old(self).base.dim).ys() && x == c.norm_spec(
                    old(self).base.dim,
                ).xs()) ==> #[trigger] final(self).base.cell(y, x) == old(self).base.cell(y, x),
            final(self).base.inv_has(player.0, dropoff_id),
            final(self).base.inv_at(player.0, dropoff_id) == c.norm_spec(old(self).base.dim),
            forall|p: usize, i: i32|
                !(p == player.0 && i == dropoff_id) ==> #[trigger] final(self).base.inv_has(p, i)
                    == old(self).base.inv_has(p, i),
            forall|p: usize, i: i32|
                !(p == player.0 && i == dropoff_id) && old(self).base.inv_has(p, i)
                    ==> #[trigger] final(self).base.inv_at(p, i) == old(self).base.inv_at(p, i),
    {
        self.base.set_map(c, Some(player));
        let ghost mid = *self;
        proof {
            crate::grid::lemma_inv_preserved(old(self).base, self.base);
        }
        self.base.add_item_inv_map(player.0, dropoff_id, c);
        proof {
            assert(self.base.cells == mid.base.cells);
            assert forall|y: int, x: int|
                0 <= y < old(self).base.dim.ys() && 0 <= x < old(self).base.dim.xs() && !(y
                    == c.norm_spec(old(self).base.dim).ys() && x == c.norm_spec(
                    old(self).base.dim,
                ).xs()) implies #[trigger] self.base.cell(y, x) == old(self).base.cell(y, x) by {
                assert(mid.base.cell(y, x) == old(self).base.cell(y, x));
                assert(self.base.cell(y, x) == mid.base.cell(y, x));
            }
            assert(self.base.read(c) == self.base.at(c.norm_spec(old(self).base.dim)));
            assert(mid.base.read(c) == Some(player));
        }
    }

    /// All (dropoff id, cell) pairs registered for `player_id`.
    pub fn get_player_dropoffs(&self, player_id: usize) -> (r: Vec<(i32, Coord)>)
        requires
            self.wf(),
        ensures
            forall|j: int|
                0 <= j < r@.len() ==> self.base.inv_has(player_id, (#[trigger] r@[j]).0)
                    && self.base.inv_at(player_id, r@[j].0) == r@[j].1,
            forall|id: i32|
                self.base.inv_has(player_id, id) ==> exists|j: int|
                    0 <= j < r@.len() && (#[trigger] r@[j]).0 == id,
            forall|j: int, k: int|
                0 <= j < r@.len() && 0 <= k < r@.len() && j != k ==> (#[trigger] r@[j]).0 != (
                #[trigger] r@[k]).0,
            forall|j: int| 0 <= j < r@.len() ==> (#[trigger] r@[j]).1.normed(self.base.dim),
    {
        let r = self.base.get_inv_map(player_id);
        proof {
            assert forall|j: int| 0 <= j < r@.len() implies (#[trigger] r@[j]).1.normed(
                self.base.dim,
            ) by {
                let k = self.base.inv_idx(player_id, r@[j].0);
                assert(crate::grid::entry_for(self.base.invmap@[k], player_id, r@[j].0));
            }
        }
        r
    }
}

/// The per-turn authoritative snapshot: resources, units and dropoffs, all on
/// grids of the same dimensions.
pub struct RawMaps {
    pub map_r: ResourceMap,
    pub map_u: UnitMap,
    pub map_d: DropoffMap,
}

impl RawMaps {
    pub open spec fn wf(self) -> bool {
        &&& self.map_r.wf()
        &&& self.map_u.wf()
        &&& self.map_d.wf()
        &&& self.map_u.base.dim == self.map_r.base.dim
        &&& self.map_d.base.dim == self.map_r.base.dim
    }
}

/// Every prefix of a row sums to at most the cap times its length.
proof fn lemma_sum_row_bound(m: ResourceMap, y: int, j: int)
    requires
        m.wf(),
        0 <= y < m.base.cells@.len(),
        0 <= j <= m.base.cells@[y]@.len(),
        m.base.cells@[y]@.len() <= 1024,
    ensures
        0 <= sum_row(m.base.cells@[y]@.take(j)) <= j * 1000,
    decreases j,
{
    if j > 0 {
        lemma_sum_row_bound(m, y, j - 1);
        assert(m.base.cells@[y]@.take(j).drop_last() =~= m.base.cells@[y]@.take(j - 1));
        assert(m.base.cell(y, j - 1) <= RESOURCE_CELL_MAX);
        assert((j - 1) * 1000 + 1000 == j * 1000) by (nonlinear_arith);
    }
}

} // verus!
