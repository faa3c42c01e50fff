//! The generic toroidal grid: a rectangular array addressed by wrap-around
//! coordinates, plus a reverse index from (player, item id) to the item's
//! cell, kept in step with the grid by the typed wrappers built on top.

use vstd::prelude::*;
use crate::coord::{Coord, valid_bound, COORD_LIMIT};

verus! {

/// One reverse-index record: player `player` has item `id` at cell `at`.
#[derive(Clone, Copy, Debug)]
pub struct InvEntry {
    pub player: usize,
    pub id: i32,
    pub at: Coord,
}

/// Rectangular wrap-around grid of `T` with a reverse index from
/// (player, item id) to a cell.
pub struct MapGeneric<T> {
    pub cells: Vec<Vec<T>>,
    pub dim: Coord,
    pub blank: T,
    pub invmap: Vec<InvEntry>,
}

/// Whether a reverse-index record is for the given player and item id.
pub open spec fn entry_for(e: InvEntry, player: usize, id: i32) -> bool {
    e.player == player && e.id == id
}

impl<T: Copy> MapGeneric<T> {
    /// The grid is a proper rectangle of the stated dimensions.
    pub open spec fn grid_wf(self) -> bool {
        &&& valid_bound(self.dim)
        &&& self.cells@.len() == self.dim.ys()
        &&& forall|y: int|
            0 <= y < self.cells@.len() ==> (#[trigger] self.cells@[y])@.len() == self.dim.xs()
    }

    /// The reverse index holds at most one record per (player, id), and every
    /// recorded cell is inside the grid.
    pub open spec fn inv_wf(self) -> bool {
        &&& forall|j: int, k: int|
            0 <= j < self.invmap@.len() && 0 <= k < self.invmap@.len() && j != k ==> !(
            (#[trigger] self.invmap@[j]).player == (#[trigger] self.invmap@[k]).player
                && self.invmap@[j].id == self.invmap@[k].id)
        &&& forall|j: int|
            0 <= j < self.invmap@.len() ==> (#[trigger] self.invmap@[j]).at.normed(self.dim)
    }

    pub open spec fn wf(self) -> bool {
        self.grid_wf() && self.inv_wf()
    }

    /// Cell content at row `y`, column `x` (both already in range).
    pub open spec fn cell(self, y: int, x: int) -> T {
        self.cells@[y]@[x]
    }

    /// Cell content at a normalized coordinate.
    pub open spec fn at(self, c: Coord) -> T {
        self.cell(c.ys(), c.xs())
    }

    /// Cell content at an arbitrary coordinate, normalized first.
    pub open spec fn read(self, c: Coord) -> T {
        self.at(c.norm_spec(self.dim))
    }

    /// Some reverse-index record exists for (player, id).
    pub open spec fn inv_has(self, player: usize, id: i32) -> bool {
        exists|j: int|
            0 <= j < self.invmap@.len() && entry_for(#[trigger] self.invmap@[j], player, id)
    }

    /// Position of the reverse-index record for (player, id).
    pub open spec fn inv_idx(self, player: usize, id: i32) -> int {
        choose|j: int|
            0 <= j < self.invmap@.len() && entry_for(#[trigger] self.invmap@[j], player, id)
    }

    /// The cell the reverse index records for (player, id).
    pub open spec fn inv_at(self, player: usize, id: i32) -> Coord {
        self.invmap@[self.inv_idx(player, id)].at
    }

    /// Fresh grid with every cell `blank` and an empty reverse index.
    pub fn new(dim: Coord, blank: T) -> (r: Self)
        requires
            valid_bound(dim),
        ensures
            r.wf(),
            r.dim == dim,
            r.blank == blank,
            r.invmap@.len() == 0,
            forall|y: int, x: int|
                0 <= y < dim.ys() && 0 <= x < dim.xs() ==> #[trigger] r.cell(y, x) == blank,
    {
        let rows = dim.0;
        let cols = dim.1;
        let mut cells: Vec<Vec<T>> = Vec::new();
        let mut i: i32 = 0;
        while i < rows
            invariant
                0 <= i <= rows,
                1 <= cols,
                cells@.len() == i,
                forall|y: int| 0 <= y < i ==> (#[trigger] cells@[y])@.len() == cols,
                forall|y: int, x: int|
                    0 <= y < i && 0 <= x < cols ==> #[trigger] cells@[y]@[x] == blank,
            decreases rows - i,
        {
            let mut row: Vec<T> = Vec::new();
            let mut j: i32 = 0;
            while j < cols
                invariant
                    0 <= j <= cols,
                    row@.len() == j,
                    forall|x: int| 0 <= x < j ==> #[trigger] row@[x] == blank,
                decreases cols - j,
            {
                row.push(blank);
                j = j + 1;
            }
            cells.push(row);
            i = i + 1;
        }
        MapGeneric { cells, dim, blank, invmap: Vec::new() }
    }

    /// Read the cell addressed by `c`, wrapping `c` into range first.
    pub fn get_map(&self, c: Coord) -> (r: T)
        requires
            self.wf(),
            c.bounded(COORD_LIMIT as int),
        ensures
            r == self.read(c),
    {
        let cn = c.modulo(&self.dim);
        self.cells[cn.0 as usize][cn.1 as usize]
    }

    /// Write the cell addressed by `c`, wrapping `c` into range first.
    /// Leaves every other cell, the dimensions and the reverse index alone.
    pub fn set_map(&mut self, c: Coord, item: T)
        requires
            old(self).wf(),
            c.bounded(COORD_LIMIT as int),
        ensures
            final(self).wf(),
            final(self).dim == old(self).dim,
            final(self).blank == old(self).blank,
            final(self).invmap == old(self).invmap,
            final(self).read(c) == item,
            forall|y: int, x: int|
                0 <= y < old(self).dim.ys() && 0 <= x < old(self).dim.xs() && !(y == c.norm_spec(
                    old(self).dim,
                ).ys() && x == c.norm_spec(old(self).dim).xs()) ==> #[trigger] final(self).cell(
                    y,
                    x,
                ) == old(self).cell(y, x),
    {
        let cn = c.modulo(&self.dim);
        self.cells[cn.0 as usize][cn.1 as usize] = item;
    }

    /// All (id, cell) pairs the reverse index holds for `player`.
    pub fn get_inv_map(&self, player: usize) -> (r: Vec<(i32, Coord)>)
        requires
            self.wf(),
        ensures
            forall|j: int|
                0 <= j < r@.len() ==> self.inv_has(player, (#[trigger] r@[j]).0) && self.inv_at(
                    player,
                    r@[j].0,
                ) == r@[j].1,
            forall|id: i32|
                self.inv_has(player, id) ==> exists|j: int|
                    0 <= j < r@.len() && (#[trigger] r@[j]).0 == id,
            forall|j: int, k: int|
                0 <= j < r@.len() && 0 <= k < r@.len() && j != k ==> (#[trigger] r@[j]).0 != (
                #[trigger] r@[k]).0,
    {
        let mut r: Vec<(i32, Coord)> = Vec::new();
        let n = self.invmap.len();
        let mut j: usize = 0;
        while j < n
            invariant
                self.wf(),
                n == self.invmap@.len(),
                0 <= j <= n,
                forall|m: int|
                    0 <= m < r@.len() ==> exists|i: int|
                        0 <= i < j && entry_for(
                            #[trigger] self.invmap@[i],
                            player,
                            (#[trigger] r@[m]).0,
                        ) && self.invmap@[i].at == r@[m].1,
                forall|i: int|
                    0 <= i < j && (#[trigger] self.invmap@[i]).player == player ==> exists|m: int|
                        0 <= m < r@.len() && (#[trigger] r@[m]).0 == self.invmap@[i].id,
                forall|m: int, k: int|
                    0 <= m < r@.len() && 0 <= k < r@.len() && m != k ==> (#[trigger] r@[m]).0 != (
                    #[trigger] r@[k]).0,
            decreases n - j,
        {
            let ghost r0 = r@;
            let e = self.invmap[j];
            if e.player == player {
                r.push((e.id, e.at));
                proof {
                    assert forall|i: int|
                        0 <= i < j + 1 && (#[trigger] self.invmap@[i]).player
                            == player implies exists|m: int|
                        0 <= m < r@.len() && (#[trigger] r@[m]).0 == self.invmap@[i].id by {
                        if i < j {
                            let m = choose|m: int|
                                0 <= m < r0.len() && (#[trigger] r0[m]).0 == self.invmap@[i].id;
                            assert(r@[m] == r0[m]);
                        } else {
                            assert(r@[r@.len() - 1].0 == self.invmap@[j as int].id);
                        }
                    }
                    assert forall|m: int, k: int|
                        0 <= m < r@.len() && 0 <= k < r@.len() && m != k implies (
                    #[trigger] r@[m]).0 != (#[trigger] r@[k]).0 by {
                        if m < r0.len() && k < r0.len() {
                            assert(r@[m] == r0[m]);
                            assert(r@[k] == r0[k]);
                        } else {
                            let s = if m < r0.len() {
                                m
                            } else {
                                k
                            };
                            assert(r@[s] == r0[s]);
                            let i = choose|i: int|
                                0 <= i < j && entry_for(
                                    #[trigger] self.invmap@[i],
                                    player,
                                    r0[s].0,
                                ) && self.invmap@[i].at == r0[s].1;
                            assert(!(self.invmap@[i].player == self.invmap@[j as int].player
                                && self.invmap@[i].id == self.invmap@[j as int].id));
                        }
                    }
                }
            }
            j = j + 1;
        }
        proof {
            assert forall|m: int| 0 <= m < r@.len() implies self.inv_has(player, (#[trigger] r@[m]).0)
                && self.inv_at(player, r@[m].0) == r@[m].1 by {
                let i = choose|i: int|
                    0 <= i < self.invmap@.len() && entry_for(
                        #[trigger] self.invmap@[i],
                        player,
                        r@[m].0,
                    ) && self.invmap@[i].at == r@[m].1;
                assert(self.inv_has(player, r@[m].0));
                let w = self.inv_idx(player, r@[m].0);
                assert(w == i);
            }
            assert forall|id: i32| self.inv_has(player, id) implies exists|j2: int|
                0 <= j2 < r@.len() && (#[trigger] r@[j2]).0 == id by {
                let i = choose|i: int|
                    0 <= i < self.invmap@.len() && entry_for(#[trigger] self.invmap@[i], player, id);
                assert(self.invmap@[i].player == player);
            }
        }
        r
    }

    /// Look up the cell the reverse index records for (player, id).
    pub fn find_item(&self, player: usize, id: i32) -> (r: Option<Coord>)
        requires
            self.wf(),
        ensures
            match r {
                Some(c) => self.inv_has(player, id) && self.inv_at(player, id) == c,
                None => !self.inv_has(player, id),
            },
    {
        let n = self.invmap.len();
        let mut j: usize = 0;
        while j < n
            invariant
                self.wf(),
                n == self.invmap@.len(),
                0 <= j <= n,
                forall|i: int| 0 <= i < j ==> !entry_for(#[trigger] self.invmap@[i], player, id),
            decreases n - j,
        {
            let e = self.invmap[j];
            if e.player == player && e.id == id {
                proof {
                    assert(entry_for(self.invmap@[j as int], player, id));
                    assert(self.inv_has(player, id));
                    assert(self.inv_idx(player, id) == j as int);
                }
                return Some(e.at);
            }
            j = j + 1;
        }
        proof {
            if self.inv_has(player, id) {
                let k = choose|k: int|
                    0 <= k < self.invmap@.len() && entry_for(#[trigger] self.invmap@[k], player, id);
                assert(false);
            }
        }
        None
    }

    /// Drop the reverse-index record for (player, id), reporting whether one
    /// was there. The grid itself is untouched.
    pub fn remove_item_from_inv_map(&mut self, player: usize, id: i32) -> (r: bool)
        requires
            old(self).wf(),
        ensures
            final(self).wf(),
            r == old(self).inv_has(player, id),
            final(self).cells == old(self).cells,
            final(self).dim == old(self).dim,
            final(self).blank == old(self).blank,
            !final(self).inv_has(player, id),
            forall|p: usize, i: i32|
                !(p == player && i == id) ==> #[trigger] final(self).inv_has(p, i) == old(self).inv_has(p, i),
            forall|p: usize, i: i32|
                !(p == player && i == id) && old(self).inv_has(p, i) ==> #[trigger] final(self).inv_at(p, i) == old(self).inv_at(p, i),
    {
        let ghost pre = *self;
        let n = self.invmap.len();
        let mut j: usize = 0;
        while j < n
            invariant
                *self == pre,
                pre == *old(self),
                pre.wf(),
                n == pre.invmap@.len(),
                0 <= j <= n,
                forall|i: int| 0 <= i < j ==> !entry_for(#[trigger] pre.invmap@[i], player, id),
            decreases n - j,
        {
            let e = self.invmap[j];
            if e.player == player && e.id == id {
                self.invmap.remove(j);
                proof {
                    assert(entry_for(pre.invmap@[j as int], player, id));
                    assert(pre.inv_has(player, id));
                    lemma_remove_entry(pre, *self, j as int, player, id);
                }
                return true;
            }
            j = j + 1;
        }
        proof {
            if pre.inv_has(player, id) {
                let k = choose|k: int|
                    0 <= k < pre.invmap@.len() && entry_for(#[trigger] pre.invmap@[k], player, id);
                assert(false);
            }
        }
        false
    }

    /// Record (player, id) at the wrapped cell `c`, replacing any previous
    /// record for the same pair. The grid itself is untouched.
    pub fn add_item_inv_map(&mut self, player: usize, id: i32, c: Coord)
        requires
            old(self).wf(),
            c.bounded(COORD_LIMIT as int),
        ensures
            final(self).wf(),
            final(self).cells == old(self).cells,
            final(self).dim == old(self).dim,
            final(self).blank == old(self).blank,
            final(self).inv_has(player, id),
            final(self).inv_at(player, id) == c.norm_spec(old(self).dim),
            forall|p: usize, i: i32|
                !(p == player && i == id) ==> #[trigger] final(self).inv_has(p, i) == old(self).inv_has(p, i),
            forall|p: usize, i: i32|
                !(p == player && i == id) && old(self).inv_has(p, i) ==> #[trigger] final(self).inv_at(p, i) == old(self).inv_at(p, i),
    {
        let cn = c.modulo(&self.dim);
        let ghost pre = *self;
        let n = self.invmap.len();
        let mut j: usize = 0;
        while j < n
            invariant
                *self == pre,
                pre == *old(self),
                pre.wf(),
                cn.normed(pre.dim),
                cn == c.norm_spec(pre.dim),
                n == pre.invmap@.len(),
                0 <= j <= n,
                forall|i: int| 0 <= i < j ==> !entry_for(#[trigger] pre.invmap@[i], player, id),
            decreases n - j,
        {
            let e = self.invmap[j];
            if e.player == player && e.id == id {
                self.invmap[j] = InvEntry { player, id, at: cn };
                proof {
                    lemma_update_entry(pre, *self, j as int, player, id);
                }
                return ;
            }
            j = j + 1;
        }
        self.invmap.push(InvEntry { player, id, at: cn });
        proof {
            lemma_push_entry(pre, *self, player, id);
        }
    }
}

/// Some coordinate among the first `m` pairs of `list` is (y, x).
pub open spec fn coord_in_prefix(list: Seq<(i32, Coord)>, m: int, y: int, x: int) -> bool {
    exists|t: int| 0 <= t < m && (#[trigger] list[t]).1.ys() == y && list[t].1.xs() == x
}

impl<T: Copy> MapGeneric<T> {
    /// Some reverse-index record exists for `player`.
    pub open spec fn inv_has_player(self, player: usize) -> bool {
        exists|j: int| 0 <= j < self.invmap@.len() && (#[trigger] self.invmap@[j]).player == player
    }

    /// Blank every cell recorded for `player` and drop all of the player's
    /// reverse-index records; everything else is untouched.
    pub fn clear_player_item_inv_map(&mut self, player: usize)
        requires
            old(self).wf(),
        ensures
            final(self).wf(),
            final(self).dim == old(self).dim,
            final(self).blank == old(self).blank,
            !final(self).inv_has_player(player),
            forall|p: usize, i: i32|
                p != player ==> #[trigger] final(self).inv_has(p, i) == old(self).inv_has(p, i),
            forall|p: usize, i: i32|
                p != player && old(self).inv_has(p, i) ==> #[trigger] final(self).inv_at(p, i)
                    == old(self).inv_at(p, i),
            forall|i: i32|
                old(self).inv_has(player, i) ==> final(self).at(
                    #[trigger] old(self).inv_at(player, i),
                ) == old(self).blank,
            forall|y: int, x: int|
                0 <= y < old(self).dim.ys() && 0 <= x < old(self).dim.xs() && !(exists|i: i32|
                    #[trigger] old(self).inv_has(player, i) && old(self).inv_at(player, i).ys() == y
                        && old(self).inv_at(player, i).xs() == x) ==> #[trigger] final(self).cell(
                    y,
                    x,
                ) == old(self).cell(y, x),
    {
        let ghost pre = *self;
        let list = self.get_inv_map(player);
        let n = list.len();
        let mut m: usize = 0;
        while m < n
            invariant
                pre == *old(self),
                pre.wf(),
                self.wf(),
                self.dim == pre.dim,
                self.blank == pre.blank,
                n == list@.len(),
                0 <= m <= n,
                forall|t: int|
                    0 <= t < n ==> pre.inv_has(player, (#[trigger] list@[t]).0) && pre.inv_at(
                        player,
                        list@[t].0,
                    ) == list@[t].1,
                forall|i: i32|
                    pre.inv_has(player, i) ==> exists|t: int|
                        0 <= t < n && (#[trigger] list@[t]).0 == i,
                forall|t: int, k: int|
                    0 <= t < n && 0 <= k < n && t != k ==> (#[trigger] list@[t]).0 != (
                    #[trigger] list@[k]).0,
                forall|p: usize, i: i32|
                    p != player ==> #[trigger] self.inv_has(p, i) == pre.inv_has(p, i),
                forall|p: usize, i: i32|
                    p != player && pre.inv_has(p, i) ==> #[trigger] self.inv_at(p, i) == pre.inv_at(
                        p,
                        i,
                    ),
                forall|t: int|
                    0 <= t < m ==> !self.inv_has(player, (#[trigger] list@[t]).0),
                forall|i: i32| !pre.inv_has(player, i) ==> !(#[trigger] self.inv_has(player, i)),
                forall|t: int|
                    m <= t < n ==> #[trigger] self.inv_has(player, list@[t].0) && self.inv_at(
                        player,
                        list@[t].0,
                    ) == list@[t].1,
                forall|t: int| 0 <= t < m ==> self.at((#[trigger] list@[t]).1) == pre.blank,
                forall|y: int, x: int|
                    0 <= y < pre.dim.ys() && 0 <= x < pre.dim.xs() && !coord_in_prefix(
                        list@,
                        m as int,
                        y,
                        x,
                    ) ==> #[trigger] self.cell(y, x) == pre.cell(y, x),
            decreases n - m,
        {
            let ghost before = *self;
            let (id, at) = list[m];
            let b = self.blank;
            self.set_map(at, b);
            let ghost mid = *self;
            self.remove_item_from_inv_map(player, id);
            proof {
                lemma_inv_preserved(before, mid);
                assert(at.normed(pre.dim));
                lemma_norm_identity(at, pre.dim);
                assert forall|p: usize, i: i32| p != player implies #[trigger] self.inv_has(p, i)
                    == pre.inv_has(p, i) by {
                    assert(self.inv_has(p, i) == mid.inv_has(p, i));
                    assert(mid.inv_has(p, i) == before.inv_has(p, i));
                    assert(before.inv_has(p, i) == pre.inv_has(p, i));
                }
                assert forall|p: usize, i: i32| p != player && pre.inv_has(p, i) implies
                    #[trigger] self.inv_at(p, i) == pre.inv_at(p, i) by {
                    assert(before.inv_has(p, i) == pre.inv_has(p, i));
                    assert(mid.inv_has(p, i) == before.inv_has(p, i));
                    assert(mid.inv_at(p, i) == before.inv_at(p, i));
                    assert(self.inv_at(p, i) == mid.inv_at(p, i));
                    assert(before.inv_at(p, i) == pre.inv_at(p, i));
                }
                assert forall|t: int| 0 <= t < m + 1 implies !self.inv_has(
                    player,
                    (#[trigger] list@[t]).0,
                ) by {
                    if t < m {
                        assert(list@[t].0 != id);
                        assert(!before.inv_has(player, list@[t].0));
                        assert(mid.inv_has(player, list@[t].0) == before.inv_has(
                            player,
                            list@[t].0,
                        ));
                        assert(self.inv_has(player, list@[t].0) == mid.inv_has(
                            player,
                            list@[t].0,
                        ));
                    }
                }
                assert forall|i: i32| !pre.inv_has(player, i) implies !(#[trigger] self.inv_has(
                    player,
                    i,
                )) by {
                    if i != id {
                        assert(self.inv_has(player, i) == mid.inv_has(player, i));
                        assert(mid.inv_has(player, i) == before.inv_has(player, i));
                    }
                }
                assert forall|t: int|
                    m + 1 <= t < n implies #[trigger] self.inv_has(player, list@[t].0)
                    && self.inv_at(player, list@[t].0) == list@[t].1 by {
                    assert(list@[t].0 != id);
                    assert(before.inv_has(player, list@[t].0) && before.inv_at(player, list@[t].0)
                        == list@[t].1);
                    assert(mid.inv_has(player, list@[t].0) == before.inv_has(player, list@[t].0));
                    assert(mid.inv_at(player, list@[t].0) == before.inv_at(player, list@[t].0));
                    assert(self.inv_has(player, list@[t].0) == mid.inv_has(player, list@[t].0));
                    assert(self.inv_at(player, list@[t].0) == mid.inv_at(player, list@[t].0));
                }
                assert forall|y: int, x: int|
                    0 <= y < pre.dim.ys() && 0 <= x < pre.dim.xs() && !coord_in_prefix(
                        list@,
                        m + 1,
                        y,
                        x,
                    ) implies #[trigger] self.cell(y, x) == pre.cell(y, x) by {
                    if coord_in_prefix(list@, m as int, y, x) {
                        let t = choose|t: int|
                            0 <= t < m && (#[trigger] list@[t]).1.ys() == y && list@[t].1.xs()
                                == x;
                        assert(0 <= t < m + 1 && list@[t].1.ys() == y && list@[t].1.xs() == x);
                        assert(coord_in_prefix(list@, m + 1, y, x));
                    } else {
                        assert(before.cell(y, x) == pre.cell(y, x));
                        assert(!(at.ys() == y && at.xs() == x));
                        assert(mid.cell(y, x) == before.cell(y, x));
                        assert(self.cells == mid.cells);
                        assert(self.cell(y, x) == mid.cell(y, x));
                    }
                }
                assert forall|t: int| 0 <= t < m + 1 implies self.at((#[trigger] list@[t]).1)
                    == pre.blank by {
                    assert(self.cells == mid.cells);
                    if t < m && !(list@[t].1.ys() == at.ys() && list@[t].1.xs() == at.xs()) {
                        assert(before.at(list@[t].1) == pre.blank);
                        assert(mid.cell(list@[t].1.ys(), list@[t].1.xs()) == before.cell(
                            list@[t].1.ys(),
                            list@[t].1.xs(),
                        ));
                        assert(self.cell(list@[t].1.ys(), list@[t].1.xs()) == mid.cell(
                            list@[t].1.ys(),
                            list@[t].1.xs(),
                        ));
                    } else {
                        assert(mid.read(at) == pre.blank);
                        assert(mid.at(at) == pre.blank);
                        assert(self.cell(at.ys(), at.xs()) == mid.cell(at.ys(), at.xs()));
                    }
                }
            }
            m = m + 1;
        }
        proof {
            if self.inv_has_player(player) {
                let j = choose|j: int|
                    0 <= j < self.invmap@.len() && (#[trigger] self.invmap@[j]).player == player;
                let i = self.invmap@[j].id;
                assert(self.inv_has(player, i));
                if pre.inv_has(player, i) {
                    let t = choose|t: int| 0 <= t < n && (#[trigger] list@[t]).0 == i;
                    assert(!self.inv_has(player, list@[t].0));
                } else {
                    assert(!self.inv_has(player, i));
                }
            }
            assert forall|i: i32| pre.inv_has(player, i) implies self.at(
                #[trigger] pre.inv_at(player, i),
            ) == pre.blank by {
                let t = choose|t: int| 0 <= t < n && (#[trigger] list@[t]).0 == i;
                assert(self.at(list@[t].1) == pre.blank);
            }
            assert forall|y: int, x: int|
                0 <= y < pre.dim.ys() && 0 <= x < pre.dim.xs() && !(exists|i: i32|
                    #[trigger] pre.inv_has(player, i) && pre.inv_at(player, i).ys() == y
                        && pre.inv_at(player, i).xs() == x) implies #[trigger] self.cell(y, x)
                == pre.cell(y, x) by {
                if coord_in_prefix(list@, n as int, y, x) {
                    let t = choose|t: int|
                        0 <= t < n && (#[trigger] list@[t]).1.ys() == y && list@[t].1.xs() == x;
                    assert(pre.inv_has(player, list@[t].0) && pre.inv_at(player, list@[t].0).ys()
                        == y && pre.inv_at(player, list@[t].0).xs() == x);
                }
            }
        }
    }
}

/// Wrap-around round trip: reading any coordinate that normalizes to the
/// cell just written returns the written value, also for coordinates far
/// outside the grid rectangle.
pub proof fn lemma_get_after_set<T: Copy>(m0: MapGeneric<T>, m1: MapGeneric<T>, c: Coord, q: Coord, v: T)
    requires
        m0.wf(),
        m1.wf(),
        m1.dim == m0.dim,
        m1.read(c) == v,
        forall|y: int, x: int|
            0 <= y < m0.dim.ys() && 0 <= x < m0.dim.xs() && !(y == c.norm_spec(m0.dim).ys() && x
                == c.norm_spec(m0.dim).xs()) ==> #[trigger] m1.cell(y, x) == m0.cell(y, x),
        q.norm_spec(m0.dim) == c.norm_spec(m0.dim),
    ensures
        m1.read(q) == v,
{
}

/// Two grids with the same reverse index agree on every index query.
pub proof fn lemma_inv_preserved<T: Copy>(a: MapGeneric<T>, b: MapGeneric<T>)
    requires
        a.wf(),
        b.invmap == a.invmap,
    ensures
        forall|p: usize, i: i32| #[trigger] b.inv_has(p, i) == a.inv_has(p, i),
        forall|p: usize, i: i32|
            a.inv_has(p, i) ==> #[trigger] b.inv_at(p, i) == a.inv_at(p, i),
{
    assert forall|p: usize, i: i32| #[trigger] b.inv_has(p, i) == a.inv_has(p, i) by {
        if a.inv_has(p, i) {
            let j = a.inv_idx(p, i);
            assert(entry_for(b.invmap@[j], p, i));
            assert(b.inv_has(p, i));
        }
        if b.inv_has(p, i) {
            let j = b.inv_idx(p, i);
            assert(entry_for(a.invmap@[j], p, i));
            assert(a.inv_has(p, i));
        }
    }
    assert forall|p: usize, i: i32| a.inv_has(p, i) implies #[trigger] b.inv_at(p, i) == a.inv_at(
        p,
        i,
    ) by {
        let ja = a.inv_idx(p, i);
        assert(entry_for(b.invmap@[ja], p, i));
        assert(b.inv_has(p, i));
        let jb = b.inv_idx(p, i);
        assert(entry_for(a.invmap@[jb], p, i));
        assert(ja == jb);
    }
}

/// A coordinate already inside the grid rectangle is its own normalization.
pub proof fn lemma_norm_identity(c: Coord, bound: Coord)
    requires
        valid_bound(bound),
        c.normed(bound),
    ensures
        c.norm_spec(bound) == c,
{
    vstd::arithmetic::div_mod::lemma_fundamental_div_mod_converse_mod(
        c.ys(),
        bound.ys(),
        0,
        c.ys(),
    );
    vstd::arithmetic::div_mod::lemma_fundamental_div_mod_converse_mod(
        c.xs(),
        bound.xs(),
        0,
        c.xs(),
    );
}

/// After removing index `j`, which held (player, id), the index no longer has
/// that pair and every other pair is untouched.
proof fn lemma_remove_entry<T: Copy>(
    pre: MapGeneric<T>,
    post: MapGeneric<T>,
    j: int,
    player: usize,
    id: i32,
)
    requires
        pre.wf(),
        0 <= j < pre.invmap@.len(),
        entry_for(pre.invmap@[j], player, id),
        post.invmap@ == pre.invmap@.remove(j),
        post.cells == pre.cells,
        post.dim == pre.dim,
        post.blank == pre.blank,
    ensures
        post.wf(),
        !post.inv_has(player, id),
        post.invmap@.len() == pre.invmap@.len() - 1,
        forall|p: usize, i: i32|
            !(p == player && i == id) ==> #[trigger] post.inv_has(p, i) == pre.inv_has(p, i),
        forall|p: usize, i: i32|
            !(p == player && i == id) && pre.inv_has(p, i) ==> #[trigger] post.inv_at(p, i)
                == pre.inv_at(p, i),
{
    pre.invmap@.remove_ensures(j);
    assert forall|p: usize, i: i32| !(p == player && i == id) && pre.inv_has(p, i) implies
        #[trigger] post.inv_has(p, i) by {
        let k = pre.inv_idx(p, i);
        if k < j {
            assert(post.invmap@[k] == pre.invmap@[k]);
        } else {
            assert(k != j);
            assert(post.invmap@[k - 1] == pre.invmap@[k]);
        }
    }
    assert forall|p: usize, i: i32| post.inv_has(p, i) implies !(p == player && i == id)
        && pre.inv_has(p, i) by {
        let k = post.inv_idx(p, i);
        if k < j {
            assert(pre.invmap@[k] == post.invmap@[k]);
        } else {
            assert(pre.invmap@[k + 1] == post.invmap@[k]);
        }
    }
    assert forall|p: usize, i: i32| !(p == player && i == id) && pre.inv_has(p, i) implies
        #[trigger] post.inv_at(p, i) == pre.inv_at(p, i) by {
        assert(post.inv_has(p, i));
        let k = post.inv_idx(p, i);
        let k0 = pre.inv_idx(p, i);
        if k < j {
            assert(pre.invmap@[k] == post.invmap@[k]);
            assert(k0 == k);
        } else {
            assert(pre.invmap@[k + 1] == post.invmap@[k]);
            assert(k0 == k + 1);
        }
    }
}

/// After rewriting the cell of record `j`, which held (player, id), only that
/// pair's recorded cell changes.
proof fn lemma_update_entry<T: Copy>(
    pre: MapGeneric<T>,
    post: MapGeneric<T>,
    j: int,
    player: usize,
    id: i32,
)
    requires
        pre.wf(),
        0 <= j < pre.invmap@.len(),
        entry_for(pre.invmap@[j], player, id),
        entry_for(post.invmap@[j], player, id),
        post.invmap@[j].at.normed(pre.dim),
        post.invmap@ == pre.invmap@.update(j, post.invmap@[j]),
        post.cells == pre.cells,
        post.dim == pre.dim,
        post.blank == pre.blank,
    ensures
        post.wf(),
        post.inv_has(player, id),
        post.inv_at(player, id) == post.invmap@[j].at,
        forall|p: usize, i: i32|
            !(p == player && i == id) ==> #[trigger] post.inv_has(p, i) == pre.inv_has(p, i),
        forall|p: usize, i: i32|
            !(p == player && i == id) && pre.inv_has(p, i) ==> #[trigger] post.inv_at(p, i)
                == pre.inv_at(p, i),
{
    assert(post.inv_has(player, id));
    assert(post.inv_idx(player, id) == j);
    assert forall|p: usize, i: i32| !(p == player && i == id) implies #[trigger] post.inv_has(p, i)
        == pre.inv_has(p, i) by {
        if pre.inv_has(p, i) {
            let k = pre.inv_idx(p, i);
            assert(k != j);
            assert(post.invmap@[k] == pre.invmap@[k]);
        }
        if post.inv_has(p, i) {
            let k = post.inv_idx(p, i);
            assert(k != j);
            assert(pre.invmap@[k] == post.invmap@[k]);
        }
    }
    assert forall|p: usize, i: i32| !(p == player && i == id) && pre.inv_has(p, i) implies
        #[trigger] post.inv_at(p, i) == pre.inv_at(p, i) by {
        let k = pre.inv_idx(p, i);
        assert(k != j);
        assert(post.invmap@[k] == pre.invmap@[k]);
        assert(post.inv_idx(p, i) == k);
    }
}

/// After appending a record for (player, id), which the index did not hold,
/// only that pair is new.
proof fn lemma_push_entry<T: Copy>(pre: MapGeneric<T>, post: MapGeneric<T>, player: usize, id: i32)
    requires
        pre.wf(),
        !pre.inv_has(player, id),
        post.invmap@.len() == pre.invmap@.len() + 1,
        post.invmap@ == pre.invmap@.push(post.invmap@.last()),
        entry_for(post.invmap@.last(), player, id),
        post.invmap@.last().at.normed(pre.dim),
        post.cells == pre.cells,
        post.dim == pre.dim,
        post.blank == pre.blank,
    ensures
        post.wf(),
        post.inv_has(player, id),
        post.inv_at(player, id) == post.invmap@.last().at,
        forall|p: usize, i: i32|
            !(p == player && i == id) ==> #[trigger] post.inv_has(p, i) == pre.inv_has(p, i),
        forall|p: usize, i: i32|
            !(p == player && i == id) && pre.inv_has(p, i) ==> #[trigger] post.inv_at(p, i)
                == pre.inv_at(p, i),
{
    let n = pre.invmap@.len() as int;
    assert forall|j: int, k: int|
        0 <= j < post.invmap@.len() && 0 <= k < post.invmap@.len() && j != k implies !(
    (#[trigger] post.invmap@[j]).player == (#[trigger] post.invmap@[k]).player && post.invmap@[j].id
        == post.invmap@[k].id) by {
        if j < n && k < n {
            assert(post.invmap@[j] == pre.invmap@[j]);
            assert(post.invmap@[k] == pre.invmap@[k]);
        } else if j == n {
            assert(post.invmap@[k] == pre.invmap@[k]);
            if post.invmap@[k].player == player && post.invmap@[k].id == id {
                assert(entry_for(pre.invmap@[k], player, id));
                assert(pre.inv_has(player, id));
            }
        } else {
            assert(post.invmap@[j] == pre.invmap@[j]);
            if post.invmap@[j].player == player && post.invmap@[j].id == id {
                assert(entry_for(pre.invmap@[j], player, id));
                assert(pre.inv_has(player, id));
            }
        }
    }
    assert(entry_for(post.invmap@[n], player, id));
    assert(post.inv_has(player, id));
    assert(post.inv_idx(player, id) == n);
    assert forall|p: usize, i: i32| !(p == player && i == id) implies #[trigger] post.inv_has(p, i)
        == pre.inv_has(p, i) by {
        if pre.inv_has(p, i) {
            let k = pre.inv_idx(p, i);
            assert(post.invmap@[k] == pre.invmap@[k]);
        }
        if post.inv_has(p, i) {
            let k = post.inv_idx(p, i);
            assert(k != n);
            assert(pre.invmap@[k] == post.invmap@[k]);
        }
    }
    assert forall|p: usize, i: i32| !(p == player && i == id) && pre.inv_has(p, i) implies
        #[trigger] post.inv_at(p, i) == pre.inv_at(p, i) by {
        let k = pre.inv_idx(p, i);
        assert(post.invmap@[k] == pre.invmap@[k]);
        assert(post.inv_idx(p, i) == k);
    }
}

} // verus!
