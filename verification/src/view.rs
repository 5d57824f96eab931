//! The mathematical model of a maze: a ghost view of the grid, the
//! well-formedness invariant (single root, spanning tree, walls matching tree
//! edges, open-wall count), and the step function on views.

use vstd::prelude::*;
use crate::count::count_open;
use crate::dir::Dir;

verus! {

/// Row-major flat index of the entry at column `x`, row `y`, in an array whose
/// rows hold `w` entries each.
pub open spec fn flat(w: int, x: int, y: int) -> int {
    x + y * w
}

/// The cell reached by walking one step in direction `d` from `(x, y)`.
pub open spec fn neighbor(x: int, y: int, d: Dir) -> (int, int) {
    match d {
        Dir::Up => (x, y - 1),
        Dir::Down => (x, y + 1),
        Dir::Left => (x - 1, y),
        Dir::Right => (x + 1, y),
    }
}

/// The abstract state of a maze.
///
/// `tiles[flat(width, x, y)]` is the parent pointer of cell `(x, y)`: `None`
/// for the root, `Some(d)` for a cell whose parent lies one step in direction
/// `d`. `horz[flat(width, x, y)]` is `true` when the wall between `(x, y)` and
/// `(x, y + 1)` is closed; `vert[flat(width - 1, x, y)]` likewise for the wall
/// between `(x, y)` and `(x + 1, y)`.
#[verifier::ext_equal]
pub ghost struct MazeView {
    pub width: int,
    pub height: int,
    pub root_x: int,
    pub root_y: int,
    pub tiles: Seq<Option<Dir>>,
    pub horz: Seq<bool>,
    pub vert: Seq<bool>,
}

impl MazeView {
    pub open spec fn cells(self) -> int {
        self.width * self.height
    }

    pub open spec fn in_bounds(self, x: int, y: int) -> bool {
        0 <= x < self.width && 0 <= y < self.height
    }

    /// The parent pointer of cell `(x, y)`.
    pub open spec fn tile(self, x: int, y: int) -> Option<Dir> {
        self.tiles[flat(self.width, x, y)]
    }

    /// The wall between `(x, y)` and `(x, y + 1)` is open.
    pub open spec fn horz_open(self, x: int, y: int) -> bool {
        !self.horz[flat(self.width, x, y)]
    }

    /// The wall between `(x, y)` and `(x + 1, y)` is open.
    pub open spec fn vert_open(self, x: int, y: int) -> bool {
        !self.vert[flat(self.width - 1, x, y)]
    }

    pub open spec fn is_root(self, x: int, y: int) -> bool {
        x == self.root_x && y == self.root_y
    }

    /// The parent cell of `(x, y)`; the root maps to itself.
    pub open spec fn parent_of(self, x: int, y: int) -> (int, int) {
        match self.tile(x, y) {
            Some(Dir::Up) => (x, y - 1),
            Some(Dir::Down) => (x, y + 1),
            Some(Dir::Left) => (x - 1, y),
            Some(Dir::Right) => (x + 1, y),
            None => (x, y),
        }
    }

    /// Moving the root one step in direction `d` stays on the grid.
    pub open spec fn valid_move(self, d: Dir) -> bool {
        match d {
            Dir::Up => 1 <= self.root_y,
            Dir::Down => self.root_y < self.height - 1,
            Dir::Left => 1 <= self.root_x,
            Dir::Right => self.root_x < self.width - 1,
        }
    }

    pub open spec fn shape_ok(self) -> bool {
        &&& 1 <= self.width
        &&& 1 <= self.height
        &&& self.width * self.height <= u32::MAX as int
        &&& self.tiles.len() == self.width * self.height
        &&& self.horz.len() == self.width * (self.height - 1)
        &&& self.vert.len() == (self.width - 1) * self.height
        &&& self.in_bounds(self.root_x, self.root_y)
    }

    /// Exactly the stored root cell lacks a parent pointer.
    pub open spec fn root_ok(self) -> bool {
        &&& self.tile(self.root_x, self.root_y) is None
        &&& forall|x: int, y: int|
            self.in_bounds(x, y) && !self.is_root(x, y) ==> #[trigger] self.tile(x, y) is Some
    }

    /// Every parent pointer leads to a cell on the grid.
    pub open spec fn ptr_ok(self) -> bool {
        forall|x: int, y: int|
            self.in_bounds(x, y) ==> {
                &&& (#[trigger] self.tile(x, y) == Some(Dir::Up) ==> 1 <= y)
                &&& (self.tile(x, y) == Some(Dir::Down) ==> y < self.height - 1)
                &&& (self.tile(x, y) == Some(Dir::Left) ==> 1 <= x)
                &&& (self.tile(x, y) == Some(Dir::Right) ==> x < self.width - 1)
            }
    }

    /// A wall is open exactly when one of the two cells it separates is the
    /// other's parent: the open walls are the edges of the tree.
    pub open spec fn walls_ok(self) -> bool {
        &&& forall|x: int, y: int|
            0 <= x < self.width && 0 <= y < self.height - 1 ==> (#[trigger] self.horz_open(x, y)
                <==> self.tile(x, y + 1) == Some(Dir::Up) || self.tile(x, y) == Some(Dir::Down))
        &&& forall|x: int, y: int|
            0 <= x < self.width - 1 && 0 <= y < self.height ==> (#[trigger] self.vert_open(x, y)
                <==> self.tile(x + 1, y) == Some(Dir::Left) || self.tile(x, y) == Some(Dir::Right))
    }

    /// `dm` strictly decreases from every non-root cell toward its parent.
    /// Such a map witnesses that following parent pointers never cycles.
    pub open spec fn depth_ok(self, dm: Map<(int, int), nat>) -> bool {
        forall|x: int, y: int|
            self.in_bounds(x, y) && !self.is_root(x, y) ==> dm[#[trigger] self.parent_of(x, y)]
                < dm[(x, y)]
    }

    pub open spec fn acyclic(self) -> bool {
        exists|dm: Map<(int, int), nat>| self.depth_ok(dm)
    }

    /// The open walls number one fewer than the cells, as a spanning tree's
    /// edges must.
    pub open spec fn count_ok(self) -> bool {
        count_open(self.horz) + count_open(self.vert) == self.cells() - 1
    }

    /// The maze invariant: the parent pointers form a tree rooted at the
    /// stored root spanning every cell, and the open walls are its edges.
    pub open spec fn wf(self) -> bool {
        &&& self.shape_ok()
        &&& self.root_ok()
        &&& self.ptr_ok()
        &&& self.walls_ok()
        &&& self.acyclic()
        &&& self.count_ok()
    }

    /// The cell reached from `(x, y)` after following parent pointers `k`
    /// times; once the root is reached the walk stays there.
    pub open spec fn chain(self, x: int, y: int, k: nat) -> (int, int)
        decreases k,
    {
        if k == 0 {
            (x, y)
        } else {
            let p = self.parent_of(x, y);
            self.chain(p.0, p.1, (k - 1) as nat)
        }
    }
}

/// The parent pointer of cell `(x, y)` in the initial comb-shaped tree: the
/// root sits at the origin, the rest of column 0 points up, and every other
/// cell points left along its row.
pub open spec fn comb_tile(x: int, y: int) -> Option<Dir> {
    if x == 0 && y == 0 {
        None
    } else if x == 0 {
        Some(Dir::Up)
    } else {
        Some(Dir::Left)
    }
}

/// `v` is the comb-shaped initial state of a `w` by `h` maze: all vertical
/// walls open, horizontal walls open only in column 0, root at the origin.
pub open spec fn is_comb(v: MazeView, w: int, h: int) -> bool {
    &&& v.width == w
    &&& v.height == h
    &&& v.root_x == 0
    &&& v.root_y == 0
    &&& v.shape_ok()
    &&& forall|x: int, y: int| v.in_bounds(x, y) ==> #[trigger] v.tile(x, y) == comb_tile(x, y)
    &&& forall|x: int, y: int|
        0 <= x < w && 0 <= y < h - 1 ==> (#[trigger] v.horz_open(x, y) <==> x == 0)
    &&& forall|x: int, y: int| 0 <= x < w - 1 && 0 <= y < h ==> #[trigger] v.vert_open(x, y)
}

/// The state after one step of the root in direction `d`: the wall toward the
/// new root opens, the new root's stale parent edge closes unless the walk
/// retraced that same edge, the old root's pointer reverses, and the new root
/// drops its pointer.
pub open spec fn spec_step(v: MazeView, d: Dir) -> MazeView {
    let n = neighbor(v.root_x, v.root_y, d);
    let nx = n.0;
    let ny = n.1;
    let p = v.tile(nx, ny);
    let horz1 = match d {
        Dir::Up => v.horz.update(flat(v.width, nx, ny), false),
        Dir::Down => v.horz.update(flat(v.width, v.root_x, v.root_y), false),
        _ => v.horz,
    };
    let vert1 = match d {
        Dir::Left => v.vert.update(flat(v.width - 1, nx, ny), false),
        Dir::Right => v.vert.update(flat(v.width - 1, v.root_x, v.root_y), false),
        _ => v.vert,
    };
    let horz2 = if p == Some(d.opposite()) {
        horz1
    } else {
        match p {
            Some(Dir::Up) => horz1.update(flat(v.width, nx, ny - 1), true),
            Some(Dir::Down) => horz1.update(flat(v.width, nx, ny), true),
            _ => horz1,
        }
    };
    let vert2 = if p == Some(d.opposite()) {
        vert1
    } else {
        match p {
            Some(Dir::Left) => vert1.update(flat(v.width - 1, nx - 1, ny), true),
            Some(Dir::Right) => vert1.update(flat(v.width - 1, nx, ny), true),
            _ => vert1,
        }
    };
    MazeView {
        width: v.width,
        height: v.height,
        root_x: nx,
        root_y: ny,
        tiles: v.tiles.update(flat(v.width, v.root_x, v.root_y), Some(d)).update(
            flat(v.width, nx, ny),
            None,
        ),
        horz: horz2,
        vert: vert2,
    }
}

/// The state after the root walks the whole direction sequence `ds`.
pub open spec fn spec_steps(v: MazeView, ds: Seq<Dir>) -> MazeView
    decreases ds.len(),
{
    if ds.len() == 0 {
        v
    } else {
        spec_steps(spec_step(v, ds[0]), ds.drop_first())
    }
}

/// Every move of the direction sequence `ds` stays on the grid.
pub open spec fn valid_steps(v: MazeView, ds: Seq<Dir>) -> bool
    decreases ds.len(),
{
    ds.len() == 0 || (v.valid_move(ds[0]) && valid_steps(spec_step(v, ds[0]), ds.drop_first()))
}

/// Flat indices of grid entries lie below the array length.
pub proof fn lemma_flat_bounds(w: int, h: int)
    requires
        1 <= w,
    ensures
        forall|x: int, y: int| 0 <= x < w && 0 <= y < h ==> 0 <= #[trigger] flat(w, x, y) < w * h,
{
    assert forall|x: int, y: int| 0 <= x < w && 0 <= y < h implies 0 <= #[trigger] flat(w, x, y)
        < w * h by {
        assert(0 <= x + y * w < w * h) by (nonlinear_arith)
            requires
                0 <= x < w,
                0 <= y < h,
        ;
    }
}

/// Flat indices grow along the row-major order of grid entries.
pub proof fn lemma_flat_mono(w: int, x: int, y: int)
    requires
        1 <= w,
        0 <= x,
        0 <= y,
    ensures
        forall|x2: int, y2: int|
            0 <= x2 < w && 0 <= y2 && (y2 < y || (y2 == y && x2 < x)) ==> #[trigger] flat(
                w,
                x2,
                y2,
            ) < flat(w, x, y),
{
    assert forall|x2: int, y2: int|
        0 <= x2 < w && 0 <= y2 && (y2 < y || (y2 == y && x2 < x)) implies #[trigger] flat(w, x2, y2)
        < flat(w, x, y) by {
        assert(x2 + y2 * w < x + y * w) by (nonlinear_arith)
            requires
                1 <= w,
                0 <= x,
                0 <= x2 < w,
                0 <= y2,
                y2 < y || (y2 == y && x2 < x),
        ;
    }
}

/// Distinct grid entries have distinct flat indices.
pub proof fn lemma_flat_inj(w: int)
    requires
        1 <= w,
    ensures
        forall|x1: int, y1: int, x2: int, y2: int|
            0 <= x1 < w && 0 <= x2 < w && 0 <= y1 && 0 <= y2 && #[trigger] flat(w, x1, y1)
                == #[trigger] flat(w, x2, y2) ==> x1 == x2 && y1 == y2,
{
    assert forall|x1: int, y1: int, x2: int, y2: int|
        0 <= x1 < w && 0 <= x2 < w && 0 <= y1 && 0 <= y2 && #[trigger] flat(w, x1, y1)
            == #[trigger] flat(w, x2, y2) implies x1 == x2 && y1 == y2 by {
        assert(x1 == x2 && y1 == y2) by (nonlinear_arith)
            requires
                0 <= x1 < w,
                0 <= x2 < w,
                0 <= y1,
                0 <= y2,
                x1 + y1 * w == x2 + y2 * w,
        ;
    }
}

} // verus!
