//! The executable maze: construction of the comb-shaped initial state and the
//! read-only wall and root queries.

use vstd::prelude::*;
use vstd::pervasive::VecAdditionalExecFns;
use crate::dir::{Dir, MazeError};
use crate::view::{
    MazeView, comb_tile, flat, is_comb, lemma_flat_bounds, lemma_flat_mono, neighbor, spec_step,
    spec_steps, valid_steps,
};
use crate::count::{count_open, lemma_count_open_push};

verus! {

/// A perfect maze: a rectangular grid of cells whose parent pointers form a
/// spanning tree, with one wall flag per pair of adjacent cells. The open
/// walls are always exactly the tree's edges.
pub struct Maze {
    width: u32,
    height: u32,
    origin: (u32, u32),
    tiles: Vec<Option<Dir>>,
    horz_walls: Vec<bool>,
    vert_walls: Vec<bool>,
}

impl View for Maze {
    type V = MazeView;

    closed spec fn view(&self) -> MazeView {
        MazeView {
            width: self.width as int,
            height: self.height as int,
            root_x: self.origin.0 as int,
            root_y: self.origin.1 as int,
            tiles: self.tiles@,
            horz: self.horz_walls@,
            vert: self.vert_walls@,
        }
    }
}

/// Row-major index into an array whose rows hold `w` entries each.
fn flat_index(w: u32, x: u32, y: u32) -> (i: usize)
    requires
        x < w,
        flat(w as int, x as int, y as int) <= u32::MAX as int,
    ensures
        i as int == flat(w as int, x as int, y as int),
{
    proof {
        assert(0 <= (y as int) * (w as int)) by (nonlinear_arith)
            requires
                0 <= y as int,
                0 <= w as int,
        ;
    }
    (x as usize) + (y as usize) * (w as usize)
}

impl Maze {
    /// Builds a fresh maze with the comb-shaped initial tree: the root at the
    /// origin, the rest of column 0 pointing up, every other cell pointing
    /// left. Fails exactly when a dimension is zero.
    pub fn new(width: u32, height: u32) -> (r: Result<Maze, MazeError>)
        requires
            width as int * height as int <= u32::MAX as int,
        ensures
            r is Err <==> (width == 0 || height == 0),
            r is Err ==> r == Err::<Maze, MazeError>(MazeError::InvalidDimension),
            r matches Ok(m) ==> is_comb(m@, width as int, height as int) && m@.wf(),
    {
        if width == 0 || height == 0 {
            return Err(MazeError::InvalidDimension);
        }
        let ghost w = width as int;
        let ghost h = height as int;

        let mut tiles: Vec<Option<Dir>> = Vec::new();
        let mut y: u32 = 0;
        while y < height
            invariant
                1 <= w,
                1 <= h,
                w * h <= u32::MAX as int,
                w == width as int,
                h == height as int,
                y <= height,
                tiles@.len() == flat(w, 0, y as int),
                forall|x2: int, y2: int|
                    0 <= x2 < w && 0 <= y2 < y as int ==> tiles@[#[trigger] flat(w, x2, y2)]
                        == comb_tile(x2, y2),
            decreases h - y as int,
        {
            let mut x: u32 = 0;
            while x < width
                invariant
                    1 <= w,
                    1 <= h,
                    w * h <= u32::MAX as int,
                    w == width as int,
                    h == height as int,
                    x <= width,
                    y < height,
                    tiles@.len() == flat(w, x as int, y as int),
                    forall|x2: int, y2: int|
                        0 <= x2 < w && 0 <= y2 && (y2 < y as int || (y2 == y as int && x2
                            < x as int)) ==> tiles@[#[trigger] flat(w, x2, y2)] == comb_tile(
                            x2,
                            y2,
                        ),
                decreases w - x as int,
            {
                let t = if x == 0 && y == 0 {
                    None
                } else if x == 0 {
                    Some(Dir::Up)
                } else {
                    Some(Dir::Left)
                };
                proof {
                    lemma_flat_mono(w, x as int, y as int);
                }
                tiles.push(t);
                x = x + 1;
            }
            proof {
                assert(w + (y as int) * w == (y as int + 1) * w) by (nonlinear_arith);
            }
            y = y + 1;
        }

        let mut horz_walls: Vec<bool> = Vec::new();
        let mut y: u32 = 0;
        while y + 1 < height
            invariant
                1 <= w,
                1 <= h,
                w * h <= u32::MAX as int,
                w == width as int,
                h == height as int,
                (y as int) <= h - 1,
                horz_walls@.len() == flat(w, 0, y as int),
                count_open(horz_walls@) == y as int,
                forall|x2: int, y2: int|
                    0 <= x2 < w && 0 <= y2 < y as int ==> horz_walls@[#[trigger] flat(w, x2, y2)]
                        == (x2 != 0),
            decreases h - 1 - y as int,
        {
            let mut x: u32 = 0;
            while x < width
                invariant
                    1 <= w,
                    1 <= h,
                    w * h <= u32::MAX as int,
                    w == width as int,
                    h == height as int,
                    x <= width,
                    (y as int) < h - 1,
                    horz_walls@.len() == flat(w, x as int, y as int),
                    count_open(horz_walls@) == y as int + (if x >= 1 {
                        1int
                    } else {
                        0int
                    }),
                    forall|x2: int, y2: int|
                        0 <= x2 < w && 0 <= y2 && (y2 < y as int || (y2 == y as int && x2
                            < x as int)) ==> horz_walls@[#[trigger] flat(w, x2, y2)] == (x2 != 0),
                decreases w - x as int,
            {
                proof {
                    lemma_flat_mono(w, x as int, y as int);
                    lemma_count_open_push(horz_walls@, x != 0);
                }
                horz_walls.push(x != 0);
                x = x + 1;
            }
            proof {
                assert(w + (y as int) * w == (y as int + 1) * w) by (nonlinear_arith);
            }
            y = y + 1;
        }

        let mut vert_walls: Vec<bool> = Vec::new();
        let mut y: u32 = 0;
        while y < height
            invariant
                1 <= w,
                1 <= h,
                w * h <= u32::MAX as int,
                w == width as int,
                h == height as int,
                y <= height,
                vert_walls@.len() == flat(w - 1, 0, y as int),
                count_open(vert_walls@) == (y as int) * (w - 1),
                forall|x2: int, y2: int|
                    0 <= x2 < w - 1 && 0 <= y2 < y as int ==> vert_walls@[#[trigger] flat(
                        w - 1,
                        x2,
                        y2,
                    )] == false,
            decreases h - y as int,
        {
            let mut x: u32 = 0;
            while x + 1 < width
                invariant
                    1 <= w,
                    1 <= h,
                    w * h <= u32::MAX as int,
                    w == width as int,
                    h == height as int,
                    (x as int) <= w - 1,
                    y < height,
                    vert_walls@.len() == flat(w - 1, x as int, y as int),
                    count_open(vert_walls@) == (y as int) * (w - 1) + x as int,
                    forall|x2: int, y2: int|
                        0 <= x2 < w - 1 && 0 <= y2 && (y2 < y as int || (y2 == y as int && x2
                            < x as int)) ==> vert_walls@[#[trigger] flat(w - 1, x2, y2)] == false,
                decreases w - 1 - x as int,
            {
                proof {
                    lemma_flat_mono(w - 1, x as int, y as int);
                    lemma_count_open_push(vert_walls@, false);
                }
                vert_walls.push(false);
                x = x + 1;
            }
            proof {
                assert((w - 1) + (y as int) * (w - 1) == (y as int + 1) * (w - 1))
                    by (nonlinear_arith);
                assert((y as int) * (w - 1) + (w - 1) == (y as int + 1) * (w - 1))
                    by (nonlinear_arith);
            }
            y = y + 1;
        }

        let m = Maze { width, height, origin: (0, 0), tiles, horz_walls, vert_walls };
        proof {
            assert(m@.tiles.len() == w * h) by (nonlinear_arith)
                requires
                    m@.tiles.len() == flat(w, 0, h),
            ;
            assert(m@.horz.len() == w * (h - 1)) by (nonlinear_arith)
                requires
                    m@.horz.len() == flat(w, 0, h - 1),
            ;
            assert(m@.vert.len() == (w - 1) * h) by (nonlinear_arith)
                requires
                    m@.vert.len() == flat(w - 1, 0, h),
            ;
            assert(count_open(m@.vert) == (w - 1) * h) by (nonlinear_arith)
                requires
                    count_open(m@.vert) == h * (w - 1),
            ;
            assert(m@.shape_ok());
            assert forall|x: int, y2: int| m@.in_bounds(x, y2) implies #[trigger] m@.tile(x, y2)
                == comb_tile(x, y2) by {
                assert(m@.tiles[flat(w, x, y2)] == comb_tile(x, y2));
            }
            assert forall|x: int, y2: int| 0 <= x < w && 0 <= y2 < h - 1 implies (
            #[trigger] m@.horz_open(x, y2) <==> x == 0) by {
                assert(m@.horz[flat(w, x, y2)] == (x != 0));
            }
            assert forall|x: int, y2: int| 0 <= x < w - 1 && 0 <= y2 < h implies #[trigger] m@
                .vert_open(x, y2) by {
                assert(m@.vert[flat(w - 1, x, y2)] == false);
            }
            assert(is_comb(m@, w, h));
            crate::laws::lemma_comb_wf(m@, w, h);
        }
        Ok(m)
    }

    /// Moves the root to its neighbour in direction `d`: the traversed wall
    /// opens, the neighbour's stale parent edge closes unless the walk
    /// retraced that very edge, the old root's pointer reverses, and the
    /// neighbour becomes the root.
    pub fn step_in_dir(&mut self, d: Dir)
        requires
            old(self)@.wf(),
            old(self)@.valid_move(d),
        ensures
            final(self)@ == spec_step(old(self)@, d),
            final(self)@.wf(),
    {
        let ghost v = self@;
        proof {
            crate::laws::lemma_step_preserves_wf(v, d);
            lemma_flat_bounds(v.width, v.height);
            lemma_flat_bounds(v.width, v.height - 1);
            if 2 <= v.width {
                lemma_flat_bounds(v.width - 1, v.height);
            }
            assert(v.width * (v.height - 1) <= v.width * v.height) by (nonlinear_arith)
                requires
                    1 <= v.width,
                    1 <= v.height,
            ;
            assert((v.width - 1) * v.height <= v.width * v.height) by (nonlinear_arith)
                requires
                    1 <= v.width,
                    1 <= v.height,
            ;
        }
        let rx = self.origin.0;
        let ry = self.origin.1;
        let (nx, ny) = match d {
            Dir::Up => (rx, ry - 1),
            Dir::Down => (rx, ry + 1),
            Dir::Left => (rx - 1, ry),
            Dir::Right => (rx + 1, ry),
        };
        proof {
            assert((nx as int, ny as int) == neighbor(v.root_x, v.root_y, d));
            assert(v.in_bounds(nx as int, ny as int));
            assert(v.tile(nx as int, ny as int) is Some);
        }
        match d {
            Dir::Up => {
                let i = flat_index(self.width, nx, ny);
                self.horz_walls.set(i, false);
            },
            Dir::Down => {
                let i = flat_index(self.width, rx, ry);
                self.horz_walls.set(i, false);
            },
            Dir::Left => {
                let i = flat_index(self.width - 1, nx, ny);
                self.vert_walls.set(i, false);
            },
            Dir::Right => {
                let i = flat_index(self.width - 1, rx, ry);
                self.vert_walls.set(i, false);
            },
        }
        let ti = flat_index(self.width, nx, ny);
        let p = self.tiles[ti];
        let pd = match p {
            Some(dd) => dd,
            None => {
                proof {
                    assert(false);
                }
                d
            },
        };
        match (d, pd) {
            (Dir::Down, Dir::Up) => {},
            (_, Dir::Up) => {
                let i = flat_index(self.width, nx, ny - 1);
                self.horz_walls.set(i, true);
            },
            (Dir::Up, Dir::Down) => {},
            (_, Dir::Down) => {
                let i = flat_index(self.width, nx, ny);
                self.horz_walls.set(i, true);
            },
            (Dir::Right, Dir::Left) => {},
            (_, Dir::Left) => {
                let i = flat_index(self.width - 1, nx - 1, ny);
                self.vert_walls.set(i, true);
            },
            (Dir::Left, Dir::Right) => {},
            (_, Dir::Right) => {
                let i = flat_index(self.width - 1, nx, ny);
                self.vert_walls.set(i, true);
            },
        }
        let oi = flat_index(self.width, rx, ry);
        self.tiles.set(oi, Some(d));
        let ti2 = flat_index(self.width, nx, ny);
        self.tiles.set(ti2, None);
        self.origin = (nx, ny);
        proof {
            assert(self@ =~= spec_step(v, d));
        }
    }

    /// Moves the root to a uniformly chosen valid neighbour. The direction is
    /// drawn by rejection sampling with a retry cap; after the cap, the first
    /// valid direction serves as fallback, so the call always returns. Fails
    /// exactly on a single-cell grid, where no move exists.
    pub fn step(&mut self, rng: &mut rand::rngs::StdRng) -> (r: Result<(), MazeError>)
        requires
            old(self)@.wf(),
        ensures
            final(self)@.wf(),
            final(self)@.width == old(self)@.width,
            final(self)@.height == old(self)@.height,
            old(self)@.cells() == 1 ==> r == Err::<(), MazeError>(MazeError::DegenerateGrid)
                && final(self)@ == old(self)@,
            2 <= old(self)@.cells() ==> r is Ok && exists|d: Dir|
                old(self)@.valid_move(d) && final(self)@ == spec_step(old(self)@, d),
    {
        if self.width == 1 && self.height == 1 {
            return Err(MazeError::DegenerateGrid);
        }
        proof {
            assert(2 <= self@.cells()) by (nonlinear_arith)
                requires
                    1 <= self@.width,
                    1 <= self@.height,
                    !(self@.width == 1 && self@.height == 1),
            ;
        }
        let ghost v0 = self@;
        let mut tries: u32 = 0;
        while tries < 64
            invariant
                self@ == v0,
                old(self)@ == v0,
                v0.wf(),
                2 <= v0.cells(),
            decreases 64 - tries,
        {
            let idx = crate::rng::random_direction_index(rng);
            let d = if idx == 0 {
                Dir::Up
            } else if idx == 1 {
                Dir::Down
            } else if idx == 2 {
                Dir::Left
            } else {
                Dir::Right
            };
            let valid = match d {
                Dir::Up => self.origin.1 >= 1,
                Dir::Down => self.origin.1 + 1 < self.height,
                Dir::Left => self.origin.0 >= 1,
                Dir::Right => self.origin.0 + 1 < self.width,
            };
            if valid {
                self.step_in_dir(d);
                return Ok(());
            }
            tries = tries + 1;
        }
        let d = if self.height >= 2 {
            if self.origin.1 >= 1 {
                Dir::Up
            } else {
                Dir::Down
            }
        } else {
            proof {
                assert(2 <= self@.width) by (nonlinear_arith)
                    requires
                        1 <= self@.width,
                        self@.height == 1,
                        2 <= self@.width * self@.height,
                ;
            }
            if self.origin.0 >= 1 {
                Dir::Left
            } else {
                Dir::Right
            }
        };
        self.step_in_dir(d);
        Ok(())
    }

    /// Mixes the maze thoroughly: steps the root `width * height * 10` times.
    /// Fails exactly on a single-cell grid, which it leaves unchanged.
    pub fn init(&mut self, rng: &mut rand::rngs::StdRng) -> (r: Result<(), MazeError>)
        requires
            old(self)@.wf(),
        ensures
            final(self)@.wf(),
            final(self)@.width == old(self)@.width,
            final(self)@.height == old(self)@.height,
            old(self)@.cells() == 1 ==> r == Err::<(), MazeError>(MazeError::DegenerateGrid)
                && final(self)@ == old(self)@,
            2 <= old(self)@.cells() ==> r is Ok && exists|ds: Seq<Dir>|
                valid_steps(old(self)@, ds) && ds.len() == old(self)@.cells() * 10
                    && final(self)@ == spec_steps(old(self)@, ds),
    {
        if self.width == 1 && self.height == 1 {
            return Err(MazeError::DegenerateGrid);
        }
        proof {
            assert(2 <= self@.cells()) by (nonlinear_arith)
                requires
                    1 <= self@.width,
                    1 <= self@.height,
                    !(self@.width == 1 && self@.height == 1),
            ;
        }
        let ghost v0 = self@;
        let total: u64 = (self.width as u64) * (self.height as u64) * 10;
        let mut i: u64 = 0;
        let ghost mut ds: Seq<Dir> = Seq::empty();
        while i < total
            invariant
                old(self)@ == v0,
                self@.wf(),
                self@.width == v0.width,
                self@.height == v0.height,
                v0.wf(),
                2 <= v0.cells(),
                total == v0.cells() * 10,
                i <= total,
                ds.len() == i as int,
                valid_steps(v0, ds),
                spec_steps(v0, ds) == self@,
            decreases total - i,
        {
            let ghost prev = self@;
            match self.step(rng) {
                Ok(()) => {},
                Err(e) => {
                    proof {
                        assert(false);
                    }
                    return Err(e);
                },
            }
            proof {
                let d = choose|d: Dir| prev.valid_move(d) && self@ == spec_step(prev, d);
                crate::laws::lemma_steps_snoc(v0, ds, d);
                ds = ds.push(d);
            }
            i = i + 1;
        }
        proof {
            assert(valid_steps(v0, ds) && ds.len() == v0.cells() * 10 && self@ == spec_steps(
                v0,
                ds,
            ));
        }
        Ok(())
    }

    /// The coordinate of the current root cell.
    pub fn root_position(&self) -> (r: (u32, u32))
        ensures
            r.0 as int == self@.root_x,
            r.1 as int == self@.root_y,
    {
        self.origin
    }

    /// The grid's width in cells.
    pub fn width(&self) -> (r: u32)
        ensures
            r as int == self@.width,
    {
        self.width
    }

    /// The grid's height in cells.
    pub fn height(&self) -> (r: u32)
        ensures
            r as int == self@.height,
    {
        self.height
    }

    /// Whether the wall between `(x, y)` and `(x, y + 1)` is open; fails
    /// exactly when that wall does not exist.
    pub fn is_horizontal_wall_open(&self, x: u32, y: u32) -> (r: Result<bool, MazeError>)
        requires
            self@.shape_ok(),
        ensures
            (x as int) < self@.width && (y as int) < self@.height - 1 ==> r == Ok::<
                bool,
                MazeError,
            >(self@.horz_open(x as int, y as int)),
            !((x as int) < self@.width && (y as int) < self@.height - 1) ==> r == Err::<
                bool,
                MazeError,
            >(MazeError::OutOfBounds),
    {
        if x < self.width && y < self.height - 1 {
            proof {
                lemma_flat_bounds(self@.width, self@.height - 1);
                assert(self@.width * (self@.height - 1) <= self@.width * self@.height)
                    by (nonlinear_arith)
                    requires
                        1 <= self@.width,
                        1 <= self@.height,
                ;
            }
            let i = flat_index(self.width, x, y);
            Ok(!self.horz_walls[i])
        } else {
            Err(MazeError::OutOfBounds)
        }
    }

    /// Whether the wall between `(x, y)` and `(x + 1, y)` is open; fails
    /// exactly when that wall does not exist.
    pub fn is_vertical_wall_open(&self, x: u32, y: u32) -> (r: Result<bool, MazeError>)
        requires
            self@.shape_ok(),
        ensures
            (x as int) < self@.width - 1 && (y as int) < self@.height ==> r == Ok::<
                bool,
                MazeError,
            >(self@.vert_open(x as int, y as int)),
            !((x as int) < self@.width - 1 && (y as int) < self@.height) ==> r == Err::<
                bool,
                MazeError,
            >(MazeError::OutOfBounds),
    {
        if x < self.width - 1 && y < self.height {
            proof {
                lemma_flat_bounds(self@.width - 1, self@.height);
                assert((self@.width - 1) * self@.height <= self@.width * self@.height)
                    by (nonlinear_arith)
                    requires
                        1 <= self@.width,
                        1 <= self@.height,
                ;
            }
            let i = flat_index(self.width - 1, x, y);
            Ok(!self.vert_walls[i])
        } else {
            Err(MazeError::OutOfBounds)
        }
    }

    /// Unchecked horizontal wall query for in-range coordinates.
    pub(crate) fn horz_wall_open_at(&self, x: u32, y: u32) -> (r: bool)
        requires
            self@.shape_ok(),
            (x as int) < self@.width,
            (y as int) < self@.height - 1,
        ensures
            r == self@.horz_open(x as int, y as int),
    {
        proof {
            lemma_flat_bounds(self@.width, self@.height - 1);
            assert(self@.width * (self@.height - 1) <= self@.width * self@.height)
                by (nonlinear_arith)
                requires
                    1 <= self@.width,
                    1 <= self@.height,
            ;
        }
        let i = flat_index(self.width, x, y);
        !self.horz_walls[i]
    }

    /// Unchecked vertical wall query for in-range coordinates.
    pub(crate) fn vert_wall_open_at(&self, x: u32, y: u32) -> (r: bool)
        requires
            self@.shape_ok(),
            (x as int) < self@.width - 1,
            (y as int) < self@.height,
        ensures
            r == self@.vert_open(x as int, y as int),
    {
        proof {
            lemma_flat_bounds(self@.width - 1, self@.height);
            assert((self@.width - 1) * self@.height <= self@.width * self@.height)
                by (nonlinear_arith)
                requires
                    1 <= self@.width,
                    1 <= self@.height,
            ;
        }
        let i = flat_index(self.width - 1, x, y);
        !self.vert_walls[i]
    }

    /// The parent pointer of the cell at `(x, y)`.
    pub(crate) fn tile_at(&self, x: u32, y: u32) -> (r: Option<Dir>)
        requires
            self@.shape_ok(),
            (x as int) < self@.width,
            (y as int) < self@.height,
        ensures
            r == self@.tile(x as int, y as int),
    {
        proof {
            lemma_flat_bounds(self@.width, self@.height);
        }
        let i = flat_index(self.width, x, y);
        self.tiles[i]
    }
}

} // verus!
