//! Proofs of the maze's global properties: the comb-shaped initial state is
//! well formed, a step preserves well-formedness, and a well-formed maze is a
//! spanning tree (every cell reaches the root, no pointer chain cycles).

use vstd::prelude::*;
use crate::count::{count_open, lemma_count_open_open_close, lemma_count_open_update};
use crate::dir::Dir;
use crate::view::{
    MazeView, comb_tile, flat, is_comb, lemma_flat_bounds, lemma_flat_inj, neighbor, spec_step,
    spec_steps, valid_steps,
};

verus! {

/// The comb-shaped initial state satisfies the maze invariant.
pub proof fn lemma_comb_wf(v: MazeView, w: int, h: int)
    requires
        is_comb(v, w, h),
        count_open(v.horz) == h - 1,
        count_open(v.vert) == (w - 1) * h,
    ensures
        v.wf(),
{
    assert(v.tile(0, 0) == comb_tile(0, 0));
    assert(v.root_ok());
    assert(v.ptr_ok());
    assert forall|x: int, y: int| 0 <= x < v.width && 0 <= y < v.height - 1 implies (
    #[trigger] v.horz_open(x, y) <==> v.tile(x, y + 1) == Some(Dir::Up) || v.tile(x, y) == Some(
        Dir::Down,
    )) by {
        assert(v.tile(x, y + 1) == comb_tile(x, y + 1));
        assert(v.tile(x, y) == comb_tile(x, y));
    }
    assert forall|x: int, y: int| 0 <= x < v.width - 1 && 0 <= y < v.height implies (
    #[trigger] v.vert_open(x, y) <==> v.tile(x + 1, y) == Some(Dir::Left) || v.tile(x, y) == Some(
        Dir::Right,
    )) by {
        assert(v.tile(x + 1, y) == comb_tile(x + 1, y));
        assert(v.tile(x, y) == comb_tile(x, y));
    }
    assert(v.walls_ok());
    let dm = Map::<(int, int), nat>::new(|c: (int, int)| true, |c: (int, int)| (c.0 + c.1) as nat);
    assert forall|x: int, y: int| v.in_bounds(x, y) && !v.is_root(x, y) implies dm[
    #[trigger] v.parent_of(x, y)] < dm[(x, y)] by {
        assert(v.tile(x, y) == comb_tile(x, y));
    }
    assert(v.depth_ok(dm));
    assert(v.count_ok()) by {
        assert((h - 1) + (w - 1) * h == w * h - 1) by (nonlinear_arith);
    }
}

/// Two adjacent cells never point at each other: a two-cell cycle would give
/// two depths each below the other.
proof fn lemma_no_mutual_at(v: MazeView, x: int, y: int)
    requires
        v.shape_ok(),
        v.root_ok(),
        v.ptr_ok(),
        v.acyclic(),
        v.in_bounds(x, y),
    ensures
        v.tile(x, y) == Some(Dir::Up) ==> v.tile(x, y - 1) != Some(Dir::Down),
        v.tile(x, y) == Some(Dir::Down) ==> v.tile(x, y + 1) != Some(Dir::Up),
        v.tile(x, y) == Some(Dir::Left) ==> v.tile(x - 1, y) != Some(Dir::Right),
        v.tile(x, y) == Some(Dir::Right) ==> v.tile(x + 1, y) != Some(Dir::Left),
{
    let dm = choose|dm: Map<(int, int), nat>| v.depth_ok(dm);
    if v.tile(x, y) == Some(Dir::Up) && v.tile(x, y - 1) == Some(Dir::Down) {
        assert(v.in_bounds(x, y - 1));
        assert(v.parent_of(x, y) == (x, y - 1));
        assert(v.parent_of(x, y - 1) == (x, y));
        assert(dm[v.parent_of(x, y)] < dm[(x, y)]);
        assert(dm[v.parent_of(x, y - 1)] < dm[(x, y - 1)]);
        assert(false);
    }
    if v.tile(x, y) == Some(Dir::Down) && v.tile(x, y + 1) == Some(Dir::Up) {
        assert(v.in_bounds(x, y + 1));
        assert(v.parent_of(x, y) == (x, y + 1));
        assert(v.parent_of(x, y + 1) == (x, y));
        assert(dm[v.parent_of(x, y)] < dm[(x, y)]);
        assert(dm[v.parent_of(x, y + 1)] < dm[(x, y + 1)]);
        assert(false);
    }
    if v.tile(x, y) == Some(Dir::Left) && v.tile(x - 1, y) == Some(Dir::Right) {
        assert(v.in_bounds(x - 1, y));
        assert(v.parent_of(x, y) == (x - 1, y));
        assert(v.parent_of(x - 1, y) == (x, y));
        assert(dm[v.parent_of(x, y)] < dm[(x, y)]);
        assert(dm[v.parent_of(x - 1, y)] < dm[(x - 1, y)]);
        assert(false);
    }
    if v.tile(x, y) == Some(Dir::Right) && v.tile(x + 1, y) == Some(Dir::Left) {
        assert(v.in_bounds(x + 1, y));
        assert(v.parent_of(x, y) == (x + 1, y));
        assert(v.parent_of(x + 1, y) == (x, y));
        assert(dm[v.parent_of(x, y)] < dm[(x, y)]);
        assert(dm[v.parent_of(x + 1, y)] < dm[(x + 1, y)]);
        assert(false);
    }
}

/// A step leaves the open-wall count at one below the cell count: the
/// traversed wall opens, and unless the walk retraced the new root's own
/// parent edge, that exact edge closes.
proof fn lemma_step_count(v: MazeView, d: Dir)
    requires
        v.wf(),
        v.valid_move(d),
    ensures
        spec_step(v, d).count_ok(),
{
    let v2 = spec_step(v, d);
    let w = v.width;
    let h = v.height;
    let rx = v.root_x;
    let ry = v.root_y;
    let n = neighbor(rx, ry, d);
    let nx = n.0;
    let ny = n.1;
    lemma_flat_inj(w);
    lemma_flat_bounds(w, h - 1);
    assert(v.in_bounds(nx, ny));
    assert(v.tile(nx, ny) is Some);
    let pd = v.tile(nx, ny)->0;
    assert(v.tile(nx, ny) == Some(pd));
    if 2 <= w {
        lemma_flat_inj(w - 1);
        lemma_flat_bounds(w - 1, h);
    }
    if pd == d.opposite() {
        match d {
            Dir::Up => {
                let i1 = flat(w, nx, ny);
                assert(v.horz_open(nx, ny));
                lemma_count_open_update(v.horz, i1, false);
            },
            Dir::Down => {
                let i1 = flat(w, rx, ry);
                assert(v.horz_open(rx, ry));
                lemma_count_open_update(v.horz, i1, false);
            },
            Dir::Left => {
                let i1 = flat(w - 1, nx, ny);
                assert(v.vert_open(nx, ny));
                lemma_count_open_update(v.vert, i1, false);
            },
            Dir::Right => {
                let i1 = flat(w - 1, rx, ry);
                assert(v.vert_open(rx, ry));
                lemma_count_open_update(v.vert, i1, false);
            },
        }
    } else {
        // The traversed wall was closed: neither of its cells pointed at the
        // other. The severed wall was open: it was the new root's parent edge.
        match d {
            Dir::Up => {
                assert(!v.horz_open(nx, ny));
                let i1 = flat(w, nx, ny);
                match pd {
                    Dir::Up => {
                        assert(v.horz_open(nx, ny - 1));
                        lemma_count_open_open_close(v.horz, i1, flat(w, nx, ny - 1));
                    },
                    Dir::Down => {
                        assert(false);
                    },
                    Dir::Left => {
                        assert(v.vert_open(nx - 1, ny));
                        lemma_count_open_update(v.horz, i1, false);
                        lemma_count_open_update(v.vert, flat(w - 1, nx - 1, ny), true);
                    },
                    Dir::Right => {
                        assert(v.vert_open(nx, ny));
                        lemma_count_open_update(v.horz, i1, false);
                        lemma_count_open_update(v.vert, flat(w - 1, nx, ny), true);
                    },
                }
            },
            Dir::Down => {
                assert(!v.horz_open(rx, ry));
                let i1 = flat(w, rx, ry);
                match pd {
                    Dir::Up => {
                        assert(false);
                    },
                    Dir::Down => {
                        assert(v.horz_open(nx, ny));
                        lemma_count_open_open_close(v.horz, i1, flat(w, nx, ny));
                    },
                    Dir::Left => {
                        assert(v.vert_open(nx - 1, ny));
                        lemma_count_open_update(v.horz, i1, false);
                        lemma_count_open_update(v.vert, flat(w - 1, nx - 1, ny), true);
                    },
                    Dir::Right => {
                        assert(v.vert_open(nx, ny));
                        lemma_count_open_update(v.horz, i1, false);
                        lemma_count_open_update(v.vert, flat(w - 1, nx, ny), true);
                    },
                }
            },
            Dir::Left => {
                assert(!v.vert_open(nx, ny));
                let i1 = flat(w - 1, nx, ny);
                match pd {
                    Dir::Up => {
                        assert(v.horz_open(nx, ny - 1));
                        lemma_count_open_update(v.vert, i1, false);
                        lemma_count_open_update(v.horz, flat(w, nx, ny - 1), true);
                    },
                    Dir::Down => {
                        assert(v.horz_open(nx, ny));
                        lemma_count_open_update(v.vert, i1, false);
                        lemma_count_open_update(v.horz, flat(w, nx, ny), true);
                    },
                    Dir::Left => {
                        assert(v.vert_open(nx - 1, ny));
                        lemma_count_open_open_close(v.vert, i1, flat(w - 1, nx - 1, ny));
                    },
                    Dir::Right => {
                        assert(false);
                    },
                }
            },
            Dir::Right => {
                assert(!v.vert_open(rx, ry));
                let i1 = flat(w - 1, rx, ry);
                match pd {
                    Dir::Up => {
                        assert(v.horz_open(nx, ny - 1));
                        lemma_count_open_update(v.vert, i1, false);
                        lemma_count_open_update(v.horz, flat(w, nx, ny - 1), true);
                    },
                    Dir::Down => {
                        assert(v.horz_open(nx, ny));
                        lemma_count_open_update(v.vert, i1, false);
                        lemma_count_open_update(v.horz, flat(w, nx, ny), true);
                    },
                    Dir::Left => {
                        assert(false);
                    },
                    Dir::Right => {
                        assert(v.vert_open(nx, ny));
                        lemma_count_open_open_close(v.vert, i1, flat(w - 1, nx, ny));
                    },
                }
            },
        }
    }
}

/// A step preserves the existence of a depth map decreasing toward the root:
/// the new root gets depth zero and every other cell's depth grows by one.
proof fn lemma_step_acyclic(v: MazeView, d: Dir)
    requires
        v.wf(),
        v.valid_move(d),
    ensures
        spec_step(v, d).acyclic(),
{
    let v2 = spec_step(v, d);
    let w = v.width;
    let rx = v.root_x;
    let ry = v.root_y;
    let n = neighbor(rx, ry, d);
    let nx = n.0;
    let ny = n.1;
    lemma_flat_inj(w);
    lemma_flat_bounds(w, v.height);
    let dm = choose|dm: Map<(int, int), nat>| v.depth_ok(dm);
    let dm2 = Map::<(int, int), nat>::new(
        |c: (int, int)| true,
        |c: (int, int)|
            if c == (nx, ny) {
                0nat
            } else {
                (dm[c] + 1) as nat
            },
    );
    assert forall|x: int, y: int| v2.in_bounds(x, y) && !v2.is_root(x, y) implies dm2[
    #[trigger] v2.parent_of(x, y)] < dm2[(x, y)] by {
        if x == rx && y == ry {
            assert(flat(w, rx, ry) != flat(w, nx, ny));
            assert(v2.tile(x, y) == Some(d));
            assert(v2.parent_of(x, y) == (nx, ny));
            assert(dm2[(nx, ny)] == 0);
            assert(dm2[(rx, ry)] == (dm[(rx, ry)] + 1) as nat);
        } else {
            assert(flat(w, x, y) != flat(w, rx, ry));
            assert(flat(w, x, y) != flat(w, nx, ny));
            assert(v2.tile(x, y) == v.tile(x, y));
            assert(v.in_bounds(x, y) && !v.is_root(x, y));
            assert(dm[v.parent_of(x, y)] < dm[(x, y)]);
            assert(v2.parent_of(x, y) == v.parent_of(x, y));
            assert(dm2[(x, y)] == (dm[(x, y)] + 1) as nat);
        }
    }
    assert(v2.depth_ok(dm2));
}

/// Appending one valid move to a valid walk gives a valid walk whose final
/// state is one step past the shorter walk's final state.
pub proof fn lemma_steps_snoc(v: MazeView, ds: Seq<Dir>, d: Dir)
    requires
        valid_steps(v, ds),
        spec_steps(v, ds).valid_move(d),
    ensures
        valid_steps(v, ds.push(d)),
        spec_steps(v, ds.push(d)) == spec_step(spec_steps(v, ds), d),
    decreases ds.len(),
{
    if ds.len() == 0 {
        let e = ds.push(d).drop_first();
        assert(ds.push(d)[0] == d);
        assert(e =~= Seq::<Dir>::empty());
        assert(spec_steps(v, ds) == v);
        assert(spec_steps(spec_step(v, d), e) == spec_step(v, d));
        assert(valid_steps(spec_step(v, d), e));
    } else {
        assert(ds.push(d)[0] == ds[0]);
        assert(ds.push(d).drop_first() =~= ds.drop_first().push(d));
        assert(valid_steps(spec_step(v, ds[0]), ds.drop_first()));
        assert(spec_steps(v, ds) == spec_steps(spec_step(v, ds[0]), ds.drop_first()));
        lemma_steps_snoc(spec_step(v, ds[0]), ds.drop_first(), d);
        assert(spec_steps(v, ds.push(d)) == spec_steps(
            spec_step(v, ds[0]),
            ds.drop_first().push(d),
        ));
    }
}

/// One step of the root in a valid direction preserves the maze invariant.
#[verifier::rlimit(60)]
pub proof fn lemma_step_preserves_wf(v: MazeView, d: Dir)
    requires
        v.wf(),
        v.valid_move(d),
    ensures
        spec_step(v, d).wf(),
{
    let v2 = spec_step(v, d);
    let w = v.width;
    let h = v.height;
    let rx = v.root_x;
    let ry = v.root_y;
    let n = neighbor(rx, ry, d);
    let nx = n.0;
    let ny = n.1;
    lemma_flat_inj(w);
    lemma_flat_bounds(w, h);
    lemma_flat_bounds(w, h - 1);
    if 2 <= w {
        lemma_flat_inj(w - 1);
        lemma_flat_bounds(w - 1, h);
    }
    assert(v.in_bounds(nx, ny));
    assert(!v.is_root(nx, ny));
    assert(v.tile(nx, ny) is Some);
    let pd = v.tile(nx, ny)->0;
    assert(v.tile(nx, ny) == Some(pd));
    lemma_no_mutual_at(v, nx, ny);
    assert(v2.shape_ok());
    assert(flat(w, rx, ry) != flat(w, nx, ny));
    assert(v2.tile(nx, ny) is None);
    assert(v2.tile(rx, ry) == Some(d));

    assert forall|x: int, y: int| v2.in_bounds(x, y) && !v2.is_root(x, y) implies #[trigger] v2
        .tile(x, y) is Some by {
        if x == rx && y == ry {
        } else {
            assert(flat(w, x, y) != flat(w, rx, ry));
            assert(flat(w, x, y) != flat(w, nx, ny));
            assert(v2.tile(x, y) == v.tile(x, y));
        }
    }
    assert(v2.root_ok());

    assert forall|x: int, y: int| v2.in_bounds(x, y) implies {
        &&& (#[trigger] v2.tile(x, y) == Some(Dir::Up) ==> 1 <= y)
        &&& (v2.tile(x, y) == Some(Dir::Down) ==> y < h - 1)
        &&& (v2.tile(x, y) == Some(Dir::Left) ==> 1 <= x)
        &&& (v2.tile(x, y) == Some(Dir::Right) ==> x < w - 1)
    } by {
        if x == rx && y == ry {
            assert(v2.tile(x, y) == Some(d));
        } else if x == nx && y == ny {
        } else {
            assert(flat(w, x, y) != flat(w, rx, ry));
            assert(flat(w, x, y) != flat(w, nx, ny));
            assert(v2.tile(x, y) == v.tile(x, y));
        }
    }
    assert(v2.ptr_ok());

    assert forall|x: int, y: int| 0 <= x < w && 0 <= y < h - 1 implies (#[trigger] v2.horz_open(
        x,
        y,
    ) <==> v2.tile(x, y + 1) == Some(Dir::Up) || v2.tile(x, y) == Some(Dir::Down)) by {
        assert(v.horz_open(x, y) <==> v.tile(x, y + 1) == Some(Dir::Up) || v.tile(x, y) == Some(
            Dir::Down,
        ));
    }
    assert forall|x: int, y: int| 0 <= x < w - 1 && 0 <= y < h implies (#[trigger] v2.vert_open(
        x,
        y,
    ) <==> v2.tile(x + 1, y) == Some(Dir::Left) || v2.tile(x, y) == Some(Dir::Right)) by {
        assert(v.vert_open(x, y) <==> v.tile(x + 1, y) == Some(Dir::Left) || v.tile(x, y) == Some(
            Dir::Right,
        ));
    }
    assert(v2.walls_ok());

    lemma_step_count(v, d);
    lemma_step_acyclic(v, d);
}

/// Well-formedness holds in every reachable state: it holds of the initial
/// comb and every valid walk preserves it.
pub proof fn lemma_steps_preserve_wf(v: MazeView, ds: Seq<Dir>)
    requires
        v.wf(),
        valid_steps(v, ds),
    ensures
        spec_steps(v, ds).wf(),
    decreases ds.len(),
{
    if ds.len() != 0 {
        lemma_step_preserves_wf(v, ds[0]);
        lemma_steps_preserve_wf(spec_step(v, ds[0]), ds.drop_first());
    }
}

/// Edge count: a well-formed state has exactly one open wall fewer than it
/// has cells.
pub proof fn lemma_edge_count(v: MazeView)
    requires
        v.wf(),
    ensures
        count_open(v.horz) + count_open(v.vert) == v.width * v.height - 1,
{
}

/// Single root: exactly the stored root cell lacks a parent pointer.
pub proof fn lemma_single_root(v: MazeView)
    requires
        v.wf(),
    ensures
        v.tile(v.root_x, v.root_y) is None,
        forall|x: int, y: int|
            v.in_bounds(x, y) && !v.is_root(x, y) ==> #[trigger] v.tile(x, y) is Some,
{
}

/// Each non-root cell's parent edge is an open wall, so every hop of a parent
/// chain crosses an open wall.
pub proof fn lemma_parent_edge_open(v: MazeView, x: int, y: int)
    requires
        v.wf(),
        v.in_bounds(x, y),
        !v.is_root(x, y),
    ensures
        v.tile(x, y) == Some(Dir::Up) ==> v.horz_open(x, y - 1),
        v.tile(x, y) == Some(Dir::Down) ==> v.horz_open(x, y),
        v.tile(x, y) == Some(Dir::Left) ==> v.vert_open(x - 1, y),
        v.tile(x, y) == Some(Dir::Right) ==> v.vert_open(x, y),
{
    if v.tile(x, y) == Some(Dir::Up) {
        assert(v.horz_open(x, y - 1) <==> v.tile(x, y) == Some(Dir::Up) || v.tile(x, y - 1)
            == Some(Dir::Down));
    }
    if v.tile(x, y) == Some(Dir::Down) {
        assert(v.horz_open(x, y) <==> v.tile(x, y + 1) == Some(Dir::Up) || v.tile(x, y) == Some(
            Dir::Down,
        ));
    }
    if v.tile(x, y) == Some(Dir::Left) {
        assert(v.vert_open(x - 1, y) <==> v.tile(x, y) == Some(Dir::Left) || v.tile(x - 1, y)
            == Some(Dir::Right));
    }
    if v.tile(x, y) == Some(Dir::Right) {
        assert(v.vert_open(x, y) <==> v.tile(x + 1, y) == Some(Dir::Left) || v.tile(x, y) == Some(
            Dir::Right,
        ));
    }
}

/// A walk of parent pointers started at the root stays at the root.
proof fn lemma_chain_at_root(v: MazeView, k: nat)
    requires
        v.shape_ok(),
        v.root_ok(),
    ensures
        v.chain(v.root_x, v.root_y, k) == (v.root_x, v.root_y),
    decreases k,
{
    if k != 0 {
        assert(v.parent_of(v.root_x, v.root_y) == (v.root_x, v.root_y));
        lemma_chain_at_root(v, (k - 1) as nat);
    }
}

/// A parent walk either reaches the root or descends `k` levels of the depth
/// map.
proof fn lemma_chain_descends(v: MazeView, dm: Map<(int, int), nat>, x: int, y: int, k: nat)
    requires
        v.shape_ok(),
        v.root_ok(),
        v.ptr_ok(),
        v.depth_ok(dm),
        v.in_bounds(x, y),
        1 <= k,
    ensures
        v.chain(x, y, k) == (v.root_x, v.root_y) || (v.in_bounds(
            v.chain(x, y, k).0,
            v.chain(x, y, k).1,
        ) && dm[v.chain(x, y, k)] + k <= dm[(x, y)]),
    decreases k,
{
    if v.is_root(x, y) {
        lemma_chain_at_root(v, k);
    } else {
        let p = v.parent_of(x, y);
        assert(v.tile(x, y) is Some);
        assert(v.in_bounds(p.0, p.1));
        assert(dm[p] < dm[(x, y)]);
        assert(v.chain(x, y, k) == v.chain(p.0, p.1, (k - 1) as nat));
        if k == 1 {
            if !v.is_root(p.0, p.1) {
                assert(v.chain(p.0, p.1, 0) == p);
            }
        } else {
            lemma_chain_descends(v, dm, p.0, p.1, (k - 1) as nat);
        }
    }
}

/// Spanning, part one: every cell's parent chain reaches the root, so the
/// open walls (which include every parent edge) connect all cells.
pub proof fn lemma_all_cells_reach_root(v: MazeView)
    requires
        v.wf(),
    ensures
        forall|x: int, y: int|
            v.in_bounds(x, y) ==> exists|k: nat|
                #[trigger] v.chain(x, y, k) == (v.root_x, v.root_y),
{
    let dm = choose|dm: Map<(int, int), nat>| v.depth_ok(dm);
    assert forall|x: int, y: int| v.in_bounds(x, y) implies exists|k: nat|
        #[trigger] v.chain(x, y, k) == (v.root_x, v.root_y) by {
        lemma_reach_from(v, dm, x, y);
    }
}

proof fn lemma_reach_from(v: MazeView, dm: Map<(int, int), nat>, x: int, y: int)
    requires
        v.shape_ok(),
        v.root_ok(),
        v.ptr_ok(),
        v.depth_ok(dm),
        v.in_bounds(x, y),
    ensures
        exists|k: nat| #[trigger] v.chain(x, y, k) == (v.root_x, v.root_y),
    decreases dm[(x, y)],
{
    if v.is_root(x, y) {
        assert(v.chain(x, y, 0) == (v.root_x, v.root_y));
    } else {
        let p = v.parent_of(x, y);
        assert(v.tile(x, y) is Some);
        assert(v.in_bounds(p.0, p.1));
        assert(dm[p] < dm[(x, y)]);
        lemma_reach_from(v, dm, p.0, p.1);
        let k = choose|k: nat| #[trigger] v.chain(p.0, p.1, k) == (v.root_x, v.root_y);
        assert(v.chain(x, y, k + 1) == v.chain(p.0, p.1, k));
    }
}

/// Spanning, part two: a parent chain of positive length never returns to a
/// non-root starting cell, so the tree has no cycles.
pub proof fn lemma_no_pointer_cycle(v: MazeView, x: int, y: int, k: nat)
    requires
        v.wf(),
        v.in_bounds(x, y),
        !v.is_root(x, y),
        1 <= k,
    ensures
        v.chain(x, y, k) != (x, y),
{
    let dm = choose|dm: Map<(int, int), nat>| v.depth_ok(dm);
    lemma_chain_descends(v, dm, x, y, k);
}

/// Every flat index of a `w` by `h` array names an in-bounds grid entry.
proof fn lemma_flat_surjective(w: int, h: int, i: int)
    requires
        1 <= w,
        0 <= i < w * h,
    ensures
        0 <= i % w < w,
        0 <= i / w < h,
        flat(w, i % w, i / w) == i,
{
    vstd::arithmetic::div_mod::lemma_fundamental_div_mod(i, w);
    vstd::arithmetic::div_mod::lemma_mod_bound(i, w);
    assert((i / w) * w == w * (i / w)) by (nonlinear_arith);
    assert(0 <= i / w < h) by (nonlinear_arith)
        requires
            1 <= w,
            0 <= i < w * h,
            i == w * (i / w) + i % w,
            0 <= i % w < w,
    ;
}

/// There is only one comb-shaped state of given dimensions.
proof fn lemma_comb_unique(v1: MazeView, v2: MazeView, w: int, h: int)
    requires
        is_comb(v1, w, h),
        is_comb(v2, w, h),
    ensures
        v1 == v2,
{
    assert forall|i: int| 0 <= i < v1.tiles.len() implies v1.tiles[i] == v2.tiles[i] by {
        lemma_flat_surjective(w, h, i);
        let x = i % w;
        let y = i / w;
        assert(v1.tile(x, y) == comb_tile(x, y));
        assert(v2.tile(x, y) == comb_tile(x, y));
    }
    assert forall|i: int| 0 <= i < v1.horz.len() implies v1.horz[i] == v2.horz[i] by {
        lemma_flat_surjective(w, h - 1, i);
        let x = i % w;
        let y = i / w;
        assert(v1.horz_open(x, y) <==> x == 0);
        assert(v2.horz_open(x, y) <==> x == 0);
    }
    assert forall|i: int| 0 <= i < v1.vert.len() implies v1.vert[i] == v2.vert[i] by {
        assert(2 <= w) by (nonlinear_arith)
            requires
                1 <= w,
                1 <= h,
                0 <= i < (w - 1) * h,
        ;
        lemma_flat_surjective(w - 1, h, i);
        let x = i % (w - 1);
        let y = i / (w - 1);
        assert(v1.vert_open(x, y));
        assert(v2.vert_open(x, y));
    }
    assert(v1 =~= v2);
}

/// Determinism from construction: two mazes built fresh with the same
/// dimensions and driven by the same direction sequence end in the same
/// state.
pub proof fn lemma_construction_deterministic(
    v1: MazeView,
    v2: MazeView,
    w: int,
    h: int,
    ds: Seq<Dir>,
)
    requires
        is_comb(v1, w, h),
        is_comb(v2, w, h),
    ensures
        spec_steps(v1, ds) == spec_steps(v2, ds),
{
    lemma_comb_unique(v1, v2, w, h);
}

} // verus!
