//! The text renderer: a read-only projection of the wall state (and, on
//! request, the parent pointers) onto a character grid.

use vstd::prelude::*;
use vstd::string::StringExecFns;
use vstd::arithmetic::div_mod::lemma_fundamental_div_mod_converse;
use crate::dir::Dir;
use crate::maze::Maze;
use crate::view::{MazeView, lemma_flat_bounds};

verus! {

/// The glyph of a parent pointer: an arrow toward the parent, `X` for the
/// root.
pub open spec fn tile_glyph(t: Option<Dir>) -> char {
    match t {
        Some(Dir::Up) => '^',
        Some(Dir::Down) => 'v',
        Some(Dir::Left) => '<',
        Some(Dir::Right) => '>',
        None => 'X',
    }
}

/// The character of the text grid at column `gx`, row `gy`, for
/// `0 <= gx <= 2*width` and `0 <= gy <= 2*height`: `+` at intersections,
/// wall glyphs or spaces between them, and cell centres that show the parent
/// pointer when `dirs` is set.
pub open spec fn grid_char(v: MazeView, dirs: bool, gx: int, gy: int) -> char {
    let cx = gx / 2;
    let cy = gy / 2;
    if gx % 2 == 1 && gy % 2 == 1 {
        if dirs {
            tile_glyph(v.tile(cx, cy))
        } else {
            ' '
        }
    } else if gx % 2 == 0 && gy % 2 == 0 {
        '+'
    } else if gx % 2 == 1 {
        if cy == 0 || cy == v.height {
            '-'
        } else if v.horz_open(cx, cy - 1) {
            ' '
        } else {
            '-'
        }
    } else {
        if cx == 0 || cx == v.width {
            '|'
        } else if v.vert_open(cx - 1, cy) {
            ' '
        } else {
            '|'
        }
    }
}

/// The whole rendering: `2*height + 1` lines of `2*width + 1` characters,
/// each line closed by a newline.
pub open spec fn render_seq(v: MazeView, dirs: bool) -> Seq<char> {
    Seq::new(
        ((2 * v.height + 1) * (2 * v.width + 2)) as nat,
        |i: int|
            {
                let row = i / (2 * v.width + 2);
                let col = i % (2 * v.width + 2);
                if col == 2 * v.width + 1 {
                    '\n'
                } else {
                    grid_char(v, dirs, col, row)
                }
            },
    )
}

/// Rendering is a pure function of the maze state: two readings without a
/// step in between are identical.
pub proof fn lemma_render_idempotent(v: MazeView, dirs: bool, s1: Seq<char>, s2: Seq<char>)
    requires
        s1 == render_seq(v, dirs),
        s2 == render_seq(v, dirs),
    ensures
        s1 == s2,
{
}

impl Maze {
    /// Renders the maze as text: walls as `-` and `|`, intersections as `+`,
    /// open walls as spaces; with `dirs` set, each cell centre shows its
    /// parent pointer glyph. Never mutates the maze.
    pub fn to_str(&self, dirs: bool) -> (r: String)
        requires
            self@.shape_ok(),
        ensures
            r@ == render_seq(self@, dirs),
    {
        let ghost v = self@;
        let ghost stride = 2 * v.width + 2;
        let ghost rows_g = 2 * v.height + 1;
        proof {
            assert(v.width <= u32::MAX as int && v.height <= u32::MAX as int)
                by (nonlinear_arith)
                requires
                    1 <= v.width,
                    1 <= v.height,
                    v.width * v.height <= u32::MAX as int,
            ;
            reveal_strlit(" ");
            reveal_strlit("+");
            reveal_strlit("-");
            reveal_strlit("|");
            reveal_strlit("^");
            reveal_strlit("v");
            reveal_strlit("<");
            reveal_strlit(">");
            reveal_strlit("X");
            reveal_strlit("\n");
            lemma_flat_bounds(stride, rows_g);
        }
        let mut result = String::new();
        let cols: u64 = 2 * (self.width() as u64) + 1;
        let rows: u64 = 2 * (self.height() as u64) + 1;
        let mut gy: u64 = 0;
        while gy < rows
            invariant
                v == self@,
                v.shape_ok(),
                stride == 2 * v.width + 2,
                rows_g == 2 * v.height + 1,
                cols as int == stride - 1,
                rows as int == rows_g,
                v.width <= u32::MAX as int,
                v.height <= u32::MAX as int,
                gy <= rows,
                result@.len() == (gy as int) * stride,
                forall|j: int|
                    0 <= j < result@.len() ==> #[trigger] result@[j] == render_seq(v, dirs)[j],
            decreases rows - gy,
        {
            let mut gx: u64 = 0;
            while gx < cols
                invariant
                    v == self@,
                    v.shape_ok(),
                    stride == 2 * v.width + 2,
                    rows_g == 2 * v.height + 1,
                    cols as int == stride - 1,
                    rows as int == rows_g,
                    v.width <= u32::MAX as int,
                    v.height <= u32::MAX as int,
                    gy < rows,
                    gx <= cols,
                    result@.len() == (gy as int) * stride + gx as int,
                    forall|j: int|
                        0 <= j < result@.len() ==> #[trigger] result@[j] == render_seq(v, dirs)[j],
                decreases cols - gx,
            {
                proof {
                    reveal_strlit(" ");
                    reveal_strlit("+");
                    reveal_strlit("-");
                    reveal_strlit("|");
                    reveal_strlit("^");
                    reveal_strlit("v");
                    reveal_strlit("<");
                    reveal_strlit(">");
                    reveal_strlit("X");
                    lemma_flat_bounds(stride, rows_g);
                    lemma_fundamental_div_mod_converse(
                        (gy as int) * stride + gx as int,
                        stride,
                        gy as int,
                        gx as int,
                    );
                    assert(crate::view::flat(stride, gx as int, gy as int) == (gy as int) * stride
                        + gx as int);
                    assert(0 <= (gy as int) * stride + (gx as int) < stride * rows_g);
                    assert(stride * rows_g == (2 * v.height + 1) * (2 * v.width + 2))
                        by (nonlinear_arith)
                        requires
                            stride == 2 * v.width + 2,
                            rows_g == 2 * v.height + 1,
                    ;
                    assert(render_seq(v, dirs).len() == stride * rows_g);
                }
                let x_odd = gx % 2 == 1;
                let y_odd = gy % 2 == 1;
                let cx = (gx / 2) as u32;
                let cy = (gy / 2) as u32;
                let c: &str = if x_odd && y_odd {
                    if dirs {
                        match self.tile_at(cx, cy) {
                            Some(Dir::Up) => "^",
                            Some(Dir::Down) => "v",
                            Some(Dir::Left) => "<",
                            Some(Dir::Right) => ">",
                            None => "X",
                        }
                    } else {
                        " "
                    }
                } else if !x_odd && !y_odd {
                    "+"
                } else if x_odd {
                    if cy == 0 || cy == self.height() {
                        "-"
                    } else if self.horz_wall_open_at(cx, cy - 1) {
                        " "
                    } else {
                        "-"
                    }
                } else {
                    if cx == 0 || cx == self.width() {
                        "|"
                    } else if self.vert_wall_open_at(cx - 1, cy) {
                        " "
                    } else {
                        "|"
                    }
                };
                proof {
                    assert(cx as int == (gx as int) / 2);
                    assert(cy as int == (gy as int) / 2);
                    assert(c@[0] == grid_char(v, dirs, gx as int, gy as int));
                    assert(render_seq(v, dirs)[(gy as int) * stride + gx as int] == grid_char(
                        v,
                        dirs,
                        gx as int,
                        gy as int,
                    ));
                }
                result.append(c);
                gx = gx + 1;
            }
            proof {
                reveal_strlit("\n");
                lemma_flat_bounds(stride, rows_g);
                lemma_fundamental_div_mod_converse(
                    (gy as int) * stride + (stride - 1),
                    stride,
                    gy as int,
                    stride - 1,
                );
                assert(crate::view::flat(stride, stride - 1, gy as int) == (gy as int) * stride + (
                stride - 1));
                assert(0 <= (gy as int) * stride + (stride - 1) < stride * rows_g);
                assert(stride * rows_g == (2 * v.height + 1) * (2 * v.width + 2))
                    by (nonlinear_arith)
                    requires
                        stride == 2 * v.width + 2,
                        rows_g == 2 * v.height + 1,
                ;
                assert(render_seq(v, dirs).len() == stride * rows_g);
                assert(render_seq(v, dirs)[(gy as int) * stride + (stride - 1)] == '\n');
            }
            result.append("\n");
            proof {
                assert((gy as int) * stride + stride == (gy as int + 1) * stride)
                    by (nonlinear_arith);
            }
            gy = gy + 1;
        }
        proof {
            assert(result@.len() == (rows_g) * stride);
            assert(rows_g * stride == (2 * v.height + 1) * (2 * v.width + 2)) by (nonlinear_arith)
                requires
                    stride == 2 * v.width + 2,
                    rows_g == 2 * v.height + 1,
            ;
            assert(result@ =~= render_seq(v, dirs));
        }
        result
    }
}

} // verus!
