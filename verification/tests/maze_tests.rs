use maze::{Dir, Maze, MazeError};
use rand::SeedableRng;

#[test]
fn new_rejects_zero_dimensions() {
    assert!(matches!(Maze::new(0, 5), Err(MazeError::InvalidDimension)));
    assert!(matches!(Maze::new(5, 0), Err(MazeError::InvalidDimension)));
    assert!(matches!(Maze::new(0, 0), Err(MazeError::InvalidDimension)));
    assert!(Maze::new(1, 1).is_ok());
}

#[test]
fn new_root_is_origin() {
    let m = Maze::new(4, 3).unwrap();
    assert_eq!(m.root_position(), (0, 0));
    assert_eq!(m.width(), 4);
    assert_eq!(m.height(), 3);
}

#[test]
fn construction_comb_layout_3x3() {
    let m = Maze::new(3, 3).unwrap();
    let expected = "+-+-+-+\n\
                    |     |\n\
                    + +-+-+\n\
                    |     |\n\
                    + +-+-+\n\
                    |     |\n\
                    +-+-+-+\n";
    assert_eq!(m.to_str(false), expected);
}

#[test]
fn construction_comb_directions_3x3() {
    let m = Maze::new(3, 3).unwrap();
    let expected = "+-+-+-+\n\
                    |X < <|\n\
                    + +-+-+\n\
                    |^ < <|\n\
                    + +-+-+\n\
                    |^ < <|\n\
                    +-+-+-+\n";
    assert_eq!(m.to_str(true), expected);
}

#[test]
fn construction_comb_wall_queries() {
    let m = Maze::new(3, 3).unwrap();
    // All vertical walls open, horizontal walls open only in column 0.
    for y in 0..3 {
        for x in 0..2 {
            assert_eq!(m.is_vertical_wall_open(x, y), Ok(true));
        }
    }
    for y in 0..2 {
        assert_eq!(m.is_horizontal_wall_open(0, y), Ok(true));
        assert_eq!(m.is_horizontal_wall_open(1, y), Ok(false));
        assert_eq!(m.is_horizontal_wall_open(2, y), Ok(false));
    }
}

#[test]
fn queries_out_of_range() {
    let m = Maze::new(3, 3).unwrap();
    assert_eq!(m.is_horizontal_wall_open(3, 0), Err(MazeError::OutOfBounds));
    assert_eq!(m.is_horizontal_wall_open(0, 2), Err(MazeError::OutOfBounds));
    assert_eq!(m.is_vertical_wall_open(2, 0), Err(MazeError::OutOfBounds));
    assert_eq!(m.is_vertical_wall_open(0, 3), Err(MazeError::OutOfBounds));
}

#[test]
fn step_on_single_cell_grid_fails() {
    let mut m = Maze::new(1, 1).unwrap();
    let before = m.to_str(true);
    let mut rng = rand::rngs::StdRng::seed_from_u64(7);
    assert_eq!(m.step(&mut rng), Err(MazeError::DegenerateGrid));
    assert_eq!(m.init(&mut rng), Err(MazeError::DegenerateGrid));
    assert_eq!(m.to_str(true), before);
}

#[test]
fn single_step_reuse_case_2x2() {
    // The only tree edge from (0,0) to (1,0) runs along the Left pointer of
    // (1,0). Stepping Right retraces it in reverse, then Left retraces it
    // again: walls never change, only the pointers and the root flip.
    let mut m = Maze::new(2, 2).unwrap();
    let walls_before = m.to_str(false);
    m.step_in_dir(Dir::Right);
    assert_eq!(m.root_position(), (1, 0));
    assert_eq!(m.to_str(false), walls_before);
    m.step_in_dir(Dir::Left);
    assert_eq!(m.root_position(), (0, 0));
    assert_eq!(m.to_str(false), walls_before);
    assert_eq!(m.to_str(true), Maze::new(2, 2).unwrap().to_str(true));
}

#[test]
fn sever_case_3x3() {
    // After one Right step the root sits at (1,0). Stepping Down to (1,1)
    // opens the wall between (1,0) and (1,1); the new root's stale parent
    // edge — its Left edge to (0,1) — closes; its other neighbouring tree
    // edge, the Left pointer of (2,1), stays open.
    let mut m = Maze::new(3, 3).unwrap();
    m.step_in_dir(Dir::Right);
    assert_eq!(m.is_horizontal_wall_open(1, 0), Ok(false));
    assert_eq!(m.is_vertical_wall_open(0, 1), Ok(true));
    m.step_in_dir(Dir::Down);
    assert_eq!(m.root_position(), (1, 1));
    // The traversed wall opened.
    assert_eq!(m.is_horizontal_wall_open(1, 0), Ok(true));
    // The stale parent edge closed.
    assert_eq!(m.is_vertical_wall_open(0, 1), Ok(false));
    // The neighbouring tree edge of (2,1) is untouched.
    assert_eq!(m.is_vertical_wall_open(1, 1), Ok(true));
    // The horizontal wall below the new root is untouched (still closed).
    assert_eq!(m.is_horizontal_wall_open(1, 1), Ok(false));
}

#[test]
fn render_idempotent() {
    let mut m = Maze::new(5, 4).unwrap();
    let mut rng = rand::rngs::StdRng::seed_from_u64(99);
    m.init(&mut rng).unwrap();
    assert_eq!(m.to_str(false), m.to_str(false));
    assert_eq!(m.to_str(true), m.to_str(true));
}

#[test]
fn determinism_same_seed_same_states() {
    let mut a = Maze::new(6, 5).unwrap();
    let mut b = Maze::new(6, 5).unwrap();
    let mut rng_a = rand::rngs::StdRng::seed_from_u64(424242);
    let mut rng_b = rand::rngs::StdRng::seed_from_u64(424242);
    for _ in 0..500 {
        a.step(&mut rng_a).unwrap();
        b.step(&mut rng_b).unwrap();
    }
    assert_eq!(a.root_position(), b.root_position());
    assert_eq!(a.to_str(true), b.to_str(true));
}

fn count_open_walls(m: &Maze) -> u64 {
    let (w, h) = (m.width(), m.height());
    let mut count: u64 = 0;
    for y in 0..h {
        for x in 0..w {
            if y + 1 < h && m.is_horizontal_wall_open(x, y).unwrap() {
                count += 1;
            }
            if x + 1 < w && m.is_vertical_wall_open(x, y).unwrap() {
                count += 1;
            }
        }
    }
    count
}

fn check_invariants(m: &Maze) {
    let (w, h) = (m.width() as usize, m.height() as usize);
    let cells = w * h;

    // Edge count.
    assert_eq!(count_open_walls(m), (cells - 1) as u64);

    // Single root: exactly one `X` glyph, at the root's position.
    let text = m.to_str(true);
    let lines: Vec<&str> = text.lines().collect();
    assert_eq!(lines.len(), 2 * h + 1);
    let mut roots = 0;
    for (gy, line) in lines.iter().enumerate() {
        for (gx, c) in line.chars().enumerate() {
            if c == 'X' {
                roots += 1;
                let (rx, ry) = m.root_position();
                assert_eq!((gx, gy), (2 * rx as usize + 1, 2 * ry as usize + 1));
            }
        }
    }
    assert_eq!(roots, 1);

    // Spanning tree: the open walls connect every cell (with exactly
    // cells - 1 edges, connectivity makes the graph a tree).
    let mut seen = vec![false; cells];
    let mut stack = vec![0usize];
    seen[0] = true;
    let mut reached = 0usize;
    while let Some(i) = stack.pop() {
        reached += 1;
        let (x, y) = ((i % w) as u32, (i / w) as u32);
        let mut neighbors: Vec<usize> = Vec::new();
        if y + 1 < h as u32 && m.is_horizontal_wall_open(x, y).unwrap() {
            neighbors.push(i + w);
        }
        if y >= 1 && m.is_horizontal_wall_open(x, y - 1).unwrap() {
            neighbors.push(i - w);
        }
        if x + 1 < w as u32 && m.is_vertical_wall_open(x, y).unwrap() {
            neighbors.push(i + 1);
        }
        if x >= 1 && m.is_vertical_wall_open(x - 1, y).unwrap() {
            neighbors.push(i - 1);
        }
        for n in neighbors {
            if !seen[n] {
                seen[n] = true;
                stack.push(n);
            }
        }
    }
    assert_eq!(reached, cells);

    // Idempotent read.
    assert_eq!(m.to_str(false), m.to_str(false));
}

#[test]
fn invariants_after_construction() {
    for (w, h) in [(1, 1), (2, 2), (1, 7), (7, 1), (5, 3)] {
        let m = Maze::new(w, h).unwrap();
        check_invariants(&m);
    }
}

#[test]
fn fuzz_invariants_small_grids() {
    let mut rng = rand::rngs::StdRng::seed_from_u64(1);
    for (w, h) in [(2, 2), (3, 2), (2, 3), (4, 4), (10, 10)] {
        let mut m = Maze::new(w, h).unwrap();
        for _ in 0..10_000 {
            m.step(&mut rng).unwrap();
        }
        check_invariants(&m);
    }
}

#[test]
fn fuzz_invariants_large_grid() {
    let mut rng = rand::rngs::StdRng::seed_from_u64(2);
    let mut m = Maze::new(50, 50).unwrap();
    m.init(&mut rng).unwrap();
    for _ in 0..10_000 {
        m.step(&mut rng).unwrap();
    }
    check_invariants(&m);
}

#[test]
fn fuzz_invariants_narrow_grids() {
    let mut rng = rand::rngs::StdRng::seed_from_u64(3);
    for (w, h) in [(1, 30), (30, 1)] {
        let mut m = Maze::new(w, h).unwrap();
        for _ in 0..10_000 {
            m.step(&mut rng).unwrap();
        }
        check_invariants(&m);
    }
}

#[test]
fn init_mixes_and_keeps_invariants() {
    let mut rng = rand::rngs::StdRng::seed_from_u64(5);
    let mut m = Maze::new(8, 6).unwrap();
    let before = m.to_str(false);
    m.init(&mut rng).unwrap();
    check_invariants(&m);
    // With 480 random steps the comb is overwhelmingly unlikely to survive.
    assert_ne!(m.to_str(false), before);
}
