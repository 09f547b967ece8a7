use maze_generator::maze::{Cell, Maze, MazeError, Point};
use maze_generator::search::Tile;

fn grid_from(rows: &[&str]) -> Vec<Vec<Cell>> {
    let mut grid = vec![];
    for (y, row) in rows.iter().enumerate() {
        let mut cells = vec![];
        for (x, c) in row.chars().enumerate() {
            cells.push(Cell { point: Point { x, y }, obsticle: c == '#' });
        }
        grid.push(cells);
    }
    grid
}

fn maze_from(rows: &[&str], start: Point, destanation: Point) -> Maze {
    let grid = grid_from(rows);
    Maze { height: grid.len(), width: grid[0].len(), start, destanation, grid }
}

fn corridor() -> Maze {
    maze_from(
        &[".....", "####.", "####.", "####.", "####."],
        Point { x: 0, y: 0 },
        Point { x: 4, y: 4 },
    )
}

fn adjacent(a: &Point, b: &Point) -> bool {
    a.manhattan_distance(b) == 1
}

fn route_length(path: &[Point]) -> usize {
    path.windows(2).map(|w| w[0].manhattan_distance(&w[1])).sum()
}

fn generated(height: usize, width: usize) -> Maze {
    for seed in 0..200 {
        if let Ok(m) = Maze::generate(height, width, seed * 7919 + height as u64) {
            return m;
        }
    }
    panic!("no maze with distant endpoints came out");
}

#[test]
fn distances() {
    let a = Point { x: 1, y: 2 };
    let b = Point { x: 4, y: 8 };
    assert_eq!(a.manhattan_distance(&b), 9);
    assert_eq!(a.distance(&b), 9);
    assert_eq!(b.distance(&a), 9);
    assert_eq!(a.euclidian_distance(&b), 14 * 3 + 3);
    assert_eq!(Point { x: 5, y: 0 }.euclidian_distance(&Point { x: 0, y: 2 }), 14 * 2 + 3);
    assert_eq!(a.euclidian_distance(&a), 0);
}

#[test]
fn corridor_path_has_eight_steps() {
    let m = corridor();
    let path = m.find_path().unwrap();
    assert_eq!(path.len(), 9);
    assert_eq!(route_length(&path), 8);
    assert_eq!(path[0], Point { x: 0, y: 0 });
    assert_eq!(path[8], Point { x: 4, y: 4 });
    assert_eq!(path[4], Point { x: 4, y: 0 });
}

#[test]
fn blocked_corridor_has_no_path() {
    let mut m = corridor();
    m.grid[2][4].obsticle = true;
    assert_eq!(m.find_path(), Err(MazeError::NoPath));
}

#[test]
fn unique_shortest_path_is_found() {
    let m = maze_from(
        &["..#....", ".##.##.", "....#..", "##.##.#", "......."],
        Point { x: 0, y: 0 },
        Point { x: 6, y: 0 },
    );
    let path = m.find_path().unwrap();
    let expected = vec![
        Point { x: 0, y: 0 },
        Point { x: 0, y: 1 },
        Point { x: 0, y: 2 },
        Point { x: 1, y: 2 },
        Point { x: 2, y: 2 },
        Point { x: 3, y: 2 },
        Point { x: 3, y: 1 },
        Point { x: 3, y: 0 },
        Point { x: 4, y: 0 },
        Point { x: 5, y: 0 },
        Point { x: 6, y: 0 },
    ];
    assert_eq!(path, expected);
    assert_eq!(route_length(&path), 10);
}

#[test]
fn walled_off_destination_gives_no_path() {
    let m = maze_from(
        &["....", ".###", ".#..", ".#.."],
        Point { x: 0, y: 0 },
        Point { x: 3, y: 3 },
    );
    let search = m.astar();
    assert_eq!(search.path, Err(MazeError::NoPath));
    assert_eq!(search.expanded.len(), 7);
    assert_eq!(search.expanded[0], Point { x: 0, y: 0 });
}

#[test]
fn path_steps_are_adjacent() {
    let m = generated(15, 21);
    let path = m.find_path().unwrap();
    assert_eq!(path[0], m.start);
    assert_eq!(*path.last().unwrap(), m.destanation);
    for w in path.windows(2) {
        assert!(adjacent(&w[0], &w[1]));
        assert!(!m.grid[w[1].y][w[1].x].obsticle);
    }
}

#[test]
fn generated_endpoints_are_open_distinct_and_far() {
    for k in 0..10 {
        let m = generated(11 + 2 * k, 17);
        assert_eq!(m.grid.len(), 11 + 2 * k);
        assert!(m.grid.iter().all(|row| row.len() == 17));
        assert!(!m.grid[m.start.y][m.start.x].obsticle);
        assert!(!m.grid[m.destanation.y][m.destanation.x].obsticle);
        assert_ne!(m.start, m.destanation);
        assert!(m.start.distance(&m.destanation) >= (11 + 2 * k + 17) / 2);
        for (y, row) in m.grid.iter().enumerate() {
            for (x, cell) in row.iter().enumerate() {
                assert_eq!(cell.point, Point { x, y });
            }
        }
    }
}

#[test]
fn generated_maze_is_a_spanning_tree() {
    for k in 0..10 {
        let m = generated(13, 19 + k);
        let open = |x: usize, y: usize| !m.grid[y][x].obsticle;
        let mut open_count = 0;
        let mut edges = 0;
        for y in 0..m.height {
            for x in 0..m.width {
                if open(x, y) {
                    open_count += 1;
                    if x + 1 < m.width && open(x + 1, y) {
                        edges += 1;
                    }
                    if y + 1 < m.height && open(x, y + 1) {
                        edges += 1;
                    }
                }
            }
        }
        let mut seen = vec![vec![false; m.width]; m.height];
        let mut stack = vec![m.start];
        seen[m.start.y][m.start.x] = true;
        let mut reached = 0;
        while let Some(p) = stack.pop() {
            reached += 1;
            let mut next = vec![];
            if p.x > 0 {
                next.push(Point { x: p.x - 1, y: p.y });
            }
            if p.x + 1 < m.width {
                next.push(Point { x: p.x + 1, y: p.y });
            }
            if p.y > 0 {
                next.push(Point { x: p.x, y: p.y - 1 });
            }
            if p.y + 1 < m.height {
                next.push(Point { x: p.x, y: p.y + 1 });
            }
            for q in next {
                if open(q.x, q.y) && !seen[q.y][q.x] {
                    seen[q.y][q.x] = true;
                    stack.push(q);
                }
            }
        }
        assert_eq!(reached, open_count);
        assert_eq!(edges, open_count - 1);
    }
}

#[test]
fn tiny_grid_is_unsatisfiable() {
    assert_eq!(Maze::generate(1, 1, 3).unwrap_err(), MazeError::Unsatisfiable);
}

#[test]
fn one_by_four_always_succeeds() {
    for seed in 0..50 {
        let m = Maze::generate(1, 4, seed).unwrap();
        assert!(m.start.distance(&m.destanation) >= 2);
    }
}

#[test]
fn same_seed_same_maze() {
    let a = Maze::generate(15, 21, 42);
    let b = Maze::generate(15, 21, 42);
    match (a, b) {
        (Ok(a), Ok(b)) => {
            assert_eq!(a.start, b.start);
            assert_eq!(a.destanation, b.destanation);
            assert_eq!(a.grid, b.grid);
        }
        (Err(a), Err(b)) => assert_eq!(a, b),
        _ => panic!("the same seed gave different outcomes"),
    }
}

#[test]
fn place_destination_picks_among_far_cells() {
    let m = corridor();
    let placed = Maze::place_destination(m, 6).unwrap();
    assert_eq!(placed.destanation, Point { x: 4, y: 3 });
    assert_eq!(placed.start, Point { x: 0, y: 0 });
    let near = maze_from(&["..#", "###"], Point { x: 0, y: 0 }, Point { x: 1, y: 0 });
    assert_eq!(Maze::place_destination(near, 0).unwrap_err(), MazeError::Unsatisfiable);
}

#[test]
fn setters_validate_and_leave_state_on_failure() {
    let mut m = corridor();
    assert_eq!(m.set_start(0, 1), Err(MazeError::InvalidPlacement(Point { x: 0, y: 1 })));
    assert_eq!(m.start, Point { x: 0, y: 0 });
    assert_eq!(m.set_start(4, 4), Err(MazeError::Conflict(Point { x: 4, y: 4 })));
    assert_eq!(m.start, Point { x: 0, y: 0 });
    assert_eq!(m.set_start(2, 0), Ok(Point { x: 2, y: 0 }));
    assert_eq!(m.start, Point { x: 2, y: 0 });

    assert_eq!(m.set_destanation(1, 3), Err(MazeError::InvalidPlacement(Point { x: 1, y: 3 })));
    assert_eq!(m.set_destanation(2, 0), Err(MazeError::Conflict(Point { x: 2, y: 0 })));
    assert_eq!(m.destanation, Point { x: 4, y: 4 });
    assert_eq!(m.set_destanation(4, 2), Ok(Point { x: 4, y: 2 }));
    assert_eq!(m.find_path().unwrap().len(), 5);
}

#[test]
fn destination_candidates_are_far_open_cells() {
    let m = corridor();
    let far = m.destination_candidates(6);
    assert_eq!(far, vec![Point { x: 4, y: 2 }, Point { x: 4, y: 3 }, Point { x: 4, y: 4 }]);
    assert!(m.destination_candidates(9).is_empty());
}

#[test]
fn open_field_route_is_shortest() {
    let m = maze_from(
        &[".....", ".....", ".....", ".....", "....."],
        Point { x: 0, y: 0 },
        Point { x: 4, y: 4 },
    );
    let search = m.astar();
    let path = search.path.unwrap();
    assert_eq!(path.len(), 9);
    assert_eq!(route_length(&path), 8);
    assert!(path.windows(2).all(|w| adjacent(&w[0], &w[1])));
}

#[test]
fn tiles_mark_route_and_search() {
    let m = corridor();
    let search = m.astar();
    let path = search.path.clone().unwrap();
    let tiles = m.tiles(&path, &search.expanded);
    assert_eq!(tiles[0][0], Tile::Start);
    assert_eq!(tiles[4][4], Tile::Destination);
    assert_eq!(tiles[0][2], Tile::Trace);
    assert_eq!(tiles[1][0], Tile::Wall);
    let plain = m.tiles(&vec![], &vec![]);
    assert_eq!(plain[0][2], Tile::Floor);
}

#[test]
fn equal_mazes_give_equal_searches() {
    let m = maze_from(
        &[".....", ".#.#.", ".....", ".#.#.", "....."],
        Point { x: 0, y: 0 },
        Point { x: 4, y: 4 },
    );
    let a = m.astar();
    let b = m.astar();
    assert_eq!(a.path, b.path);
    assert_eq!(a.expanded, b.expanded);
    assert_eq!(a.path.unwrap().len(), 9);
}
