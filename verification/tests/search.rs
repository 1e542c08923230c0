use ice_maze::grid::{find_tile, is_well_formed, Grid, Point};
use ice_maze::moves::slide_from;
use ice_maze::path::{checkpoints, get_checkpoint_id, shortest_path, solve};
use ice_maze::text::map_from_bytes;
use ice_maze::tiles::Tile;

fn grid(text: &str) -> Grid {
    map_from_bytes(text.as_bytes()).unwrap()
}

fn one_step(a: Point, b: Point) -> bool {
    let dx = (a.0 as i32 - b.0 as i32).abs();
    let dy = (a.1 as i32 - b.1 as i32).abs();
    dx + dy == 1
}

fn tile(map: &Grid, p: Point) -> Tile {
    map[p.1 as usize][p.0 as usize]
}

fn assert_walk(map: &Grid, path: &[Point]) {
    assert!(!path.is_empty());
    for w in path.windows(2) {
        assert!(one_step(w[0], w[1]), "{:?} -> {:?}", w[0], w[1]);
    }
    for p in path.iter().skip(1) {
        assert_ne!(tile(map, *p), Tile::Wall);
    }
    for i in 1..path.len().saturating_sub(1) {
        if tile(map, path[i]) == Tile::Ice {
            let before = (path[i].0 - path[i - 1].0, path[i].1 - path[i - 1].1);
            let after = (path[i + 1].0 - path[i].0, path[i + 1].1 - path[i].1);
            assert_eq!(before, after, "the slide turned at {:?}", path[i]);
        }
    }
}

#[test]
fn straight_ice_slide() {
    let map = grid("-__+");
    let path = solve(&map).unwrap();
    assert_eq!(path, vec![(0, 0), (1, 0), (2, 0), (3, 0)]);
    assert_eq!(path.len(), 4);
}

#[test]
fn simple_detour() {
    let map = grid("-  \n # \n  +");
    let path = solve(&map).unwrap();
    assert_eq!(path.len(), 5);
    assert!(!path.contains(&(1, 1)));
    assert_eq!(path[0], (0, 0));
    assert_eq!(path[4], (2, 2));
    assert_walk(&map, &path);
}

#[test]
fn simple_detour_goes_right_first() {
    // Up is outside the grid, so right is the first direction that gives a
    // move, and of the paths with equal keys the one queued first is taken.
    let map = grid("-  \n # \n  +");
    let path = solve(&map).unwrap();
    assert_eq!(path, vec![(0, 0), (1, 0), (2, 0), (2, 1), (2, 2)]);
}

#[test]
fn blocked_route_is_unsolvable() {
    let map = grid("-#+");
    assert_eq!(solve(&map), None);
}

#[test]
fn grid_without_exit_is_unsolvable() {
    let map = grid("-  \n   ");
    assert_eq!(solve(&map), None);
}

#[test]
fn grid_without_start_is_unsolvable() {
    let map = grid("   \n  +");
    assert_eq!(solve(&map), None);
}

#[test]
fn empty_grid_is_unsolvable() {
    let map: Grid = Vec::new();
    assert!(is_well_formed(&map));
    assert_eq!(solve(&map), None);
}

#[test]
fn slide_into_a_wall_gives_no_move() {
    let map = grid("-_#+");
    assert_eq!(slide_from(&map, (0, 0), 1), None);
    assert_eq!(solve(&map), None);
}

#[test]
fn slide_off_the_grid_gives_no_move() {
    let map = grid("-__\n  +");
    assert_eq!(slide_from(&map, (0, 0), 1), None);
    let path = solve(&map).unwrap();
    assert_eq!(path, vec![(0, 0), (0, 1), (1, 1), (2, 1)]);
}

#[test]
fn slide_ends_on_the_first_tile_that_is_not_ice() {
    let map = grid("-__ _+");
    assert_eq!(slide_from(&map, (0, 0), 1), Some(vec![(1, 0), (2, 0), (3, 0)]));
    assert_eq!(slide_from(&map, (3, 0), 1), Some(vec![(4, 0), (5, 0)]));
    assert_eq!(slide_from(&map, (3, 0), 3), Some(vec![(2, 0), (1, 0), (0, 0)]));
    assert_eq!(slide_from(&map, (3, 0), 0), None);
    assert_eq!(slide_from(&map, (3, 0), 2), None);
}

#[test]
fn one_step_on_plain_floor() {
    let map = grid("   \n - \n   ");
    assert_eq!(slide_from(&map, (1, 1), 0), Some(vec![(1, 0)]));
    assert_eq!(slide_from(&map, (1, 1), 1), Some(vec![(2, 1)]));
    assert_eq!(slide_from(&map, (1, 1), 2), Some(vec![(1, 2)]));
    assert_eq!(slide_from(&map, (1, 1), 3), Some(vec![(0, 1)]));
}

#[test]
fn ice_cannot_be_stopped_on() {
    // The exit lies beside the ice lane, and the lane carries the walker
    // past it: the exit is reached from below only.
    let map = grid("-___ \n  +  ");
    let path = solve(&map).unwrap();
    assert_walk(&map, &path);
    assert_eq!(*path.last().unwrap(), (2, 1));
    assert_eq!(path, vec![(0, 0), (0, 1), (1, 1), (2, 1)]);
}

#[test]
fn checkpoints_are_visited_in_order() {
    let map = grid("-B A+");
    let path = solve(&map).unwrap();
    assert_walk(&map, &path);
    let a = path.iter().position(|p| *p == (3, 0)).unwrap();
    let b = path.iter().rposition(|p| *p == (1, 0)).unwrap();
    assert!(a < b);
    assert_eq!(
        path,
        vec![(0, 0), (1, 0), (2, 0), (3, 0), (2, 0), (1, 0), (2, 0), (3, 0), (4, 0)]
    );
}

#[test]
fn junction_points_stand_once() {
    let map = grid("-A+");
    assert_eq!(solve(&map).unwrap(), vec![(0, 0), (1, 0), (2, 0)]);
}

#[test]
fn unreachable_checkpoint_is_unsolvable() {
    let map = grid("- +\n###\n A ");
    assert_eq!(solve(&map), None);
}

#[test]
fn checkpoint_ids_are_listed_once_and_ascending() {
    let map = grid("C A\nA E\n-+B");
    assert_eq!(checkpoints(&map), vec![0, 1, 2, 4]);
    assert_eq!(checkpoints(&grid("- +")), Vec::<u8>::new());
}

#[test]
fn checkpoint_id_of_a_tile() {
    assert_eq!(get_checkpoint_id(&Tile::Checkpoint(3)), 3);
    assert_eq!(get_checkpoint_id(&Tile::Checkpoint(255)), 255);
}

#[test]
fn search_from_a_given_point() {
    let map = grid("-  \n   \n  +");
    let path = shortest_path(&map, Some((2, 0)), Tile::Exit).unwrap();
    assert_eq!(path, vec![(2, 0), (2, 1), (2, 2)]);
    let stay = shortest_path(&map, Some((2, 2)), Tile::Exit).unwrap();
    assert_eq!(stay, vec![(2, 2)]);
}

#[test]
fn search_starts_from_every_start_tile() {
    let map = grid("-    \n     \n-   +");
    let path = shortest_path(&map, None, Tile::Exit).unwrap();
    assert_eq!(path, vec![(0, 2), (1, 2), (2, 2), (3, 2), (4, 2)]);
}

#[test]
fn search_for_a_missing_tile_finds_nothing() {
    let map = grid("-  +");
    assert_eq!(shortest_path(&map, None, Tile::Checkpoint(0)), None);
}

#[test]
fn search_is_repeatable() {
    let map = grid("-   \n ## \n _  \n   +");
    let first = solve(&map);
    let second = solve(&map);
    assert!(first.is_some());
    assert_eq!(first, second);
    assert_walk(&map, &first.unwrap());
}

#[test]
fn longer_maze_gives_a_walk_from_start_to_exit() {
    let map = grid("-  #    \n## # ## \n   #  # \n ####_ #\n     _ +");
    let path = solve(&map).unwrap();
    assert_walk(&map, &path);
    assert_eq!(tile(&map, path[0]), Tile::Start);
    assert_eq!(tile(&map, *path.last().unwrap()), Tile::Exit);
}

#[test]
fn tiles_are_found_in_reading_order() {
    let map = grid("# #\n   \n## ");
    assert_eq!(find_tile(&map, &Tile::Wall), vec![(0, 0), (2, 0), (0, 2), (1, 2)]);
    assert_eq!(find_tile(&map, &Tile::Exit), Vec::<Point>::new());
}

#[test]
fn ragged_grid_is_not_well_formed() {
    let ragged: Grid = vec![vec![Tile::Empty, Tile::Empty], vec![Tile::Empty]];
    assert!(!is_well_formed(&ragged));
    let square: Grid = vec![vec![Tile::Empty; 2]; 2];
    assert!(is_well_formed(&square));
    let tall: Grid = vec![vec![Tile::Empty]; 128];
    assert!(!is_well_formed(&tall));
    let tallest: Grid = vec![vec![Tile::Empty]; 127];
    assert!(is_well_formed(&tallest));
}

fn fewest_steps(map: &Grid, from: &[Point], target: Tile) -> Option<usize> {
    let height = map.len();
    let width = if height == 0 { 0 } else { map[0].len() };
    let mut steps = vec![vec![usize::MAX; width]; height];
    let mut queue = std::collections::VecDeque::new();
    for p in from {
        steps[p.1 as usize][p.0 as usize] = 0;
        queue.push_back(*p);
    }
    while let Some(p) = queue.pop_front() {
        let here = steps[p.1 as usize][p.0 as usize];
        if tile(map, p) == target {
            return Some(here);
        }
        for (dx, dy) in [(0i8, -1i8), (1, 0), (0, 1), (-1, 0)] {
            let q = (p.0 + dx, p.1 + dy);
            if q.0 < 0 || q.1 < 0 || q.0 as usize >= width || q.1 as usize >= height {
                continue;
            }
            if tile(map, q) == Tile::Wall || steps[q.1 as usize][q.0 as usize] != usize::MAX {
                continue;
            }
            steps[q.1 as usize][q.0 as usize] = here + 1;
            queue.push_back(q);
        }
    }
    None
}

fn scattered_maze(seed: u64, width: usize, height: usize) -> Grid {
    let mut state = seed;
    let mut map = vec![vec![Tile::Empty; width]; height];
    for row in map.iter_mut() {
        for cell in row.iter_mut() {
            state = state
                .wrapping_mul(6364136223846793005)
                .wrapping_add(1442695040888963407);
            if (state >> 33) % 10 < 3 {
                *cell = Tile::Wall;
            }
        }
    }
    map[0][0] = Tile::Start;
    map[height - 1][width - 1] = Tile::Exit;
    map
}

#[test]
fn route_is_a_shortest_walk_without_ice() {
    let mut solved = 0;
    let mut blocked = 0;
    for seed in 0..60 {
        let map = scattered_maze(seed, 9, 7);
        let starts = find_tile(&map, &Tile::Start);
        let fewest = fewest_steps(&map, &starts, Tile::Exit);
        match solve(&map) {
            Some(path) => {
                assert_walk(&map, &path);
                assert_eq!(Some(path.len() - 1), fewest, "seed {}", seed);
                solved += 1;
            }
            None => {
                assert_eq!(fewest, None, "seed {}", seed);
                blocked += 1;
            }
        }
    }
    assert!(solved > 10);
    assert!(blocked > 0);
}

#[test]
fn search_from_a_point_is_shortest_without_ice() {
    for seed in 100..130 {
        let mut map = scattered_maze(seed, 8, 8);
        map[4][3] = Tile::Checkpoint(0);
        map[2][5] = Tile::Empty;
        let from = (5, 2);
        let fewest = fewest_steps(&map, &[from], Tile::Checkpoint(0));
        let found = shortest_path(&map, Some(from), Tile::Checkpoint(0));
        assert_eq!(found.map(|p| p.len() - 1), fewest, "seed {}", seed);
    }
}
