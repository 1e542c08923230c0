use ice_maze::genetic::{
    cross, draw_mutates, fitness, generation, get_parent, init_population, is_valid_placement,
    is_valid_population, random_solution, rank, replace_last, splice, valid_walls, ConfigError,
    Population, Solution,
};
use ice_maze::grid::{Grid, Point};
use ice_maze::path::solve;
use ice_maze::text::map_from_bytes;
use ice_maze::tiles::Tile;
use rand::rngs::StdRng;
use rand::SeedableRng;

fn grid(text: &str) -> Grid {
    map_from_bytes(text.as_bytes()).unwrap()
}

fn sorted(points: &[Point]) -> Vec<Point> {
    let mut copy = points.to_vec();
    copy.sort();
    copy
}

fn open_field() -> Grid {
    grid("-   +\n     \n     ")
}

fn ranked_candidates() -> (Solution, Solution, Solution, Solution) {
    let best = vec![(2, 0), (2, 1)];
    let second = vec![(2, 0), (0, 2)];
    let third = vec![(1, 1), (3, 1)];
    let worst = vec![(1, 0), (0, 1)];
    (best, second, third, worst)
}

#[test]
fn fitness_without_walls_is_the_route_length() {
    let map = grid("-  \n # \n  +");
    assert_eq!(fitness(&map, &Vec::new()), 5);
    assert_eq!(fitness(&map, &Vec::new()), solve(&map).unwrap().len());
    assert_eq!(fitness(&grid("-__+"), &Vec::new()), 4);
}

#[test]
fn fitness_of_a_blocking_wall_is_zero() {
    let map = grid("- +");
    assert_eq!(fitness(&map, &vec![(1, 0)]), 0);
    assert_eq!(solve(&grid("-#+")), None);
}

#[test]
fn fitness_is_zero_only_without_a_route() {
    let map = open_field();
    let (best, second, third, worst) = ranked_candidates();
    assert_eq!(fitness(&map, &best), 9);
    assert_eq!(fitness(&map, &second), 7);
    assert_eq!(fitness(&map, &third), 5);
    assert_eq!(fitness(&map, &worst), 0);
}

#[test]
fn fitness_leaves_the_grid_as_it_was() {
    let map = open_field();
    let before = map.clone();
    fitness(&map, &vec![(2, 0), (2, 1)]);
    assert_eq!(map, before);
}

#[test]
fn fitness_counts_a_repeated_wall_once() {
    let map = open_field();
    assert_eq!(fitness(&map, &vec![(2, 0), (2, 0)]), 7);
}

#[test]
fn walls_may_stand_on_empty_tiles_only() {
    let map = grid("- _\n#A+");
    assert_eq!(valid_walls(&map), vec![(1, 0)]);
    assert!(is_valid_placement(&map, &vec![(1, 0)]));
    assert!(is_valid_placement(&map, &Vec::new()));
    assert!(!is_valid_placement(&map, &vec![(0, 0)]));
    assert!(!is_valid_placement(&map, &vec![(2, 0)]));
    assert!(!is_valid_placement(&map, &vec![(1, 0), (1, 1)]));
    assert!(!is_valid_placement(&map, &vec![(3, 0)]));
    assert!(!is_valid_placement(&map, &vec![(-1, 0)]));
}

#[test]
fn population_must_be_valid_and_of_one_length() {
    let map = open_field();
    assert!(is_valid_population(&map, &vec![vec![(1, 0)], vec![(2, 2)]]));
    assert!(is_valid_population(&map, &Vec::new()));
    assert!(!is_valid_population(&map, &vec![vec![(1, 0)], vec![(2, 2), (3, 2)]]));
    assert!(!is_valid_population(&map, &vec![vec![(1, 0)], vec![(0, 0)]]));
}

#[test]
fn random_solution_draws_without_replacement() {
    let map = grid("-         +\n           \n           ");
    let pool = valid_walls(&map);
    let mut rng = StdRng::seed_from_u64(7);
    for count in [0usize, 1, 5, pool.len()] {
        let walls = random_solution(&pool, count, &mut rng);
        assert_eq!(walls.len(), count);
        let mut seen = sorted(&walls);
        seen.dedup();
        assert_eq!(seen.len(), count);
        assert!(walls.iter().all(|p| pool.contains(p)));
    }
}

#[test]
fn random_solution_shuffles_the_pool() {
    let map = grid("-         +\n           \n           ");
    let pool = valid_walls(&map);
    let mut rng = StdRng::seed_from_u64(11);
    let all = random_solution(&pool, pool.len(), &mut rng);
    assert_eq!(sorted(&all), sorted(&pool));
    assert_ne!(all, pool);
    let again = random_solution(&pool, pool.len(), &mut rng);
    assert_ne!(again, all);
}

#[test]
fn same_seed_gives_the_same_population() {
    let map = open_field();
    let first = init_population(&map, 6, 3, &mut StdRng::seed_from_u64(3)).unwrap();
    let second = init_population(&map, 6, 3, &mut StdRng::seed_from_u64(3)).unwrap();
    assert_eq!(first, second);
}

#[test]
fn first_generation_places_walls_on_empty_tiles() {
    let map = grid("-  _ +\n # A  \n      ");
    let mut rng = StdRng::seed_from_u64(5);
    let population = init_population(&map, 20, 4, &mut rng).unwrap();
    assert_eq!(population.len(), 20);
    for walls in &population {
        assert_eq!(walls.len(), 4);
        let mut seen = sorted(walls);
        seen.dedup();
        assert_eq!(seen.len(), 4);
        for p in walls {
            assert_eq!(map[p.1 as usize][p.0 as usize], Tile::Empty);
        }
    }
    assert!(is_valid_population(&map, &population));
}

#[test]
fn too_many_walls_are_refused() {
    let map = grid("- +");
    let mut rng = StdRng::seed_from_u64(1);
    assert_eq!(init_population(&map, 3, 2, &mut rng), Err(ConfigError::TooManyWalls));
    assert_eq!(init_population(&map, 3, 1, &mut rng), Ok(vec![vec![(1, 0)]; 3]));
    assert_eq!(init_population(&map, 0, 1, &mut rng), Ok(Vec::new()));
    assert_eq!(
        init_population(&grid("-+"), 2, 0, &mut rng),
        Ok(vec![Vec::new(), Vec::new()])
    );
}

#[test]
fn crossover_takes_the_first_half_and_the_second_half() {
    let a: Solution = vec![(0, 0), (1, 0), (2, 0), (3, 0)];
    let b: Solution = vec![(0, 1), (1, 1), (2, 1), (3, 1)];
    assert_eq!(cross(&a, &b), vec![(0, 0), (1, 0), (2, 1), (3, 1)]);
    assert_eq!(cross(&b, &a), vec![(0, 1), (1, 1), (2, 0), (3, 0)]);
}

#[test]
fn crossover_of_an_odd_number_of_points() {
    let a: Solution = vec![(0, 0), (1, 0), (2, 0), (3, 0), (4, 0)];
    let b: Solution = vec![(0, 1), (1, 1), (2, 1), (3, 1), (4, 1)];
    assert_eq!(cross(&a, &b), vec![(0, 0), (1, 0), (2, 1), (3, 1), (4, 1)]);
    assert_eq!(cross(&vec![(5, 5)], &vec![(6, 6)]), vec![(6, 6)]);
    assert_eq!(cross(&Vec::new(), &Vec::new()), Vec::<Point>::new());
}

#[test]
fn crossover_keeps_repeated_points() {
    let a: Solution = vec![(1, 1), (2, 2)];
    let b: Solution = vec![(3, 3), (1, 1)];
    assert_eq!(cross(&a, &b), vec![(1, 1), (1, 1)]);
}

#[test]
fn last_point_is_replaced() {
    let mut walls: Solution = vec![(0, 0), (1, 0), (2, 0)];
    replace_last(&mut walls, (7, 7));
    assert_eq!(walls, vec![(0, 0), (1, 0), (7, 7)]);
    let mut none: Solution = Vec::new();
    replace_last(&mut none, (7, 7));
    assert_eq!(none, Vec::<Point>::new());
}

#[test]
fn splice_without_mutation_is_the_crossover() {
    let a: Solution = vec![(0, 0), (1, 0), (2, 0), (3, 0)];
    let b: Solution = vec![(0, 1), (1, 1), (2, 1), (3, 1)];
    let pool: Solution = vec![(9, 9)];
    let mut rng = StdRng::seed_from_u64(2);
    for _ in 0..50 {
        assert_eq!(splice(&a, &b, u32::MAX, &pool, &mut rng), cross(&a, &b));
    }
}

#[test]
fn splice_mutates_when_a_draw_exceeds_the_threshold() {
    let a: Solution = vec![(0, 0), (1, 0), (2, 0), (3, 0), (4, 0), (5, 0)];
    let b: Solution = vec![(0, 1), (1, 1), (2, 1), (3, 1), (4, 1), (5, 1)];
    let pool: Solution = vec![(9, 9)];
    let base = cross(&a, &b);
    let mut rng = StdRng::seed_from_u64(4);
    let mut shuffled = 0;
    let mut replaced = 0;
    for _ in 0..200 {
        let child = splice(&a, &b, u32::MAX / 2, &pool, &mut rng);
        assert_eq!(child.len(), base.len());
        assert!(child.iter().all(|p| base.contains(p) || pool.contains(p)));
        if child != base {
            shuffled += 1;
        }
        if *child.last().unwrap() == (9, 9) {
            replaced += 1;
            let mut rest = child.clone();
            rest.pop();
            assert!(rest.iter().all(|p| base.contains(p)));
        } else {
            assert_eq!(sorted(&child), sorted(&base));
        }
    }
    assert!(shuffled > 50);
    assert!(replaced > 10);
    assert!(replaced < shuffled);
}

#[test]
fn parent_is_a_shuffled_candidate() {
    let population: Population = vec![
        vec![(0, 0), (1, 0), (2, 0), (3, 0), (4, 0)],
        vec![(0, 1), (1, 1), (2, 1), (3, 1), (4, 1)],
        vec![(0, 2), (1, 2), (2, 2), (3, 2), (4, 2)],
    ];
    let mut rng = StdRng::seed_from_u64(9);
    let mut picked = [0usize; 3];
    let mut reordered = 0;
    for _ in 0..60 {
        let parent = get_parent(&population, &mut rng);
        let from = population
            .iter()
            .position(|c| sorted(c) == sorted(&parent))
            .unwrap();
        picked[from] += 1;
        if parent != population[from] {
            reordered += 1;
        }
    }
    assert!(picked.iter().all(|n| *n > 0));
    assert!(reordered > 30);
}

#[test]
fn ranking_puts_the_best_first() {
    assert_eq!(rank(&vec![5, 9, 7, 0]), vec![1, 2, 0, 3]);
    assert_eq!(rank(&Vec::new()), Vec::<usize>::new());
    assert_eq!(rank(&vec![4]), vec![0]);
}

#[test]
fn ranking_puts_the_later_of_equals_first() {
    assert_eq!(rank(&vec![5, 9, 5, 0, 9]), vec![4, 1, 2, 0, 3]);
    assert_eq!(rank(&vec![1, 1, 1]), vec![2, 1, 0]);
}

#[test]
fn generation_keeps_the_elite() {
    let map = open_field();
    let (best, second, third, worst) = ranked_candidates();
    let population: Population = vec![third.clone(), best.clone(), worst.clone(), second.clone()];
    let mut rng = StdRng::seed_from_u64(13);
    let next = generation(&map, population, 2, u32::MAX / 2, &mut rng).unwrap();
    assert_eq!(next.len(), 4);
    assert_eq!(next[0], best);
    assert_eq!(next[1], second);
    assert!(is_valid_population(&map, &next));
}

#[test]
fn generation_keeps_equal_elites_in_ranked_order() {
    let map = open_field();
    let first: Solution = vec![(1, 1), (3, 1)];
    let second: Solution = vec![(1, 2), (3, 2)];
    let population: Population = vec![first.clone(), second.clone(), vec![(1, 0), (0, 1)]];
    let mut rng = StdRng::seed_from_u64(17);
    let next = generation(&map, population, 2, u32::MAX, &mut rng).unwrap();
    assert_eq!(next.len(), 2);
    assert_eq!(next[0], second);
    assert_eq!(next[1], first);
}

#[test]
fn generation_drops_the_odd_place() {
    let map = open_field();
    let mut rng = StdRng::seed_from_u64(19);
    let population = init_population(&map, 5, 2, &mut rng).unwrap();
    let next = generation(&map, population.clone(), 2, u32::MAX / 2, &mut rng).unwrap();
    assert_eq!(next.len(), 4);
    let same = generation(&map, population.clone(), 1, u32::MAX / 2, &mut rng).unwrap();
    assert_eq!(same.len(), 5);
    let all = generation(&map, population.clone(), 5, u32::MAX / 2, &mut rng).unwrap();
    assert_eq!(all.len(), 5);
    let none = generation(&map, population, 0, u32::MAX / 2, &mut rng).unwrap();
    assert_eq!(none.len(), 4);
}

#[test]
fn generation_refuses_too_many_elites() {
    let map = open_field();
    let mut rng = StdRng::seed_from_u64(23);
    let population = init_population(&map, 3, 2, &mut rng).unwrap();
    assert_eq!(
        generation(&map, population, 4, 0, &mut rng),
        Err(ConfigError::TooManyElites)
    );
    assert_eq!(generation(&map, Vec::new(), 0, 0, &mut rng), Ok(Vec::new()));
}

#[test]
fn generations_keep_walls_on_empty_tiles() {
    let map = grid("-  _  \n # A  \n     +");
    let mut rng = StdRng::seed_from_u64(29);
    let mut population = init_population(&map, 12, 3, &mut rng).unwrap();
    let mut best = 0;
    for _ in 0..15 {
        population = generation(&map, population, 4, u32::MAX / 2, &mut rng).unwrap();
        assert_eq!(population.len(), 12);
        assert!(is_valid_population(&map, &population));
        for walls in &population {
            assert_eq!(walls.len(), 3);
        }
        let top = fitness(&map, &population[0]);
        assert!(top >= best);
        best = top;
    }
}

#[test]
fn children_come_from_the_population() {
    let map = open_field();
    let (best, second, third, worst) = ranked_candidates();
    let population: Population = vec![best, second, third, worst];
    let members: Vec<Point> = population.iter().flatten().copied().collect();
    let mut rng = StdRng::seed_from_u64(31);
    let next = generation(&map, population, 0, u32::MAX, &mut rng).unwrap();
    assert_eq!(next.len(), 4);
    for child in &next {
        assert_eq!(child.len(), 2);
        assert!(child.iter().all(|p| members.contains(p)));
    }
}

#[test]
fn draw_mutates_above_the_threshold_only() {
    assert!(draw_mutates(5, 4));
    assert!(!draw_mutates(4, 4));
    assert!(!draw_mutates(3, 4));
    assert!(draw_mutates(1, 0));
    assert!(!draw_mutates(0, 0));
    assert!(draw_mutates(u32::MAX, u32::MAX - 1));
    assert!(!draw_mutates(u32::MAX, u32::MAX));
    assert!(!draw_mutates(0, u32::MAX));
}

#[test]
fn splice_with_the_largest_threshold_is_the_crossover() {
    let a: Solution = vec![(1, 0), (2, 0), (0, 1)];
    let b: Solution = vec![(2, 1), (0, 2), (1, 2)];
    let pool: Solution = vec![(5, 5)];
    for seed in 0..40 {
        let mut rng = StdRng::seed_from_u64(seed);
        let child = splice(&a, &b, u32::MAX, &pool, &mut rng);
        assert_eq!(child, vec![(1, 0), (0, 2), (1, 2)]);
    }
    assert_eq!(a, vec![(1, 0), (2, 0), (0, 1)]);
    assert_eq!(b, vec![(2, 1), (0, 2), (1, 2)]);
}

#[test]
fn generation_with_the_largest_threshold_never_mutates() {
    let map = grid("-      +\n        \n        \n        ");
    let population: Population = vec![
        vec![(1, 0), (2, 0), (3, 0), (4, 0), (5, 0)],
        vec![(1, 1), (2, 1), (3, 1), (4, 1), (5, 1)],
        vec![(1, 2), (2, 2), (3, 2), (4, 2), (5, 2)],
        vec![(1, 3), (2, 3), (3, 3), (4, 3), (5, 3)],
        vec![(0, 1), (0, 2), (0, 3), (6, 1), (7, 1)],
        vec![(6, 2), (7, 2), (6, 3), (7, 3), (6, 0)],
    ];
    for seed in 0..20 {
        let mut rng = StdRng::seed_from_u64(seed);
        let next = generation(&map, population.clone(), 2, u32::MAX, &mut rng).unwrap();
        assert_eq!(next.len(), 6);
        for pair in next[2..].chunks(2) {
            let one = &pair[0];
            let other = &pair[1];
            assert_eq!(one.len(), 5);
            assert_eq!(other.len(), 5);
            let first = population
                .iter()
                .position(|c| one[..2].iter().all(|p| c.contains(p)))
                .unwrap();
            let second = population
                .iter()
                .position(|c| one[2..].iter().all(|p| c.contains(p)))
                .unwrap();
            assert!(other[..2].iter().all(|p| population[second].contains(p)));
            assert!(other[2..].iter().all(|p| population[first].contains(p)));
            let mut together: Vec<Point> = one.iter().chain(other.iter()).copied().collect();
            together.sort();
            let mut parents: Vec<Point> = population[first]
                .iter()
                .chain(population[second].iter())
                .copied()
                .collect();
            parents.sort();
            assert_eq!(together, parents);
        }
    }
}

#[test]
fn walls_never_shorten_the_route_without_ice() {
    let map = grid("-    \n ##  \n     \n  # +");
    let free = fitness(&map, &Vec::new());
    assert_eq!(free, 8);
    let mut rng = StdRng::seed_from_u64(37);
    let population = init_population(&map, 60, 3, &mut rng).unwrap();
    let mut blocked = 0;
    let mut longer = 0;
    for walls in &population {
        let score = fitness(&map, walls);
        if score == 0 {
            blocked += 1;
        } else {
            assert!(score >= free);
            if score > free {
                longer += 1;
            }
        }
    }
    assert!(blocked + longer > 0);
}
