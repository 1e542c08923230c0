//! The evolutionary search for walls: candidate wall placements, their
//! fitness, and the step from one generation to the next.
use crate::grid::{find_tile, in_bounds, points_with, terrain, tile_at, well_formed};
use crate::grid::{lemma_points_distinct, lemma_points_with, Grid, Point, Terrain};
use crate::journey::lemma_solve;
use crate::path::{checkpoint_ids, solve, solve_spec};
use crate::route::walkable;
use crate::shortest::{lemma_solve_shortest, no_ice};
use crate::tiles::Tile;
use rand::seq::SliceRandom;
use rand::RngCore;
use vstd::prelude::*;
use vstd::seq_lib::{to_multiset_contains, to_multiset_len};

verus! {

/// A candidate: the points where walls are added to the grid.
pub type Solution = Vec<Point>;

/// The candidates of one generation.
pub type Population = Vec<Solution>;

/// The random number generator that every random choice draws from. Nothing
/// is known of what it returns.
#[verifier::external_type_specification]
#[verifier::external_body]
pub struct ExStdRng(rand::rngs::StdRng);

/// A setting that an optimization cannot run with.
#[derive(Debug, Clone, Copy, PartialEq, Eq, Structural)]
pub enum ConfigError {
    /// More walls were asked for than the grid has empty tiles.
    TooManyWalls,
    /// More elites were asked for than the population has candidates.
    TooManyElites,
}

/// Every point lies inside the grid on an empty tile.
pub open spec fn valid_placement(t: Terrain, walls: Seq<Point>) -> bool {
    forall|i: int|
        0 <= i < walls.len() ==> in_bounds(t, #[trigger] walls[i]) && tile_at(t, walls[i])
            == Tile::Empty
}

/// The grid with a wall on every point of `walls`.
pub open spec fn walled(t: Terrain, walls: Seq<Point>) -> Terrain {
    Seq::new(
        t.len(),
        |y: int|
            Seq::new(
                t[y].len(),
                |x: int|
                    if walls.contains((x as i8, y as i8)) {
                        Tile::Wall
                    } else {
                        t[y][x]
                    },
            ),
    )
}

/// The length of the route through the grid with the walls added, 0 where
/// there is no route.
pub open spec fn fitness_spec(t: Terrain, walls: Seq<Point>) -> nat {
    match solve_spec(walled(t, walls)) {
        Some(path) => path.len(),
        None => 0,
    }
}

/// Walls change no dimension of the grid.
pub proof fn lemma_walled_shape(t: Terrain, walls: Seq<Point>)
    requires
        well_formed(t),
    ensures
        well_formed(walled(t, walls)),
        walled(t, walls).len() == t.len(),
        forall|p: Point| in_bounds(walled(t, walls), p) == in_bounds(t, p),
{
    let w = walled(t, walls);
    if t.len() > 0 {
        assert(w[0].len() == t[0].len());
    }
    assert forall|y: int| 0 <= y < w.len() implies (#[trigger] w[y]).len() == crate::grid::width(
        w,
    ) by {
        assert(t[y].len() == crate::grid::width(t));
    }
}

/// Without walls the grid stays as it is, so the fitness of no walls is the
/// length of the route through the grid itself.
pub proof fn lemma_no_walls(t: Terrain)
    ensures
        walled(t, Seq::empty()) == t,
        fitness_spec(t, Seq::empty()) == match solve_spec(t) {
            Some(path) => path.len(),
            None => 0,
        },
{
    let w = walled(t, Seq::empty());
    assert forall|y: int| 0 <= y < t.len() implies #[trigger] w[y] == t[y] by {
        assert(w[y] =~= t[y]);
    }
    assert(w =~= t);
}

/// The fitness is 0 exactly where the walls leave no route.
pub proof fn lemma_fitness_zero(t: Terrain, walls: Seq<Point>)
    requires
        well_formed(t),
    ensures
        fitness_spec(t, walls) == 0 <==> solve_spec(walled(t, walls)) is None,
{
    lemma_walled_shape(t, walls);
    if solve_spec(walled(t, walls)) is Some {
        lemma_solve(walled(t, walls));
    }
}

/// On a grid without ice and without checkpoints walls never shorten the
/// route: a candidate that leaves a route scores no less than no walls at
/// all, and no walls leave a route too.
pub proof fn lemma_walls_lengthen(t: Terrain, walls: Seq<Point>)
    requires
        well_formed(t),
        no_ice(t),
        checkpoint_ids(t).len() == 0,
        fitness_spec(t, walls) > 0,
    ensures
        0 < fitness_spec(t, Seq::empty()) <= fitness_spec(t, walls),
{
    let w = walled(t, walls);
    lemma_walled_shape(t, walls);
    lemma_no_walls(t);
    lemma_solve(w);
    let route = solve_spec(w)->0;
    assert forall|i: int| 0 <= i < route.len() implies in_bounds(t, #[trigger] route[i]) && (
    tile_at(w, route[i]) != Tile::Wall ==> tile_at(t, route[i]) == tile_at(w, route[i])) by {
        assert(in_bounds(w, route[i]));
        assert(t[route[i].1 as int].len() == crate::grid::width(t));
    }
    assert(walkable(t, route));
    assert(in_bounds(w, route[0]));
    assert(in_bounds(w, route[route.len() - 1]));
    lemma_solve_shortest(t, route);
    lemma_solve(t);
    assert(fitness_spec(t, walls) == route.len());
    assert(fitness_spec(t, Seq::empty()) == solve_spec(t)->0.len());
}

/// Lists the points where a wall may be placed: the empty tiles, in reading
/// order.
pub fn valid_walls(map: &Grid) -> (walls: Solution)
    requires
        well_formed(terrain(map)),
    ensures
        walls@ == points_with(terrain(map), Tile::Empty),
        valid_placement(terrain(map), walls@),
        walls@.no_duplicates(),
{
    let walls = find_tile(map, &Tile::Empty);
    proof {
        lemma_points_distinct(terrain(map), Tile::Empty);
        assert forall|i: int| 0 <= i < walls@.len() implies in_bounds(
            terrain(map),
            #[trigger] walls@[i],
        ) && tile_at(terrain(map), walls@[i]) == Tile::Empty by {
            lemma_points_with(terrain(map), Tile::Empty, walls@[i]);
        }
    }
    walls
}

/// Whether every point lies inside the grid on an empty tile.
pub fn is_valid_placement(map: &Grid, solution: &Solution) -> (ok: bool)
    requires
        well_formed(terrain(map)),
    ensures
        ok == valid_placement(terrain(map), solution@),
{
    let mut i: usize = 0;
    while i < solution.len()
        invariant
            i <= solution.len(),
            well_formed(terrain(map)),
            forall|j: int|
                0 <= j < i ==> in_bounds(terrain(map), #[trigger] solution@[j]) && tile_at(
                    terrain(map),
                    solution@[j],
                ) == Tile::Empty,
        decreases solution.len() - i,
    {
        let p = solution[i];
        if !crate::grid::contains_point(map, p) || crate::grid::get_tile(map, p) != Tile::Empty {
            return false;
        }
        i += 1;
    }
    true
}

/// Scores a candidate: the length of the route through the grid with the
/// candidate's walls added, 0 where they leave no route.
pub fn fitness(map: &Grid, solution: &Solution) -> (score: usize)
    requires
        well_formed(terrain(map)),
        valid_placement(terrain(map), solution@),
    ensures
        score == fitness_spec(terrain(map), solution@),
        score == 0 <==> solve_spec(walled(terrain(map), solution@)) is None,
{
    let ghost t = terrain(map);
    let mut working_map = map.clone();
    assert(terrain(&working_map) =~~= walled(t, solution@.take(0))) by {
        assert forall|y: int| 0 <= y < t.len() implies #[trigger] terrain(&working_map)[y] =~= walled(
            t,
            solution@.take(0),
        )[y] by {}
    }
    let mut i: usize = 0;
    while i < solution.len()
        invariant
            i <= solution.len(),
            t == terrain(map),
            well_formed(t),
            valid_placement(t, solution@),
            terrain(&working_map) == walled(t, solution@.take(i as int)),
        decreases solution.len() - i,
    {
        let point = solution[i];
        let ghost before = terrain(&working_map);
        proof {
            lemma_walled_shape(t, solution@.take(i as int));
            assert(in_bounds(t, solution@[i as int]));
            assert(before[point.1 as int].len() == t[point.1 as int].len());
        }
        working_map[point.1 as usize][point.0 as usize] = Tile::Wall;
        proof {
            let after = terrain(&working_map);
            let more = solution@.take(i + 1);
            let fewer = solution@.take(i as int);
            assert(more =~= fewer.push(point));
            assert(after.len() == before.len());
            assert(after[point.1 as int] == before[point.1 as int].update(
                point.0 as int,
                Tile::Wall,
            ));
            assert forall|y: int| 0 <= y < t.len() && y != point.1 implies after[y] == before[y] by {}
            assert forall|y: int| 0 <= y < t.len() implies #[trigger] after[y] =~= walled(t, more)[y] by {
                assert(before[y].len() == t[y].len());
                assert forall|x: int| 0 <= x < t[y].len() implies after[y][x] == walled(
                    t,
                    more,
                )[y][x] by {
                    let c: Point = (x as i8, y as i8);
                    assert(t[y].len() == crate::grid::width(t));
                    assert(before[y][x] == walled(t, fewer)[y][x]);
                    if c == point {
                        assert(more[i as int] == c);
                    } else {
                        if more.contains(c) {
                            let k = choose|k: int| 0 <= k < more.len() && more[k] == c;
                            assert(fewer[k] == c);
                        }
                        if fewer.contains(c) {
                            let k = choose|k: int| 0 <= k < fewer.len() && fewer[k] == c;
                            assert(more[k] == c);
                        }
                    }
                }
            }
            assert(after =~= walled(t, more));
        }
        i += 1;
    }
    proof {
        assert(solution@.take(solution@.len() as int) =~= solution@);
        lemma_walled_shape(t, solution@);
        lemma_fitness_zero(t, solution@);
    }
    match solve(&working_map) {
        None => 0,
        Some(path) => path.len(),
    }
}

/// The same points, in any order.
pub open spec fn rearranged(a: Seq<Point>, b: Seq<Point>) -> bool {
    a.to_multiset() == b.to_multiset()
}

/// Rearranged sequences have the same length and the same members.
pub proof fn lemma_rearranged(a: Seq<Point>, b: Seq<Point>)
    requires
        rearranged(a, b),
    ensures
        a.len() == b.len(),
        forall|p: Point| a.contains(p) <==> b.contains(p),
{
    to_multiset_len(a);
    to_multiset_len(b);
    assert forall|p: Point| a.contains(p) <==> b.contains(p) by {
        to_multiset_contains(a, p);
        to_multiset_contains(b, p);
    }
}

/// `rand::seq::SliceRandom::shuffle` on a slice of points. It only swaps
/// elements, so the points after the call are the points before it in some
/// order; which order is not known.
#[verifier::external_body]
fn shuffle_points(points: &mut Vec<Point>, rng: &mut rand::rngs::StdRng)
    ensures
        rearranged(final(points)@, old(points)@),
{
    points.shuffle(rng);
}

/// `rand::seq::SliceRandom::choose` on a slice. It returns `None` for an
/// empty slice and otherwise a reference to one of the elements; which one
/// is not known.
#[verifier::external_body]
fn choose_from<'a, T>(items: &'a Vec<T>, rng: &mut rand::rngs::StdRng) -> (picked: Option<&'a T>)
    ensures
        items@.len() == 0 ==> picked is None,
        items@.len() > 0 ==> picked is Some && items@.contains(*picked->0),
{
    items.choose(rng)
}

/// `rand::RngCore::next_u32`. Any value may come back.
#[verifier::external_body]
fn next_draw(rng: &mut rand::rngs::StdRng) -> (draw: u32) {
    rng.next_u32()
}

fn copy_points(points: &Vec<Point>) -> (copy: Vec<Point>)
    ensures
        copy@ == points@,
{
    let mut copy: Vec<Point> = Vec::new();
    let mut i: usize = 0;
    while i < points.len()
        invariant
            i <= points.len(),
            copy@ == points@.take(i as int),
        decreases points.len() - i,
    {
        copy.push(points[i]);
        assert(points@.take(i as int).push(points@[i as int]) =~= points@.take(i + 1));
        i += 1;
    }
    assert(points@.take(points.len() as int) =~= points@);
    copy
}

/// `sample` holds `count` points drawn from `pool` without replacement: it
/// is the beginning of `pool` in some order.
pub open spec fn sample_of(pool: Seq<Point>, count: int, sample: Seq<Point>) -> bool {
    exists|order: Seq<Point>| #[trigger] rearranged(order, pool) && sample == order.take(count)
}

/// Every point of a sample comes from the pool, and a pool without repeated
/// points gives a sample without repeated points.
pub proof fn lemma_sample(pool: Seq<Point>, count: int, sample: Seq<Point>)
    requires
        0 <= count <= pool.len(),
        sample_of(pool, count, sample),
    ensures
        sample.len() == count,
        forall|i: int| 0 <= i < sample.len() ==> pool.contains(#[trigger] sample[i]),
        pool.no_duplicates() ==> sample.no_duplicates(),
{
    let order = choose|order: Seq<Point>| #[trigger]
        rearranged(order, pool) && sample == order.take(count);
    lemma_rearranged(order, pool);
    assert forall|i: int| 0 <= i < sample.len() implies pool.contains(#[trigger] sample[i]) by {
        assert(order[i] == sample[i]);
        assert(order.contains(sample[i]));
    }
    if pool.no_duplicates() {
        pool.lemma_multiset_has_no_duplicates();
        order.lemma_multiset_has_no_duplicates_conv();
        assert forall|i: int, j: int|
            0 <= i < sample.len() && 0 <= j < sample.len() && i != j implies sample[i]
            != sample[j] by {
            assert(order[i] != order[j]);
        }
    }
}

/// Draws `wall_count` points from `valid_walls` at random, without
/// replacement.
pub fn random_solution(valid_walls: &Solution, wall_count: usize, rng: &mut rand::rngs::StdRng) -> (walls:
    Solution)
    requires
        wall_count <= valid_walls.len(),
    ensures
        sample_of(valid_walls@, wall_count as int, walls@),
        walls@.len() == wall_count,
        forall|i: int| 0 <= i < walls@.len() ==> valid_walls@.contains(#[trigger] walls@[i]),
        valid_walls@.no_duplicates() ==> walls@.no_duplicates(),
{
    let mut walls = copy_points(valid_walls);
    shuffle_points(&mut walls, rng);
    let ghost order = walls@;
    proof {
        lemma_rearranged(order, valid_walls@);
    }
    walls.truncate(wall_count);
    proof {
        assert(walls@ =~= order.take(wall_count as int));
        assert(rearranged(order, valid_walls@));
        lemma_sample(valid_walls@, wall_count as int, walls@);
    }
    walls
}

/// The candidates of a population, as sequences of points.
pub open spec fn solutions(population: &Population) -> Seq<Seq<Point>> {
    Seq::new(population@.len(), |i: int| population@[i]@)
}

/// Every candidate places its walls on empty tiles inside the grid.
pub open spec fn all_valid(t: Terrain, population: Seq<Seq<Point>>) -> bool {
    forall|i: int| 0 <= i < population.len() ==> valid_placement(t, #[trigger] population[i])
}

/// Every candidate has `count` points.
pub open spec fn all_of_length(population: Seq<Seq<Point>>, count: int) -> bool {
    forall|i: int| 0 <= i < population.len() ==> (#[trigger] population[i]).len() == count
}

/// Makes the first generation: `size` candidates, each `wall_count` points
/// drawn at random without replacement from the empty tiles of the grid.
/// More walls than the grid has empty tiles are refused.
pub fn init_population(map: &Grid, size: usize, wall_count: usize, rng: &mut rand::rngs::StdRng) -> (made:
    Result<Population, ConfigError>)
    requires
        well_formed(terrain(map)),
    ensures
        made is Ok <==> wall_count <= points_with(terrain(map), Tile::Empty).len(),
        made matches Err(e) ==> e == ConfigError::TooManyWalls,
        made matches Ok(population) ==> {
            &&& population@.len() == size
            &&& all_of_length(solutions(&population), wall_count as int)
            &&& all_valid(terrain(map), solutions(&population))
            &&& forall|i: int|
                0 <= i < size ==> sample_of(
                    points_with(terrain(map), Tile::Empty),
                    wall_count as int,
                    #[trigger] solutions(&population)[i],
                ) && solutions(&population)[i].no_duplicates()
        },
{
    let ghost t = terrain(map);
    let pool = valid_walls(map);
    if wall_count > pool.len() {
        return Err(ConfigError::TooManyWalls);
    }
    let mut population: Population = Vec::new();
    let mut i: usize = 0;
    while i < size
        invariant
            i <= size,
            t == terrain(map),
            pool@ == points_with(t, Tile::Empty),
            valid_placement(t, pool@),
            wall_count <= pool@.len(),
            population@.len() == i,
            all_of_length(solutions(&population), wall_count as int),
            all_valid(t, solutions(&population)),
            pool@.no_duplicates(),
            forall|k: int|
                0 <= k < i ==> sample_of(pool@, wall_count as int, #[trigger] solutions(&population)[k])
                    && solutions(&population)[k].no_duplicates(),
        decreases size - i,
    {
        let ghost earlier = solutions(&population);
        let walls = random_solution(&pool, wall_count, rng);
        proof {
            assert forall|j: int| 0 <= j < walls@.len() implies in_bounds(t, #[trigger] walls@[j])
                && tile_at(t, walls@[j]) == Tile::Empty by {
                let k = choose|k: int| 0 <= k < pool@.len() && pool@[k] == walls@[j];
                assert(in_bounds(t, pool@[k]));
            }
        }
        let ghost added = walls@;
        population.push(walls);
        proof {
            assert(solutions(&population) =~= earlier.push(added));
        }
        i += 1;
    }
    Ok(population)
}

/// The child of a crossover: the first half of `first`, counted in points
/// and rounded down, and behind it `second` without its first points, as many
/// as were taken from `first`. Nothing is removed: a point that both hold may
/// stand in the child twice.
pub open spec fn crossed(first: Seq<Point>, second: Seq<Point>) -> Seq<Point> {
    first.take((first.len() / 2) as int) + second.skip((first.len() / 2) as int)
}

/// Crosses two parents.
pub fn cross(parent1: &Solution, parent2: &Solution) -> (child: Solution)
    requires
        parent1@.len() / 2 <= parent2@.len(),
    ensures
        child@ == crossed(parent1@, parent2@),
{
    let half = parent1.len() / 2;
    let mut child: Solution = Vec::new();
    let mut i: usize = 0;
    while i < half
        invariant
            i <= half,
            half == parent1@.len() / 2,
            child@ == parent1@.take(i as int),
        decreases half - i,
    {
        child.push(parent1[i]);
        assert(parent1@.take(i as int).push(parent1@[i as int]) =~= parent1@.take(i + 1));
        i += 1;
    }
    let mut j: usize = half;
    while j < parent2.len()
        invariant
            half <= j <= parent2.len(),
            half == parent1@.len() / 2,
            child@ == parent1@.take(half as int) + parent2@.subrange(half as int, j as int),
        decreases parent2.len() - j,
    {
        child.push(parent2[j]);
        assert(parent2@.subrange(half as int, j as int).push(parent2@[j as int])
            =~= parent2@.subrange(half as int, j + 1));
        j += 1;
    }
    assert(parent2@.subrange(half as int, parent2@.len() as int) =~= parent2@.skip(half as int));
    child
}

/// `child` is `order`, or `order` with its last point replaced by a point of
/// `pool`.
pub open spec fn replaced_last(order: Seq<Point>, pool: Seq<Point>, child: Seq<Point>) -> bool {
    child == order || (order.len() > 0 && child.len() == order.len() && child.drop_last()
        == order.drop_last() && pool.contains(child.last()))
}

/// What a mutation may make of `base`: the same points in some order, the
/// last of them replaced by a point of `pool` or not.
pub open spec fn mutation_of(base: Seq<Point>, pool: Seq<Point>, child: Seq<Point>) -> bool {
    exists|order: Seq<Point>| #[trigger] rearranged(order, base) && replaced_last(order, pool, child)
}

/// A mutation keeps the number of points, and every point it leaves comes
/// from what was mutated or from the pool.
pub proof fn lemma_mutation(base: Seq<Point>, pool: Seq<Point>, child: Seq<Point>)
    requires
        mutation_of(base, pool, child),
    ensures
        child.len() == base.len(),
        forall|i: int|
            0 <= i < child.len() ==> base.contains(#[trigger] child[i]) || pool.contains(child[i]),
{
    let order = choose|order: Seq<Point>| #[trigger]
        rearranged(order, base) && replaced_last(order, pool, child);
    lemma_rearranged(order, base);
    assert forall|i: int| 0 <= i < child.len() implies base.contains(#[trigger] child[i])
        || pool.contains(child[i]) by {
        if child == order {
            assert(order.contains(order[i]));
        } else if i < child.len() - 1 {
            assert(child[i] == child.drop_last()[i]);
            assert(order[i] == order.drop_last()[i]);
            assert(order.contains(order[i]));
        }
    }
}

/// Puts `point` in the place of the last point; a candidate without points
/// stays without.
pub fn replace_last(child: &mut Solution, point: Point)
    ensures
        old(child)@.len() == 0 ==> final(child)@ == old(child)@,
        old(child)@.len() > 0 ==> final(child)@ == old(child)@.drop_last().push(point),
{
    if child.len() > 0 {
        child.pop();
        child.push(point);
    }
}

/// A mutation replaces the last point again and again while the draws keep
/// exceeding the threshold, but no more often than this.
pub const REPLACEMENT_LIMIT: u32 = 4294967295;

/// Whether a draw calls for a mutation: it does when it exceeds the
/// threshold. No draw exceeds the largest threshold.
pub fn draw_mutates(draw: u32, mutation_threshold: u32) -> (yes: bool)
    ensures
        yes == (draw > mutation_threshold),
        mutation_threshold == u32::MAX ==> !yes,
{
    draw > mutation_threshold
}

/// Crosses two parents and mutates the child at random. The child is mutated
/// if a draw exceeds `mutation_threshold`: its points are shuffled, and then,
/// as long as a further draw exceeds the threshold, its last point is
/// replaced by a point chosen from `valid_walls`. With the largest threshold
/// the child is never mutated.
pub fn splice(
    parent1: &Solution,
    parent2: &Solution,
    mutation_threshold: u32,
    valid_walls: &Solution,
    rng: &mut rand::rngs::StdRng,
) -> (child: Solution)
    requires
        parent1@.len() / 2 <= parent2@.len(),
    ensures
        mutation_of(crossed(parent1@, parent2@), valid_walls@, child@),
        child@.len() == crossed(parent1@, parent2@).len(),
        forall|i: int|
            0 <= i < child@.len() ==> crossed(parent1@, parent2@).contains(#[trigger] child@[i])
                || valid_walls@.contains(child@[i]),
        mutation_threshold == u32::MAX ==> child@ == crossed(parent1@, parent2@),
{
    let mut child = cross(parent1, parent2);
    let ghost base = child@;
    let ghost order = child@;
    let first_draw = next_draw(rng);
    if draw_mutates(first_draw, mutation_threshold) {
        shuffle_points(&mut child, rng);
        proof {
            order = child@;
        }
        let mut rounds: u32 = 0;
        let mut drawing = true;
        while drawing && rounds < REPLACEMENT_LIMIT
            invariant
                rearranged(order, base),
                replaced_last(order, valid_walls@, child@),
            decreases REPLACEMENT_LIMIT - rounds + (if drawing { 1int } else { 0int }),
        {
            let draw = next_draw(rng);
            if draw_mutates(draw, mutation_threshold) {
                match choose_from(valid_walls, rng) {
                    Some(point) => {
                        let ghost before = child@;
                        replace_last(&mut child, *point);
                        proof {
                            if before.len() > 0 {
                                assert(child@.drop_last() =~= before.drop_last());
                                assert(child@.last() == *point);
                            }
                        }
                    },
                    None => {},
                }
                rounds += 1;
            } else {
                drawing = false;
            }
        }
    }
    proof {
        assert(rearranged(order, base));
        lemma_mutation(base, valid_walls@, child@);
    }
    child
}

/// Picks a candidate at random, each with the same chance, and hands out a
/// copy with its points shuffled.
pub fn get_parent(population: &Population, rng: &mut rand::rngs::StdRng) -> (parent: Solution)
    requires
        population@.len() > 0,
    ensures
        exists|i: int|
            0 <= i < population@.len() && rearranged(parent@, #[trigger] solutions(population)[i]),
{
    match choose_from(population, rng) {
        Some(picked) => {
            let mut parent = copy_points(picked);
            proof {
                let i = choose|i: int| 0 <= i < population@.len() && population@[i] == *picked;
                assert(solutions(population)[i] == parent@);
            }
            shuffle_points(&mut parent, rng);
            parent
        },
        None => vstd::pervasive::unreached(),
    }
}

/// Candidate `a` stands before candidate `b` when the population is ranked:
/// it scores higher, or it scores the same and came later.
pub open spec fn outranks(scores: Seq<nat>, a: int, b: int) -> bool {
    scores[a] > scores[b] || (scores[a] == scores[b] && a > b)
}

/// `order` lists the first `n` candidates by index, each once, best first.
pub open spec fn ranks_first(scores: Seq<nat>, n: int, order: Seq<int>) -> bool {
    &&& order.len() == n
    &&& forall|i: int| 0 <= i < order.len() ==> 0 <= #[trigger] order[i] < n
    &&& forall|i: int, j: int|
        0 <= i < j < order.len() ==> outranks(scores, #[trigger] order[i], #[trigger] order[j])
}

/// `order` lists every candidate by index, each once, best first. There is
/// one such order.
pub open spec fn is_ranking(scores: Seq<nat>, order: Seq<int>) -> bool {
    ranks_first(scores, scores.len() as int, order)
}

/// The fitness of each candidate.
pub open spec fn scores(t: Terrain, population: Seq<Seq<Point>>) -> Seq<nat> {
    Seq::new(population.len(), |i: int| fitness_spec(t, population[i]))
}

/// Ranks candidates by their scores: the indices, best first, and among
/// equal scores the later candidate first.
pub fn rank(keys: &Vec<usize>) -> (order: Vec<usize>)
    ensures
        is_ranking(keys@.map_values(|k: usize| k as nat), order@.map_values(|i: usize| i as int)),
{
    let ghost scores = keys@.map_values(|k: usize| k as nat);
    let mut order: Vec<usize> = Vec::new();
    let mut n: usize = 0;
    while n < keys.len()
        invariant
            n <= keys.len(),
            scores == keys@.map_values(|k: usize| k as nat),
            ranks_first(scores, n as int, order@.map_values(|i: usize| i as int)),
        decreases keys.len() - n,
    {
        let ghost before = order@.map_values(|i: usize| i as int);
        let mut at: usize = 0;
        let mut scanning = true;
        while scanning && at < order.len()
            invariant
                at <= order.len(),
                n < keys.len(),
                scores == keys@.map_values(|k: usize| k as nat),
                before == order@.map_values(|i: usize| i as int),
                ranks_first(scores, n as int, before),
                forall|j: int| 0 <= j < at ==> scores[#[trigger] before[j]] > scores[n as int],
                !scanning ==> at < order.len() && scores[before[at as int]] <= scores[n as int],
            decreases order.len() - at + (if scanning { 1int } else { 0int }),
        {
            assert(0 <= before[at as int] < n);
            if keys[order[at]] > keys[n] {
                at += 1;
            } else {
                scanning = false;
            }
        }
        order.insert(at, n);
        proof {
            let after = order@.map_values(|i: usize| i as int);
            assert(after =~= before.insert(at as int, n as int));
            assert forall|i: int| 0 <= i < after.len() implies 0 <= #[trigger] after[i] < n + 1 by {
                if i < at {
                    assert(after[i] == before[i]);
                } else if i > at {
                    assert(after[i] == before[i - 1]);
                }
            }
            assert forall|i: int, j: int| 0 <= i < j < after.len() implies outranks(
                scores,
                #[trigger] after[i],
                #[trigger] after[j],
            ) by {
                if j < at {
                    assert(after[i] == before[i] && after[j] == before[j]);
                } else if j == at {
                    assert(after[i] == before[i]);
                } else if i == at {
                    assert(after[j] == before[j - 1]);
                    assert(0 <= before[j - 1] < n);
                    if j - 1 > at {
                        assert(outranks(scores, before[at as int], before[j - 1]));
                    }
                } else if i < at {
                    assert(after[i] == before[i] && after[j] == before[j - 1]);
                } else {
                    assert(after[i] == before[i - 1] && after[j] == before[j - 1]);
                }
            }
        }
        n += 1;
    }
    order
}

/// Every candidate has as many points as every other.
pub open spec fn uniform(population: Seq<Seq<Point>>) -> bool {
    forall|i: int, j: int|
        0 <= i < population.len() && 0 <= j < population.len() ==> (#[trigger] population[i]).len()
            == (#[trigger] population[j]).len()
}

/// `child` may come from a crossover in `population`: two candidates were
/// picked, each had its points shuffled, the two were crossed, and the child
/// was mutated or not, with points of `pool`.
pub open spec fn is_child(population: Seq<Seq<Point>>, pool: Seq<Point>, child: Seq<Point>) -> bool {
    exists|a: int, b: int, first: Seq<Point>, second: Seq<Point>|
        0 <= a < population.len() && 0 <= b < population.len() && #[trigger] rearranged(
            first,
            population[a],
        ) && #[trigger] rearranged(second, population[b]) && mutation_of(
            crossed(first, second),
            pool,
            child,
        )
}

/// `child` is the plain crossover of two shuffled candidates of
/// `population`, not mutated.
pub open spec fn is_plain_child(population: Seq<Seq<Point>>, child: Seq<Point>) -> bool {
    exists|a: int, b: int, first: Seq<Point>, second: Seq<Point>|
        0 <= a < population.len() && 0 <= b < population.len() && #[trigger] rearranged(
            first,
            population[a],
        ) && #[trigger] rearranged(second, population[b]) && child == crossed(first, second)
}

/// `one` and `other` are the two plain crossovers of the same two shuffled
/// candidates of `population`, not mutated: `one` of the first and the
/// second, `other` of the second and the first.
pub open spec fn are_plain_siblings(
    population: Seq<Seq<Point>>,
    one: Seq<Point>,
    other: Seq<Point>,
) -> bool {
    exists|a: int, b: int, first: Seq<Point>, second: Seq<Point>|
        0 <= a < population.len() && 0 <= b < population.len() && #[trigger] rearranged(
            first,
            population[a],
        ) && #[trigger] rearranged(second, population[b]) && one == crossed(first, second)
            && other == crossed(second, first)
}

/// `one` and `other` may be the two children of one crossover in
/// `population`: two candidates were picked, each had its points shuffled,
/// `one` was crossed from the first and the second, `other` from the second
/// and the first, and each was mutated or not, with points of `pool`.
pub open spec fn are_siblings(
    population: Seq<Seq<Point>>,
    pool: Seq<Point>,
    one: Seq<Point>,
    other: Seq<Point>,
) -> bool {
    exists|a: int, b: int, first: Seq<Point>, second: Seq<Point>|
        0 <= a < population.len() && 0 <= b < population.len() && #[trigger] rearranged(
            first,
            population[a],
        ) && #[trigger] rearranged(second, population[b]) && mutation_of(
            crossed(first, second),
            pool,
            one,
        ) && mutation_of(crossed(second, first), pool, other)
}

/// Each of two siblings is a child.
pub proof fn lemma_siblings(
    population: Seq<Seq<Point>>,
    pool: Seq<Point>,
    one: Seq<Point>,
    other: Seq<Point>,
)
    requires
        are_siblings(population, pool, one, other),
    ensures
        is_child(population, pool, one),
        is_child(population, pool, other),
{
    let (a, b, first, second) = choose|a: int, b: int, first: Seq<Point>, second: Seq<Point>|
        0 <= a < population.len() && 0 <= b < population.len() && #[trigger] rearranged(
            first,
            population[a],
        ) && #[trigger] rearranged(second, population[b]) && mutation_of(
            crossed(first, second),
            pool,
            one,
        ) && mutation_of(crossed(second, first), pool, other);
    assert(rearranged(first, population[a]) && rearranged(second, population[b]));
    assert(rearranged(second, population[b]) && rearranged(first, population[a]));
}

/// What a crossover in a valid population of one length gives is valid and
/// has that length.
pub proof fn lemma_child(t: Terrain, population: Seq<Seq<Point>>, child: Seq<Point>)
    requires
        well_formed(t),
        all_valid(t, population),
        uniform(population),
        is_child(population, points_with(t, Tile::Empty), child),
    ensures
        valid_placement(t, child),
        forall|i: int| 0 <= i < population.len() ==> (#[trigger] population[i]).len() == child.len(),
{
    let pool = points_with(t, Tile::Empty);
    let (a, b, first, second) = choose|a: int, b: int, first: Seq<Point>, second: Seq<Point>|
        0 <= a < population.len() && 0 <= b < population.len() && #[trigger] rearranged(
            first,
            population[a],
        ) && #[trigger] rearranged(second, population[b]) && mutation_of(
            crossed(first, second),
            pool,
            child,
        );
    let base = crossed(first, second);
    let half = (first.len() / 2) as int;
    lemma_rearranged(first, population[a]);
    lemma_rearranged(second, population[b]);
    lemma_mutation(base, pool, child);
    assert(population[a].len() == population[b].len());
    assert(base.len() == first.len());
    assert forall|i: int| 0 <= i < population.len() implies (#[trigger] population[i]).len()
        == child.len() by {
        assert(population[i].len() == population[a].len());
    }
    assert forall|i: int| 0 <= i < child.len() implies in_bounds(t, #[trigger] child[i]) && tile_at(
        t,
        child[i],
    ) == Tile::Empty by {
        let p = child[i];
        if pool.contains(p) {
            lemma_points_with(t, Tile::Empty, p);
        } else {
            assert(base.contains(p));
            let k = choose|k: int| 0 <= k < base.len() && base[k] == p;
            if k < half {
                assert(first[k] == p);
                assert(first.contains(p));
                let m = choose|m: int| 0 <= m < population[a].len() && population[a][m] == p;
                assert(valid_placement(t, population[a]));
            } else {
                assert(second[k] == p);
                assert(second.contains(p));
                let m = choose|m: int| 0 <= m < population[b].len() && population[b][m] == p;
                assert(valid_placement(t, population[b]));
            }
        }
    }
}

/// Whether every candidate places its walls on empty tiles inside the grid
/// and has as many points as every other.
pub fn is_valid_population(map: &Grid, population: &Population) -> (ok: bool)
    requires
        well_formed(terrain(map)),
    ensures
        ok == (all_valid(terrain(map), solutions(population)) && uniform(solutions(population))),
{
    let mut i: usize = 0;
    while i < population.len()
        invariant
            i <= population.len(),
            well_formed(terrain(map)),
            forall|k: int|
                0 <= k < i ==> valid_placement(terrain(map), #[trigger] solutions(population)[k]),
            forall|k: int|
                0 <= k < i ==> (#[trigger] solutions(population)[k]).len() == solutions(
                    population,
                )[0].len(),
        decreases population.len() - i,
    {
        assert(solutions(population)[i as int] == population@[i as int]@);
        assert(solutions(population)[0] == population@[0]@);
        if !is_valid_placement(map, &population[i]) {
            return false;
        }
        if population[i].len() != population[0].len() {
            return false;
        }
        i += 1;
    }
    true
}

/// Makes the next generation. The candidates are ranked by fitness, best
/// first. The best `elite_count` are kept as they are. Behind them come the
/// children of crossovers, two from each pair of parents, as many pairs as
/// fill the places that are left; where an odd number of places is left, the
/// last stays empty and the generation is one candidate smaller. A child is
/// mutated when a draw exceeds `mutation_threshold`. More elites than there
/// are candidates are refused.
pub fn generation(
    map: &Grid,
    population: Population,
    elite_count: usize,
    mutation_threshold: u32,
    rng: &mut rand::rngs::StdRng,
) -> (made: Result<Population, ConfigError>)
    requires
        well_formed(terrain(map)),
        all_valid(terrain(map), solutions(&population)),
        uniform(solutions(&population)),
    ensures
        made is Ok <==> elite_count <= population@.len(),
        made matches Err(e) ==> e == ConfigError::TooManyElites,
        made matches Ok(next) ==> {
            &&& next@.len() == elite_count + 2 * ((population@.len() - elite_count) / 2)
            &&& all_valid(terrain(map), solutions(&next))
            &&& uniform(solutions(&next))
            &&& exists|order: Seq<int>|
                {
                    &&& #[trigger] is_ranking(scores(terrain(map), solutions(&population)), order)
                    &&& forall|k: int|
                        0 <= k < elite_count ==> #[trigger] solutions(&next)[k] == solutions(
                            &population,
                        )[order[k]]
                }
            &&& forall|k: int|
                elite_count <= k < next@.len() ==> is_child(
                    solutions(&population),
                    points_with(terrain(map), Tile::Empty),
                    #[trigger] solutions(&next)[k],
                )
            &&& forall|k: int|
                0 <= k < (population@.len() - elite_count) / 2 ==> are_siblings(
                    solutions(&population),
                    points_with(terrain(map), Tile::Empty),
                    #[trigger] solutions(&next)[elite_count + 2 * k],
                    solutions(&next)[elite_count + 2 * k + 1],
                )
            &&& mutation_threshold == u32::MAX ==> forall|k: int|
                elite_count <= k < next@.len() ==> is_plain_child(
                    solutions(&population),
                    #[trigger] solutions(&next)[k],
                )
            &&& mutation_threshold == u32::MAX ==> forall|k: int|
                0 <= k < (population@.len() - elite_count) / 2 ==> are_plain_siblings(
                    solutions(&population),
                    #[trigger] solutions(&next)[elite_count + 2 * k],
                    solutions(&next)[elite_count + 2 * k + 1],
                )
        },
{
    let ghost t = terrain(map);
    let ghost olds = solutions(&population);
    let n = population.len();
    if elite_count > n {
        return Err(ConfigError::TooManyElites);
    }
    let pool = valid_walls(map);
    let mut keys: Vec<usize> = Vec::new();
    let mut i: usize = 0;
    while i < n
        invariant
            i <= n,
            n == population@.len(),
            t == terrain(map),
            well_formed(t),
            olds == solutions(&population),
            all_valid(t, olds),
            keys@.len() == i,
            forall|k: int| 0 <= k < i ==> #[trigger] keys@[k] == fitness_spec(t, olds[k]),
        decreases n - i,
    {
        assert(valid_placement(t, olds[i as int]));
        let score = fitness(map, &population[i]);
        keys.push(score);
        i += 1;
    }
    let order = rank(&keys);
    let ghost ranking = order@.map_values(|i: usize| i as int);
    proof {
        assert(keys@.map_values(|k: usize| k as nat) =~= scores(t, olds));
    }
    let mut ranked: Population = Vec::new();
    let mut k: usize = 0;
    while k < n
        invariant
            k <= n,
            n == population@.len(),
            olds == solutions(&population),
            ranking == order@.map_values(|i: usize| i as int),
            is_ranking(scores(t, olds), ranking),
            ranked@.len() == k,
            forall|j: int| 0 <= j < k ==> #[trigger] solutions(&ranked)[j] == olds[ranking[j]],
        decreases n - k,
    {
        assert(0 <= ranking[k as int] < n);
        let ghost earlier = solutions(&ranked);
        let copy = copy_points(&population[order[k]]);
        let ghost added = copy@;
        ranked.push(copy);
        proof {
            assert(solutions(&ranked) =~= earlier.push(added));
        }
        k += 1;
    }
    let mut next: Population = Vec::new();
    let mut e: usize = 0;
    while e < elite_count
        invariant
            e <= elite_count <= n,
            ranked@.len() == n,
            next@.len() == e,
            forall|j: int| 0 <= j < e ==> #[trigger] solutions(&next)[j] == solutions(&ranked)[j],
        decreases elite_count - e,
    {
        let ghost earlier = solutions(&next);
        let copy = copy_points(&ranked[e]);
        let ghost added = copy@;
        next.push(copy);
        proof {
            assert(solutions(&next) =~= earlier.push(added));
        }
        e += 1;
    }
    let crossover_count = (n - elite_count) / 2;
    let ghost elites = solutions(&next);
    let mut c: usize = 0;
    while c < crossover_count
        invariant
            c <= crossover_count,
            crossover_count == (n - elite_count) / 2,
            elite_count <= n,
            n == olds.len(),
            ranked@.len() == n,
            forall|j: int| 0 <= j < n ==> #[trigger] solutions(&ranked)[j] == olds[ranking[j]],
            is_ranking(scores(t, olds), ranking),
            uniform(olds),
            pool@ == points_with(t, Tile::Empty),
            next@.len() == elite_count + 2 * c,
            forall|j: int| 0 <= j < elite_count ==> #[trigger] solutions(&next)[j] == elites[j],
            forall|j: int|
                elite_count <= j < next@.len() ==> is_child(olds, pool@, #[trigger] solutions(&next)[j]),
            forall|j: int|
                0 <= j < c ==> are_siblings(
                    olds,
                    pool@,
                    #[trigger] solutions(&next)[elite_count + 2 * j],
                    solutions(&next)[elite_count + 2 * j + 1],
                ),
            mutation_threshold == u32::MAX ==> forall|j: int|
                elite_count <= j < next@.len() ==> is_plain_child(
                    olds,
                    #[trigger] solutions(&next)[j],
                ),
            mutation_threshold == u32::MAX ==> forall|j: int|
                0 <= j < c ==> are_plain_siblings(
                    olds,
                    #[trigger] solutions(&next)[elite_count + 2 * j],
                    solutions(&next)[elite_count + 2 * j + 1],
                ),
        decreases crossover_count - c,
    {
        let parent1 = get_parent(&ranked, rng);
        let parent2 = get_parent(&ranked, rng);
        proof {
            lemma_parents(olds, solutions(&ranked), ranking, parent1@, parent2@);
        }
        let child1 = splice(&parent1, &parent2, mutation_threshold, &pool, rng);
        let child2 = splice(&parent2, &parent1, mutation_threshold, &pool, rng);
        let ghost earlier = solutions(&next);
        let ghost first = child1@;
        let ghost second = child2@;
        next.push(child1);
        next.push(child2);
        proof {
            assert(solutions(&next) =~= earlier.push(first).push(second));
            assert(are_siblings(olds, pool@, first, second));
            lemma_siblings(olds, pool@, first, second);
            assert forall|j: int| 0 <= j < c + 1 implies are_siblings(
                olds,
                pool@,
                #[trigger] solutions(&next)[elite_count + 2 * j],
                solutions(&next)[elite_count + 2 * j + 1],
            ) by {
                if j < c {
                    assert(solutions(&next)[elite_count + 2 * j] == earlier[elite_count + 2 * j]);
                    assert(solutions(&next)[elite_count + 2 * j + 1] == earlier[elite_count + 2 * j
                        + 1]);
                }
            }
            if mutation_threshold == u32::MAX {
                assert(are_plain_siblings(olds, first, second));
                assert(is_plain_child(olds, first));
                assert(is_plain_child(olds, second)) by {
                    let (a, b, one, other) = choose|
                        a: int,
                        b: int,
                        one: Seq<Point>,
                        other: Seq<Point>,
                    |
                        0 <= a < olds.len() && 0 <= b < olds.len() && #[trigger] rearranged(
                            one,
                            olds[a],
                        ) && #[trigger] rearranged(other, olds[b]) && first == crossed(one, other)
                            && second == crossed(other, one);
                    assert(rearranged(other, olds[b]) && rearranged(one, olds[a]));
                }
                assert forall|j: int| elite_count <= j < next@.len() implies is_plain_child(
                    olds,
                    #[trigger] solutions(&next)[j],
                ) by {
                    if j < earlier.len() {
                        assert(solutions(&next)[j] == earlier[j]);
                    }
                }
                assert forall|j: int| 0 <= j < c + 1 implies are_plain_siblings(
                    olds,
                    #[trigger] solutions(&next)[elite_count + 2 * j],
                    solutions(&next)[elite_count + 2 * j + 1],
                ) by {
                    if j < c {
                        assert(solutions(&next)[elite_count + 2 * j] == earlier[elite_count + 2
                            * j]);
                        assert(solutions(&next)[elite_count + 2 * j + 1] == earlier[elite_count
                            + 2 * j + 1]);
                    }
                }
            }
        }
        c += 1;
    }
    proof {
        let news = solutions(&next);
        assert forall|j: int| 0 <= j < news.len() implies valid_placement(t, #[trigger] news[j])
            && (forall|m: int| 0 <= m < olds.len() ==> (#[trigger] olds[m]).len() == news[j].len()) by {
            if j < elite_count {
                assert(news[j] == elites[j]);
                assert(elites[j] == solutions(&ranked)[j]);
                assert(news[j] == olds[ranking[j]]);
                assert(valid_placement(t, olds[ranking[j]]));
                assert forall|m: int| 0 <= m < olds.len() implies (#[trigger] olds[m]).len()
                    == news[j].len() by {
                    assert(olds[m].len() == olds[ranking[j]].len());
                }
            } else {
                lemma_child(t, olds, news[j]);
            }
        }
        assert forall|a: int, b: int| 0 <= a < news.len() && 0 <= b < news.len() implies (
        #[trigger] news[a]).len() == (#[trigger] news[b]).len() by {
            assert(olds.len() > 0);
            assert(olds[0].len() == news[a].len());
            assert(olds[0].len() == news[b].len());
        }
        assert forall|j: int| 0 <= j < elite_count implies #[trigger] news[j] == olds[ranking[j]] by {
            assert(news[j] == elites[j]);
            assert(elites[j] == solutions(&ranked)[j]);
        }
    }
    Ok(next)
}

/// Parents picked from the ranked population are parents from the population
/// as it was given, and can be crossed either way.
proof fn lemma_parents(
    olds: Seq<Seq<Point>>,
    ranked: Seq<Seq<Point>>,
    ranking: Seq<int>,
    parent1: Seq<Point>,
    parent2: Seq<Point>,
)
    requires
        uniform(olds),
        ranked.len() == olds.len(),
        ranking.len() == olds.len(),
        forall|j: int| 0 <= j < ranking.len() ==> 0 <= #[trigger] ranking[j] < olds.len(),
        forall|j: int| 0 <= j < olds.len() ==> #[trigger] ranked[j] == olds[ranking[j]],
        exists|i: int| 0 <= i < ranked.len() && rearranged(parent1, #[trigger] ranked[i]),
        exists|i: int| 0 <= i < ranked.len() && rearranged(parent2, #[trigger] ranked[i]),
    ensures
        parent1.len() == parent2.len(),
        exists|a: int| 0 <= a < olds.len() && rearranged(parent1, #[trigger] olds[a]),
        exists|b: int| 0 <= b < olds.len() && rearranged(parent2, #[trigger] olds[b]),
{
    let i = choose|i: int| 0 <= i < ranked.len() && rearranged(parent1, #[trigger] ranked[i]);
    let j = choose|j: int| 0 <= j < ranked.len() && rearranged(parent2, #[trigger] ranked[j]);
    lemma_rearranged(parent1, ranked[i]);
    lemma_rearranged(parent2, ranked[j]);
    assert(ranked[i] == olds[ranking[i]]);
    assert(ranked[j] == olds[ranking[j]]);
    assert(olds[ranking[i]].len() == olds[ranking[j]].len());
    assert(rearranged(parent1, olds[ranking[i]]));
    assert(rearranged(parent2, olds[ranking[j]]));
}

} // verus!
