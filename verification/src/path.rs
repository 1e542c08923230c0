//! The route search: a best-first search for one target tile, and the solver
//! that strings such searches together through the checkpoints to the exit.
use crate::frontier::{all_well_formed, enqueue, estimate, is_outpaced, outpaced, paths, push_node};
use crate::frontier::{lemma_enqueue_members, Node};
use crate::grid::{cells, find_tile, get_tile, in_bounds, points_with, terrain, tile_at, well_formed};
use crate::grid::{lemma_cells_finite, lemma_points_with, Grid, Point, Terrain};
use crate::moves::{lemma_slide, slide, slide_from, DIRECTIONS};
use crate::journey::{connected, leg_ends, lemma_solve, lemma_solve_connected, lemma_unsolvable};
use crate::route::{ice_respected, leg_reachable, lemma_shortest_path, sound, walkable};
use crate::shortest::{lemma_shortest, no_ice};
use crate::tiles::Tile;
use vstd::prelude::*;

verus! {

/// A route: the points walked, in order, each one step from the one before.
pub type Path = Vec<Point>;

/// The queue after the move from the end of `cur` in direction `d` was
/// considered. The move adds `cur` extended by the cells it enters, unless
/// there is no such move, or its end was expanded before, or the queue
/// already holds a path to that end which is no longer.
pub open spec fn visit(
    t: Terrain,
    targets: Seq<Point>,
    queue: Seq<Seq<Point>>,
    closed: Set<Point>,
    cur: Seq<Point>,
    d: int,
) -> Seq<Seq<Point>> {
    match slide(t, cur.last(), d) {
        None => queue,
        Some(trace) => {
            let path = cur + trace;
            if closed.contains(path.last()) || outpaced(queue, path.last(), path.len() as int) {
                queue
            } else {
                enqueue(targets, queue, path)
            }
        },
    }
}

/// The queue after the first `upto` directions from the end of `cur` were
/// considered, in their order.
pub open spec fn expand(
    t: Terrain,
    targets: Seq<Point>,
    queue: Seq<Seq<Point>>,
    closed: Set<Point>,
    cur: Seq<Point>,
    upto: int,
) -> Seq<Seq<Point>>
    decreases upto,
{
    if upto <= 0 {
        queue
    } else {
        visit(t, targets, expand(t, targets, queue, closed, cur, upto - 1), closed, cur, upto - 1)
    }
}

/// The cells that were not expanded yet.
pub open spec fn unexpanded(t: Terrain, closed: Set<Point>) -> Set<Point> {
    cells(t).difference(closed)
}

/// The search from a queue of paths and a set of expanded points. The path at
/// the back of the queue is taken. If it ends on the target tile it is the
/// result. If its end was expanded before it is dropped: an expanded point is
/// never opened again. Otherwise its end is expanded: the four moves from it
/// are considered. With an empty queue there is no result.
pub open spec fn search(
    t: Terrain,
    target: Tile,
    targets: Seq<Point>,
    queue: Seq<Seq<Point>>,
    closed: Set<Point>,
) -> Option<Seq<Point>>
    decreases unexpanded(t, closed).len(), queue.len(),
{
    if queue.len() == 0 {
        None
    } else {
        let cur = queue.last();
        let rest = queue.drop_last();
        let p = cur.last();
        if in_bounds(t, p) && tile_at(t, p) == target {
            Some(cur)
        } else if !in_bounds(t, p) || closed.contains(p) {
            search(t, target, targets, rest, closed)
        } else {
            proof {
                lemma_cells_finite(t);
                assert(unexpanded(t, closed.insert(p)) =~= unexpanded(t, closed).remove(p));
            }
            search(
                t,
                target,
                targets,
                expand(t, targets, rest, closed.insert(p), cur, DIRECTIONS as int),
                closed.insert(p),
            )
        }
    }
}

/// The queue that a search starts from: the first `upto` starting points,
/// each as a path of one point, queued in their order.
pub open spec fn seed(targets: Seq<Point>, starts: Seq<Point>, upto: int) -> Seq<Seq<Point>>
    decreases upto,
{
    if upto <= 0 {
        Seq::empty()
    } else {
        enqueue(targets, seed(targets, starts, upto - 1), seq![starts[upto - 1]])
    }
}

/// The points a search starts from: the given one, or without one every start
/// tile in reading order.
pub open spec fn starting_points(t: Terrain, start: Option<Point>) -> Seq<Point> {
    match start {
        Some(p) => seq![p],
        None => points_with(t, Tile::Start),
    }
}

/// The path found from `start`, or from the start tiles, to a tile equal to
/// `target`. There is none where the grid holds no such tile.
pub open spec fn shortest_path_spec(t: Terrain, start: Option<Point>, target: Tile) -> Option<
    Seq<Point>,
> {
    let targets = points_with(t, target);
    let starts = starting_points(t, start);
    if targets.len() == 0 {
        None
    } else {
        search(t, target, targets, seed(targets, starts, starts.len() as int), Set::empty())
    }
}

/// Every queued path ends inside the grid.
pub open spec fn ends_in_bounds(t: Terrain, queue: Seq<Seq<Point>>) -> bool {
    forall|i: int| 0 <= i < queue.len() ==> in_bounds(t, (#[trigger] queue[i]).last())
}

/// Expanding a cell that was not expanded before leaves fewer cells to expand.
proof fn lemma_closing(t: Terrain, done: Set<Point>, closed: Seq<Point>, p: Point)
    requires
        in_bounds(t, p),
        !done.contains(p),
        closed.len() > 0,
        closed.last() == p,
        done == closed.drop_last().to_set(),
    ensures
        closed.to_set() == done.insert(p),
        unexpanded(t, closed.to_set()).len() < unexpanded(t, done).len(),
{
    let earlier = closed.drop_last();
    assert forall|q: Point| closed.to_set().contains(q) <==> done.insert(p).contains(q) by {
        if closed.contains(q) {
            let i = choose|i: int| 0 <= i < closed.len() && closed[i] == q;
            if i < closed.len() - 1 {
                assert(earlier[i] == q);
            }
        }
        if earlier.contains(q) {
            let i = choose|i: int| 0 <= i < earlier.len() && earlier[i] == q;
            assert(closed[i] == q);
        }
    }
    assert(closed.to_set() =~= done.insert(p));
    lemma_cells_finite(t);
    assert(unexpanded(t, done.insert(p)) =~= unexpanded(t, done).remove(p));
}

fn is_closed(closed: &Vec<Point>, q: Point) -> (found: bool)
    ensures
        found == closed@.contains(q),
{
    let mut i: usize = 0;
    while i < closed.len()
        invariant
            i <= closed.len(),
            forall|j: int| 0 <= j < i ==> closed@[j] != q,
        decreases closed.len() - i,
    {
        if closed[i].0 == q.0 && closed[i].1 == q.1 {
            return true;
        }
        i += 1;
    }
    false
}

fn copy_path(path: &Vec<Point>) -> (copy: Vec<Point>)
    ensures
        copy@ == path@,
{
    let mut copy: Vec<Point> = Vec::new();
    let mut i: usize = 0;
    while i < path.len()
        invariant
            i <= path.len(),
            copy@ == path@.take(i as int),
        decreases path.len() - i,
    {
        copy.push(path[i]);
        assert(path@.take(i as int).push(path@[i as int]) =~= path@.take(i + 1));
        i += 1;
    }
    assert(path@.take(path.len() as int) =~= path@);
    copy
}

fn make_node(path: Vec<Point>, targets: &Vec<Point>) -> (node: Node)
    requires
        path@.len() > 0,
    ensures
        node.well_formed(targets@),
        node.path@ == path@,
{
    let point = path[path.len() - 1];
    let cost = path.len() - 1;
    let heuristic = estimate(targets, point);
    Node { point, cost, heuristic, path }
}

/// Considers the move from the end of `cur` in direction `d`.
fn visit_direction(
    map: &Grid,
    targets: &Vec<Point>,
    queue: &mut Vec<Node>,
    closed: &Vec<Point>,
    cur: &Node,
    d: usize,
)
    requires
        well_formed(terrain(map)),
        d < DIRECTIONS,
        cur.well_formed(targets@),
        in_bounds(terrain(map), cur.point),
        all_well_formed(old(queue)@, targets@),
        ends_in_bounds(terrain(map), paths(old(queue)@)),
    ensures
        all_well_formed(final(queue)@, targets@),
        ends_in_bounds(terrain(map), paths(final(queue)@)),
        paths(final(queue)@) == visit(
            terrain(map),
            targets@,
            paths(old(queue)@),
            closed@.to_set(),
            cur.path@,
            d as int,
        ),
{
    let ghost t = terrain(map);
    match slide_from(map, cur.point, d) {
        None => {},
        Some(trace) => {
            let mut trace = trace;
            proof {
                lemma_slide(t, cur.point, d as int);
            }
            let mut path = copy_path(&cur.path);
            path.append(&mut trace);
            let node = make_node(path, targets);
            let seen = is_closed(closed, node.point);
            if !seen && !is_outpaced(queue, node.point, node.cost, Ghost(targets@)) {
                proof {
                    lemma_enqueue_members(targets@, paths(queue@), node.path@);
                }
                push_node(queue, node, Ghost(targets@));
            }
        },
    }
}

/// Searches for the nearest tile equal to `target`, from `start` or, without
/// one, from every start tile. The search is best-first on steps taken plus
/// the distance to the nearest target; of two paths with equal keys the one
/// queued first is taken first, and the directions are tried in the order up,
/// right, down, left.
pub fn shortest_path(map: &Grid, start: Option<Point>, target: Tile) -> (found: Option<Path>)
    requires
        well_formed(terrain(map)),
        start matches Some(p) ==> in_bounds(terrain(map), p),
    ensures
        found matches Some(path) ==> shortest_path_spec(terrain(map), start, target) == Some(path@),
        found is None ==> shortest_path_spec(terrain(map), start, target) is None,
        found is Some <==> leg_reachable(terrain(map), start, target),
        found matches Some(path) ==> sound(
            terrain(map),
            target,
            starting_points(terrain(map), start),
            path@,
        ) && tile_at(terrain(map), path@.last()) == target,
        found matches Some(path) ==> (no_ice(terrain(map)) ==> forall|w: Seq<Point>|
            #![trigger walkable(terrain(map), w)]
            #![trigger w[0]]
            walkable(terrain(map), w) && starting_points(terrain(map), start).contains(w[0])
                && tile_at(terrain(map), w.last()) == target ==> path@.len() <= w.len()),
{
    let ghost t = terrain(map);
    proof {
        lemma_shortest_path(t, start, target);
        if no_ice(t) && shortest_path_spec(t, start, target) is Some {
            assert forall|w: Seq<Point>|
                #![trigger walkable(t, w)]
                #![trigger w[0]]
                walkable(t, w) && starting_points(t, start).contains(w[0]) && tile_at(t, w.last())
                    == target implies shortest_path_spec(t, start, target)->0.len() <= w.len() by {
                lemma_shortest(t, start, target, w);
            }
        }
    }
    let targets = find_tile(map, &target);
    if targets.len() == 0 {
        return None;
    }
    let starts = match start {
        Some(p) => vec![p],
        None => find_tile(map, &Tile::Start),
    };
    assert(starts@ =~= starting_points(t, start));
    let mut queue: Vec<Node> = Vec::new();
    let mut i: usize = 0;
    assert(paths(queue@) =~= seed(targets@, starts@, 0));
    while i < starts.len()
        invariant
            i <= starts.len(),
            t == terrain(map),
            well_formed(t),
            starts@ == starting_points(t, start),
            start matches Some(p) ==> in_bounds(t, p),
            all_well_formed(queue@, targets@),
            ends_in_bounds(t, paths(queue@)),
            paths(queue@) == seed(targets@, starts@, i as int),
        decreases starts.len() - i,
    {
        let p = starts[i];
        proof {
            if start is None {
                lemma_points_with(t, Tile::Start, p);
            }
            lemma_enqueue_members(targets@, paths(queue@), seq![p]);
        }
        let node = make_node(vec![p], &targets);
        assert(node.path@ =~= seq![p]);
        push_node(&mut queue, node, Ghost(targets@));
        i += 1;
    }
    let mut closed: Vec<Point> = Vec::new();
    let ghost goal = shortest_path_spec(t, start, target);
    assert(closed@.to_set() =~= Set::empty());
    while queue.len() > 0
        invariant
            t == terrain(map),
            well_formed(t),
            all_well_formed(queue@, targets@),
            ends_in_bounds(t, paths(queue@)),
            goal == shortest_path_spec(t, start, target),
            goal is Some <==> leg_reachable(t, start, target),
            goal matches Some(path) ==> sound(t, target, starting_points(t, start), path)
                && tile_at(t, path.last()) == target,
            goal matches Some(path) ==> (no_ice(t) ==> forall|w: Seq<Point>|
                #![trigger walkable(t, w)]
                #![trigger w[0]]
                walkable(t, w) && starting_points(t, start).contains(w[0]) && tile_at(t, w.last())
                    == target ==> path.len() <= w.len()),
            search(t, target, targets@, paths(queue@), closed@.to_set()) == goal,
        decreases unexpanded(t, closed@.to_set()).len(), queue.len(),
    {
        let ghost before = paths(queue@);
        let ghost old_closed = closed@;
        let ghost done = closed@.to_set();
        let cur = queue.pop().unwrap();
        assert(cur.well_formed(targets@));
        assert(before.last() == cur.path@);
        assert(paths(queue@) =~= before.drop_last());
        assert(in_bounds(t, before[before.len() - 1].last()));
        if get_tile(map, cur.point) == target {
            return Some(cur.path);
        }
        if !is_closed(&closed, cur.point) {
            closed.push(cur.point);
            proof {
                assert(closed@.drop_last() =~= old_closed);
                lemma_closing(t, done, closed@, cur.point);
            }
            let mut d: usize = 0;
            while d < DIRECTIONS
                invariant
                    d <= DIRECTIONS,
                    t == terrain(map),
                    well_formed(t),
                    cur.well_formed(targets@),
                    in_bounds(t, cur.point),
                    all_well_formed(queue@, targets@),
                    ends_in_bounds(t, paths(queue@)),
                    paths(queue@) == expand(
                        t,
                        targets@,
                        before.drop_last(),
                        closed@.to_set(),
                        cur.path@,
                        d as int,
                    ),
                decreases DIRECTIONS - d,
            {
                visit_direction(map, &targets, &mut queue, &closed, &cur, d);
                d += 1;
            }
        }
    }
    None
}

/// Some cell holds the checkpoint with this id.
pub open spec fn has_checkpoint(t: Terrain, id: u8) -> bool {
    exists|p: Point| in_bounds(t, p) && #[trigger] tile_at(t, p) == Tile::Checkpoint(id)
}

/// The ids below `bound` of the checkpoints in the grid, ascending.
pub open spec fn checkpoints_below(t: Terrain, bound: int) -> Seq<u8>
    decreases bound,
{
    if bound <= 0 {
        Seq::empty()
    } else {
        let lower = checkpoints_below(t, bound - 1);
        if has_checkpoint(t, (bound - 1) as u8) {
            lower.push((bound - 1) as u8)
        } else {
            lower
        }
    }
}

/// The ids of the checkpoints in the grid: each once, ascending.
pub open spec fn checkpoint_ids(t: Terrain) -> Seq<u8> {
    checkpoints_below(t, 256)
}

/// The tile that leg `i` of a route ends on: the checkpoints in the order of
/// their ids, then the exit.
pub open spec fn leg_target(ids: Seq<u8>, i: int) -> Tile {
    if 0 <= i < ids.len() {
        Tile::Checkpoint(ids[i])
    } else {
        Tile::Exit
    }
}

/// The point leg `i` starts from, given what was walked before it: the end of
/// that, or without any the start tiles.
pub open spec fn leg_start(walked: Seq<Point>) -> Option<Point> {
    if walked.len() == 0 {
        None
    } else {
        Some(walked.last())
    }
}

/// What was walked with a further leg added. The leg begins where the walk
/// ended, and that point stands in the result once.
pub open spec fn join(walked: Seq<Point>, leg: Seq<Point>) -> Seq<Point> {
    if walked.len() == 0 {
        leg
    } else {
        walked.drop_last() + leg
    }
}

/// The route after its first `legs` legs, empty after none. Each leg is
/// searched for from the end of the leg before it, the first one from the
/// start tiles. Without a path for some leg there is no route from there on.
pub open spec fn route_after(t: Terrain, ids: Seq<u8>, legs: int) -> Option<Seq<Point>>
    decreases legs,
{
    if legs <= 0 {
        Some(Seq::empty())
    } else {
        match route_after(t, ids, legs - 1) {
            None => None,
            Some(walked) => match shortest_path_spec(
                t,
                leg_start(walked),
                leg_target(ids, legs - 1),
            ) {
                None => None,
                Some(leg) => Some(join(walked, leg)),
            },
        }
    }
}

/// The route through the grid: from a start tile to each checkpoint in the
/// order of the ids, and then to the exit. It has one leg for each checkpoint
/// id and one more to the exit.
pub open spec fn solve_spec(t: Terrain) -> Option<Seq<Point>> {
    route_after(t, checkpoint_ids(t), checkpoint_ids(t).len() as int + 1)
}

/// Once a leg has no path, no longer route has one.
pub proof fn lemma_route_lost(t: Terrain, ids: Seq<u8>, legs: int, later: int)
    requires
        legs <= later,
        route_after(t, ids, legs) is None,
    ensures
        route_after(t, ids, later) is None,
    decreases later - legs,
{
    if legs < later {
        lemma_route_lost(t, ids, legs, later - 1);
    }
}

/// The id that a checkpoint tile carries.
pub fn get_checkpoint_id(tile: &Tile) -> (id: u8)
    requires
        *tile is Checkpoint,
    ensures
        *tile == Tile::Checkpoint(id),
{
    match tile {
        Tile::Checkpoint(id) => *id,
        _ => vstd::pervasive::unreached(),
    }
}

/// A checkpoint with this id stands before the cell `(x, y)` in reading
/// order.
pub open spec fn seen_before(t: Terrain, id: u8, x: int, y: int) -> bool {
    exists|p: Point|
        in_bounds(t, p) && (p.1 < y || (p.1 == y && p.0 < x)) && #[trigger] tile_at(t, p)
            == Tile::Checkpoint(id)
}

proof fn lemma_seen_step(t: Terrain, id: u8, x: int, y: int)
    requires
        well_formed(t),
        0 <= y < t.len(),
        0 <= x < t[y].len(),
    ensures
        seen_before(t, id, x + 1, y) == (seen_before(t, id, x, y) || t[y][x] == Tile::Checkpoint(id)),
{
    let here: Point = (x as i8, y as i8);
    assert(in_bounds(t, here));
    assert(tile_at(t, here) == t[y][x]);
    if seen_before(t, id, x + 1, y) {
        let p = choose|p: Point|
            in_bounds(t, p) && (p.1 < y || (p.1 == y && p.0 < x + 1)) && #[trigger] tile_at(t, p)
                == Tile::Checkpoint(id);
        if p != here {
            assert(in_bounds(t, p) && (p.1 < y || (p.1 == y && p.0 < x)) && tile_at(t, p)
                == Tile::Checkpoint(id));
        }
    }
    if seen_before(t, id, x, y) {
        let p = choose|p: Point|
            in_bounds(t, p) && (p.1 < y || (p.1 == y && p.0 < x)) && #[trigger] tile_at(t, p)
                == Tile::Checkpoint(id);
        assert(in_bounds(t, p) && (p.1 < y || (p.1 == y && p.0 < x + 1)) && tile_at(t, p)
            == Tile::Checkpoint(id));
    }
    if t[y][x] == Tile::Checkpoint(id) {
        assert(in_bounds(t, here) && (here.1 < y || (here.1 == y && here.0 < x + 1)) && tile_at(
            t,
            here,
        ) == Tile::Checkpoint(id));
    }
}

proof fn lemma_seen_row(t: Terrain, id: u8, y: int)
    requires
        well_formed(t),
        0 <= y < t.len(),
    ensures
        seen_before(t, id, t[y].len() as int, y) == seen_before(t, id, 0, y + 1),
        !seen_before(t, id, 0, 0),
        seen_before(t, id, 0, t.len() as int) == has_checkpoint(t, id),
{
    let w = t[y].len() as int;
    if seen_before(t, id, w, y) {
        let p = choose|p: Point|
            in_bounds(t, p) && (p.1 < y || (p.1 == y && p.0 < w)) && #[trigger] tile_at(t, p)
                == Tile::Checkpoint(id);
        assert(in_bounds(t, p) && (p.1 < y + 1 || (p.1 == y + 1 && p.0 < 0)) && tile_at(t, p)
            == Tile::Checkpoint(id));
    }
    if seen_before(t, id, 0, y + 1) {
        let p = choose|p: Point|
            in_bounds(t, p) && (p.1 < y + 1 || (p.1 == y + 1 && p.0 < 0)) && #[trigger] tile_at(t, p)
                == Tile::Checkpoint(id);
        assert(in_bounds(t, p) && (p.1 < y || (p.1 == y && p.0 < w)) && tile_at(t, p)
            == Tile::Checkpoint(id));
    }
    if has_checkpoint(t, id) {
        let p = choose|p: Point| in_bounds(t, p) && #[trigger] tile_at(t, p) == Tile::Checkpoint(id);
        assert(in_bounds(t, p) && (p.1 < t.len() || (p.1 == t.len() && p.0 < 0)) && tile_at(t, p)
            == Tile::Checkpoint(id));
    }
}

/// Lists the ids of the checkpoints in the grid: each once, ascending.
pub fn checkpoints(map: &Grid) -> (ids: Vec<u8>)
    requires
        well_formed(terrain(map)),
    ensures
        ids@ == checkpoint_ids(terrain(map)),
{
    let ghost t = terrain(map);
    let mut present: Vec<bool> = vec![false; 256];
    let mut y: usize = 0;
    proof {
        if map.len() > 0 {
            assert forall|id: u8| !seen_before(t, id, 0, 0) by {
                lemma_seen_row(t, id, 0);
            }
        }
    }
    while y < map.len()
        invariant
            y <= map.len(),
            t == terrain(map),
            well_formed(t),
            present.len() == 256,
            forall|id: u8| present@[id as int] == #[trigger] seen_before(t, id, 0, y as int),
        decreases map.len() - y,
    {
        let row = &map[y];
        let mut x: usize = 0;
        while x < row.len()
            invariant
                x <= row.len(),
                y < map.len(),
                t == terrain(map),
                well_formed(t),
                row@ == t[y as int],
                present.len() == 256,
                forall|id: u8| present@[id as int] == #[trigger] seen_before(t, id, x as int, y as int),
            decreases row.len() - x,
        {
            let tile = row[x];
            proof {
                assert forall|id: u8|
                    #[trigger] seen_before(t, id, x + 1, y as int) == (seen_before(
                        t,
                        id,
                        x as int,
                        y as int,
                    ) || tile == Tile::Checkpoint(id)) by {
                    lemma_seen_step(t, id, x as int, y as int);
                }
            }
            match tile {
                Tile::Checkpoint(_) => {
                    let id = get_checkpoint_id(&tile);
                    present.set(id as usize, true);
                },
                _ => {},
            }
            x += 1;
        }
        proof {
            assert forall|id: u8|
                seen_before(t, id, row@.len() as int, y as int) == #[trigger] seen_before(
                    t,
                    id,
                    0,
                    y + 1,
                ) by {
                lemma_seen_row(t, id, y as int);
            }
        }
        y += 1;
    }
    proof {
        assert forall|id: u8| present@[id as int] == has_checkpoint(t, id) by {
            if map.len() > 0 {
                lemma_seen_row(t, id, 0);
            } else {
                if has_checkpoint(t, id) {
                    let p = choose|p: Point|
                        in_bounds(t, p) && #[trigger] tile_at(t, p) == Tile::Checkpoint(id);
                }
                if seen_before(t, id, 0, 0) {
                    let p = choose|p: Point|
                        in_bounds(t, p) && (p.1 < 0 || (p.1 == 0 && p.0 < 0)) && #[trigger] tile_at(
                            t,
                            p,
                        ) == Tile::Checkpoint(id);
                }
            }
        }
    }
    let mut ids: Vec<u8> = Vec::new();
    let mut id: usize = 0;
    while id < 256
        invariant
            id <= 256,
            present.len() == 256,
            forall|k: u8| present@[k as int] == has_checkpoint(t, k),
            ids@ == checkpoints_below(t, id as int),
        decreases 256 - id,
    {
        if present[id] {
            ids.push(id as u8);
        }
        id += 1;
    }
    ids
}

/// Finds the route through the grid: from a start tile to each checkpoint in
/// the order of the ids, and then to the exit. Each leg is searched for with
/// [`shortest_path`], from the point where the leg before it ended.
pub fn solve(map: &Grid) -> (found: Option<Path>)
    requires
        well_formed(terrain(map)),
    ensures
        found matches Some(path) ==> solve_spec(terrain(map)) == Some(path@),
        found is None ==> solve_spec(terrain(map)) is None,
        found matches Some(path) ==> walkable(terrain(map), path@) && ice_respected(
            terrain(map),
            path@,
        ) && tile_at(terrain(map), path@[0]) == Tile::Start && tile_at(terrain(map), path@.last())
            == Tile::Exit,
        found matches Some(path) ==> forall|k: int|
            1 <= k <= checkpoint_ids(terrain(map)).len() + 1 ==> #[trigger] leg_ends(
                terrain(map),
                checkpoint_ids(terrain(map)),
                k,
                path@,
            ),
        connected(terrain(map)) ==> found is Some,
        found is None ==> exists|k: int|
            0 <= k <= checkpoint_ids(terrain(map)).len() && (#[trigger] route_after(
                terrain(map),
                checkpoint_ids(terrain(map)),
                k,
            )) is Some && !leg_reachable(
                terrain(map),
                leg_start(route_after(terrain(map), checkpoint_ids(terrain(map)), k)->0),
                leg_target(checkpoint_ids(terrain(map)), k),
            ),
{
    let ghost t = terrain(map);
    proof {
        if solve_spec(t) is Some {
            lemma_solve(t);
        } else {
            let k = lemma_unsolvable(t);
            assert(route_after(t, checkpoint_ids(t), k) is Some);
        }
        if connected(t) {
            lemma_solve_connected(t);
        }
    }
    let ids = checkpoints(map);
    let mut path: Vec<Point> = Vec::new();
    let mut i: usize = 0;
    while i < ids.len()
        invariant
            i <= ids.len(),
            t == terrain(map),
            well_formed(t),
            ids@ == checkpoint_ids(t),
            connected(t) ==> solve_spec(t) is Some,
            path@.len() > 0 ==> in_bounds(t, path@.last()),
            route_after(t, ids@, i as int) == Some(path@),
        decreases ids.len() - i,
    {
        let ghost walked = path@;
        let p = path.pop();
        assert(p == leg_start(walked));
        match shortest_path(map, p, Tile::Checkpoint(ids[i])) {
            None => {
                proof {
                    lemma_route_lost(t, ids@, i + 1, ids@.len() as int + 1);
                }
                return None;
            },
            Some(leg) => {
                let mut leg = leg;
                proof {
                    lemma_shortest_path(t, p, Tile::Checkpoint(ids[i as int]));
                    assert(in_bounds(t, leg@[leg@.len() - 1]));
                }
                path.append(&mut leg);
            },
        }
        i += 1;
    }
    let ghost walked = path@;
    let p = path.pop();
    assert(p == leg_start(walked));
    match shortest_path(map, p, Tile::Exit) {
        None => None,
        Some(leg) => {
            let mut leg = leg;
            path.append(&mut leg);
            Some(path)
        },
    }
}

} // verus!
