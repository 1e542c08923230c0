//! On a grid without ice every move is one step, the estimate never
//! overrates the steps still to go, and the search finds a shortest path.
use crate::frontier::{lemma_enqueue_members, nearest, ordered, outpaced, priority};
use crate::grid::{in_bounds, lemma_points_with, points_with, tile_at, well_formed, Point, Terrain};
use crate::moves::{adjacent, hop, hops, is_slide, lemma_slide, neighbor, offset, reachable, slide};
use crate::moves::DIRECTIONS;
use crate::path::{checkpoint_ids, join, leg_start, leg_target, route_after, solve_spec};
use crate::path::{expand, search, seed, shortest_path_spec, starting_points, unexpanded, visit};
use crate::route::{all_sound, landing, lemma_expand_ordered, lemma_expand_sound, lemma_seed_ordered};
use crate::route::{leg_reachable, lemma_seed_sound, lemma_shortest_path, sound, walkable};
use crate::tiles::Tile;
use vstd::prelude::*;

verus! {

/// No cell of the grid holds ice.
pub open spec fn no_ice(t: Terrain) -> bool {
    forall|p: Point| in_bounds(t, p) ==> #[trigger] tile_at(t, p) != Tile::Ice
}

/// The estimate is never negative, it is 0 on a target, and it falls by at
/// most one with a step.
pub proof fn lemma_nearest(targets: Seq<Point>, a: Point, b: Point)
    ensures
        nearest(targets, a) >= 0,
        targets.contains(a) ==> nearest(targets, a) == 0,
        adjacent(a, b) ==> nearest(targets, a) <= nearest(targets, b) + 1,
    decreases targets.len(),
{
    if targets.len() > 1 {
        let fewer = targets.drop_last();
        lemma_nearest(fewer, a, b);
        if targets.contains(a) {
            let i = choose|i: int| 0 <= i < targets.len() && targets[i] == a;
            if i < targets.len() - 1 {
                assert(fewer[i] == a);
            }
        }
    } else if targets.len() == 1 {
        if targets.contains(a) {
            let i = choose|i: int| 0 <= i < targets.len() && targets[i] == a;
        }
    }
}

/// Without ice a step onto a cell that is no wall is a move.
pub proof fn lemma_plain_step(t: Terrain, p: Point, q: Point) -> (d: int)
    requires
        no_ice(t),
        adjacent(p, q),
        in_bounds(t, q),
        tile_at(t, q) != Tile::Wall,
    ensures
        0 <= d < DIRECTIONS,
        slide(t, p, d) == Some(seq![q]),
{
    let d: int = if q.1 == p.1 - 1 {
        0
    } else if q.0 == p.0 + 1 {
        1
    } else if q.1 == p.1 + 1 {
        2
    } else {
        3
    };
    assert(neighbor(p, d) == Some(q));
    assert(tile_at(t, q) != Tile::Ice);
    d
}

/// Without ice a move is one step.
pub proof fn lemma_plain_slide(t: Terrain, p: Point, d: int)
    requires
        no_ice(t),
        0 <= d < DIRECTIONS,
        slide(t, p, d) is Some,
    ensures
        slide(t, p, d)->0.len() == 1,
        adjacent(p, landing(t, p, d)),
{
    lemma_slide(t, p, d);
    let trace = slide(t, p, d)->0;
    assert(is_slide(t, p, d, trace));
    assert(in_bounds(t, trace[0]));
    assert(tile_at(t, trace[0]) != Tile::Ice);
    assert(trace[0].0 == p.0 + 1 * offset(d).0);
    assert(trace[0].1 == p.1 + 1 * offset(d).1);
}

/// Considering a move loses no queued path, and where the move ends there is
/// afterwards an expanded point or a queued path that is no longer than the
/// path that was taken with the move added.
pub proof fn lemma_visit_holds(
    t: Terrain,
    targets: Seq<Point>,
    queue: Seq<Seq<Point>>,
    closed: Set<Point>,
    cur: Seq<Point>,
    d: int,
)
    requires
        0 <= d < DIRECTIONS,
    ensures
        forall|q: Point, n: int|
            outpaced(queue, q, n) ==> #[trigger] outpaced(
                visit(t, targets, queue, closed, cur, d),
                q,
                n,
            ),
        slide(t, cur.last(), d) is Some ==> closed.contains(landing(t, cur.last(), d)) || outpaced(
            visit(t, targets, queue, closed, cur, d),
            landing(t, cur.last(), d),
            (cur.len() + slide(t, cur.last(), d)->0.len()) as int,
        ),
{
    let after = visit(t, targets, queue, closed, cur, d);
    if slide(t, cur.last(), d) is Some {
        let trace = slide(t, cur.last(), d)->0;
        let path = cur + trace;
        lemma_slide(t, cur.last(), d);
        assert(path.last() == trace.last());
        lemma_enqueue_members(targets, queue, path);
        if closed.contains(path.last()) {
        } else if outpaced(queue, path.last(), path.len() as int) {
        } else {
            let at = choose|i: int| 0 <= i < after.len() && after[i] == path;
            assert(after[at].last() == path.last() && after[at].len() <= path.len());
            assert forall|q: Point, n: int| outpaced(queue, q, n) implies #[trigger] outpaced(
                after,
                q,
                n,
            ) by {
                let i = choose|i: int|
                    0 <= i < queue.len() && (#[trigger] queue[i]).last() == q && queue[i].len() <= n;
                assert(after.contains(queue[i]));
                let j = choose|j: int| 0 <= j < after.len() && after[j] == queue[i];
                assert(after[j].last() == q && after[j].len() <= n);
            }
        }
    }
}

/// Expanding a point loses no queued path, and where a move that was
/// considered ends there is afterwards an expanded point or a queued path
/// that is no longer than the path that was taken with the move added.
pub proof fn lemma_expand_holds(
    t: Terrain,
    targets: Seq<Point>,
    queue: Seq<Seq<Point>>,
    closed: Set<Point>,
    cur: Seq<Point>,
    upto: int,
)
    requires
        0 <= upto <= DIRECTIONS,
    ensures
        forall|q: Point, n: int|
            outpaced(queue, q, n) ==> #[trigger] outpaced(
                expand(t, targets, queue, closed, cur, upto),
                q,
                n,
            ),
        forall|d: int|
            0 <= d < upto && (#[trigger] slide(t, cur.last(), d)) is Some ==> closed.contains(
                landing(t, cur.last(), d),
            ) || outpaced(
                expand(t, targets, queue, closed, cur, upto),
                landing(t, cur.last(), d),
                (cur.len() + slide(t, cur.last(), d)->0.len()) as int,
            ),
    decreases upto,
{
    if upto > 0 {
        let before = expand(t, targets, queue, closed, cur, upto - 1);
        let after = expand(t, targets, queue, closed, cur, upto);
        lemma_expand_holds(t, targets, queue, closed, cur, upto - 1);
        lemma_visit_holds(t, targets, before, closed, cur, upto - 1);
        assert forall|q: Point, n: int| outpaced(queue, q, n) implies #[trigger] outpaced(
            after,
            q,
            n,
        ) by {
            assert(outpaced(before, q, n));
        }
        assert forall|d: int|
            0 <= d < upto && (#[trigger] slide(t, cur.last(), d)) is Some implies closed.contains(
            landing(t, cur.last(), d),
        ) || outpaced(
            after,
            landing(t, cur.last(), d),
            (cur.len() + slide(t, cur.last(), d)->0.len()) as int,
        ) by {
            if d < upto - 1 && !closed.contains(landing(t, cur.last(), d)) {
                assert(outpaced(
                    before,
                    landing(t, cur.last(), d),
                    (cur.len() + slide(t, cur.last(), d)->0.len()) as int,
                ));
            }
        }
    }
}

/// What the search keeps up on a grid without ice, with `best` the number of
/// steps at which each expanded point was expanded. Each starting point is
/// expanded or queued as it was seeded. Behind each move from an expanded
/// point stands an expanded point or a queued path that takes no more than
/// one step more. And no walk from a starting point reaches an expanded point
/// in fewer steps than `best` says.
pub open spec fn tight(
    t: Terrain,
    starts: Seq<Point>,
    queue: Seq<Seq<Point>>,
    closed: Set<Point>,
    best: spec_fn(Point) -> int,
) -> bool {
    &&& forall|k: int|
        0 <= k < starts.len() ==> closed.contains(#[trigger] starts[k]) || outpaced(
            queue,
            starts[k],
            1,
        )
    &&& forall|p: Point, d: int|
        closed.contains(p) && 0 <= d < DIRECTIONS && (#[trigger] slide(t, p, d)) is Some
            ==> closed.contains(landing(t, p, d)) || outpaced(queue, landing(t, p, d), best(p) + 2)
    &&& forall|w: Seq<Point>|
        #[trigger] walkable(t, w) && starts.contains(w[0]) && closed.contains(w.last()) ==> best(
            w.last(),
        ) <= w.len() - 1
}

/// `best` with the steps of one more point.
pub open spec fn best_with(best: spec_fn(Point) -> int, p: Point, steps: int) -> spec_fn(
    Point,
) -> int {
    |x: Point|
        if x == p {
            steps
        } else {
            best(x)
        }
}

/// For every walk from a starting point to a point that was not expanded,
/// the queue holds a path whose key is no greater than the steps of the walk
/// plus the estimate from its end.
pub proof fn lemma_queue_bound(
    t: Terrain,
    targets: Seq<Point>,
    starts: Seq<Point>,
    queue: Seq<Seq<Point>>,
    closed: Set<Point>,
    best: spec_fn(Point) -> int,
    w: Seq<Point>,
) -> (i: int)
    requires
        no_ice(t),
        tight(t, starts, queue, closed, best),
        walkable(t, w),
        starts.contains(w[0]),
        !closed.contains(w.last()),
    ensures
        0 <= i < queue.len(),
        priority(targets, queue[i]) <= w.len() - 1 + nearest(targets, w.last()),
    decreases w.len(),
{
    if w.len() == 1 {
        let k = choose|k: int| 0 <= k < starts.len() && starts[k] == w[0];
        assert(closed.contains(starts[k]) || outpaced(queue, starts[k], 1));
        let i = choose|i: int|
            0 <= i < queue.len() && (#[trigger] queue[i]).last() == w[0] && queue[i].len() <= 1;
        i
    } else {
        let shorter = w.drop_last();
        let p = shorter.last();
        let q = w.last();
        assert(p == w[w.len() - 2]);
        assert(adjacent(w[w.len() - 2], w[w.len() - 1]));
        assert(in_bounds(t, w[w.len() - 1]));
        assert(walkable(t, shorter)) by {
            assert forall|i: int| 0 <= i < shorter.len() implies in_bounds(
                t,
                #[trigger] shorter[i],
            ) by {
                assert(shorter[i] == w[i]);
            }
            assert forall|i: int| 0 < i < shorter.len() implies adjacent(
                shorter[i - 1],
                #[trigger] shorter[i],
            ) && tile_at(t, shorter[i]) != Tile::Wall by {
                assert(shorter[i] == w[i]);
                assert(shorter[i - 1] == w[i - 1]);
            }
        }
        assert(shorter[0] == w[0]);
        lemma_nearest(targets, p, q);
        if !closed.contains(p) {
            lemma_queue_bound(t, targets, starts, queue, closed, best, shorter)
        } else {
            assert(best(shorter.last()) <= shorter.len() - 1);
            let d = lemma_plain_step(t, p, q);
            assert(slide(t, p, d) is Some);
            assert(landing(t, p, d) == q);
            assert(outpaced(queue, q, best(p) + 2));
            let i = choose|i: int|
                0 <= i < queue.len() && (#[trigger] queue[i]).last() == q && queue[i].len() <= best(
                    p,
                ) + 2;
            i
        }
    }
}

/// Dropping a path whose end was expanded before keeps up what the search
/// keeps up.
pub proof fn lemma_drop_tight(
    t: Terrain,
    starts: Seq<Point>,
    queue: Seq<Seq<Point>>,
    closed: Set<Point>,
    best: spec_fn(Point) -> int,
)
    requires
        tight(t, starts, queue, closed, best),
        queue.len() > 0,
        closed.contains(queue.last().last()),
    ensures
        tight(t, starts, queue.drop_last(), closed, best),
{
    let rest = queue.drop_last();
    let p = queue.last().last();
    assert forall|q: Point, n: int| outpaced(queue, q, n) implies q == p || #[trigger] outpaced(
        rest,
        q,
        n,
    ) by {
        let i = choose|i: int|
            0 <= i < queue.len() && (#[trigger] queue[i]).last() == q && queue[i].len() <= n;
        if i < rest.len() {
            assert(rest[i].last() == q && rest[i].len() <= n);
        }
    }
    assert forall|k: int| 0 <= k < starts.len() implies closed.contains(#[trigger] starts[k])
        || outpaced(rest, starts[k], 1) by {
        if !closed.contains(starts[k]) {
            assert(outpaced(queue, starts[k], 1));
        }
    }
    assert forall|a: Point, d: int|
        closed.contains(a) && 0 <= d < DIRECTIONS && (#[trigger] slide(t, a, d)) is Some
        implies closed.contains(landing(t, a, d)) || outpaced(rest, landing(t, a, d), best(a) + 2) by {
        if !closed.contains(landing(t, a, d)) {
            assert(outpaced(queue, landing(t, a, d), best(a) + 2));
        }
    }
}

/// Expanding the end of the path at the back of an ordered queue keeps up
/// what the search keeps up, with the steps of that path as the steps of its
/// end.
pub proof fn lemma_expand_tight(
    t: Terrain,
    targets: Seq<Point>,
    starts: Seq<Point>,
    queue: Seq<Seq<Point>>,
    closed: Set<Point>,
    best: spec_fn(Point) -> int,
)
    requires
        no_ice(t),
        tight(t, starts, queue, closed, best),
        ordered(targets, queue),
        queue.len() > 0,
        !closed.contains(queue.last().last()),
    ensures
        tight(
            t,
            starts,
            expand(
                t,
                targets,
                queue.drop_last(),
                closed.insert(queue.last().last()),
                queue.last(),
                DIRECTIONS as int,
            ),
            closed.insert(queue.last().last()),
            best_with(best, queue.last().last(), queue.last().len() - 1),
        ),
{
    let cur = queue.last();
    let rest = queue.drop_last();
    let p = cur.last();
    let closed2 = closed.insert(p);
    let best2 = best_with(best, p, cur.len() - 1);
    let queue2 = expand(t, targets, rest, closed2, cur, DIRECTIONS as int);
    lemma_expand_holds(t, targets, rest, closed2, cur, DIRECTIONS as int);
    assert forall|q: Point, n: int| outpaced(queue, q, n) implies q == p || #[trigger] outpaced(
        rest,
        q,
        n,
    ) by {
        let i = choose|i: int|
            0 <= i < queue.len() && (#[trigger] queue[i]).last() == q && queue[i].len() <= n;
        if i < rest.len() {
            assert(rest[i].last() == q && rest[i].len() <= n);
        }
    }
    assert forall|k: int| 0 <= k < starts.len() implies closed2.contains(#[trigger] starts[k])
        || outpaced(queue2, starts[k], 1) by {
        if !closed2.contains(starts[k]) {
            assert(outpaced(queue, starts[k], 1));
            assert(outpaced(rest, starts[k], 1));
        }
    }
    assert forall|a: Point, d: int|
        closed2.contains(a) && 0 <= d < DIRECTIONS && (#[trigger] slide(t, a, d)) is Some
        implies closed2.contains(landing(t, a, d)) || outpaced(
        queue2,
        landing(t, a, d),
        best2(a) + 2,
    ) by {
        if !closed2.contains(landing(t, a, d)) {
            if a == p {
                lemma_plain_slide(t, p, d);
            } else {
                assert(outpaced(queue, landing(t, a, d), best(a) + 2));
                assert(outpaced(rest, landing(t, a, d), best(a) + 2));
            }
        }
    }
    assert forall|w: Seq<Point>|
        #[trigger] walkable(t, w) && starts.contains(w[0]) && closed2.contains(
            w.last(),
        ) implies best2(w.last()) <= w.len() - 1 by {
        if w.last() == p {
            let i = lemma_queue_bound(t, targets, starts, queue, closed, best, w);
            assert(priority(targets, queue[i]) >= priority(targets, queue[queue.len() - 1]));
        }
    }
}

/// Each starting point is queued as a path of one point where a search
/// starts.
pub proof fn lemma_seed_holds(targets: Seq<Point>, starts: Seq<Point>, upto: int, k: int)
    requires
        0 <= k < upto <= starts.len(),
    ensures
        outpaced(seed(targets, starts, upto), starts[k], 1),
    decreases upto,
{
    let before = seed(targets, starts, upto - 1);
    let path = seq![starts[upto - 1]];
    let after = seed(targets, starts, upto);
    lemma_enqueue_members(targets, before, path);
    if k < upto - 1 {
        lemma_seed_holds(targets, starts, upto - 1, k);
        let i = choose|i: int|
            0 <= i < before.len() && (#[trigger] before[i]).last() == starts[k] && before[i].len()
                <= 1;
        assert(after.contains(before[i]));
        let j = choose|j: int| 0 <= j < after.len() && after[j] == before[i];
        assert(after[j].last() == starts[k] && after[j].len() <= 1);
    } else {
        let j = choose|j: int| 0 <= j < after.len() && after[j] == path;
        assert(after[j].last() == starts[k] && after[j].len() <= 1);
    }
}

/// No expanded point holds the target tile, and all lie inside the grid.
pub open spec fn settled(t: Terrain, target: Tile, closed: Set<Point>) -> bool {
    forall|p: Point| #[trigger] closed.contains(p) ==> in_bounds(t, p) && tile_at(t, p) != target
}

/// On a grid without ice the path that the search returns is no longer than
/// any walk from a starting point to a cell that holds the target tile.
pub proof fn lemma_search_shortest(
    t: Terrain,
    target: Tile,
    starts: Seq<Point>,
    queue: Seq<Seq<Point>>,
    closed: Set<Point>,
    best: spec_fn(Point) -> int,
    w: Seq<Point>,
)
    requires
        well_formed(t),
        no_ice(t),
        all_sound(t, target, starts, queue),
        ordered(points_with(t, target), queue),
        settled(t, target, closed),
        tight(t, starts, queue, closed, best),
        walkable(t, w),
        starts.contains(w[0]),
        tile_at(t, w.last()) == target,
        search(t, target, points_with(t, target), queue, closed) is Some,
    ensures
        search(t, target, points_with(t, target), queue, closed)->0.len() <= w.len(),
    decreases unexpanded(t, closed).len(), queue.len(),
{
    let targets = points_with(t, target);
    let cur = queue.last();
    let rest = queue.drop_last();
    let p = cur.last();
    assert(sound(t, target, starts, queue[queue.len() - 1]));
    assert(in_bounds(t, cur[cur.len() - 1]));
    assert(in_bounds(t, w[w.len() - 1]));
    assert forall|i: int| 0 <= i < rest.len() implies sound(t, target, starts, #[trigger] rest[i]) by {
        assert(rest[i] == queue[i]);
    }
    assert(ordered(targets, rest)) by {
        assert forall|i: int, j: int| 0 <= i <= j < rest.len() implies priority(
            targets,
            #[trigger] rest[i],
        ) >= priority(targets, #[trigger] rest[j]) by {
            assert(rest[i] == queue[i] && rest[j] == queue[j]);
        }
    }
    if tile_at(t, p) == target {
        let i = lemma_queue_bound(t, targets, starts, queue, closed, best, w);
        assert(priority(targets, queue[i]) >= priority(targets, queue[queue.len() - 1]));
        lemma_points_with(t, target, w.last());
        lemma_nearest(targets, w.last(), w.last());
        lemma_nearest(targets, p, p);
    } else if closed.contains(p) {
        lemma_drop_tight(t, starts, queue, closed, best);
        lemma_search_shortest(t, target, starts, rest, closed, best, w);
    } else {
        let closed2 = closed.insert(p);
        let best2 = best_with(best, p, cur.len() - 1);
        let queue2 = expand(t, targets, rest, closed2, cur, DIRECTIONS as int);
        crate::grid::lemma_cells_finite(t);
        assert(unexpanded(t, closed2) =~= unexpanded(t, closed).remove(p));
        lemma_expand_sound(t, target, starts, targets, rest, closed2, cur, DIRECTIONS as int);
        lemma_expand_ordered(t, targets, rest, closed2, cur, DIRECTIONS as int);
        lemma_expand_tight(t, targets, starts, queue, closed, best);
        lemma_search_shortest(t, target, starts, queue2, closed2, best2, w);
    }
}

/// On a grid without ice a search finds a shortest path: the path it returns
/// is no longer than any walk that begins at a starting point, stays inside
/// the grid, goes one step at a time, enters no wall and ends on a cell that
/// holds the target tile.
pub proof fn lemma_shortest(t: Terrain, start: Option<Point>, target: Tile, w: Seq<Point>)
    requires
        well_formed(t),
        no_ice(t),
        start matches Some(p) ==> in_bounds(t, p),
        shortest_path_spec(t, start, target) is Some,
        walkable(t, w),
        starting_points(t, start).contains(w[0]),
        tile_at(t, w.last()) == target,
    ensures
        shortest_path_spec(t, start, target)->0.len() <= w.len(),
{
    let targets = points_with(t, target);
    let starts = starting_points(t, start);
    let queue = seed(targets, starts, starts.len() as int);
    let best = |x: Point| 0int;
    assert forall|i: int| 0 <= i < starts.len() implies in_bounds(t, #[trigger] starts[i]) by {
        if start is None {
            lemma_points_with(t, Tile::Start, starts[i]);
        }
    }
    lemma_seed_sound(t, target, starts, targets, starts.len() as int);
    lemma_seed_ordered(targets, starts, starts.len() as int);
    assert forall|k: int| 0 <= k < starts.len() implies Set::<Point>::empty().contains(
        #[trigger] starts[k],
    ) || outpaced(queue, starts[k], 1) by {
        lemma_seed_holds(targets, starts, starts.len() as int, k);
    }
    lemma_search_shortest(t, target, starts, queue, Set::empty(), best, w);
}

/// Without ice the end of a walk can be reached from its beginning by moves.
pub proof fn lemma_walk_reachable(t: Terrain, w: Seq<Point>)
    requires
        no_ice(t),
        walkable(t, w),
    ensures
        reachable(t, w[0], w.last()),
{
    assert forall|i: int| 0 < i < w.len() implies hop(t, #[trigger] w[i - 1], w[i]) by {
        assert(adjacent(w[i - 1], w[i]) && tile_at(t, w[i]) != Tile::Wall);
        assert(in_bounds(t, w[i]));
        let d = lemma_plain_step(t, w[i - 1], w[i]);
        assert(slide(t, w[i - 1], d) is Some && slide(t, w[i - 1], d)->0.last() == w[i]);
    }
    assert(hops(t, w));
}

/// On a grid without ice and without checkpoints the solver returns a
/// shortest route: where a walk leads from a start tile to the exit, there is
/// a route, and it is no longer than the walk.
pub proof fn lemma_solve_shortest(t: Terrain, w: Seq<Point>)
    requires
        well_formed(t),
        no_ice(t),
        checkpoint_ids(t).len() == 0,
        walkable(t, w),
        tile_at(t, w[0]) == Tile::Start,
        tile_at(t, w.last()) == Tile::Exit,
    ensures
        solve_spec(t) is Some,
        solve_spec(t)->0.len() <= w.len(),
{
    let ids = checkpoint_ids(t);
    assert(in_bounds(t, w[0]));
    assert(in_bounds(t, w[w.len() - 1]));
    lemma_points_with(t, Tile::Start, w[0]);
    lemma_walk_reachable(t, w);
    assert(leg_reachable(t, None, Tile::Exit));
    lemma_shortest_path(t, None, Tile::Exit);
    let leg = shortest_path_spec(t, None, Tile::Exit)->0;
    assert(route_after(t, ids, 0) == Some(Seq::<Point>::empty()));
    assert(leg_start(Seq::<Point>::empty()) == None::<Point>);
    assert(leg_target(ids, 0) == Tile::Exit);
    assert(route_after(t, ids, 1) == Some(join(Seq::<Point>::empty(), leg)));
    lemma_shortest(t, None, Tile::Exit, w);
}

} // verus!
