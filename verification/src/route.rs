//! What holds of every path that the search queues, and so of the path it
//! returns.
use crate::frontier::{enqueue, lemma_enqueue_members, lemma_enqueue_ordered, ordered, priority};
use crate::grid::{in_bounds, lemma_points_with, points_with, tile_at, well_formed, Point, Terrain};
use crate::moves::{adjacent, hop, hops, is_slide, lemma_slide, offset, reachable, slide, DIRECTIONS};
use crate::path::{expand, search, seed, shortest_path_spec, starting_points, unexpanded, visit};
use crate::tiles::Tile;
use vstd::prelude::*;

verus! {

/// A walk on the grid: it has a first point, stays inside the grid, goes one
/// step in a cardinal direction at a time, and enters no wall.
pub open spec fn walkable(t: Terrain, path: Seq<Point>) -> bool {
    &&& path.len() > 0
    &&& forall|i: int| 0 <= i < path.len() ==> in_bounds(t, #[trigger] path[i])
    &&& forall|i: int|
        0 < i < path.len() ==> adjacent(path[i - 1], #[trigger] path[i]) && tile_at(t, path[i])
            != Tile::Wall
}

/// Ice forces the walker on: the step that leaves an ice cell repeats the
/// step that entered it.
pub open spec fn ice_respected(t: Terrain, path: Seq<Point>) -> bool {
    forall|i: int|
        0 < i < path.len() - 1 && tile_at(t, #[trigger] path[i]) == Tile::Ice ==> path[i + 1].0
            - path[i].0 == path[i].0 - path[i - 1].0 && path[i + 1].1 - path[i].1 == path[i].1
            - path[i - 1].1
}

/// No point before the last holds the target tile, unless the target is ice
/// itself.
pub open spec fn target_only_last(t: Terrain, target: Tile, path: Seq<Point>) -> bool {
    forall|i: int|
        0 <= i < path.len() - 1 ==> tile_at(t, #[trigger] path[i]) != target || target == Tile::Ice
}

/// What holds of a path of the search: it begins at one of the starting
/// points, is a walk that respects ice, comes to rest off the ice, touches the
/// target tile at its end only, and its end can be reached from its beginning
/// by moves.
pub open spec fn sound(t: Terrain, target: Tile, starts: Seq<Point>, path: Seq<Point>) -> bool {
    &&& walkable(t, path)
    &&& starts.contains(path[0])
    &&& ice_respected(t, path)
    &&& path.len() > 1 ==> tile_at(t, path.last()) != Tile::Ice
    &&& target_only_last(t, target, path)
    &&& reachable(t, path[0], path.last())
}

/// Every queued path is sound.
pub open spec fn all_sound(
    t: Terrain,
    target: Tile,
    starts: Seq<Point>,
    queue: Seq<Seq<Point>>,
) -> bool {
    forall|i: int| 0 <= i < queue.len() ==> sound(t, target, starts, #[trigger] queue[i])
}

/// One more move keeps the end reachable.
pub proof fn lemma_reachable_step(t: Terrain, from: Point, via: Point, to: Point)
    requires
        reachable(t, from, via),
        hop(t, via, to),
    ensures
        reachable(t, from, to),
{
    let stops = choose|stops: Seq<Point>|
        stops.len() > 0 && stops[0] == from && stops.last() == via && #[trigger] hops(t, stops);
    let longer = stops.push(to);
    assert forall|i: int| 0 < i < longer.len() implies hop(t, #[trigger] longer[i - 1], longer[i]) by {
        if i < stops.len() {
            assert(hop(t, stops[i - 1], stops[i]));
        }
    }
    assert(hops(t, longer));
    assert(longer[0] == from && longer.last() == to);
}

/// A point can be reached from itself.
pub proof fn lemma_reachable_self(t: Terrain, p: Point)
    ensures
        reachable(t, p, p),
{
    let stops = seq![p];
    assert(hops(t, stops));
    assert(stops[0] == p && stops.last() == p);
}

/// A sound path that does not end on the target stays sound when a move is
/// added to it.
pub proof fn lemma_extend_sound(
    t: Terrain,
    target: Tile,
    starts: Seq<Point>,
    cur: Seq<Point>,
    d: int,
)
    requires
        sound(t, target, starts, cur),
        tile_at(t, cur.last()) != target,
        0 <= d < DIRECTIONS,
        slide(t, cur.last(), d) is Some,
    ensures
        sound(t, target, starts, cur + slide(t, cur.last(), d)->0),
{
    let p = cur.last();
    let trace = slide(t, p, d)->0;
    let path = cur + trace;
    let n = cur.len() as int;
    lemma_slide(t, p, d);
    assert(is_slide(t, p, d, trace));
    assert forall|i: int| 0 <= i < path.len() implies in_bounds(t, #[trigger] path[i]) by {
        if i >= n {
            assert(path[i] == trace[i - n]);
        } else {
            assert(path[i] == cur[i]);
        }
    }
    assert forall|i: int| 0 < i < path.len() implies adjacent(path[i - 1], #[trigger] path[i])
        && tile_at(t, path[i]) != Tile::Wall by {
        if i < n {
            assert(path[i] == cur[i]);
            assert(path[i - 1] == cur[i - 1]);
        } else if i == n {
            assert(path[i] == trace[0]);
            assert(path[i - 1] == p);
        } else {
            assert(path[i] == trace[i - n]);
            assert(path[i - 1] == trace[i - n - 1]);
            assert((i - n + 1) * offset(d).0 == (i - n) * offset(d).0 + offset(d).0)
                by (nonlinear_arith);
            assert((i - n + 1) * offset(d).1 == (i - n) * offset(d).1 + offset(d).1)
                by (nonlinear_arith);
        }
    }
    assert(walkable(t, path));
    assert(path[0] == cur[0]);
    assert forall|i: int|
        0 < i < path.len() - 1 && tile_at(t, #[trigger] path[i]) == Tile::Ice implies path[i + 1].0
        - path[i].0 == path[i].0 - path[i - 1].0 && path[i + 1].1 - path[i].1 == path[i].1 - path[i
        - 1].1 by {
        if i < n - 1 {
            assert(path[i] == cur[i]);
            assert(path[i - 1] == cur[i - 1]);
            assert(path[i + 1] == cur[i + 1]);
        } else if i == n - 1 {
            assert(path[i] == p);
        } else {
            let k = i - n;
            assert(path[i] == trace[k]);
            assert(path[i + 1] == trace[k + 1]);
            assert((k + 2) * offset(d).0 == (k + 1) * offset(d).0 + offset(d).0)
                by (nonlinear_arith);
            assert((k + 2) * offset(d).1 == (k + 1) * offset(d).1 + offset(d).1)
                by (nonlinear_arith);
            if k == 0 {
                assert(path[i - 1] == p);
            } else {
                assert(path[i - 1] == trace[k - 1]);
                assert((k + 1) * offset(d).0 == k * offset(d).0 + offset(d).0)
                    by (nonlinear_arith);
                assert((k + 1) * offset(d).1 == k * offset(d).1 + offset(d).1)
                    by (nonlinear_arith);
            }
        }
    }
    assert(ice_respected(t, path));
    assert(path.last() == trace.last());
    assert(tile_at(t, trace[trace.len() - 1]) != Tile::Ice);
    assert forall|i: int| 0 <= i < path.len() - 1 implies tile_at(t, #[trigger] path[i]) != target
        || target == Tile::Ice by {
        if i < n - 1 {
            assert(path[i] == cur[i]);
        } else if i == n - 1 {
            assert(path[i] == p);
        } else {
            assert(path[i] == trace[i - n]);
        }
    }
    assert(hop(t, p, trace.last()));
    lemma_reachable_step(t, cur[0], p, trace.last());
}

/// Considering a move keeps every queued path sound.
pub proof fn lemma_visit_sound(
    t: Terrain,
    target: Tile,
    starts: Seq<Point>,
    targets: Seq<Point>,
    queue: Seq<Seq<Point>>,
    closed: Set<Point>,
    cur: Seq<Point>,
    d: int,
)
    requires
        all_sound(t, target, starts, queue),
        sound(t, target, starts, cur),
        tile_at(t, cur.last()) != target,
        0 <= d < DIRECTIONS,
    ensures
        all_sound(t, target, starts, visit(t, targets, queue, closed, cur, d)),
{
    if slide(t, cur.last(), d) is Some {
        let path = cur + slide(t, cur.last(), d)->0;
        lemma_extend_sound(t, target, starts, cur, d);
        lemma_enqueue_members(targets, queue, path);
        let after = enqueue(targets, queue, path);
        assert forall|i: int| 0 <= i < after.len() implies sound(
            t,
            target,
            starts,
            #[trigger] after[i],
        ) by {
            if after[i] != path {
                let j = choose|j: int| 0 <= j < queue.len() && queue[j] == after[i];
                assert(sound(t, target, starts, queue[j]));
            }
        }
    }
}

/// Expanding a point keeps every queued path sound.
pub proof fn lemma_expand_sound(
    t: Terrain,
    target: Tile,
    starts: Seq<Point>,
    targets: Seq<Point>,
    queue: Seq<Seq<Point>>,
    closed: Set<Point>,
    cur: Seq<Point>,
    upto: int,
)
    requires
        all_sound(t, target, starts, queue),
        sound(t, target, starts, cur),
        tile_at(t, cur.last()) != target,
        0 <= upto <= DIRECTIONS,
    ensures
        all_sound(t, target, starts, expand(t, targets, queue, closed, cur, upto)),
    decreases upto,
{
    if upto > 0 {
        lemma_expand_sound(t, target, starts, targets, queue, closed, cur, upto - 1);
        lemma_visit_sound(
            t,
            target,
            starts,
            targets,
            expand(t, targets, queue, closed, cur, upto - 1),
            closed,
            cur,
            upto - 1,
        );
    }
}

/// The path that the search returns is sound and ends on the target tile.
pub proof fn lemma_search_sound(
    t: Terrain,
    target: Tile,
    starts: Seq<Point>,
    targets: Seq<Point>,
    queue: Seq<Seq<Point>>,
    closed: Set<Point>,
)
    requires
        all_sound(t, target, starts, queue),
    ensures
        search(t, target, targets, queue, closed) matches Some(path) ==> sound(
            t,
            target,
            starts,
            path,
        ) && tile_at(t, path.last()) == target,
    decreases unexpanded(t, closed).len(), queue.len(),
{
    if queue.len() > 0 {
        let cur = queue.last();
        let rest = queue.drop_last();
        let p = cur.last();
        assert(sound(t, target, starts, queue[queue.len() - 1]));
        assert forall|i: int| 0 <= i < rest.len() implies sound(
            t,
            target,
            starts,
            #[trigger] rest[i],
        ) by {
            assert(rest[i] == queue[i]);
        }
        if in_bounds(t, p) && tile_at(t, p) == target {
        } else if !in_bounds(t, p) || closed.contains(p) {
            lemma_search_sound(t, target, starts, targets, rest, closed);
        } else {
            crate::grid::lemma_cells_finite(t);
            assert(unexpanded(t, closed.insert(p)) =~= unexpanded(t, closed).remove(p));
            lemma_expand_sound(
                t,
                target,
                starts,
                targets,
                rest,
                closed.insert(p),
                cur,
                DIRECTIONS as int,
            );
            lemma_search_sound(
                t,
                target,
                starts,
                targets,
                expand(t, targets, rest, closed.insert(p), cur, DIRECTIONS as int),
                closed.insert(p),
            );
        }
    }
}

/// Every path that a search starts from is sound.
pub proof fn lemma_seed_sound(
    t: Terrain,
    target: Tile,
    starts: Seq<Point>,
    targets: Seq<Point>,
    upto: int,
)
    requires
        0 <= upto <= starts.len(),
        forall|i: int| 0 <= i < starts.len() ==> in_bounds(t, #[trigger] starts[i]),
    ensures
        all_sound(t, target, starts, seed(targets, starts, upto)),
    decreases upto,
{
    if upto > 0 {
        lemma_seed_sound(t, target, starts, targets, upto - 1);
        let queue = seed(targets, starts, upto - 1);
        let path = seq![starts[upto - 1]];
        lemma_reachable_self(t, starts[upto - 1]);
        assert(sound(t, target, starts, path));
        lemma_enqueue_members(targets, queue, path);
        let after = enqueue(targets, queue, path);
        assert forall|i: int| 0 <= i < after.len() implies sound(
            t,
            target,
            starts,
            #[trigger] after[i],
        ) by {
            if after[i] != path {
                let j = choose|j: int| 0 <= j < queue.len() && queue[j] == after[i];
                assert(sound(t, target, starts, queue[j]));
            }
        }
    }
}

/// Some queued path ends at `q`.
pub open spec fn queued(queue: Seq<Seq<Point>>, q: Point) -> bool {
    exists|i: int| 0 <= i < queue.len() && (#[trigger] queue[i]).last() == q
}

/// Where the move from `p` in direction `d` comes to rest.
pub open spec fn landing(t: Terrain, p: Point, d: int) -> Point {
    slide(t, p, d)->0.last()
}

/// Nothing was lost: no expanded point holds the target tile, and every move
/// from an expanded point ends at an expanded point or at the end of a queued
/// path.
pub open spec fn covered(t: Terrain, target: Tile, queue: Seq<Seq<Point>>, closed: Set<Point>) -> bool {
    &&& forall|p: Point| #[trigger] closed.contains(p) ==> in_bounds(t, p) && tile_at(t, p) != target
    &&& forall|p: Point, d: int|
        closed.contains(p) && 0 <= d < DIRECTIONS && (#[trigger] slide(t, p, d)) is Some
            ==> closed.contains(landing(t, p, d)) || queued(queue, landing(t, p, d))
}

/// With an empty queue, whatever can be reached from an expanded point was
/// expanded.
proof fn lemma_stops_closed(t: Terrain, target: Tile, closed: Set<Point>, stops: Seq<Point>, k: int)
    requires
        covered(t, target, Seq::empty(), closed),
        hops(t, stops),
        0 <= k < stops.len(),
        closed.contains(stops[0]),
    ensures
        closed.contains(stops[k]),
    decreases k,
{
    if k > 0 {
        lemma_stops_closed(t, target, closed, stops, k - 1);
        assert(hop(t, stops[k - 1], stops[k]));
        let d = choose|d: int|
            0 <= d < DIRECTIONS && (#[trigger] slide(t, stops[k - 1], d)) is Some && slide(
                t,
                stops[k - 1],
                d,
            )->0.last() == stops[k];
        assert(closed.contains(landing(t, stops[k - 1], d)) || queued(
            Seq::empty(),
            landing(t, stops[k - 1], d),
        ));
    }
}

/// Considering a move loses no queued end, and accounts for where the move
/// ends.
pub proof fn lemma_visit_covers(
    t: Terrain,
    targets: Seq<Point>,
    queue: Seq<Seq<Point>>,
    closed: Set<Point>,
    cur: Seq<Point>,
    d: int,
)
    requires
        0 <= d < DIRECTIONS,
    ensures
        forall|q: Point| queued(queue, q) ==> #[trigger] queued(visit(t, targets, queue, closed, cur, d), q),
        slide(t, cur.last(), d) is Some ==> closed.contains(landing(t, cur.last(), d)) || queued(
            visit(t, targets, queue, closed, cur, d),
            landing(t, cur.last(), d),
        ),
{
    let after = visit(t, targets, queue, closed, cur, d);
    if slide(t, cur.last(), d) is Some {
        let trace = slide(t, cur.last(), d)->0;
        let path = cur + trace;
        lemma_slide(t, cur.last(), d);
        assert(path.last() == trace.last());
        lemma_enqueue_members(targets, queue, path);
        if closed.contains(path.last()) {
        } else if crate::frontier::outpaced(queue, path.last(), path.len() as int) {
            let i = choose|i: int|
                0 <= i < queue.len() && (#[trigger] queue[i]).last() == path.last() && queue[i].len()
                    <= path.len();
            assert(queued(queue, path.last()));
        } else {
            let at = choose|i: int| 0 <= i < after.len() && after[i] == path;
            assert(after[at].last() == path.last());
            assert forall|q: Point| queued(queue, q) implies #[trigger] queued(after, q) by {
                let i = choose|i: int| 0 <= i < queue.len() && (#[trigger] queue[i]).last() == q;
                assert(after.contains(queue[i]));
                let j = choose|j: int| 0 <= j < after.len() && after[j] == queue[i];
                assert(after[j].last() == q);
            }
        }
    }
}

/// Expanding a point loses no queued end, and accounts for where each move
/// considered so far ends.
pub proof fn lemma_expand_covers(
    t: Terrain,
    targets: Seq<Point>,
    queue: Seq<Seq<Point>>,
    closed: Set<Point>,
    cur: Seq<Point>,
    upto: int,
)
    requires
        0 <= upto <= DIRECTIONS,
    ensures
        forall|q: Point|
            queued(queue, q) ==> #[trigger] queued(expand(t, targets, queue, closed, cur, upto), q),
        forall|d: int|
            0 <= d < upto && (#[trigger] slide(t, cur.last(), d)) is Some ==> closed.contains(
                landing(t, cur.last(), d),
            ) || queued(expand(t, targets, queue, closed, cur, upto), landing(t, cur.last(), d)),
    decreases upto,
{
    if upto > 0 {
        let before = expand(t, targets, queue, closed, cur, upto - 1);
        let after = expand(t, targets, queue, closed, cur, upto);
        lemma_expand_covers(t, targets, queue, closed, cur, upto - 1);
        lemma_visit_covers(t, targets, before, closed, cur, upto - 1);
        assert forall|q: Point| queued(queue, q) implies #[trigger] queued(after, q) by {
            assert(queued(before, q));
        }
        assert forall|d: int|
            0 <= d < upto && (#[trigger] slide(t, cur.last(), d)) is Some implies closed.contains(
            landing(t, cur.last(), d),
        ) || queued(after, landing(t, cur.last(), d)) by {
            if d < upto - 1 {
                if !closed.contains(landing(t, cur.last(), d)) {
                    assert(queued(before, landing(t, cur.last(), d)));
                }
            }
        }
    }
}

/// The search is complete: where a target tile can be reached from an
/// expanded point or from the end of a queued path, the search returns a
/// path.
pub proof fn lemma_search_complete(
    t: Terrain,
    target: Tile,
    starts: Seq<Point>,
    targets: Seq<Point>,
    queue: Seq<Seq<Point>>,
    closed: Set<Point>,
    from: Point,
    to: Point,
)
    requires
        all_sound(t, target, starts, queue),
        covered(t, target, queue, closed),
        closed.contains(from) || queued(queue, from),
        reachable(t, from, to),
        tile_at(t, to) == target,
    ensures
        search(t, target, targets, queue, closed) is Some,
    decreases unexpanded(t, closed).len(), queue.len(),
{
    if queue.len() == 0 {
        let stops = choose|stops: Seq<Point>|
            stops.len() > 0 && stops[0] == from && stops.last() == to && #[trigger] hops(t, stops);
        assert(queue =~= Seq::empty());
        lemma_stops_closed(t, target, closed, stops, stops.len() - 1);
        assert(closed.contains(to));
    } else {
        let cur = queue.last();
        let rest = queue.drop_last();
        let p = cur.last();
        assert(sound(t, target, starts, queue[queue.len() - 1]));
        assert(in_bounds(t, cur[cur.len() - 1]));
        assert forall|i: int| 0 <= i < rest.len() implies sound(
            t,
            target,
            starts,
            #[trigger] rest[i],
        ) by {
            assert(rest[i] == queue[i]);
        }
        assert forall|q: Point| queued(queue, q) implies q == p || #[trigger] queued(rest, q) by {
            let i = choose|i: int| 0 <= i < queue.len() && (#[trigger] queue[i]).last() == q;
            if i < rest.len() {
                assert(rest[i].last() == q);
            }
        }
        if tile_at(t, p) == target {
        } else if closed.contains(p) {
            assert forall|a: Point, d: int|
                closed.contains(a) && 0 <= d < DIRECTIONS && (#[trigger] slide(t, a, d)) is Some
                implies closed.contains(landing(t, a, d)) || queued(rest, landing(t, a, d)) by {
                if !closed.contains(landing(t, a, d)) {
                    assert(queued(queue, landing(t, a, d)));
                }
            }
            lemma_search_complete(t, target, starts, targets, rest, closed, from, to);
        } else {
            let closed2 = closed.insert(p);
            let queue2 = expand(t, targets, rest, closed2, cur, DIRECTIONS as int);
            crate::grid::lemma_cells_finite(t);
            assert(unexpanded(t, closed2) =~= unexpanded(t, closed).remove(p));
            lemma_expand_sound(t, target, starts, targets, rest, closed2, cur, DIRECTIONS as int);
            lemma_expand_covers(t, targets, rest, closed2, cur, DIRECTIONS as int);
            assert forall|a: Point, d: int|
                closed2.contains(a) && 0 <= d < DIRECTIONS && (#[trigger] slide(t, a, d)) is Some
                implies closed2.contains(landing(t, a, d)) || queued(queue2, landing(t, a, d)) by {
                if a != p && !closed2.contains(landing(t, a, d)) {
                    assert(queued(queue, landing(t, a, d)));
                    assert(queued(rest, landing(t, a, d)));
                }
            }
            if !closed2.contains(from) {
                assert(queued(rest, from));
            }
            lemma_search_complete(t, target, starts, targets, queue2, closed2, from, to);
        }
    }
}

/// Each starting point is the end of a path that the search starts from.
pub proof fn lemma_seed_queued(targets: Seq<Point>, starts: Seq<Point>, upto: int, k: int)
    requires
        0 <= k < upto <= starts.len(),
    ensures
        queued(seed(targets, starts, upto), starts[k]),
    decreases upto,
{
    let before = seed(targets, starts, upto - 1);
    let path = seq![starts[upto - 1]];
    let after = seed(targets, starts, upto);
    lemma_enqueue_members(targets, before, path);
    if k < upto - 1 {
        lemma_seed_queued(targets, starts, upto - 1, k);
        let i = choose|i: int| 0 <= i < before.len() && (#[trigger] before[i]).last() == starts[k];
        assert(after.contains(before[i]));
        let j = choose|j: int| 0 <= j < after.len() && after[j] == before[i];
        assert(after[j].last() == starts[k]);
    } else {
        let j = choose|j: int| 0 <= j < after.len() && after[j] == path;
        assert(after[j].last() == starts[k]);
    }
}

/// One of the starting points can reach a cell that holds the target tile.
pub open spec fn leg_reachable(t: Terrain, start: Option<Point>, target: Tile) -> bool {
    exists|s: Point, q: Point|
        starting_points(t, start).contains(s) && #[trigger] reachable(t, s, q) && in_bounds(t, q)
            && tile_at(t, q) == target
}

/// A search finds a path exactly where a target tile can be reached by moves
/// from a starting point, and the path it finds is sound and ends on the
/// target tile.
pub proof fn lemma_shortest_path(t: Terrain, start: Option<Point>, target: Tile)
    requires
        well_formed(t),
        start matches Some(p) ==> in_bounds(t, p),
    ensures
        shortest_path_spec(t, start, target) is Some <==> leg_reachable(t, start, target),
        shortest_path_spec(t, start, target) matches Some(path) ==> sound(
            t,
            target,
            starting_points(t, start),
            path,
        ) && tile_at(t, path.last()) == target,
{
    let targets = points_with(t, target);
    let starts = starting_points(t, start);
    let queue = seed(targets, starts, starts.len() as int);
    assert forall|i: int| 0 <= i < starts.len() implies in_bounds(t, #[trigger] starts[i]) by {
        if start is None {
            lemma_points_with(t, Tile::Start, starts[i]);
        }
    }
    lemma_seed_sound(t, target, starts, targets, starts.len() as int);
    lemma_search_sound(t, target, starts, targets, queue, Set::empty());
    if shortest_path_spec(t, start, target) is Some {
        let path = shortest_path_spec(t, start, target)->0;
        assert(in_bounds(t, path[path.len() - 1]));
        assert(reachable(t, path[0], path.last()));
    }
    if leg_reachable(t, start, target) {
        let (s, q) = choose|s: Point, q: Point|
            starting_points(t, start).contains(s) && #[trigger] reachable(t, s, q) && in_bounds(
                t,
                q,
            ) && tile_at(t, q) == target;
        lemma_points_with(t, target, q);
        let k = choose|k: int| 0 <= k < starts.len() && starts[k] == s;
        lemma_seed_queued(targets, starts, starts.len() as int, k);
        lemma_search_complete(t, target, starts, targets, queue, Set::empty(), s, q);
    }
}

/// The path at the back of an ordered queue has the least key, so the search
/// always takes a path with the least key that the queue holds.
pub proof fn lemma_least_key_first(targets: Seq<Point>, queue: Seq<Seq<Point>>)
    requires
        ordered(targets, queue),
        queue.len() > 0,
    ensures
        forall|i: int|
            0 <= i < queue.len() ==> priority(targets, queue.last()) <= priority(
                targets,
                #[trigger] queue[i],
            ),
{
    assert forall|i: int| 0 <= i < queue.len() implies priority(targets, queue.last()) <= priority(
        targets,
        #[trigger] queue[i],
    ) by {
        assert(priority(targets, queue[i]) >= priority(targets, queue[queue.len() - 1]));
    }
}

/// Every queue that a search starts from is ordered.
pub proof fn lemma_seed_ordered(targets: Seq<Point>, starts: Seq<Point>, upto: int)
    ensures
        ordered(targets, seed(targets, starts, upto)),
    decreases upto,
{
    if upto > 0 {
        lemma_seed_ordered(targets, starts, upto - 1);
        lemma_enqueue_ordered(targets, seed(targets, starts, upto - 1), seq![starts[upto - 1]]);
    }
}

/// Expanding a point keeps the queue ordered.
pub proof fn lemma_expand_ordered(
    t: Terrain,
    targets: Seq<Point>,
    queue: Seq<Seq<Point>>,
    closed: Set<Point>,
    cur: Seq<Point>,
    upto: int,
)
    requires
        ordered(targets, queue),
    ensures
        ordered(targets, expand(t, targets, queue, closed, cur, upto)),
    decreases upto,
{
    if upto > 0 {
        let before = expand(t, targets, queue, closed, cur, upto - 1);
        lemma_expand_ordered(t, targets, queue, closed, cur, upto - 1);
        if slide(t, cur.last(), upto - 1) is Some {
            lemma_enqueue_ordered(targets, before, cur + slide(t, cur.last(), upto - 1)->0);
        }
    }
}

/// A step of the search keeps the queue ordered: the queue without the path
/// that was taken is ordered, and so is the queue after the end of that path
/// was expanded.
pub proof fn lemma_step_ordered(
    t: Terrain,
    targets: Seq<Point>,
    queue: Seq<Seq<Point>>,
    closed: Set<Point>,
)
    requires
        ordered(targets, queue),
        queue.len() > 0,
    ensures
        ordered(targets, queue.drop_last()),
        ordered(
            targets,
            expand(t, targets, queue.drop_last(), closed, queue.last(), DIRECTIONS as int),
        ),
{
    let rest = queue.drop_last();
    assert forall|i: int, j: int| 0 <= i <= j < rest.len() implies priority(
        targets,
        #[trigger] rest[i],
    ) >= priority(targets, #[trigger] rest[j]) by {
        assert(rest[i] == queue[i] && rest[j] == queue[j]);
    }
    lemma_expand_ordered(t, targets, rest, closed, queue.last(), DIRECTIONS as int);
}

} // verus!
