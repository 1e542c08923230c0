//! What holds of the route that the solver returns: it is a walk from a start
//! tile to the exit that touches the checkpoints in the order of their ids,
//! and it exists where each leg can be walked.
use crate::grid::{in_bounds, lemma_points_with, tile_at, well_formed, Point, Terrain};
use crate::path::{checkpoint_ids, checkpoints_below, has_checkpoint, join, leg_start, leg_target};
use crate::path::{route_after, shortest_path_spec, solve_spec, starting_points};
use crate::route::{ice_respected, leg_reachable, lemma_shortest_path, sound, walkable};
use crate::tiles::Tile;
use vstd::prelude::*;

verus! {

/// Each id is greater than the ids before it.
pub open spec fn ascending(ids: Seq<u8>) -> bool {
    forall|i: int, j: int| 0 <= i < j < ids.len() ==> ids[i] < ids[j]
}

/// The ids below a bound are listed in ascending order, each id below the
/// bound that some cell holds and no other.
pub proof fn lemma_checkpoints_below(t: Terrain, bound: int)
    requires
        0 <= bound <= 256,
    ensures
        ascending(checkpoints_below(t, bound)),
        forall|i: int|
            0 <= i < checkpoints_below(t, bound).len() ==> (#[trigger] checkpoints_below(t, bound)[i])
                < bound,
        forall|id: u8|
            #[trigger] checkpoints_below(t, bound).contains(id) <==> id < bound && has_checkpoint(
                t,
                id,
            ),
    decreases bound,
{
    if bound > 0 {
        lemma_checkpoints_below(t, bound - 1);
        let lower = checkpoints_below(t, bound - 1);
        let all = checkpoints_below(t, bound);
        let top = (bound - 1) as u8;
        assert forall|id: u8| #[trigger] all.contains(id) <==> id < bound && has_checkpoint(
            t,
            id,
        ) by {
            if all.contains(id) {
                let i = choose|i: int| 0 <= i < all.len() && all[i] == id;
                if i < lower.len() {
                    assert(lower[i] == id);
                    assert(lower.contains(id));
                }
            }
            if id < bound && has_checkpoint(t, id) {
                if id == top {
                    assert(all[all.len() - 1] == id);
                } else {
                    assert(lower.contains(id));
                    let i = choose|i: int| 0 <= i < lower.len() && lower[i] == id;
                    assert(all[i] == id);
                }
            }
        }
    }
}

/// The checkpoint ids are listed in ascending order, each id that some cell
/// holds and no other.
pub proof fn lemma_checkpoint_ids(t: Terrain)
    ensures
        ascending(checkpoint_ids(t)),
        forall|id: u8| #[trigger] checkpoint_ids(t).contains(id) <==> has_checkpoint(t, id),
{
    lemma_checkpoints_below(t, 256);
}

/// Leg `k`, counted from 1, as it stands in `path`: the route after `k` legs
/// is the beginning of `path`, it is longer than the route after `k - 1`
/// legs, it ends on the tile that the leg leads to, and on the way from the
/// end of the leg before it touches that tile nowhere else.
pub open spec fn leg_ends(t: Terrain, ids: Seq<u8>, k: int, path: Seq<Point>) -> bool {
    &&& route_after(t, ids, k) is Some
    &&& route_after(t, ids, k - 1) is Some
    &&& route_after(t, ids, k - 1)->0.len() < route_after(t, ids, k)->0.len() <= path.len()
    &&& path.take(route_after(t, ids, k)->0.len() as int) == route_after(t, ids, k)->0
    &&& tile_at(t, route_after(t, ids, k)->0.last()) == leg_target(ids, k - 1)
    &&& forall|j: int|
        0 <= j && route_after(t, ids, k - 1)->0.len() - 1 <= j < route_after(t, ids, k)->0.len() - 1
            ==> tile_at(t, #[trigger] path[j]) != leg_target(ids, k - 1)
}

/// What holds of the route after `n` legs: it is a walk that respects ice,
/// from a start tile to the tile that leg `n` leads to, and leg `n` stands in
/// it as `leg_ends` says.
pub open spec fn route_sound(t: Terrain, ids: Seq<u8>, n: int, path: Seq<Point>) -> bool {
    &&& walkable(t, path)
    &&& ice_respected(t, path)
    &&& tile_at(t, path[0]) == Tile::Start
    &&& tile_at(t, path.last()) == leg_target(ids, n - 1)
    &&& leg_ends(t, ids, n, path)
}

/// Where the route after `n` legs exists, it is sound.
pub proof fn lemma_route(t: Terrain, ids: Seq<u8>, n: int)
    requires
        well_formed(t),
        ascending(ids),
        1 <= n <= ids.len() + 1,
        route_after(t, ids, n) is Some,
    ensures
        route_sound(t, ids, n, route_after(t, ids, n)->0),
    decreases n,
{
    let walked = route_after(t, ids, n - 1)->0;
    let start = leg_start(walked);
    let target = leg_target(ids, n - 1);
    let leg = shortest_path_spec(t, start, target)->0;
    let path = join(walked, leg);
    assert(route_after(t, ids, n) == Some(path));
    if n == 1 {
        assert(walked.len() == 0);
        lemma_shortest_path(t, start, target);
        assert(sound(t, target, starting_points(t, start), leg));
        lemma_points_with(t, Tile::Start, leg[0]);
        assert(leg.len() >= 2) by {
            if leg.len() == 1 {
                assert(leg[0] == leg.last());
            }
        }
        assert forall|j: int| 0 <= j && walked.len() - 1 <= j < path.len() - 1 implies tile_at(
            t,
            #[trigger] path[j],
        ) != target by {
            assert(tile_at(t, leg[j]) != target || target == Tile::Ice);
        }
        assert(path.take(path.len() as int) =~= path);
    } else {
        lemma_route(t, ids, n - 1);
        let m = walked.len() as int;
        assert(in_bounds(t, walked[m - 1]));
        lemma_shortest_path(t, start, target);
        assert(sound(t, target, starting_points(t, start), leg));
        assert(starting_points(t, start) =~= seq![walked.last()]);
        assert(leg[0] == walked.last());
        assert(tile_at(t, leg[0]) == Tile::Checkpoint(ids[n - 2]));
        assert(target != Tile::Checkpoint(ids[n - 2])) by {
            if n - 1 < ids.len() {
                assert(ids[n - 2] < ids[n - 1]);
            }
        }
        assert(leg.len() >= 2) by {
            if leg.len() == 1 {
                assert(leg[0] == leg.last());
            }
        }
        assert(path.len() == m - 1 + leg.len());
        assert forall|i: int| 0 <= i < path.len() implies #[trigger] path[i] == (if i < m - 1 {
            walked[i]
        } else {
            leg[i - (m - 1)]
        }) by {}
        assert forall|i: int| 0 <= i < path.len() implies in_bounds(t, #[trigger] path[i]) by {
            if i < m - 1 {
                assert(in_bounds(t, walked[i]));
            } else {
                assert(in_bounds(t, leg[i - (m - 1)]));
            }
        }
        assert forall|i: int| 0 < i < path.len() implies crate::moves::adjacent(
            path[i - 1],
            #[trigger] path[i],
        ) && tile_at(t, path[i]) != Tile::Wall by {
            if i <= m - 1 {
                assert(path[i] == walked[i]);
                assert(path[i - 1] == walked[i - 1]);
                assert(crate::moves::adjacent(walked[i - 1], walked[i]));
            } else {
                let k = i - (m - 1);
                assert(crate::moves::adjacent(leg[k - 1], leg[k]));
            }
        }
        assert(walkable(t, path));
        assert forall|i: int|
            0 < i < path.len() - 1 && tile_at(t, #[trigger] path[i]) == Tile::Ice implies path[i
            + 1].0 - path[i].0 == path[i].0 - path[i - 1].0 && path[i + 1].1 - path[i].1
            == path[i].1 - path[i - 1].1 by {
            if i < m - 1 {
                assert(path[i] == walked[i]);
                assert(path[i - 1] == walked[i - 1]);
                assert(path[i + 1] == walked[i + 1]);
                assert(tile_at(t, walked[i]) == Tile::Ice);
            } else if i == m - 1 {
                assert(path[i] == walked[m - 1]);
            } else {
                let k = i - (m - 1);
                assert(path[i] == leg[k]);
                assert(path[i - 1] == leg[k - 1]);
                assert(path[i + 1] == leg[k + 1]);
                assert(tile_at(t, leg[k]) == Tile::Ice);
            }
        }
        assert(ice_respected(t, path));
        assert(path[0] == walked[0]);
        assert(path.last() == leg.last());
        assert(path.take(path.len() as int) =~= path);
        assert forall|j: int| 0 <= j && m - 1 <= j < path.len() - 1 implies tile_at(
            t,
            #[trigger] path[j],
        ) != target by {
            assert(tile_at(t, leg[j - (m - 1)]) != target || target == Tile::Ice);
        }
    }
}

/// The route after fewer legs is the beginning of the route after more.
pub proof fn lemma_route_grows(t: Terrain, ids: Seq<u8>, k: int, n: int)
    requires
        well_formed(t),
        ascending(ids),
        1 <= k <= n <= ids.len() + 1,
        route_after(t, ids, n) is Some,
    ensures
        leg_ends(t, ids, k, route_after(t, ids, n)->0),
    decreases n - k,
{
    if k == n {
        lemma_route(t, ids, n);
    } else {
        lemma_route_grows(t, ids, k, n - 1);
        lemma_route_extends(t, ids, n);
        let path = route_after(t, ids, n)->0;
        let shorter = route_after(t, ids, n - 1)->0;
        let part = route_after(t, ids, k)->0;
        assert(path.take(part.len() as int) =~= shorter.take(part.len() as int));
        assert forall|j: int|
            0 <= j && route_after(t, ids, k - 1)->0.len() - 1 <= j < part.len() - 1 implies tile_at(
            t,
            #[trigger] path[j],
        ) != leg_target(ids, k - 1) by {
            assert(path[j] == path.take(shorter.len() as int)[j]);
            assert(tile_at(t, shorter[j]) != leg_target(ids, k - 1));
        }
    }
}

/// A further leg leaves what was walked before it as it was.
proof fn lemma_route_extends(t: Terrain, ids: Seq<u8>, n: int)
    requires
        well_formed(t),
        ascending(ids),
        2 <= n <= ids.len() + 1,
        route_after(t, ids, n) is Some,
    ensures
        route_after(t, ids, n - 1) is Some,
        route_after(t, ids, n - 1)->0.len() <= route_after(t, ids, n)->0.len(),
        route_after(t, ids, n)->0.take(route_after(t, ids, n - 1)->0.len() as int) == route_after(
            t,
            ids,
            n - 1,
        )->0,
{
    let path = route_after(t, ids, n)->0;
    let shorter = route_after(t, ids, n - 1)->0;
    let leg = shortest_path_spec(t, leg_start(shorter), leg_target(ids, n - 1))->0;
    assert(shorter.len() > 0 && in_bounds(t, shorter.last())) by {
        lemma_route(t, ids, n - 1);
        assert(in_bounds(t, shorter[shorter.len() - 1]));
    }
    assert(leg.len() > 0 && leg[0] == shorter.last()) by {
        lemma_shortest_path(t, leg_start(shorter), leg_target(ids, n - 1));
        assert(starting_points(t, leg_start(shorter)) =~= seq![shorter.last()]);
    }
    assert(path == shorter.drop_last() + leg);
    assert(path.take(shorter.len() as int) =~= shorter);
}

/// The route that the solver returns is a walk from a start tile to the exit
/// that respects ice, and every leg stands in it in the order of the
/// checkpoint ids: the route to each checkpoint is the beginning of the route
/// to the next, ends on a cell that holds that checkpoint, and touches the
/// checkpoint nowhere else on that leg.
pub proof fn lemma_solve(t: Terrain)
    requires
        well_formed(t),
        solve_spec(t) is Some,
    ensures
        walkable(t, solve_spec(t)->0),
        ice_respected(t, solve_spec(t)->0),
        tile_at(t, solve_spec(t)->0[0]) == Tile::Start,
        tile_at(t, solve_spec(t)->0.last()) == Tile::Exit,
        forall|k: int|
            1 <= k <= checkpoint_ids(t).len() + 1 ==> #[trigger] leg_ends(
                t,
                checkpoint_ids(t),
                k,
                solve_spec(t)->0,
            ),
{
    let ids = checkpoint_ids(t);
    lemma_checkpoint_ids(t);
    lemma_route(t, ids, ids.len() as int + 1);
    assert forall|k: int| 1 <= k <= ids.len() + 1 implies #[trigger] leg_ends(
        t,
        ids,
        k,
        solve_spec(t)->0,
    ) by {
        lemma_route_grows(t, ids, k, ids.len() as int + 1);
    }
}

/// Every leg can be walked: some start tile reaches the first tile of the
/// route, and every cell that holds the tile one leg ends on reaches a cell
/// that holds the tile the next leg ends on.
pub open spec fn connected(t: Terrain) -> bool {
    &&& leg_reachable(t, None, leg_target(checkpoint_ids(t), 0))
    &&& forall|k: int, a: Point|
        1 <= k <= checkpoint_ids(t).len() && in_bounds(t, a) && tile_at(t, a) == leg_target(
            checkpoint_ids(t),
            k - 1,
        ) ==> #[trigger] leg_reachable(t, Some(a), leg_target(checkpoint_ids(t), k))
}

/// Where every leg can be walked, the route exists after any number of legs.
pub proof fn lemma_route_found(t: Terrain, n: int)
    requires
        well_formed(t),
        connected(t),
        0 <= n <= checkpoint_ids(t).len() + 1,
    ensures
        route_after(t, checkpoint_ids(t), n) is Some,
    decreases n,
{
    let ids = checkpoint_ids(t);
    if n > 0 {
        lemma_route_found(t, n - 1);
        let walked = route_after(t, ids, n - 1)->0;
        if n == 1 {
            lemma_shortest_path(t, leg_start(walked), leg_target(ids, 0));
        } else {
            lemma_checkpoint_ids(t);
            lemma_route(t, ids, n - 1);
            let a = walked.last();
            assert(in_bounds(t, walked[walked.len() - 1]));
            assert(leg_reachable(t, Some(a), leg_target(ids, n - 1)));
            lemma_shortest_path(t, leg_start(walked), leg_target(ids, n - 1));
        }
    }
}

/// Where every leg can be walked, the solver returns a route.
pub proof fn lemma_solve_connected(t: Terrain)
    requires
        well_formed(t),
        connected(t),
    ensures
        solve_spec(t) is Some,
{
    lemma_route_found(t, checkpoint_ids(t).len() as int + 1);
}

/// Where the solver returns no route, some leg cannot be walked: the route
/// stops after some number of legs, and from where it stops no cell that
/// holds the next tile can be reached.
pub proof fn lemma_unsolvable(t: Terrain) -> (k: int)
    requires
        well_formed(t),
        solve_spec(t) is None,
    ensures
        0 <= k <= checkpoint_ids(t).len(),
        route_after(t, checkpoint_ids(t), k) is Some,
        !leg_reachable(
            t,
            leg_start(route_after(t, checkpoint_ids(t), k)->0),
            leg_target(checkpoint_ids(t), k),
        ),
{
    let ids = checkpoint_ids(t);
    lemma_checkpoint_ids(t);
    let k = lemma_first_lost(t, ids, ids.len() as int + 1);
    let walked = route_after(t, ids, k)->0;
    if k >= 1 {
        lemma_route(t, ids, k);
        assert(in_bounds(t, walked[walked.len() - 1]));
    }
    lemma_shortest_path(t, leg_start(walked), leg_target(ids, k));
    k
}

proof fn lemma_first_lost(t: Terrain, ids: Seq<u8>, n: int) -> (k: int)
    requires
        n >= 0,
        route_after(t, ids, n) is None,
    ensures
        0 <= k < n,
        route_after(t, ids, k) is Some,
        route_after(t, ids, k + 1) is None,
    decreases n,
{
    if route_after(t, ids, n - 1) is Some {
        n - 1
    } else {
        lemma_first_lost(t, ids, n - 1)
    }
}

} // verus!
