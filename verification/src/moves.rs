//! How a walker moves: one step in a cardinal direction, and on ice a forced
//! slide until the first tile that is not ice.
use crate::grid::{contains_point, get_tile, height, in_bounds, terrain, tile_at, well_formed, width};
use crate::grid::{Grid, Point, Terrain};
use crate::tiles::Tile;
use vstd::prelude::*;

verus! {

/// The number of directions. They are tried in the order up, right, down,
/// left, numbered from 0.
pub const DIRECTIONS: usize = 4;

/// The step that direction `d` takes, as `(dx, dy)`.
pub open spec fn offset(d: int) -> (int, int) {
    if d == 0 {
        (0, -1)
    } else if d == 1 {
        (1, 0)
    } else if d == 2 {
        (0, 1)
    } else {
        (-1, 0)
    }
}

/// The point one step from `p` in direction `d`, if a `Point` can hold it.
pub open spec fn neighbor(p: Point, d: int) -> Option<Point> {
    let x = p.0 + offset(d).0;
    let y = p.1 + offset(d).1;
    if i8::MIN <= x <= i8::MAX && i8::MIN <= y <= i8::MAX {
        Some((x as i8, y as i8))
    } else {
        None
    }
}

/// The number of cells between `p` and the border in direction `d`.
pub open spec fn room(t: Terrain, p: Point, d: int) -> int {
    if d == 0 {
        p.1 as int
    } else if d == 1 {
        width(t) - 1 - p.0
    } else if d == 2 {
        height(t) - 1 - p.1
    } else {
        p.0 as int
    }
}

/// The cells entered when leaving `p` in direction `d`, in order. The move
/// ends on the first cell that is not ice, so every cell but the last is ice.
/// There is no move where the next cell is outside the grid or a wall, be it
/// the first cell or one reached while sliding.
pub open spec fn slide(t: Terrain, p: Point, d: int) -> Option<Seq<Point>>
    decreases room(t, p, d),
{
    match neighbor(p, d) {
        None => None,
        Some(q) => if !in_bounds(t, q) {
            None
        } else if tile_at(t, q) == Tile::Wall {
            None
        } else if tile_at(t, q) == Tile::Ice {
            match slide(t, q, d) {
                None => None,
                Some(rest) => Some(seq![q] + rest),
            }
        } else {
            Some(seq![q])
        },
    }
}

/// `q` is where a move from `p` comes to rest.
pub open spec fn hop(t: Terrain, p: Point, q: Point) -> bool {
    exists|d: int| 0 <= d < DIRECTIONS && (#[trigger] slide(t, p, d)) is Some && slide(t, p, d)->0.last() == q
}

/// Each stop is one move from the stop before it.
pub open spec fn hops(t: Terrain, stops: Seq<Point>) -> bool {
    forall|i: int| 0 < i < stops.len() ==> hop(t, #[trigger] stops[i - 1], stops[i])
}

/// `to` can be reached from `from` in any number of moves, none included.
pub open spec fn reachable(t: Terrain, from: Point, to: Point) -> bool {
    exists|stops: Seq<Point>|
        stops.len() > 0 && stops[0] == from && stops.last() == to && #[trigger] hops(t, stops)
}

/// Two points one step apart in a cardinal direction.
pub open spec fn adjacent(a: Point, b: Point) -> bool {
    (a.0 == b.0 && (a.1 - b.1 == 1 || b.1 - a.1 == 1)) || (a.1 == b.1 && (a.0 - b.0 == 1 || b.0
        - a.0 == 1))
}

/// The cells of a move: each one step further in direction `d`, all inside
/// the grid, none a wall, all but the last ice and the last not ice.
pub open spec fn is_slide(t: Terrain, p: Point, d: int, trace: Seq<Point>) -> bool {
    &&& 0 < trace.len() <= room(t, p, d)
    &&& forall|i: int|
        0 <= i < trace.len() ==> {
            &&& (#[trigger] trace[i]).0 == p.0 + (i + 1) * offset(d).0
            &&& trace[i].1 == p.1 + (i + 1) * offset(d).1
            &&& in_bounds(t, trace[i])
            &&& tile_at(t, trace[i]) != Tile::Wall
            &&& (tile_at(t, trace[i]) == Tile::Ice <==> i < trace.len() - 1)
        }
}

/// What `slide` returns is a slide in the sense of `is_slide`.
pub proof fn lemma_slide(t: Terrain, p: Point, d: int)
    requires
        0 <= d < DIRECTIONS,
        slide(t, p, d) is Some,
    ensures
        is_slide(t, p, d, slide(t, p, d)->0),
    decreases room(t, p, d),
{
    let q = neighbor(p, d)->0;
    if tile_at(t, q) == Tile::Ice {
        lemma_slide(t, q, d);
        let rest = slide(t, q, d)->0;
        let trace = seq![q] + rest;
        assert forall|i: int| 0 <= i < trace.len() implies {
            &&& (#[trigger] trace[i]).0 == p.0 + (i + 1) * offset(d).0
            &&& trace[i].1 == p.1 + (i + 1) * offset(d).1
            &&& in_bounds(t, trace[i])
            &&& tile_at(t, trace[i]) != Tile::Wall
            &&& (tile_at(t, trace[i]) == Tile::Ice <==> i < trace.len() - 1)
        } by {
            if i > 0 {
                assert(trace[i] == rest[i - 1]);
                assert((i + 1) * offset(d).0 == offset(d).0 + i * offset(d).0) by (nonlinear_arith);
                assert((i + 1) * offset(d).1 == offset(d).1 + i * offset(d).1) by (nonlinear_arith);
            }
        }
    }
}

/// The step that direction `d` takes.
pub fn direction(d: usize) -> (step: (i8, i8))
    requires
        d < DIRECTIONS,
    ensures
        step.0 == offset(d as int).0,
        step.1 == offset(d as int).1,
{
    if d == 0 {
        (0, -1)
    } else if d == 1 {
        (1, 0)
    } else if d == 2 {
        (0, 1)
    } else {
        (-1, 0)
    }
}

/// Makes one move from `p` in direction `d` and returns the cells entered.
pub fn slide_from(map: &Grid, p: Point, d: usize) -> (trace: Option<Vec<Point>>)
    requires
        well_formed(terrain(map)),
        in_bounds(terrain(map), p),
        d < DIRECTIONS,
    ensures
        trace matches Some(cells) ==> slide(terrain(map), p, d as int) == Some(cells@),
        trace is None ==> slide(terrain(map), p, d as int) is None,
{
    let ghost t = terrain(map);
    let step = direction(d);
    let mut cells: Vec<Point> = Vec::new();
    let mut at = p;
    loop
        invariant
            t == terrain(map),
            well_formed(t),
            in_bounds(t, at),
            d < DIRECTIONS,
            step.0 == offset(d as int).0,
            step.1 == offset(d as int).1,
            slide(t, p, d as int) == match slide(t, at, d as int) {
                None => None::<Seq<Point>>,
                Some(rest) => Some(cells@ + rest),
            },
        decreases room(t, at, d as int),
    {
        let q: Point = (at.0 + step.0, at.1 + step.1);
        assert(neighbor(at, d as int) == Some(q));
        if !contains_point(map, q) {
            return None;
        }
        let tile = get_tile(map, q);
        if tile == Tile::Wall {
            return None;
        }
        if tile != Tile::Ice {
            proof {
                assert(slide(t, at, d as int) == Some(seq![q]));
                assert(cells@ + seq![q] =~= cells@.push(q));
            }
            cells.push(q);
            return Some(cells);
        }
        proof {
            if slide(t, q, d as int) is Some {
                let rest = slide(t, q, d as int)->0;
                assert(cells@ + (seq![q] + rest) =~= cells@.push(q) + rest);
            }
        }
        cells.push(q);
        at = q;
    }
}

} // verus!
