//! The grid: a rectangle of tiles addressed by points, column first.
use crate::tiles::Tile;
use vstd::prelude::*;
use vstd::set_lib::{lemma_int_range, lemma_set_subset_finite, set_int_range};

verus! {

/// A coordinate pair `(x, y)`: `x` is the column, `y` the row, from the top
/// left corner.
pub type Point = (i8, i8);

/// The executable grid: rows of tiles.
pub type Grid = Vec<Vec<Tile>>;

/// The mathematical model of a grid.
pub type Terrain = Seq<Seq<Tile>>;

/// The model of an executable grid.
pub open spec fn terrain(grid: &Grid) -> Terrain {
    Seq::new(grid@.len(), |y: int| grid@[y]@)
}

/// The number of rows.
pub open spec fn height(t: Terrain) -> int {
    t.len() as int
}

/// The length of the first row; every row of a well-formed grid has it.
pub open spec fn width(t: Terrain) -> int {
    if t.len() == 0 {
        0
    } else {
        t[0].len() as int
    }
}

/// Rows of equal length, and both dimensions small enough for a `Point` to
/// address every cell.
pub open spec fn well_formed(t: Terrain) -> bool {
    &&& t.len() <= i8::MAX
    &&& width(t) <= i8::MAX
    &&& forall|y: int| 0 <= y < t.len() ==> (#[trigger] t[y]).len() == width(t)
}

/// The point addresses a cell of the grid.
pub open spec fn in_bounds(t: Terrain, p: Point) -> bool {
    0 <= p.0 < width(t) && 0 <= p.1 < height(t)
}

/// The tile of the cell that the point addresses.
pub open spec fn tile_at(t: Terrain, p: Point) -> Tile {
    t[p.1 as int][p.0 as int]
}

/// The cells of the grid.
pub open spec fn cells(t: Terrain) -> Set<Point> {
    Set::new(|p: Point| in_bounds(t, p))
}

/// There are finitely many points, so finitely many cells.
pub proof fn lemma_cells_finite(t: Terrain)
    ensures
        cells(t).finite(),
{
    let codes = set_int_range(0, 65536);
    let decode = |i: int| ((i / 256 - 128) as i8, (i % 256 - 128) as i8);
    lemma_int_range(0, 65536);
    codes.lemma_map_finite(decode);
    assert forall|p: Point| cells(t).contains(p) implies codes.map(decode).contains(p) by {
        let i = (p.0 + 128) * 256 + (p.1 + 128);
        assert(codes.contains(i));
        assert(decode(i) == p);
    }
    lemma_set_subset_finite(codes.map(decode), cells(t));
}

/// The matching cells among the first `upto` of row `y`, left to right.
pub open spec fn row_matches(row: Seq<Tile>, y: int, tile: Tile, upto: int) -> Seq<Point>
    decreases upto,
{
    if upto <= 0 {
        Seq::empty()
    } else {
        let before = row_matches(row, y, tile, upto - 1);
        if row[upto - 1] == tile {
            before.push(((upto - 1) as i8, y as i8))
        } else {
            before
        }
    }
}

/// The matching cells in the first `rows` rows, row by row from the top.
pub open spec fn matches_above(t: Terrain, tile: Tile, rows: int) -> Seq<Point>
    decreases rows,
{
    if rows <= 0 {
        Seq::empty()
    } else {
        matches_above(t, tile, rows - 1) + row_matches(
            t[rows - 1],
            rows - 1,
            tile,
            t[rows - 1].len() as int,
        )
    }
}

/// Every cell that holds `tile`, in reading order.
pub open spec fn points_with(t: Terrain, tile: Tile) -> Seq<Point> {
    matches_above(t, tile, t.len() as int)
}

/// The matching cells of a row are the cells of that row that hold the tile.
pub proof fn lemma_row_matches(row: Seq<Tile>, y: int, tile: Tile, upto: int, p: Point)
    requires
        0 <= upto <= row.len() <= i8::MAX,
        0 <= y <= i8::MAX,
    ensures
        row_matches(row, y, tile, upto).contains(p) <==> (p.1 == y && 0 <= p.0 < upto && row[p.0 as int]
            == tile),
    decreases upto,
{
    if upto > 0 {
        lemma_row_matches(row, y, tile, upto - 1, p);
        let before = row_matches(row, y, tile, upto - 1);
        let q = ((upto - 1) as i8, y as i8);
        if row[upto - 1] == tile {
            assert(before.push(q).contains(p) <==> (before.contains(p) || p == q)) by {
                if before.contains(p) {
                    let i = choose|i: int| 0 <= i < before.len() && before[i] == p;
                    assert(before.push(q)[i] == p);
                }
                if p == q {
                    assert(before.push(q)[before.len() as int] == p);
                }
            }
        }
    }
}

/// The matching cells of the first rows are the cells of those rows that
/// hold the tile.
pub proof fn lemma_matches_above(t: Terrain, tile: Tile, rows: int, p: Point)
    requires
        well_formed(t),
        0 <= rows <= t.len(),
    ensures
        matches_above(t, tile, rows).contains(p) <==> (in_bounds(t, p) && p.1 < rows && tile_at(t, p)
            == tile),
    decreases rows,
{
    if rows > 0 {
        lemma_matches_above(t, tile, rows - 1, p);
        let above = matches_above(t, tile, rows - 1);
        let row = row_matches(t[rows - 1], rows - 1, tile, t[rows - 1].len() as int);
        lemma_row_matches(t[rows - 1], rows - 1, tile, t[rows - 1].len() as int, p);
        assert((above + row).contains(p) <==> (above.contains(p) || row.contains(p))) by {
            if above.contains(p) {
                let i = choose|i: int| 0 <= i < above.len() && above[i] == p;
                assert((above + row)[i] == p);
            }
            if row.contains(p) {
                let i = choose|i: int| 0 <= i < row.len() && row[i] == p;
                assert((above + row)[above.len() + i] == p);
            }
        }
    }
}

/// The cells listed by `points_with` are exactly the cells that hold the tile.
pub proof fn lemma_points_with(t: Terrain, tile: Tile, p: Point)
    requires
        well_formed(t),
    ensures
        points_with(t, tile).contains(p) <==> (in_bounds(t, p) && tile_at(t, p) == tile),
{
    lemma_matches_above(t, tile, t.len() as int, p);
}

/// Whether the rows have equal length and the grid is small enough to be
/// addressed by points.
pub fn is_well_formed(map: &Grid) -> (ok: bool)
    ensures
        ok == well_formed(terrain(map)),
{
    if map.len() > i8::MAX as usize {
        return false;
    }
    if map.len() == 0 {
        return true;
    }
    let w = map[0].len();
    if w > i8::MAX as usize {
        return false;
    }
    let mut y: usize = 0;
    while y < map.len()
        invariant
            y <= map.len(),
            0 < map.len() <= i8::MAX,
            w == width(terrain(map)),
            w <= i8::MAX,
            forall|j: int| 0 <= j < y ==> (#[trigger] terrain(map)[j]).len() == w,
        decreases map.len() - y,
    {
        if map[y].len() != w {
            assert(terrain(map)[y as int].len() != w);
            return false;
        }
        y += 1;
    }
    true
}

/// The tile at an in-bounds point.
pub fn get_tile(map: &Grid, p: Point) -> (tile: Tile)
    requires
        well_formed(terrain(map)),
        in_bounds(terrain(map), p),
    ensures
        tile == tile_at(terrain(map), p),
{
    map[p.1 as usize][p.0 as usize]
}

/// Whether a point addresses a cell of the grid.
pub fn contains_point(map: &Grid, p: Point) -> (inside: bool)
    requires
        well_formed(terrain(map)),
    ensures
        inside == in_bounds(terrain(map), p),
{
    if map.len() == 0 {
        return false;
    }
    p.0 >= 0 && (p.0 as usize) < map[0].len() && p.1 >= 0 && (p.1 as usize) < map.len()
}

/// Lists every cell that holds `tile`, in reading order.
pub fn find_tile(map: &Grid, tile: &Tile) -> (points: Vec<Point>)
    requires
        well_formed(terrain(map)),
    ensures
        points@ == points_with(terrain(map), *tile),
{
    let ghost t = terrain(map);
    let mut points: Vec<Point> = Vec::new();
    let mut y: usize = 0;
    while y < map.len()
        invariant
            y <= map.len(),
            t == terrain(map),
            well_formed(t),
            points@ == matches_above(t, *tile, y as int),
        decreases map.len() - y,
    {
        let row = &map[y];
        let ghost above = points@;
        let mut x: usize = 0;
        while x < row.len()
            invariant
                x <= row.len(),
                y < map.len(),
                t == terrain(map),
                well_formed(t),
                row@ == t[y as int],
                points@ == above + row_matches(t[y as int], y as int, *tile, x as int),
            decreases row.len() - x,
        {
            if row[x] == *tile {
                points.push((x as i8, y as i8));
            }
            x += 1;
        }
        y += 1;
    }
    points
}

/// `a` stands before `b` in reading order: in a row above, or in the same
/// row further left.
pub open spec fn reads_before(a: Point, b: Point) -> bool {
    a.1 < b.1 || (a.1 == b.1 && a.0 < b.0)
}

/// Each point stands before the points behind it in reading order.
pub open spec fn in_reading_order(points: Seq<Point>) -> bool {
    forall|i: int, j: int|
        0 <= i < j < points.len() ==> reads_before(#[trigger] points[i], #[trigger] points[j])
}

/// The matching cells of a row are listed from left to right.
pub proof fn lemma_row_in_order(row: Seq<Tile>, y: int, tile: Tile, upto: int)
    requires
        0 <= upto <= row.len() <= i8::MAX,
        0 <= y <= i8::MAX,
    ensures
        in_reading_order(row_matches(row, y, tile, upto)),
        forall|i: int|
            0 <= i < row_matches(row, y, tile, upto).len() ==> (#[trigger] row_matches(
                row,
                y,
                tile,
                upto,
            )[i]).1 == y && 0 <= row_matches(row, y, tile, upto)[i].0 < upto,
    decreases upto,
{
    if upto > 0 {
        lemma_row_in_order(row, y, tile, upto - 1);
    }
}

/// The matching cells of the first rows are listed in reading order.
pub proof fn lemma_matches_in_order(t: Terrain, tile: Tile, rows: int)
    requires
        well_formed(t),
        0 <= rows <= t.len(),
    ensures
        in_reading_order(matches_above(t, tile, rows)),
        forall|i: int|
            0 <= i < matches_above(t, tile, rows).len() ==> (#[trigger] matches_above(
                t,
                tile,
                rows,
            )[i]).1 < rows,
    decreases rows,
{
    if rows > 0 {
        lemma_matches_in_order(t, tile, rows - 1);
        lemma_row_in_order(t[rows - 1], rows - 1, tile, t[rows - 1].len() as int);
        let above = matches_above(t, tile, rows - 1);
        let row = row_matches(t[rows - 1], rows - 1, tile, t[rows - 1].len() as int);
        let all = above + row;
        assert forall|i: int, j: int| 0 <= i < j < all.len() implies reads_before(
            #[trigger] all[i],
            #[trigger] all[j],
        ) by {
            if j < above.len() {
                assert(reads_before(above[i], above[j]));
            } else if i < above.len() {
                assert(above[i].1 < rows - 1);
                assert(row[j - above.len()].1 == rows - 1);
            } else {
                assert(reads_before(row[i - above.len()], row[j - above.len()]));
            }
        }
        assert forall|i: int| 0 <= i < all.len() implies (#[trigger] all[i]).1 < rows by {
            if i < above.len() {
                assert(above[i].1 < rows - 1);
            } else {
                assert(row[i - above.len()].1 == rows - 1);
            }
        }
    }
}

/// The cells that hold a tile are listed in reading order, so none is listed
/// twice.
pub proof fn lemma_points_distinct(t: Terrain, tile: Tile)
    requires
        well_formed(t),
    ensures
        in_reading_order(points_with(t, tile)),
        points_with(t, tile).no_duplicates(),
{
    lemma_matches_in_order(t, tile, t.len() as int);
    let points = points_with(t, tile);
    assert forall|i: int, j: int|
        0 <= i < points.len() && 0 <= j < points.len() && i != j implies points[i]
        != points[j] by {
        if i < j {
            assert(reads_before(points[i], points[j]));
        } else {
            assert(reads_before(points[j], points[i]));
        }
    }
}

} // verus!
