//! Grids as text: one line for each row, one symbol for each tile.
use crate::grid::{terrain, well_formed, Grid, Terrain};
use crate::tiles::{char_tile_map, lookup_symbol, symbol_for, symbol_tile, tile_symbol, Tile};
use vstd::prelude::*;

verus! {

/// The byte that ends a line.
pub const NEWLINE: u8 = 10;

/// The byte that may stand before the end of a line and is then no part of
/// the line.
pub const CARRIAGE_RETURN: u8 = 13;

/// The most rows and the most columns that a grid read from text may have.
pub const MAX_SIDE: usize = 127;

/// The number of bytes from `from` up to the next newline, or up to the end
/// of the text where there is none.
pub open spec fn line_len(text: Seq<u8>, from: int) -> nat
    decreases text.len() - from,
{
    if from < 0 || from >= text.len() || text[from] == NEWLINE {
        0
    } else {
        1 + line_len(text, from + 1)
    }
}

/// The place of the first newline at or behind `from`, or the length of the
/// text where there is none.
pub open spec fn line_end(text: Seq<u8>, from: int) -> int {
    from + line_len(text, from)
}

/// The line that begins at `from`: the bytes up to its newline, without a
/// carriage return that stands directly before the newline. A carriage return
/// at the end of the text stays.
pub open spec fn line_at(text: Seq<u8>, from: int) -> Seq<u8> {
    let end = line_end(text, from);
    if from < end < text.len() && text[end - 1] == CARRIAGE_RETURN {
        text.subrange(from, end - 1)
    } else {
        text.subrange(from, end)
    }
}

/// The lines of the text from `from` on. A newline at the very end begins no
/// further line.
pub open spec fn lines_from(text: Seq<u8>, from: int) -> Seq<Seq<u8>>
    decreases text.len() - from,
{
    if from < 0 || from >= text.len() {
        Seq::empty()
    } else {
        let end = line_end(text, from);
        if end >= text.len() {
            seq![line_at(text, from)]
        } else {
            seq![line_at(text, from)] + lines_from(text, end + 1)
        }
    }
}

/// The lines of a text.
pub open spec fn lines(text: Seq<u8>) -> Seq<Seq<u8>> {
    lines_from(text, 0)
}

/// The end of a line lies inside the text or at its end, holds a newline
/// where it lies inside, and no byte of the line before it is a newline.
pub proof fn lemma_line_end(text: Seq<u8>, from: int)
    requires
        0 <= from <= text.len(),
    ensures
        from <= line_end(text, from) <= text.len(),
        line_end(text, from) < text.len() ==> text[line_end(text, from)] == NEWLINE,
        forall|i: int| from <= i < line_end(text, from) ==> text[i] != NEWLINE,
    decreases text.len() - from,
{
    if !(from >= text.len() || text[from] == NEWLINE) {
        lemma_line_end(text, from + 1);
    }
}

/// The length of the longest of the first `upto` lines.
pub open spec fn longest(all: Seq<Seq<u8>>, upto: int) -> nat
    decreases upto,
{
    if upto <= 0 {
        0
    } else {
        let before = longest(all, upto - 1);
        if all[upto - 1].len() > before {
            all[upto - 1].len()
        } else {
            before
        }
    }
}

/// Every byte of every line is the symbol of a tile.
pub open spec fn readable(all: Seq<Seq<u8>>) -> bool {
    forall|y: int, x: int|
        0 <= y < all.len() && 0 <= x < all[y].len() ==> symbol_tile(#[trigger] all[y][x]) is Some
}

/// The row that a line stands for, filled up with empty tiles to `width`.
pub open spec fn row_of(line: Seq<u8>, width: nat) -> Seq<Tile> {
    Seq::new(
        width,
        |x: int|
            if x < line.len() {
                symbol_tile(line[x])->0
            } else {
                Tile::Empty
            },
    )
}

/// The grid that a text stands for: a row for each line, as wide as the
/// longest line. There is none where a byte is no symbol, or where the grid
/// would have more than `MAX_SIDE` rows or columns.
pub open spec fn parse(text: Seq<u8>) -> Option<Terrain> {
    let all = lines(text);
    let width = longest(all, all.len() as int);
    if readable(all) && all.len() <= MAX_SIDE && width <= MAX_SIDE {
        Some(Seq::new(all.len(), |y: int| row_of(all[y], width)))
    } else {
        None
    }
}

/// Every tile has a symbol to be written with.
pub open spec fn renderable(t: Terrain) -> bool {
    forall|y: int, x: int|
        0 <= y < t.len() && 0 <= x < t[y].len() ==> tile_symbol(#[trigger] t[y][x]) is Some
}

/// The symbols of the first `upto` tiles of a row.
pub open spec fn render_row(row: Seq<Tile>, upto: int) -> Seq<char> {
    Seq::new(upto as nat, |x: int| tile_symbol(row[x])->0 as char)
}

/// The text of the first `rows` rows: their symbols, with a newline between
/// one row and the next and none at the end.
pub open spec fn render(t: Terrain, rows: int) -> Seq<char>
    decreases rows,
{
    if rows <= 0 {
        Seq::empty()
    } else if rows == 1 {
        render_row(t[0], t[0].len() as int)
    } else {
        render(t, rows - 1) + seq!['\n'] + render_row(t[rows - 1], t[rows - 1].len() as int)
    }
}

/// Splits a text into its lines.
pub fn split_lines(text: &[u8]) -> (all: Vec<Vec<u8>>)
    ensures
        all@.len() == lines(text@).len(),
        forall|y: int| 0 <= y < all@.len() ==> (#[trigger] all@[y])@ == lines(text@)[y],
{
    let mut all: Vec<Vec<u8>> = Vec::new();
    let ghost done: Seq<Seq<u8>> = Seq::empty();
    let mut from: usize = 0;
    let mut more = true;
    assert(done + lines_from(text@, 0) =~= lines(text@));
    while more && from < text.len()
        invariant
            from <= text@.len(),
            all@.len() == done.len(),
            forall|y: int| 0 <= y < all@.len() ==> (#[trigger] all@[y])@ == done[y],
            more ==> lines(text@) == done + lines_from(text@, from as int),
            !more ==> lines(text@) == done,
        decreases text@.len() - from + (if more { 1int } else { 0int }),
    {
        let mut end: usize = from;
        while end < text.len() && text[end] != NEWLINE
            invariant
                from <= end <= text@.len(),
                line_end(text@, from as int) == line_end(text@, end as int),
            decreases text@.len() - end,
        {
            end += 1;
        }
        let stop = if end < text.len() && end > from && text[end - 1] == CARRIAGE_RETURN {
            end - 1
        } else {
            end
        };
        let mut line: Vec<u8> = Vec::new();
        let mut i: usize = from;
        while i < stop
            invariant
                from <= i <= stop <= text@.len(),
                line@ == text@.subrange(from as int, i as int),
            decreases stop - i,
        {
            line.push(text[i]);
            assert(text@.subrange(from as int, i as int).push(text@[i as int]) =~= text@.subrange(
                from as int,
                i + 1,
            ));
            i += 1;
        }
        proof {
            assert(end == line_end(text@, from as int));
            assert(line@ == line_at(text@, from as int));
            if end < text@.len() {
                assert(done + (seq![line@] + lines_from(text@, end + 1)) =~= done.push(line@)
                    + lines_from(text@, end + 1));
            } else {
                assert(done + seq![line@] =~= done.push(line@));
            }
            done = done.push(line@);
        }
        all.push(line);
        if end < text.len() {
            from = end + 1;
        } else {
            more = false;
        }
    }
    proof {
        if more {
            assert(done + lines_from(text@, from as int) =~= done);
        }
    }
    all
}

/// Reads a grid from text. Lines shorter than the longest are filled up with
/// empty tiles.
pub fn map_from_bytes(text: &[u8]) -> (map: Option<Grid>)
    ensures
        map matches Some(grid) ==> parse(text@) == Some(terrain(&grid)) && well_formed(
            terrain(&grid),
        ),
        map is None ==> parse(text@) is None,
{
    let all = split_lines(text);
    let ghost model = lines(text@);
    let mut width: usize = 0;
    let mut y: usize = 0;
    while y < all.len()
        invariant
            y <= all.len(),
            all@.len() == model.len(),
            forall|k: int| 0 <= k < all@.len() ==> (#[trigger] all@[k])@ == model[k],
            width == longest(model, y as int),
        decreases all.len() - y,
    {
        if all[y].len() > width {
            width = all[y].len();
        }
        y += 1;
    }
    if all.len() > MAX_SIDE || width > MAX_SIDE {
        return None;
    }
    let table = char_tile_map();
    let mut grid: Grid = Vec::new();
    let mut r: usize = 0;
    while r < all.len()
        invariant
            r <= all.len(),
            all@.len() == model.len(),
            forall|k: int| 0 <= k < all@.len() ==> (#[trigger] all@[k])@ == model[k],
            table@ == crate::tiles::symbol_table(),
            model == lines(text@),
            width == longest(model, model.len() as int),
            grid@.len() == r,
            forall|k: int| 0 <= k < r ==> (#[trigger] grid@[k])@ == row_of(model[k], width as nat),
            forall|k: int, x: int|
                0 <= k < r && 0 <= x < model[k].len() ==> symbol_tile(#[trigger] model[k][x]) is Some,
        decreases all.len() - r,
    {
        let line = &all[r];
        proof {
            lemma_longest(model, model.len() as int, r as int);
        }
        let mut row: Vec<Tile> = Vec::new();
        let mut x: usize = 0;
        while x < width
            invariant
                x <= width,
                r < all.len(),
                r < model.len(),
                model == lines(text@),
                line@ == model[r as int],
                line@.len() <= width,
                table@ == crate::tiles::symbol_table(),
                row@.len() == x,
                forall|j: int| 0 <= j < x ==> #[trigger] row@[j] == row_of(line@, width as nat)[j],
                forall|j: int| 0 <= j < x && j < line@.len() ==> symbol_tile(#[trigger] line@[j]) is Some,
            decreases width - x,
        {
            if x < line.len() {
                match lookup_symbol(&table, line[x]) {
                    Some(tile) => {
                        row.push(tile);
                    },
                    None => {
                        assert(!readable(model)) by {
                            if readable(model) {
                                assert(symbol_tile(model[r as int][x as int]) is Some);
                            }
                        }
                        return None;
                    },
                }
            } else {
                row.push(Tile::Empty);
            }
            x += 1;
        }
        assert(row@ =~= row_of(line@, width as nat));
        grid.push(row);
        r += 1;
    }
    proof {
        let t = terrain(&grid);
        let want = Seq::new(model.len(), |y: int| row_of(model[y], width as nat));
        assert(readable(model));
        assert(t =~= want);
        if t.len() > 0 {
            assert(t[0].len() == width);
        }
        assert forall|k: int| 0 <= k < t.len() implies (#[trigger] t[k]).len() == crate::grid::width(
            t,
        ) by {}
    }
    Some(grid)
}

/// No line is longer than the longest.
pub proof fn lemma_longest(all: Seq<Seq<u8>>, upto: int, y: int)
    requires
        0 <= y < upto <= all.len(),
    ensures
        all[y].len() <= longest(all, upto),
    decreases upto,
{
    if y < upto - 1 {
        lemma_longest(all, upto - 1, y);
    }
}

/// `String::push`: the character is added behind the characters that the
/// string holds.
#[verifier::external_body]
fn push_char(text: &mut String, c: char)
    ensures
        final(text)@ == old(text)@.push(c),
{
    text.push(c);
}

/// Whether every tile of the grid has a symbol to be written with.
pub fn can_render(map: &Grid) -> (ok: bool)
    ensures
        ok == renderable(terrain(map)),
{
    let ghost t = terrain(map);
    let mut y: usize = 0;
    while y < map.len()
        invariant
            y <= map.len(),
            t == terrain(map),
            forall|k: int, x: int|
                0 <= k < y && 0 <= x < t[k].len() ==> tile_symbol(#[trigger] t[k][x]) is Some,
        decreases map.len() - y,
    {
        let row = &map[y];
        let mut x: usize = 0;
        while x < row.len()
            invariant
                x <= row.len(),
                y < map.len(),
                t == terrain(map),
                row@ == t[y as int],
                forall|j: int| 0 <= j < x ==> tile_symbol(#[trigger] t[y as int][j]) is Some,
            decreases row.len() - x,
        {
            if symbol_for(row[x]).is_none() {
                assert(tile_symbol(t[y as int][x as int]) is None);
                return false;
            }
            x += 1;
        }
        y += 1;
    }
    true
}

/// Writes a grid as text: the symbols of each row, with a newline between one
/// row and the next.
pub fn map_to_string(map: &Grid) -> (text: String)
    requires
        renderable(terrain(map)),
    ensures
        text@ == render(terrain(map), map@.len() as int),
{
    let ghost t = terrain(map);
    let mut text = String::new();
    let mut y: usize = 0;
    while y < map.len()
        invariant
            y <= map.len(),
            t == terrain(map),
            renderable(t),
            text@ == render(t, y as int),
        decreases map.len() - y,
    {
        if y > 0 {
            push_char(&mut text, '\n');
        }
        let ghost before = text@;
        let row = &map[y];
        let mut x: usize = 0;
        assert(before + render_row(t[y as int], 0) =~= before);
        while x < row.len()
            invariant
                x <= row.len(),
                y < map.len(),
                t == terrain(map),
                renderable(t),
                row@ == t[y as int],
                text@ == before + render_row(t[y as int], x as int),
            decreases row.len() - x,
        {
            assert(tile_symbol(t[y as int][x as int]) is Some);
            match symbol_for(row[x]) {
                Some(symbol) => {
                    push_char(&mut text, symbol as char);
                    assert(render_row(t[y as int], x as int).push(symbol as char) =~= render_row(
                        t[y as int],
                        x + 1,
                    ));
                },
                None => {},
            }
            x += 1;
        }
        proof {
            if y == 0 {
                assert(before =~= Seq::<char>::empty());
                assert(text@ =~= render(t, 1));
            } else {
                assert(before == render(t, y as int).push('\n'));
                assert(render(t, y as int).push('\n') =~= render(t, y as int) + seq!['\n']);
            }
        }
        y += 1;
    }
    text
}

/// The symbols of the first `upto` tiles of a row, as bytes.
pub open spec fn row_bytes(row: Seq<Tile>, upto: int) -> Seq<u8> {
    Seq::new(upto as nat, |x: int| tile_symbol(row[x])->0)
}

/// The text of the first `rows` rows, as bytes.
pub open spec fn render_bytes(t: Terrain, rows: int) -> Seq<u8>
    decreases rows,
{
    if rows <= 0 {
        Seq::empty()
    } else if rows == 1 {
        row_bytes(t[0], t[0].len() as int)
    } else {
        render_bytes(t, rows - 1) + seq![NEWLINE] + row_bytes(
            t[rows - 1],
            t[rows - 1].len() as int,
        )
    }
}

/// The text that is written holds the bytes of `render_bytes`, each as a
/// character.
pub proof fn lemma_render_bytes(t: Terrain, rows: int)
    ensures
        render(t, rows) == render_bytes(t, rows).map_values(|b: u8| b as char),
    decreases rows,
{
    let as_char = |b: u8| b as char;
    if rows <= 0 {
        assert(render(t, rows) =~= render_bytes(t, rows).map_values(as_char));
    } else if rows == 1 {
        assert(render(t, rows) =~= render_bytes(t, rows).map_values(as_char));
    } else {
        lemma_render_bytes(t, rows - 1);
        let before = render_bytes(t, rows - 1);
        let row = row_bytes(t[rows - 1], t[rows - 1].len() as int);
        assert(NEWLINE as char == '\n');
        assert((before + seq![NEWLINE] + row).map_values(as_char) =~= before.map_values(as_char)
            + seq!['\n'] + row.map_values(as_char));
        assert(row.map_values(as_char) =~= render_row(t[rows - 1], t[rows - 1].len() as int));
    }
}

/// No byte is a newline or a carriage return.
pub open spec fn plain(bytes: Seq<u8>) -> bool {
    forall|i: int|
        0 <= i < bytes.len() ==> (#[trigger] bytes[i]) != NEWLINE && bytes[i] != CARRIAGE_RETURN
}

/// Where no newline stands from `from` on, the line runs to the end of the
/// text.
pub proof fn lemma_line_runs_out(text: Seq<u8>, from: int)
    requires
        0 <= from <= text.len(),
        forall|i: int| from <= i < text.len() ==> text[i] != NEWLINE,
    ensures
        line_end(text, from) == text.len(),
    decreases text.len() - from,
{
    if from < text.len() {
        lemma_line_runs_out(text, from + 1);
    }
}

/// A line ends in a text where it ends in the beginning of that text, if a
/// newline stands behind the beginning.
pub proof fn lemma_line_end_of_more(fewer: Seq<u8>, text: Seq<u8>, from: int)
    requires
        fewer.len() < text.len(),
        forall|i: int| 0 <= i < fewer.len() ==> text[i] == fewer[i],
        text[fewer.len() as int] == NEWLINE,
        0 <= from <= fewer.len(),
    ensures
        line_end(text, from) == line_end(fewer, from),
    decreases fewer.len() - from,
{
    if from < fewer.len() && fewer[from] != NEWLINE {
        lemma_line_end_of_more(fewer, text, from + 1);
    }
}

/// A text with a newline and one more line behind it has the lines of the
/// text and that line.
pub proof fn lemma_lines_of_more(fewer: Seq<u8>, line: Seq<u8>, from: int)
    requires
        0 <= from < fewer.len(),
        fewer.last() != NEWLINE,
        forall|i: int| 0 <= i < fewer.len() ==> fewer[i] != CARRIAGE_RETURN,
        line.len() > 0,
        plain(line),
    ensures
        lines_from(fewer + seq![NEWLINE] + line, from) == lines_from(fewer, from) + seq![line],
    decreases fewer.len() - from,
{
    let text = fewer + seq![NEWLINE] + line;
    let end = line_end(fewer, from);
    lemma_line_end(fewer, from);
    lemma_line_end_of_more(fewer, text, from);
    assert(line_end(text, from) == end);
    assert(line_at(text, from) =~= line_at(fewer, from)) by {
        if from < end {
            assert(text[end - 1] == fewer[end - 1]);
        }
    }
    if end < fewer.len() {
        assert(fewer[end] == NEWLINE);
        assert(end + 1 < fewer.len());
        lemma_lines_of_more(fewer, line, end + 1);
        assert(seq![line_at(fewer, from)] + (lines_from(fewer, end + 1) + seq![line]) =~= (
        seq![line_at(fewer, from)] + lines_from(fewer, end + 1)) + seq![line]);
    } else {
        let behind = fewer.len() as int + 1;
        assert forall|i: int| behind <= i < text.len() implies text[i] != NEWLINE by {
            assert(text[i] == line[i - behind]);
        }
        lemma_line_runs_out(text, behind);
        assert(text[text.len() - 1] == line[line.len() - 1]);
        assert(line_at(text, behind) =~= line);
        assert(lines_from(text, behind) =~= seq![line]);
        assert(lines_from(fewer, from) =~= seq![line_at(fewer, from)]);
    }
}

/// Every tile has a symbol, none is the route marker, and no row is empty.
pub open spec fn writable(t: Terrain) -> bool {
    &&& renderable(t)
    &&& forall|y: int, x: int|
        0 <= y < t.len() && 0 <= x < t[y].len() ==> (#[trigger] t[y][x]) != Tile::Path
    &&& forall|y: int| 0 <= y < t.len() ==> (#[trigger] t[y]).len() > 0
}

/// The lines of the text of a grid are the symbols of its rows.
pub proof fn lemma_lines_of_render(t: Terrain, rows: int)
    requires
        writable(t),
        1 <= rows <= t.len(),
    ensures
        lines(render_bytes(t, rows)) == Seq::new(
            rows as nat,
            |y: int| row_bytes(t[y], t[y].len() as int),
        ),
        render_bytes(t, rows).len() > 0,
        render_bytes(t, rows).last() != NEWLINE,
        forall|i: int|
            0 <= i < render_bytes(t, rows).len() ==> render_bytes(t, rows)[i] != CARRIAGE_RETURN,
    decreases rows,
{
    let want = Seq::new(rows as nat, |y: int| row_bytes(t[y], t[y].len() as int));
    let row = row_bytes(t[rows - 1], t[rows - 1].len() as int);
    assert(t[rows - 1].len() > 0);
    assert(plain(row)) by {
        assert forall|i: int| 0 <= i < row.len() implies (#[trigger] row[i]) != NEWLINE && row[i]
            != CARRIAGE_RETURN by {
            assert(tile_symbol(t[rows - 1][i]) is Some);
        }
    }
    assert(row[row.len() - 1] != NEWLINE);
    if rows == 1 {
        let text = render_bytes(t, 1);
        assert(text == row);
        lemma_line_runs_out(text, 0);
        assert(line_at(text, 0) =~= text);
        assert(lines(text) =~= want);
    } else {
        lemma_lines_of_render(t, rows - 1);
        let fewer = render_bytes(t, rows - 1);
        let text = fewer + seq![NEWLINE] + row;
        assert(render_bytes(t, rows) == text);
        lemma_lines_of_more(fewer, row, 0);
        assert(lines(text) =~= want);
        assert(text[text.len() - 1] == row[row.len() - 1]);
        assert forall|i: int| 0 <= i < text.len() implies text[i] != CARRIAGE_RETURN by {
            if i < fewer.len() {
                assert(text[i] == fewer[i]);
            } else if i > fewer.len() {
                assert(text[i] == row[i - fewer.len() - 1]);
            }
        }
    }
}

/// The text of a grid reads back as the grid: for a well-formed grid whose
/// tiles all have symbols, that holds no route marker and no empty row.
pub proof fn lemma_written_reads_back(t: Terrain)
    requires
        well_formed(t),
        writable(t),
    ensures
        parse(render_bytes(t, t.len() as int)) == Some(t),
{
    let text = render_bytes(t, t.len() as int);
    if t.len() == 0 {
        assert(lines(text) =~= Seq::<Seq<u8>>::empty());
        assert(Seq::new(0, |y: int| row_of(lines(text)[y], 0)) =~= t);
    } else {
        lemma_lines_of_render(t, t.len() as int);
        let all = lines(text);
        let width = crate::grid::width(t);
        assert forall|y: int| 0 <= y < all.len() implies (#[trigger] all[y]).len() == width by {
            assert(t[y].len() == width);
        }
        lemma_all_as_long(all, all.len() as int, width as nat);
        assert(readable(all)) by {
            assert forall|y: int, x: int|
                0 <= y < all.len() && 0 <= x < all[y].len() implies symbol_tile(
                #[trigger] all[y][x],
            ) is Some by {
                assert(tile_symbol(t[y][x]) is Some && t[y][x] != Tile::Path);
                crate::tiles::lemma_symbol_round_trip(t[y][x]);
            }
        }
        let read = Seq::new(all.len(), |y: int| row_of(all[y], width as nat));
        assert forall|y: int| 0 <= y < t.len() implies #[trigger] read[y] == t[y] by {
            assert(t[y].len() == width);
            assert forall|x: int| 0 <= x < width implies read[y][x] == t[y][x] by {
                assert(tile_symbol(t[y][x]) is Some && t[y][x] != Tile::Path);
                crate::tiles::lemma_symbol_round_trip(t[y][x]);
            }
            assert(read[y] =~= t[y]);
        }
        assert(read =~= t);
    }
}

/// Where each of the first lines has the same length, and there is one, that
/// is the length of the longest.
pub proof fn lemma_all_as_long(all: Seq<Seq<u8>>, upto: int, len: nat)
    requires
        1 <= upto <= all.len(),
        forall|y: int| 0 <= y < all.len() ==> (#[trigger] all[y]).len() == len,
    ensures
        longest(all, upto) == len,
    decreases upto,
{
    assert(all[upto - 1].len() == len);
    if upto > 1 {
        lemma_all_as_long(all, upto - 1, len);
    } else {
        assert(longest(all, 0) == 0);
    }
}

} // verus!
