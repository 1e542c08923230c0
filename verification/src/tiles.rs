//! The terrain vocabulary and the symbols it is written with.
use std::collections::HashMap;
use vstd::prelude::*;

verus! {

/// One cell of terrain. `In` and `Out` are reserved: the search treats them as
/// plain floor. `Path` only marks a solved route when a grid is rendered.
#[derive(Debug, Clone, Copy, Hash, PartialEq, Eq, Structural)]
pub enum Tile {
    Empty,
    Ice,
    Wall,
    Start,
    Exit,
    Checkpoint(u8),
    In(u8),
    Out(u8),
    Path,
}

/// The tile that an input symbol stands for. Symbols are ASCII, so they are
/// held as bytes. `[` and `<` both read as `In(2)`, `]` and `>` both as
/// `Out(2)`.
pub open spec fn symbol_tile(symbol: u8) -> Option<Tile> {
    if symbol == ' ' as u8 {
        Some(Tile::Empty)
    } else if symbol == '_' as u8 {
        Some(Tile::Ice)
    } else if symbol == '#' as u8 {
        Some(Tile::Wall)
    } else if symbol == '-' as u8 {
        Some(Tile::Start)
    } else if symbol == '+' as u8 {
        Some(Tile::Exit)
    } else if 'A' as u8 <= symbol <= 'E' as u8 {
        Some(Tile::Checkpoint((symbol - 'A' as u8) as u8))
    } else if symbol == '(' as u8 {
        Some(Tile::In(0))
    } else if symbol == ')' as u8 {
        Some(Tile::Out(0))
    } else if symbol == '{' as u8 {
        Some(Tile::In(1))
    } else if symbol == '}' as u8 {
        Some(Tile::Out(1))
    } else if symbol == '[' as u8 || symbol == '<' as u8 {
        Some(Tile::In(2))
    } else if symbol == ']' as u8 || symbol == '>' as u8 {
        Some(Tile::Out(2))
    } else {
        None
    }
}

/// The symbol table as a map: its keys are exactly the input symbols.
pub open spec fn symbol_table() -> Map<u8, Tile> {
    Map::new(|symbol: u8| symbol_tile(symbol) is Some, |symbol: u8| symbol_tile(symbol)->0)
}

/// The symbol a tile is rendered with, if it has one. Of the two symbols that
/// read as `In(2)` the bracket `[` is written, and `]` for `Out(2)`.
pub open spec fn tile_symbol(tile: Tile) -> Option<u8> {
    match tile {
        Tile::Empty => Some(' ' as u8),
        Tile::Ice => Some('_' as u8),
        Tile::Wall => Some('#' as u8),
        Tile::Start => Some('-' as u8),
        Tile::Exit => Some('+' as u8),
        Tile::Checkpoint(id) => if id <= 4 {
            Some(('A' as u8 + id) as u8)
        } else {
            None
        },
        Tile::In(id) => if id == 0 {
            Some('(' as u8)
        } else if id == 1 {
            Some('{' as u8)
        } else if id == 2 {
            Some('[' as u8)
        } else {
            None
        },
        Tile::Out(id) => if id == 0 {
            Some(')' as u8)
        } else if id == 1 {
            Some('}' as u8)
        } else if id == 2 {
            Some(']' as u8)
        } else {
            None
        },
        Tile::Path => Some('*' as u8),
    }
}

/// Builds the table from input symbol to tile.
pub fn char_tile_map() -> (table: HashMap<u8, Tile>)
    ensures
        table@ == symbol_table(),
{
    let mut table: HashMap<u8, Tile> = HashMap::new();
    table.insert(' ' as u8, Tile::Empty);
    table.insert('_' as u8, Tile::Ice);
    table.insert('#' as u8, Tile::Wall);
    table.insert('-' as u8, Tile::Start);
    table.insert('+' as u8, Tile::Exit);
    table.insert('A' as u8, Tile::Checkpoint(0));
    table.insert('B' as u8, Tile::Checkpoint(1));
    table.insert('C' as u8, Tile::Checkpoint(2));
    table.insert('D' as u8, Tile::Checkpoint(3));
    table.insert('E' as u8, Tile::Checkpoint(4));
    table.insert('(' as u8, Tile::In(0));
    table.insert(')' as u8, Tile::Out(0));
    table.insert('{' as u8, Tile::In(1));
    table.insert('}' as u8, Tile::Out(1));
    table.insert('[' as u8, Tile::In(2));
    table.insert(']' as u8, Tile::Out(2));
    table.insert('<' as u8, Tile::In(2));
    table.insert('>' as u8, Tile::Out(2));
    assert(table@ =~= symbol_table());
    table
}

/// Looks a symbol up in a table built by [`char_tile_map`].
pub fn lookup_symbol(table: &HashMap<u8, Tile>, symbol: u8) -> (tile: Option<Tile>)
    requires
        table@ == symbol_table(),
    ensures
        tile == symbol_tile(symbol),
{
    match table.get(&symbol) {
        Some(tile) => Some(*tile),
        None => None,
    }
}

/// The symbol a tile is rendered with, if it has one.
pub fn symbol_for(tile: Tile) -> (symbol: Option<u8>)
    ensures
        symbol == tile_symbol(tile),
{
    match tile {
        Tile::Empty => Some(' ' as u8),
        Tile::Ice => Some('_' as u8),
        Tile::Wall => Some('#' as u8),
        Tile::Start => Some('-' as u8),
        Tile::Exit => Some('+' as u8),
        Tile::Checkpoint(id) => if id <= 4 {
            Some('A' as u8 + id)
        } else {
            None
        },
        Tile::In(id) => if id == 0 {
            Some('(' as u8)
        } else if id == 1 {
            Some('{' as u8)
        } else if id == 2 {
            Some('[' as u8)
        } else {
            None
        },
        Tile::Out(id) => if id == 0 {
            Some(')' as u8)
        } else if id == 1 {
            Some('}' as u8)
        } else if id == 2 {
            Some(']' as u8)
        } else {
            None
        },
        Tile::Path => Some('*' as u8),
    }
}

/// Every terrain tile that has a symbol reads back from that symbol as itself,
/// and the route marker is no input symbol.
pub proof fn lemma_symbol_round_trip(tile: Tile)
    requires
        tile_symbol(tile) is Some,
    ensures
        tile != Tile::Path ==> symbol_tile(tile_symbol(tile)->0) == Some(tile),
        tile == Tile::Path ==> symbol_tile(tile_symbol(tile)->0) is None,
{
}

} // verus!
