use ice_maze::grid::Grid;
use ice_maze::text::{can_render, map_from_bytes, map_to_string, split_lines};
use ice_maze::tiles::{char_tile_map, lookup_symbol, symbol_for, Tile};

#[test]
fn symbol_table_holds_every_symbol() {
    let table = char_tile_map();
    assert_eq!(table.len(), 18);
    assert_eq!(table[&b' '], Tile::Empty);
    assert_eq!(table[&b'_'], Tile::Ice);
    assert_eq!(table[&b'#'], Tile::Wall);
    assert_eq!(table[&b'-'], Tile::Start);
    assert_eq!(table[&b'+'], Tile::Exit);
    assert_eq!(table[&b'A'], Tile::Checkpoint(0));
    assert_eq!(table[&b'E'], Tile::Checkpoint(4));
    assert_eq!(table[&b'('], Tile::In(0));
    assert_eq!(table[&b')'], Tile::Out(0));
    assert_eq!(table[&b'{'], Tile::In(1));
    assert_eq!(table[&b'}'], Tile::Out(1));
    assert!(!table.contains_key(&b'*'));
    assert!(!table.contains_key(&b'F'));
}

#[test]
fn two_symbols_read_as_the_same_gate() {
    let table = char_tile_map();
    assert_eq!(table[&b'['], Tile::In(2));
    assert_eq!(table[&b'<'], Tile::In(2));
    assert_eq!(table[&b']'], Tile::Out(2));
    assert_eq!(table[&b'>'], Tile::Out(2));
    assert_eq!(symbol_for(Tile::In(2)), Some(b'['));
    assert_eq!(symbol_for(Tile::Out(2)), Some(b']'));
}

#[test]
fn lookup_goes_by_the_table() {
    let table = char_tile_map();
    assert_eq!(lookup_symbol(&table, b'C'), Some(Tile::Checkpoint(2)));
    assert_eq!(lookup_symbol(&table, b'x'), None);
    assert_eq!(lookup_symbol(&table, 200), None);
}

#[test]
fn tiles_without_a_symbol() {
    assert_eq!(symbol_for(Tile::Checkpoint(4)), Some(b'E'));
    assert_eq!(symbol_for(Tile::Checkpoint(5)), None);
    assert_eq!(symbol_for(Tile::In(3)), None);
    assert_eq!(symbol_for(Tile::Out(7)), None);
    assert_eq!(symbol_for(Tile::Path), Some(b'*'));
}

#[test]
fn lines_are_split_at_newlines() {
    assert_eq!(split_lines(b""), Vec::<Vec<u8>>::new());
    assert_eq!(split_lines(b"ab"), vec![b"ab".to_vec()]);
    assert_eq!(split_lines(b"ab\n"), vec![b"ab".to_vec()]);
    assert_eq!(split_lines(b"ab\ncd"), vec![b"ab".to_vec(), b"cd".to_vec()]);
    assert_eq!(split_lines(b"\n"), vec![Vec::<u8>::new()]);
    assert_eq!(
        split_lines(b"a\n\nb\n"),
        vec![b"a".to_vec(), Vec::new(), b"b".to_vec()]
    );
}

#[test]
fn carriage_return_before_a_newline_is_dropped() {
    assert_eq!(split_lines(b"ab\r\ncd\r\n"), vec![b"ab".to_vec(), b"cd".to_vec()]);
    assert_eq!(split_lines(b"\r\n"), vec![Vec::<u8>::new()]);
    assert_eq!(split_lines(b"ab\r"), vec![b"ab\r".to_vec()]);
    assert_eq!(split_lines(b"a\rb\n"), vec![b"a\rb".to_vec()]);
}

#[test]
fn lines_agree_with_the_standard_library() {
    let texts = ["", "a", "a\n", "\n\n", "a\r\nb", "a\r", "-  \n # \r\n  +\n", "x\n\ny"];
    for text in texts {
        let expected: Vec<Vec<u8>> = text.lines().map(|l| l.as_bytes().to_vec()).collect();
        assert_eq!(split_lines(text.as_bytes()), expected, "{:?}", text);
    }
}

#[test]
fn grid_is_read_row_by_row() {
    let map = map_from_bytes(b"-_#\nA +").unwrap();
    assert_eq!(
        map,
        vec![
            vec![Tile::Start, Tile::Ice, Tile::Wall],
            vec![Tile::Checkpoint(0), Tile::Empty, Tile::Exit],
        ]
    );
}

#[test]
fn short_lines_are_filled_with_empty_tiles() {
    let map = map_from_bytes(b"-\n###\n\n +").unwrap();
    assert_eq!(map.len(), 4);
    assert_eq!(map[0], vec![Tile::Start, Tile::Empty, Tile::Empty]);
    assert_eq!(map[1], vec![Tile::Wall, Tile::Wall, Tile::Wall]);
    assert_eq!(map[2], vec![Tile::Empty, Tile::Empty, Tile::Empty]);
    assert_eq!(map[3], vec![Tile::Empty, Tile::Exit, Tile::Empty]);
}

#[test]
fn empty_text_gives_an_empty_grid() {
    assert_eq!(map_from_bytes(b""), Some(Vec::new()));
    assert_eq!(map_from_bytes(b"\n"), Some(vec![Vec::new()]));
}

#[test]
fn unknown_symbol_is_refused() {
    assert_eq!(map_from_bytes(b"- x+"), None);
    assert_eq!(map_from_bytes(b"- *+"), None);
    assert_eq!(map_from_bytes(b"- +\r"), None);
    assert_eq!(map_from_bytes("- é+".as_bytes()), None);
}

#[test]
fn oversized_grid_is_refused() {
    let wide = vec![b' '; 128];
    assert_eq!(map_from_bytes(&wide), None);
    let widest = vec![b' '; 127];
    assert_eq!(map_from_bytes(&widest).unwrap()[0].len(), 127);
    let tall = b" \n".repeat(128);
    assert_eq!(map_from_bytes(&tall), None);
    let tallest = b" \n".repeat(127);
    assert_eq!(map_from_bytes(&tallest).unwrap().len(), 127);
}

#[test]
fn grid_is_written_row_by_row() {
    let map: Grid = vec![
        vec![Tile::Start, Tile::Ice, Tile::Wall],
        vec![Tile::Checkpoint(1), Tile::Path, Tile::Exit],
    ];
    assert_eq!(map_to_string(&map), "-_#\nB*+");
    assert_eq!(map_to_string(&Vec::new()), "");
    assert_eq!(map_to_string(&vec![Vec::new(), Vec::new()]), "\n");
}

#[test]
fn written_grid_reads_back() {
    let text = "-  (<\n_#A{}\n[]>)+";
    let map = map_from_bytes(text.as_bytes()).unwrap();
    let written = map_to_string(&map);
    assert_eq!(written, "-  ([\n_#A{}\n[]])+");
    assert_eq!(map_from_bytes(written.as_bytes()), Some(map));
}

#[test]
fn grid_with_a_tile_without_symbol_cannot_be_written() {
    let good: Grid = vec![vec![Tile::Empty, Tile::Path]];
    assert!(can_render(&good));
    let bad: Grid = vec![vec![Tile::Empty], vec![Tile::Checkpoint(9)]];
    assert!(!can_render(&bad));
}
