use gaddag_movegen::board::Board;
use gaddag_movegen::constants::{
    BoardPosition, EMPTY_TILE, RACK_SIZE, TILE_BONUSES, TOTAL_SIZE, get_index, is_valid_letter,
    tile_data,
};
use gaddag_movegen::crossword_move::CrosswordMove;
use gaddag_movegen::gaddag::Gaddag;
use gaddag_movegen::move_generator::MoveGenerator;
use gaddag_movegen::rack::Rack;

fn dictionary(words: &[&str]) -> Gaddag {
    Gaddag::from_wordlist(&words.iter().map(|w| w.to_string()).collect::<Vec<String>>())
}

fn rack_of(letters: &str) -> Rack {
    let mut tiles = [EMPTY_TILE; RACK_SIZE];
    for (i, tile) in letters.chars().enumerate() {
        tiles[i] = tile;
    }
    Rack::from_arrays(tiles, letters.len())
}

fn board_with(word: &str, start: usize) -> Board {
    let mut board = Board::new();
    let mut tiles = [EMPTY_TILE; RACK_SIZE];
    let mut positions: [BoardPosition; RACK_SIZE] = [0; RACK_SIZE];
    for (i, tile) in word.chars().enumerate() {
        tiles[i] = tile;
        positions[i] = (start + i) as BoardPosition;
    }
    board.make_move(&CrosswordMove::from_arrays(tiles, positions, word.len() as u8));
    board
}

fn placements(m: &CrosswordMove) -> Vec<(char, BoardPosition)> {
    let mut out = Vec::new();
    let mut it = m.iter();
    while let Some(p) = it.next() {
        out.push(p);
    }
    out.sort();
    out
}

fn all_placements(moves: &[CrosswordMove]) -> Vec<Vec<(char, BoardPosition)>> {
    moves.iter().map(placements).collect()
}

#[test]
fn first_move_covers_centre() {
    let gaddag = dictionary(&["CAT"]);
    let generator = MoveGenerator::new(&gaddag);
    let board = Board::new();
    let mut rack = rack_of("CAT");
    let before = (rack.tiles, rack.len, rack.used_mask);

    let moves = generator.generate_all_moves(&board, &mut rack);

    assert!(!moves.is_empty());
    let all = all_placements(&moves);
    for m in &all {
        assert!(m.iter().any(|&(_, p)| p == 112));
    }
    let across = vec![('A', 112), ('C', 111), ('T', 113)];
    let down = vec![('A', 112), ('C', 97), ('T', 127)];
    assert!(all.contains(&across) || all.contains(&down));
    assert_eq!((rack.tiles, rack.len, rack.used_mask), before);
}

#[test]
fn board_letter_completes_word() {
    let gaddag = dictionary(&["CAT"]);
    let generator = MoveGenerator::new(&gaddag);
    let board = board_with("A", 2);
    let mut rack = rack_of("CT");

    let moves = generator.generate_all_moves(&board, &mut rack);

    assert_eq!(all_placements(&moves), vec![vec![('C', 1), ('T', 3)]]);
    let m = &moves[0];
    for i in 0..m.len() {
        assert_eq!(rack.tiles[m.slot(i)], m.placement(i).0);
    }
    assert_ne!(m.slot(0), m.slot(1));
}

#[test]
fn plural_extends_board_word() {
    let gaddag = dictionary(&["CAT", "CATS"]);
    let generator = MoveGenerator::new(&gaddag);
    let board = board_with("CAT", 112);
    let mut rack = rack_of("S");

    let moves = generator.generate_all_moves(&board, &mut rack);

    assert!(all_placements(&moves).contains(&vec![('S', 115)]));
    for m in &moves {
        assert_eq!(m.len(), 1);
    }
}

#[test]
fn no_move_without_cross_word() {
    let gaddag = dictionary(&["CAT"]);
    let generator = MoveGenerator::new(&gaddag);
    let board = board_with("CAT", 112);
    let mut rack = rack_of("X");

    let moves = generator.generate_all_moves(&board, &mut rack);

    assert!(moves.is_empty());
    assert_eq!(rack.len, 1);
}

#[test]
fn empty_rack_gives_no_moves() {
    let gaddag = dictionary(&["CAT", "CATS", "AT"]);
    let generator = MoveGenerator::new(&gaddag);
    let mut rack = rack_of("");
    assert!(generator.generate_all_moves(&Board::new(), &mut rack).is_empty());
    let board = board_with("CAT", 112);
    assert!(generator.generate_all_moves(&board, &mut rack).is_empty());
}

#[test]
fn blank_plays_as_letter() {
    let gaddag = dictionary(&["CAT", "CATS"]);
    let generator = MoveGenerator::new(&gaddag);
    let board = board_with("CAT", 112);
    let mut rack = rack_of("?");

    let moves = generator.generate_all_moves(&board, &mut rack);

    assert_eq!(all_placements(&moves), vec![vec![('S', 115)]]);
    // the S came from the blank in slot 0
    assert_eq!(moves[0].slot(0), 0);
    assert_eq!(rack.tiles[moves[0].slot(0)], '?');
    assert_eq!(rack.len, 1);
}

#[test]
fn generation_keeps_rack_and_board() {
    let gaddag = dictionary(&["CAT", "CATS", "ACT", "TA", "AT", "SAT", "CAST"]);
    let generator = MoveGenerator::new(&gaddag);
    let board = board_with("CAT", 112);
    let cells: Vec<char> = (0..TOTAL_SIZE).map(|i| board.get(i)).collect();
    let mut rack = rack_of("SAT?C");
    let before = (rack.tiles, rack.len, rack.used_mask);

    let moves = generator.generate_all_moves(&board, &mut rack);

    assert!(!moves.is_empty());
    assert_eq!((rack.tiles, rack.len, rack.used_mask), before);
    let after: Vec<char> = (0..TOTAL_SIZE).map(|i| board.get(i)).collect();
    assert_eq!(cells, after);

    // every move places 1..=5 tiles on distinct empty cells, and no two moves
    // place the same tiles
    let all = all_placements(&moves);
    for m in &all {
        assert!(!m.is_empty() && m.len() <= 5);
        for (i, &(tile, pos)) in m.iter().enumerate() {
            assert_eq!(board.get(pos as usize), EMPTY_TILE);
            assert!(tile.is_ascii_uppercase());
            for &(_, other) in &m[i + 1..] {
                assert_ne!(pos, other);
            }
        }
    }
    for i in 0..all.len() {
        for j in i + 1..all.len() {
            assert_ne!(all[i], all[j]);
        }
    }
    for (a, b) in moves.iter().zip(moves.iter().skip(1)) {
        assert!(!a.same_placements(b));
    }
}

#[test]
fn make_then_undo_restores_board() {
    let mut board = board_with("DOG", 30);
    let cells: Vec<char> = (0..TOTAL_SIZE).map(|i| board.get(i)).collect();
    let m = CrosswordMove::from_arrays(['C', 'A', 'T', EMPTY_TILE, EMPTY_TILE, EMPTY_TILE, EMPTY_TILE], [111, 112, 113, 0, 0, 0, 0], 3);

    board.make_move(&m);
    assert_eq!(board.get(112), 'A');
    assert!(!board.is_cell_empty(111));
    board.undo_move(&m);

    let after: Vec<char> = (0..TOTAL_SIZE).map(|i| board.get(i)).collect();
    assert_eq!(cells, after);
    assert!(!board.is_empty());
}

#[test]
fn board_count_and_anchors() {
    let mut board = Board::new();
    assert!(board.is_empty());
    assert!(!board.is_anchor(112));
    board.place('Q', 0);
    assert!(board.is_empty());
    board.increase_tile_count();
    assert!(!board.is_empty());
    assert!(board.is_anchor(1));
    assert!(board.is_anchor(15));
    assert!(!board.is_anchor(0));
    assert!(!board.is_anchor(16));
    assert!(!board.is_anchor(14));

    let board = board_with("A", 224);
    assert!(board.is_anchor(223));
    assert!(board.is_anchor(209));
    assert!(!board.is_anchor(208));
}

#[test]
fn move_equality_ignores_order() {
    let a = CrosswordMove::from_arrays(['C', 'T', EMPTY_TILE, EMPTY_TILE, EMPTY_TILE, EMPTY_TILE, EMPTY_TILE], [1, 3, 0, 0, 0, 0, 0], 2);
    let b = CrosswordMove::from_arrays(['T', 'C', 'Q', EMPTY_TILE, EMPTY_TILE, EMPTY_TILE, EMPTY_TILE], [3, 1, 9, 0, 0, 0, 0], 2);
    let c = CrosswordMove::from_arrays(['C', 'S', EMPTY_TILE, EMPTY_TILE, EMPTY_TILE, EMPTY_TILE, EMPTY_TILE], [1, 3, 0, 0, 0, 0, 0], 2);
    let d = CrosswordMove::from_arrays(['C', 'T', 'S', EMPTY_TILE, EMPTY_TILE, EMPTY_TILE, EMPTY_TILE], [1, 3, 4, 0, 0, 0, 0], 3);
    assert!(a.same_placements(&b));
    assert!(!a.same_placements(&c));
    assert!(!a.same_placements(&d));
    // equal as multisets, not merely as sets
    let e = CrosswordMove::from_arrays(['C', 'C', 'T', EMPTY_TILE, EMPTY_TILE, EMPTY_TILE, EMPTY_TILE], [1, 1, 3, 0, 0, 0, 0], 3);
    let f = CrosswordMove::from_arrays(['C', 'T', 'T', EMPTY_TILE, EMPTY_TILE, EMPTY_TILE, EMPTY_TILE], [1, 3, 3, 0, 0, 0, 0], 3);
    let g = CrosswordMove::from_arrays(['T', 'C', 'C', EMPTY_TILE, EMPTY_TILE, EMPTY_TILE, EMPTY_TILE], [3, 1, 1, 0, 0, 0, 0], 3);
    assert!(!e.same_placements(&f));
    assert!(e.same_placements(&g));
    assert_eq!(a.len(), 2);
    assert_eq!(b.placement(1), ('C', 1));
}

#[test]
fn tile_indices_and_data() {
    assert_eq!(get_index('A'), 0);
    assert_eq!(get_index('z'), 25);
    assert_eq!(get_index('?'), 26);
    assert!(is_valid_letter('q'));
    assert!(is_valid_letter('?'));
    assert!(!is_valid_letter('>'));
    assert!(!is_valid_letter('.'));
    let e = tile_data('E').unwrap();
    assert_eq!((e.count, e.score), (12, 1));
    let q = tile_data('q').unwrap();
    assert_eq!((q.count, q.score), (1, 10));
    let blank = tile_data('?').unwrap();
    assert_eq!((blank.count, blank.score), (2, 0));
    assert!(tile_data('1').is_none());
    assert_eq!(TILE_BONUSES[0], 4);
    assert_eq!(TILE_BONUSES[112], 3);
    assert_eq!(TILE_BONUSES.len(), TOTAL_SIZE);
}

fn word_through(board: &Board, pos: usize, step: usize) -> String {
    // the run of occupied cells through `pos` along a row (step 1) or column (step 15)
    let on_line = |a: usize, b: usize| if step == 1 { a / 15 == b / 15 } else { true };
    let mut start = pos;
    while start >= step && on_line(start - step, pos) && board.get(start - step) != EMPTY_TILE {
        start -= step;
    }
    let mut word = String::new();
    let mut cur = start;
    while cur < TOTAL_SIZE && on_line(cur, pos) && board.get(cur) != EMPTY_TILE {
        word.push(board.get(cur));
        cur += step;
    }
    word
}

#[test]
fn generated_moves_form_dictionary_words() {
    let words = ["CAT", "CATS", "ACT", "TA", "AT", "SAT", "CAST", "AS", "TAT", "SCAT"];
    let gaddag = dictionary(&words);
    let generator = MoveGenerator::new(&gaddag);
    let base = board_with("CAT", 112);
    let mut rack = rack_of("SAT");

    let moves = generator.generate_all_moves(&base, &mut rack);
    assert!(!moves.is_empty());

    for m in &moves {
        let placed = placements(m);
        let mut board = board_with("CAT", 112);
        board.make_move(m);
        let same_row = placed.iter().all(|&(_, p)| p / 15 == placed[0].1 / 15);
        let same_col = placed.iter().all(|&(_, p)| p % 15 == placed[0].1 % 15);
        assert!(same_row || same_col);
        // try the move's direction; a single tile may lie along either
        let legal_along = |step: usize| {
            let across = if step == 1 { 15 } else { 1 };
            let main = word_through(&board, placed[0].1 as usize, step);
            main.len() >= 1
                && gaddag.is_word(&main)
                && placed.iter().all(|&(_, p)| {
                    let cross = word_through(&board, p as usize, across);
                    cross.len() == 1 || gaddag.is_word(&cross)
                })
        };
        assert!((same_row && legal_along(1)) || (same_col && legal_along(15)));
        // every placed tile touches another tile
        for &(_, p) in &placed {
            let p = p as usize;
            let touches = (p % 15 > 0 && board.get(p - 1) != EMPTY_TILE)
                || (p % 15 < 14 && board.get(p + 1) != EMPTY_TILE)
                || (p >= 15 && board.get(p - 15) != EMPTY_TILE)
                || (p + 15 < TOTAL_SIZE && board.get(p + 15) != EMPTY_TILE);
            assert!(touches);
        }
    }
}
