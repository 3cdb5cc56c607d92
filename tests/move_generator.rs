use gaddag_movegen::board::Board;
use gaddag_movegen::constants::{BOARD_SIZE, BoardPosition, EMPTY_TILE, RACK_SIZE, TOTAL_SIZE};
use gaddag_movegen::gaddag::Gaddag;
use gaddag_movegen::move_context::GeneratorContext;
use gaddag_movegen::move_generator::MoveGenerator;
use gaddag_movegen::rack::Rack;

struct Context {
    gaddag: Gaddag,
    #[allow(dead_code)]
    board: Board,
    #[allow(dead_code)]
    rack: Rack,
    gen_ctx: GeneratorContext,
}

fn setup(valid_words: Vec<&str>, rack_letters: &str, placed_word: &str) -> Context {
    let gaddag = Gaddag::from_wordlist(
        &valid_words
            .into_iter()
            .map(String::from)
            .collect::<Vec<String>>(),
    );
    let mut board = Board::new();
    let start = TOTAL_SIZE / 2;
    for (i, tile) in placed_word.chars().enumerate() {
        board.place(tile, (start + i) as BoardPosition);
    }

    let mut tiles = [EMPTY_TILE; RACK_SIZE];
    for (i, tile) in rack_letters.chars().enumerate() {
        tiles[i] = tile;
    }
    let rack = Rack::from_arrays(tiles, rack_letters.len());
    let gen_ctx = GeneratorContext::new(&board);

    Context {
        gaddag: gaddag,
        board: board,
        rack: rack,
        gen_ctx: gen_ctx,
    }
}

#[test]
fn empty_board_returns_moves() {
    let gaddag = Gaddag::from_wordlist(&vec!["CAT".to_string()]);
    let generator = MoveGenerator::new(&gaddag);

    let board = Board::new();

    // Rack containing letters for CAT (first move should be allowed on center)
    let mut tiles = [EMPTY_TILE; RACK_SIZE];
    tiles[0] = 'C';
    tiles[1] = 'A';
    tiles[2] = 'T';
    let mut rack = Rack::from_arrays(tiles, 3);

    let moves = generator.generate_all_moves(&board, &mut rack);

    // On an empty board the center square counts as an anchor and the generator
    // should produce at least one move (first play must cover the center).
    assert!(!moves.is_empty(), "expected some moves on an empty board");

    // Ensure at least one generated move covers the center position (first play rule)
    let center = TOTAL_SIZE / 2;

    let mut covers_center = false;
    for m in moves.iter() {
        let mut it = m.iter();
        while let Some((_, pos)) = it.next() {
            if pos as usize == center {
                covers_center = true;
                break;
            }
        }
        if covers_center {
            break;
        }
    }
    assert!(
        covers_center,
        "expected at least one move to cover the center square"
    );
}

#[test]
fn generates_cat_when_c_on_board_and_a_t_on_rack() {
    let gaddag = Gaddag::from_wordlist(&vec!["CAT".to_string()]);
    let generator = MoveGenerator::new(&gaddag);

    let mut board = Board::new();

    // Put 'A' on the board in the top row (safe index) so adjacent squares are anchors
    let centre_row = 0usize;
    let centre_col = 2usize;
    let centre_index = centre_row * BOARD_SIZE + centre_col;
    board.place('A', centre_index as BoardPosition);

    // Rack holds C and T which combined with existing A should form CAT (C left, T right)
    let mut tiles = [EMPTY_TILE; RACK_SIZE];
    tiles[0] = 'C';
    tiles[1] = 'T';
    let mut rack = Rack::from_arrays(tiles, 2);

    let moves = generator.generate_all_moves(&board, &mut rack);

    // Sanity checks on generated moves:
    // - positions are in-bounds
    // - moves do not overwrite existing tiles (they only place on EMPTY tiles)
    // - placed tiles are valid characters
    for m in moves.iter() {
        let mut seen_positions = std::collections::HashSet::new();
        let mut it = m.iter();
        while let Some((tile, pos)) = it.next() {
            let pos_us = pos as usize;
            // in-bounds
            assert!(pos_us < TOTAL_SIZE, "position out of bounds: {}", pos_us);

            // no duplicate positions inside a move
            assert!(
                seen_positions.insert(pos_us),
                "duplicate position in move: {}",
                pos_us
            );

            // should not overwrite existing tiles
            let board_ch = board.get(pos_us);
            if board_ch != EMPTY_TILE {
                // if board already had a tile at this pos, the move must use the same tile
                assert_eq!(
                    board_ch, tile,
                    "move overwrites existing tile at {}: {} vs {}",
                    pos_us, board_ch, tile
                );
            }

            // tile should be an ASCII letter or blank
            assert!(
                tile.is_ascii_alphabetic() || tile == '?',
                "invalid tile char: {}",
                tile
            );
        }
    }
}

#[test]
fn test_get_cross_line() {
    let setup = setup(vec!["CAT", "CATS"], "CATS", "CAT");
    let generator = MoveGenerator::new(&setup.gaddag);

    let crossline_1 = generator.get_cross_line(&setup.gen_ctx, 1, false);
    for tile in crossline_1.into_iter() {
        assert!(*tile == EMPTY_TILE);
    }

    let crossline_2 = generator.get_cross_line(&setup.gen_ctx, 7, false);
    assert!(
        crossline_2
            .into_iter()
            .filter(|&tile| *tile != EMPTY_TILE)
            .count()
            == 3
    );
}

#[test]
fn test_is_crossword_valid() {
    let setup = setup(vec!["CAT", "CATS"], "CATS", "CAT");
    let generator = MoveGenerator::new(&setup.gaddag);

    let start = TOTAL_SIZE / 2;
    // Place 'S' just after the existing placed word horizontally (row)
    let pos_after = (start + 3) as usize; // one past the placed "CAT"
    // Check placing 'S' vertically at the middle of the placed word's column
    let pos_middle = (start + 1) as usize;

    assert!(generator.is_crossword_valid(&setup.gen_ctx, 'S', pos_after, false));
    assert!(generator.is_crossword_valid(&setup.gen_ctx, 'S', pos_middle, true));
    assert!(!generator.is_crossword_valid(&setup.gen_ctx, 'C', pos_after, false));
}

#[test]
fn cross_word_below_a_tile() {
    let setup = setup(vec!["AT", "CAT"], "", "CAT");
    let generator = MoveGenerator::new(&setup.gaddag);
    // T under the A of CAT (row 8, column 8) makes AT downwards
    assert!(generator.is_crossword_valid(&setup.gen_ctx, 'T', 128, true));
    // X there makes AX, not a word
    assert!(!generator.is_crossword_valid(&setup.gen_ctx, 'X', 128, true));
    // across the row, the same cell has no neighbours
    assert!(generator.is_crossword_valid(&setup.gen_ctx, 'X', 128, false));
    // C before CAT makes CCAT
    assert!(!generator.is_crossword_valid(&setup.gen_ctx, 'C', 111, false));
}
