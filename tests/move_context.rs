use gaddag_movegen::board::Board;
use gaddag_movegen::constants::{BOARD_SIZE, BoardPosition, EMPTY_TILE, RACK_SIZE};
use gaddag_movegen::gaddag::Gaddag;
use gaddag_movegen::move_context::{ExtendAction, GeneratorContext, RecursionContext};
use gaddag_movegen::rack::Rack;
use gaddag_movegen::step::Step;

#[test]
fn out_of_bounds_helpers_work() {
    // backward out of bounds when depth < 0
    let mut rack = Rack::from_arrays([EMPTY_TILE; 7], 7);
    let gaddag = Gaddag::from_wordlist(&vec![]);
    let root = gaddag.get_root();

    let ctx = RecursionContext::new(
        0,
        root,
        &mut rack,
        [EMPTY_TILE; BOARD_SIZE],
        -1,
        true,
        false,
    );
    assert!(ctx.out_of_bounds_backwards());

    let ctx2 = RecursionContext::new(
        0,
        root,
        &mut rack,
        [EMPTY_TILE; BOARD_SIZE],
        BOARD_SIZE as i32,
        true,
        true,
    );
    assert!(ctx2.out_of_bounds_forwards());
}

#[test]
fn tile_existence_helpers_and_position() {
    let mut rack = Rack::from_arrays([EMPTY_TILE; 7], 7);
    let gaddag = Gaddag::from_wordlist(&vec![]);
    let root = gaddag.get_root();

    let mut buffer = [EMPTY_TILE; BOARD_SIZE];
    buffer[0] = 'X';
    buffer[1] = EMPTY_TILE;
    buffer[2] = 'Y';

    // depth = 1 -> prev exists (index 0), next exists (index 2)
    let ctx = RecursionContext::new(5, root, &mut rack, buffer, 1, true, false);
    assert!(ctx.prev_tile_exists());
    assert!(ctx.next_tile_exists());

    // current at depth 1 is EMPTY_TILE
    assert!(ctx.is_current_empty());

    // position_at_depth is the board index of cell `depth` of the anchor's
    // row (horizontal) or column (vertical); anchor 5 is row 0, column 5
    let pos_h =
        RecursionContext::new(5, root, &mut rack, buffer, 2, true, false).position_at_depth();
    assert_eq!(pos_h, 2);

    let pos_v =
        RecursionContext::new(5, root, &mut rack, buffer, 2, false, false).position_at_depth();
    assert_eq!(pos_v, 5 + BOARD_SIZE * 2);
}

#[test]
fn pivot_child_is_found_when_present() {
    let mut rack = Rack::from_arrays([EMPTY_TILE; 7], 7);
    let gaddag = Gaddag::from_wordlist(&vec![]);
    let root = gaddag.get_root();

    let ctx = RecursionContext::new(0, root, &mut rack, [EMPTY_TILE; BOARD_SIZE], 0, true, false);
    // Empty gaddag means no pivot child
    assert!(ctx.pivot_child().is_none());
}

#[test]
fn pivot_child_of_single_word() {
    let mut rack = Rack::from_arrays([EMPTY_TILE; 7], 0);
    let gaddag = Gaddag::from_wordlist(&vec!["AT".to_string()]);
    let root = gaddag.get_root();
    let a = root.get_child('A').unwrap();

    let ctx = RecursionContext::new(0, a, &mut rack, [EMPTY_TILE; BOARD_SIZE], 0, true, false);
    assert!(ctx.pivot_child().is_some());
    let ctx = RecursionContext::new(0, root, &mut rack, [EMPTY_TILE; BOARD_SIZE], 0, true, false);
    assert!(ctx.pivot_child().is_some());
    let t = root.get_child('T').unwrap();
    let ctx = RecursionContext::new(0, t, &mut rack, [EMPTY_TILE; BOARD_SIZE], 0, true, false);
    assert!(ctx.pivot_child().is_none());
}

#[test]
fn extend_and_undo_place_from_rack_forward() {
    let mut tiles = [EMPTY_TILE; RACK_SIZE];
    tiles[2] = 'B';
    let mut rack = Rack::from_arrays(tiles, 1);

    let gaddag = Gaddag::from_wordlist(&vec![]);
    let root = gaddag.get_root();

    let buffer = [EMPTY_TILE; BOARD_SIZE];
    let anchor = 10usize;
    let mut ctx = RecursionContext::new(anchor, root, &mut rack, buffer, 0, true, true);

    let previous_node = ctx.node;

    // Place tile
    ctx.extend(&ExtendAction::PlaceFromRack(2, 'B'), root);

    // After placing: move data updated, but depth unchanged; the position is
    // cell 0 of the anchor's row
    assert_eq!(ctx.current_move_len, 1);
    assert_eq!(ctx.current_tiles[0], 'B');
    assert_eq!(ctx.current_positions[0], (anchor / BOARD_SIZE * BOARD_SIZE) as BoardPosition);
    assert_eq!(ctx.buffer[0], 'B');

    // Depth should remain unchanged (0)
    assert_eq!(ctx.depth(), 0);

    // Undo the placement
    ctx.undo(&ExtendAction::PlaceFromRack(2, 'B'), previous_node);

    // Move cleared, buffer cleared, rack restored
    assert_eq!(ctx.depth(), 0);
    assert_eq!(ctx.current_move_len, 0);
    assert_eq!(ctx.buffer[0], EMPTY_TILE);
    assert_eq!(ctx.current_tiles[0], EMPTY_TILE);
    assert_eq!(ctx.current_positions[0], 0);
}

#[test]
fn place_and_undo_restore_the_rack() {
    let mut tiles = [EMPTY_TILE; RACK_SIZE];
    tiles[2] = 'B';
    tiles[4] = 'E';
    let mut rack = Rack::from_arrays(tiles, 2);
    let gaddag = Gaddag::from_wordlist(&vec![]);
    let root = gaddag.get_root();
    {
        let mut ctx =
            RecursionContext::new(40, root, &mut rack, [EMPTY_TILE; BOARD_SIZE], 3, false, false);
        ctx.extend(&ExtendAction::PlaceFromRack(4, 'E'), root);
        assert_eq!(ctx.rack.len, 1);
        assert!(!ctx.rack.is_index_used(4));
        // column 10 of row 3
        assert_eq!(ctx.current_positions[0], 55);
        ctx.undo(&ExtendAction::PlaceFromRack(4, 'E'), root);
    }
    assert_eq!(rack.len, 2);
    assert_eq!(rack.used_mask, (1 << 2) | (1 << 4));
}

#[test]
fn traverse_pivot_toggles_and_undo_restores_direction() {
    let mut rack = Rack::from_arrays([EMPTY_TILE; 7], 7);
    let gaddag = Gaddag::from_wordlist(&vec![]);
    let root = gaddag.get_root();

    let mut ctx =
        RecursionContext::new(0, root, &mut rack, [EMPTY_TILE; BOARD_SIZE], 3, true, true);

    let prev_depth = ctx.depth();
    let prev_dir = ctx.is_forwards;

    // Extend with pivot should flip direction and not change depth
    ctx.extend(&ExtendAction::TraversePivot(), root);
    assert_eq!(ctx.depth(), prev_depth);
    assert_eq!(ctx.is_forwards, !prev_dir);

    // Undo pivot should flip direction back and leave depth unchanged
    ctx.undo(&ExtendAction::TraversePivot(), root);
    assert_eq!(ctx.is_forwards, prev_dir);
    assert_eq!(ctx.depth(), prev_depth);
}

#[test]
fn traverse_existing_moves_with_direction() {
    let mut rack = Rack::from_arrays([EMPTY_TILE; 7], 0);
    let gaddag = Gaddag::from_wordlist(&vec![]);
    let root = gaddag.get_root();
    let mut ctx =
        RecursionContext::new(100, root, &mut rack, [EMPTY_TILE; BOARD_SIZE], 4, true, false);
    ctx.extend(&ExtendAction::TraverseExisting(), root);
    assert_eq!(ctx.depth, 3);
    ctx.undo(&ExtendAction::TraverseExisting(), root);
    assert_eq!(ctx.depth, 4);
    ctx.is_forwards = true;
    ctx.extend(&ExtendAction::TraverseExisting(), root);
    assert_eq!(ctx.depth, 5);
    assert_eq!(ctx.starting_square(), 10);
    ctx.is_horizontal = false;
    assert_eq!(ctx.starting_square(), 6);
    assert_eq!(ctx.position_at_depth(), 5 * BOARD_SIZE + 10);
}

#[test]
fn generator_context_buffers_reflect_board() {
    let mut board = Board::new();
    // Place two tiles at different positions
    board.place('X', 0 as BoardPosition);
    board.place('Y', 17 as BoardPosition); // row 1, col 2

    let ctx = GeneratorContext::new(&board);

    // Check horizontal buffer (rows)
    let x0 = ctx.hori_buffers[0][0];
    assert_eq!(x0, 'X');

    // position 17 -> row = 17 / 15 = 1, col = 2
    assert_eq!(ctx.hori_buffers[1][2], 'Y');

    // Vertical buffers are transposed
    assert_eq!(ctx.vert_buffers[0][0], 'X');
    assert_eq!(ctx.vert_buffers[2][1], 'Y');
}

#[test]
fn step_apply_checks_bounds() {
    assert_eq!(Step::right().apply(5), Some(6));
    assert_eq!(Step::left().apply(5), Some(4));
    assert_eq!(Step::left().apply(0), None);
    assert_eq!(Step::down().apply(5), Some(20));
    assert_eq!(Step::up().apply(5), None);
    assert_eq!(Step::up().apply(20), Some(5));
    assert_eq!(Step::right().apply(usize::MAX), None);
}
