use vstd::prelude::*;

use crate::board::{Board, anchor_at, lemma_occupied_zero, valid_cell};
use crate::constants::{
    BLANK, BoardPosition, BOARD_SIZE, EMPTY_TILE, RACK_SIZE, TOTAL_SIZE, is_tile,
    to_upper,
};
use crate::crossword_move::{CrosswordMove, same_pairs};
use crate::gaddag::{Gaddag, GaddagNode};
use crate::move_context::{ExtendAction, GeneratorContext, RecursionContext, line_pos};
use crate::rack::{Rack, lemma_len_bound, lemma_present_counted};
use crate::walk::{
    at_word_end, completes_word, covers, cross_index, cross_line, cross_word, crosses_at,
    crosses_on_board, crosses_one_way, crossword_ok, distinct_moves, drawn_from, fits, gen_ok,
    has_move, held, keeps, lemma_crosses_frame, lemma_crosses_frame_along, lemma_extend_shorter,
    lemma_gen_frame, lemma_keeps_found, lemma_line_start, lemma_moves_on_board, lemma_run_end,
    lemma_run_start, lemma_slot_kept, lemma_snapshot, lemma_walk_place, lemma_walk_transfer, letter,
    line_cell, move_crosses, new_moves_cover, new_moves_drawn, new_moves_extend,
    next_tile_ends_word, phase, pivot_ends_word, placed_at, present_on, rack_tiles, restored, room,
    run_end, run_start, same_board, slot_tried, snapshot, start_present, tile_fits, tried, walk_ok,
    with_tile,
};
use crate::walk_path::{
    fresh, legal_along, legal_on_board, legal_one_way, lemma_path_follow, lemma_path_gap,
    lemma_path_pivot, lemma_path_place, lemma_path_same, lemma_path_start, lemma_record_word,
    lemma_words_frame, lemma_words_on_board, path_ok, words_ok,
};
use crate::walk_shape::{
    anchor_index, placed_cell, touches_or_centre, lemma_record_connected, lemma_shape_pivot, lemma_shape_place, lemma_shape_same,
    lemma_shape_start, lemma_shape_step, shape_ok,
};

verus! {

/// Enumerates the legal moves for a board and a rack against one dictionary.
pub struct MoveGenerator<'a> {
    gaddag: &'a Gaddag,
}

impl<'a> MoveGenerator<'a> {
    pub closed spec fn dictionary(&self) -> Gaddag {
        *self.gaddag
    }

    pub fn new(gaddag: &'a Gaddag) -> (r: MoveGenerator<'a>)
        ensures
            r.dictionary() == *gaddag,
    {
        MoveGenerator { gaddag }
    }

    /// Every legal move for the board and the rack. The rack is used as
    /// scratch space and handed back as it came.
    pub fn generate_all_moves(&self, board: &Board, rack: &mut Rack) -> (moves: Vec<CrosswordMove>)
        requires
            self.dictionary().wf(),
            board.wf(),
            old(rack).wf(),
        ensures
            *final(rack) == *old(rack),
            forall|k: int|
                0 <= k < moves@.len() ==> (#[trigger] moves@[k]).wf() && fits(
                    moves@[k].placements(),
                    board@,
                    old(rack).len as int,
                ) && moves@[k].placements().len() <= RACK_SIZE,
            forall|k: int|
                0 <= k < moves@.len() ==> crosses_on_board(
                    self.dictionary(),
                    board@,
                    (#[trigger] moves@[k]).placements(),
                ),
            forall|k: int| 0 <= k < moves@.len() ==> touches_or_centre(board@, (#[trigger] moves@[k]).placements()),
            forall|k: int|
                0 <= k < moves@.len() ==> legal_on_board(
                    self.dictionary(),
                    board@,
                    (#[trigger] moves@[k]).placements(),
                ),
            board.count() == 0 ==> forall|k: int|
                0 <= k < moves@.len() ==> covers((#[trigger] moves@[k]).placements(), TOTAL_SIZE as int / 2),
            forall|k: int|
                0 <= k < moves@.len() ==> drawn_from(
                    #[trigger] moves@[k],
                    old(rack).tiles,
                    present_on(*old(rack)),
                ),
            distinct_moves(moves@),
    {
        let ghost r0 = rack.len as int;
        proof {
            lemma_len_bound(*rack);
            board.lemma_len();
        }
        let mut gen_ctx: GeneratorContext = GeneratorContext::new(board);
        proof {
            lemma_snapshot(&gen_ctx, board@);
            assert forall|y: int, x: int|
                0 <= y < BOARD_SIZE && 0 <= x < BOARD_SIZE implies valid_cell(
                #[trigger] gen_ctx.hori_buffers[y][x],
            ) && gen_ctx.vert_buffers[x][y] == gen_ctx.hori_buffers[y][x] by {
                assert(valid_cell(board@[y * BOARD_SIZE as int + x]));
            }
        }
        if board.is_empty() {
            proof {
                lemma_occupied_zero(board@, TOTAL_SIZE as int);
            }
            let center = TOTAL_SIZE / 2;
            self.generate_moves_for_anchor(rack, &mut gen_ctx, center);
            proof {
                lemma_snapshot(&gen_ctx, board@);
                lemma_moves_on_board(&gen_ctx, self.dictionary(), board@, r0);
                lemma_words_on_board(&gen_ctx, self.dictionary(), board@, r0);
            }
            return gen_ctx.moves;
        }
        let mut index: usize = 0;
        while index < TOTAL_SIZE
            invariant
                self.dictionary().wf(),
                board@.len() == TOTAL_SIZE,
                r0 == old(rack).len,
                r0 <= RACK_SIZE,
                *rack == *old(rack),
                rack.wf(),
                gen_ok(&gen_ctx, self.dictionary(), r0),
                words_ok(&gen_ctx, self.dictionary()),
                forall|k: int|
                    0 <= k < gen_ctx.moves@.len() ==> drawn_from(
                        #[trigger] gen_ctx.moves@[k],
                        old(rack).tiles,
                        present_on(*old(rack)),
                    ),
                gen_ctx.mirrors(board@),
            decreases TOTAL_SIZE - index,
        {
            let ghost before = gen_ctx;
            if board.is_anchor(index) {
                self.generate_moves_for_anchor(rack, &mut gen_ctx, index);
                let ghost mid = gen_ctx;
                gen_ctx.explored_anchors[index] = true;
                proof {
                    lemma_gen_frame(&mid, &gen_ctx, self.dictionary(), r0);
                    lemma_words_frame(&mid, &gen_ctx, self.dictionary());
                }
            }
            proof {
                assert(gen_ctx.hori_buffers == before.hori_buffers);
                assert(gen_ctx.vert_buffers == before.vert_buffers);
                assert forall|y: int, x: int| 0 <= y < BOARD_SIZE && 0 <= x < BOARD_SIZE implies {
                    &&& #[trigger] gen_ctx.hori_buffers[y][x] == board@[y * BOARD_SIZE as int + x]
                    &&& gen_ctx.vert_buffers[x][y] == board@[y * BOARD_SIZE as int + x]
                } by {
                    assert(before.hori_buffers[y][x] == board@[y * BOARD_SIZE as int + x]);
                }
            }
            index += 1;
        }
        proof {
            lemma_snapshot(&gen_ctx, board@);
            lemma_moves_on_board(&gen_ctx, self.dictionary(), board@, r0);
            lemma_words_on_board(&gen_ctx, self.dictionary(), board@, r0);
        }
        gen_ctx.moves
    }

    /// Walks from the anchor along its row, then along its column.
    pub fn generate_moves_for_anchor(
        &self,
        rack: &mut Rack,
        gen_ctx: &mut GeneratorContext,
        anchor: usize,
    )
        requires
            self.dictionary().wf(),
            anchor < TOTAL_SIZE,
            anchor_at(snapshot(old(gen_ctx)), anchor as int) || anchor == TOTAL_SIZE / 2,
            old(rack).wf(),
            gen_ok(old(gen_ctx), self.dictionary(), old(rack).len as int),
            snapshot(old(gen_ctx))[anchor as int] == EMPTY_TILE ==> words_ok(old(gen_ctx), self.dictionary()),
        ensures
            snapshot(old(gen_ctx))[anchor as int] == EMPTY_TILE ==> words_ok(final(gen_ctx), self.dictionary()),
            *final(rack) == *old(rack),
            gen_ok(final(gen_ctx), self.dictionary(), old(rack).len as int),
            same_board(final(gen_ctx), old(gen_ctx)),
            keeps(old(gen_ctx), final(gen_ctx)),
            snapshot(old(gen_ctx))[anchor as int] == EMPTY_TILE ==> new_moves_cover(old(gen_ctx), final(gen_ctx), anchor as int),
            new_moves_drawn(old(gen_ctx), final(gen_ctx), old(rack).tiles, present_on(*old(rack))),
    {
        let ghost r0 = rack.len as int;
        proof {
            lemma_len_bound(*rack);
        }
        let row = anchor / BOARD_SIZE;
        let col = anchor % BOARD_SIZE;
        let hori_buffer = gen_ctx.hori_buffers[row];
        let vert_buffer = gen_ctx.vert_buffers[col];
        let root: &GaddagNode = self.gaddag.get_root();

        let mut horizontal_ctx = RecursionContext::new(
            anchor,
            root,
            rack,
            hori_buffer,
            col as i32,
            true,
            false,
        );
        proof {
            lemma_line_start(&horizontal_ctx, gen_ctx, self.dictionary(), r0);
            lemma_shape_start(&horizontal_ctx, gen_ctx);
            assert(start_present(&horizontal_ctx) =~= present_on(*old(rack)));
            lemma_path_start(&horizontal_ctx, gen_ctx, self.dictionary().root_node());
        }
        self.extend_backwards(gen_ctx, &mut horizontal_ctx);

        let mut vertical_ctx = RecursionContext::new(
            anchor,
            root,
            rack,
            vert_buffer,
            row as i32,
            false,
            false,
        );
        proof {
            lemma_line_start(&vertical_ctx, gen_ctx, self.dictionary(), r0);
            lemma_shape_start(&vertical_ctx, gen_ctx);
            assert(start_present(&vertical_ctx) =~= present_on(*old(rack)));
            lemma_path_start(&vertical_ctx, gen_ctx, self.dictionary().root_node());
        }
        self.extend_backwards(gen_ctx, &mut vertical_ctx);
    }

    /// Walks from the anchor backwards along the line: places rack tiles on
    /// empty cells, takes in tiles already on the board, and crosses the pivot
    /// to walk forwards once the part before the anchor is complete.
    pub fn extend_backwards(&self, gen_ctx: &mut GeneratorContext, ctx: &mut RecursionContext<'_>)
        requires
            self.dictionary().wf(),
            gen_ok(old(gen_ctx), self.dictionary(), held(old(ctx))),
            walk_ok(old(ctx), old(gen_ctx), self.dictionary(), held(old(ctx))),
            shape_ok(old(ctx), old(gen_ctx)),
            path_ok(old(ctx), old(gen_ctx), self.dictionary().root_node()),
            fresh(old(ctx), old(gen_ctx)) ==> words_ok(old(gen_ctx), self.dictionary()),
            !old(ctx).is_forwards,
        ensures
            gen_ok(final(gen_ctx), self.dictionary(), held(old(ctx))),
            fresh(old(ctx), old(gen_ctx)) ==> words_ok(final(gen_ctx), self.dictionary()),
            same_board(final(gen_ctx), old(gen_ctx)),
            keeps(old(gen_ctx), final(gen_ctx)),
            fresh(old(ctx), old(gen_ctx)) ==> new_moves_cover(old(gen_ctx), final(gen_ctx), old(ctx).anchor as int),
            new_moves_extend(old(gen_ctx), final(gen_ctx), current_move(old(ctx))),
            new_moves_drawn(old(gen_ctx), final(gen_ctx), old(ctx).rack.tiles, start_present(old(ctx))),
            restored(final(ctx), old(ctx)),
            (old(ctx).depth < 0 || old(gen_ctx).explored_anchors[line_pos(
                old(ctx).anchor as int,
                old(ctx).is_horizontal,
                old(ctx).depth as int,
            )]) ==> final(gen_ctx).moves@ == old(gen_ctx).moves@,
            pivot_ends_word(old(ctx), old(gen_ctx), anchor_index(old(ctx))) ==> has_move(
                final(gen_ctx),
                current_move(old(ctx)),
            ),
            *final(final(ctx).rack) == *final(old(ctx).rack),
        decreases old(ctx).rack.len, phase(old(ctx)), room(old(ctx)), 3int,
    {
        let ghost r0 = held(old(ctx));
        if ctx.out_of_bounds_backwards() {
            return;
        }
        // a move through an earlier anchor was found from that anchor
        let anchor = ctx.position_at_depth();
        if gen_ctx.explored_anchors[anchor] {
            return;
        }
        if ctx.is_current_empty() {
            return self.handle_empty_tile(gen_ctx, ctx);
        }
        if ctx.prev_tile_exists() {
            return self.follow_existing_tiles(gen_ctx, ctx);
        }
        // the part before the anchor is complete: cross the pivot and walk
        // forwards from the anchor
        if let Some(pivot_node) = ctx.pivot_child() {
            let previous_node = ctx.node;
            let action = ExtendAction::TraversePivot();
            let old_depth = ctx.depth;
            ctx.depth = ctx.starting_square() as i32;
            ctx.extend(&action, pivot_node);
            proof {
                lemma_walk_transfer(old(ctx), old(gen_ctx), ctx, gen_ctx, self.dictionary(), r0);
                lemma_shape_pivot(old(ctx), old(gen_ctx), ctx, gen_ctx);
                assert(current_move(ctx) =~= current_move(old(ctx)));
                lemma_path_pivot(old(ctx), old(gen_ctx), ctx, gen_ctx, self.dictionary().root_node());
            }
            proof {
                if pivot_ends_word(old(ctx), old(gen_ctx), anchor_index(old(ctx))) {
                    let x = anchor_index(old(ctx));
                    if x > old(ctx).depth {
                        assert(old(ctx).buffer[x] != EMPTY_TILE);
                    }
                    assert(at_word_end(ctx));
                    assert(current_move(ctx) =~= current_move(old(ctx)));
                }
            }
            self.extend_forwards(gen_ctx, ctx);
            ctx.undo(&action, previous_node);
            ctx.depth = old_depth;
            proof {
                lemma_walk_transfer(old(ctx), old(gen_ctx), ctx, gen_ctx, self.dictionary(), r0);
                lemma_shape_same(old(ctx), old(gen_ctx), ctx, gen_ctx);
                lemma_path_same(old(ctx), old(gen_ctx), ctx, gen_ctx, self.dictionary().root_node());
            }
        }
        if ctx.rack.is_empty() {
            return;
        }
        // step onto the empty cell before the word; the node stays
        let ghost mid = *gen_ctx;
        let previous_node = ctx.node;
        let action = ExtendAction::TraverseExisting();
        ctx.extend(&action, previous_node);
        proof {
            lemma_walk_transfer(old(ctx), old(gen_ctx), ctx, gen_ctx, self.dictionary(), r0);
            lemma_shape_step(old(ctx), old(gen_ctx), ctx, gen_ctx);
            assert(current_move(ctx) =~= current_move(old(ctx)));
            lemma_path_gap(old(ctx), old(gen_ctx), ctx, gen_ctx, self.dictionary().root_node());
        }
        self.extend_backwards(gen_ctx, ctx);
        ctx.undo(&action, previous_node);
        proof {
            if pivot_ends_word(old(ctx), old(gen_ctx), anchor_index(old(ctx))) {
                lemma_keeps_found(&mid, gen_ctx, current_move(old(ctx)));
            }
        }
    }

    /// Walks forwards from the anchor after the pivot, recording a move
    /// wherever the word ends at a cell with no tile after it.
    pub fn extend_forwards(&self, gen_ctx: &mut GeneratorContext, ctx: &mut RecursionContext<'_>)
        requires
            self.dictionary().wf(),
            gen_ok(old(gen_ctx), self.dictionary(), held(old(ctx))),
            walk_ok(old(ctx), old(gen_ctx), self.dictionary(), held(old(ctx))),
            shape_ok(old(ctx), old(gen_ctx)),
            path_ok(old(ctx), old(gen_ctx), self.dictionary().root_node()),
            fresh(old(ctx), old(gen_ctx)) ==> words_ok(old(gen_ctx), self.dictionary()),
            old(ctx).is_forwards,
        ensures
            gen_ok(final(gen_ctx), self.dictionary(), held(old(ctx))),
            fresh(old(ctx), old(gen_ctx)) ==> words_ok(final(gen_ctx), self.dictionary()),
            same_board(final(gen_ctx), old(gen_ctx)),
            keeps(old(gen_ctx), final(gen_ctx)),
            fresh(old(ctx), old(gen_ctx)) ==> new_moves_cover(old(gen_ctx), final(gen_ctx), old(ctx).anchor as int),
            new_moves_extend(old(gen_ctx), final(gen_ctx), current_move(old(ctx))),
            new_moves_drawn(old(gen_ctx), final(gen_ctx), old(ctx).rack.tiles, start_present(old(ctx))),
            restored(final(ctx), old(ctx)),
            at_word_end(old(ctx)) ==> has_move(final(gen_ctx), current_move(old(ctx))),
            *final(final(ctx).rack) == *final(old(ctx).rack),
        decreases old(ctx).rack.len, phase(old(ctx)), room(old(ctx)), 3int,
    {
        let ghost r0 = held(old(ctx));
        if ctx.out_of_bounds_forwards() {
            return;
        }
        if ctx.is_current_empty() {
            return self.handle_empty_tile(gen_ctx, ctx);
        }
        if ctx.next_tile_exists() {
            return self.follow_existing_tiles(gen_ctx, ctx);
        }
        // the word ends here
        if ctx.node.is_word() && ctx.current_move_len > 0 {
            let ghost before = *gen_ctx;
            proof {
                assert forall|k: int| 0 <= k < gen_ctx.moves@.len() implies (#[trigger] gen_ctx.moves@[k]).wf() by {
                }
            }
            self.record_move(gen_ctx, ctx);
            proof {
                lemma_record_invariants(self.dictionary(), &before, gen_ctx, ctx);
                lemma_recorded_found(&before, gen_ctx, current_move(ctx));
                lemma_walk_transfer(old(ctx), old(gen_ctx), ctx, gen_ctx, self.dictionary(), r0);
            }
        }
        if ctx.rack.is_empty() {
            return;
        }
        // step onto the empty cell after the word; the node stays
        let ghost mid = *gen_ctx;
        let previous_node = ctx.node;
        let action = ExtendAction::TraverseExisting();
        ctx.extend(&action, previous_node);
        proof {
            lemma_walk_transfer(old(ctx), old(gen_ctx), ctx, gen_ctx, self.dictionary(), r0);
            lemma_shape_step(old(ctx), old(gen_ctx), ctx, gen_ctx);
            assert(current_move(ctx) =~= current_move(old(ctx)));
            lemma_path_gap(old(ctx), old(gen_ctx), ctx, gen_ctx, self.dictionary().root_node());
        }
        self.extend_forwards(gen_ctx, ctx);
        ctx.undo(&action, previous_node);
        proof {
            if at_word_end(old(ctx)) {
                lemma_keeps_found(&mid, gen_ctx, current_move(old(ctx)));
            }
        }
    }

    /// Tries every tile on the rack, a blank as every letter, on the empty
    /// current cell.
    pub fn handle_empty_tile(&self, gen_ctx: &mut GeneratorContext, ctx: &mut RecursionContext<'_>)
        requires
            self.dictionary().wf(),
            gen_ok(old(gen_ctx), self.dictionary(), held(old(ctx))),
            walk_ok(old(ctx), old(gen_ctx), self.dictionary(), held(old(ctx))),
            shape_ok(old(ctx), old(gen_ctx)),
            path_ok(old(ctx), old(gen_ctx), self.dictionary().root_node()),
            fresh(old(ctx), old(gen_ctx)) ==> words_ok(old(gen_ctx), self.dictionary()),
            0 <= old(ctx).depth < BOARD_SIZE,
            old(ctx).buffer[old(ctx).depth as int] == EMPTY_TILE,
        ensures
            gen_ok(final(gen_ctx), self.dictionary(), held(old(ctx))),
            fresh(old(ctx), old(gen_ctx)) ==> words_ok(final(gen_ctx), self.dictionary()),
            same_board(final(gen_ctx), old(gen_ctx)),
            keeps(old(gen_ctx), final(gen_ctx)),
            fresh(old(ctx), old(gen_ctx)) ==> new_moves_cover(old(gen_ctx), final(gen_ctx), old(ctx).anchor as int),
            new_moves_extend(old(gen_ctx), final(gen_ctx), current_move(old(ctx))),
            new_moves_drawn(old(gen_ctx), final(gen_ctx), old(ctx).rack.tiles, start_present(old(ctx))),
            restored(final(ctx), old(ctx)),
            forall|idx: int|
                0 <= idx < RACK_SIZE && #[trigger] old(ctx).rack.present(idx) ==> slot_tried(
                    old(ctx),
                    old(gen_ctx),
                    self.dictionary(),
                    final(gen_ctx),
                    idx,
                ),
            *final(final(ctx).rack) == *final(old(ctx).rack),
        decreases old(ctx).rack.len, phase(old(ctx)), room(old(ctx)), 2int,
    {
        let ghost r0 = held(old(ctx));
        let tiles = ctx.rack.available_tiles();
        let mut i: usize = 0;
        while i < tiles.len()
            invariant
                self.dictionary().wf(),
                0 <= i <= tiles@.len(),
                r0 == held(old(ctx)),
                walk_ok(old(ctx), old(gen_ctx), self.dictionary(), r0),
                gen_ok(gen_ctx, self.dictionary(), r0),
                same_board(gen_ctx, old(gen_ctx)),
                keeps(old(gen_ctx), gen_ctx),
                fresh(old(ctx), old(gen_ctx)) ==> new_moves_cover(old(gen_ctx), gen_ctx, old(ctx).anchor as int),
                new_moves_extend(old(gen_ctx), gen_ctx, current_move(old(ctx))),
                new_moves_drawn(old(gen_ctx), gen_ctx, old(ctx).rack.tiles, start_present(old(ctx))),
                restored(ctx, old(ctx)),
                *final(ctx.rack) == *final(old(ctx).rack),
                walk_ok(ctx, gen_ctx, self.dictionary(), r0),
                shape_ok(old(ctx), old(gen_ctx)),
                path_ok(old(ctx), old(gen_ctx), self.dictionary().root_node()),
                path_ok(ctx, gen_ctx, self.dictionary().root_node()),
                fresh(ctx, gen_ctx) == fresh(old(ctx), old(gen_ctx)),
                fresh(old(ctx), old(gen_ctx)) ==> words_ok(gen_ctx, self.dictionary()),
                shape_ok(ctx, gen_ctx),
                0 <= ctx.depth < BOARD_SIZE,
                ctx.buffer[ctx.depth as int] == EMPTY_TILE,
                forall|k: int|
                    0 <= k < i ==> slot_tried(
                        old(ctx),
                        old(gen_ctx),
                        self.dictionary(),
                        gen_ctx,
                        (#[trigger] tiles@[k]).0 as int,
                    ),
                forall|k: int|
                    0 <= k < tiles@.len() ==> {
                        &&& (#[trigger] tiles@[k]).0 < RACK_SIZE
                        &&& ctx.rack.present(tiles@[k].0 as int)
                        &&& tiles@[k].1 == ctx.rack.tiles[tiles@[k].0 as int]
                    },
            decreases tiles@.len() - i,
        {
            let (idx, tile) = tiles[i];
            proof {
                assert(ctx.rack.present(idx as int));
            }
            if tile == BLANK {
                let mut letter_index: usize = 0;
                while letter_index < 26
                    invariant
                        self.dictionary().wf(),
                        idx < RACK_SIZE,
                        ctx.rack.present(idx as int),
                        r0 == held(old(ctx)),
                        walk_ok(old(ctx), old(gen_ctx), self.dictionary(), r0),
                        gen_ok(gen_ctx, self.dictionary(), r0),
                        same_board(gen_ctx, old(gen_ctx)),
                        keeps(old(gen_ctx), gen_ctx),
                        fresh(old(ctx), old(gen_ctx)) ==> new_moves_cover(old(gen_ctx), gen_ctx, old(ctx).anchor as int),
                        new_moves_extend(old(gen_ctx), gen_ctx, current_move(old(ctx))),
                        new_moves_drawn(old(gen_ctx), gen_ctx, old(ctx).rack.tiles, start_present(old(ctx))),
                new_moves_drawn(old(gen_ctx), gen_ctx, old(ctx).rack.tiles, start_present(old(ctx))),
                new_moves_extend(old(gen_ctx), gen_ctx, current_move(old(ctx))),
                new_moves_drawn(old(gen_ctx), gen_ctx, old(ctx).rack.tiles, start_present(old(ctx))),
                        restored(ctx, old(ctx)),
                        *final(ctx.rack) == *final(old(ctx).rack),
                        walk_ok(ctx, gen_ctx, self.dictionary(), r0),
                        shape_ok(old(ctx), old(gen_ctx)),
                        path_ok(old(ctx), old(gen_ctx), self.dictionary().root_node()),
                        path_ok(ctx, gen_ctx, self.dictionary().root_node()),
                        fresh(ctx, gen_ctx) == fresh(old(ctx), old(gen_ctx)),
                        fresh(old(ctx), old(gen_ctx)) ==> words_ok(gen_ctx, self.dictionary()),
                        shape_ok(ctx, gen_ctx),
                        0 <= ctx.depth < BOARD_SIZE,
                        ctx.buffer[ctx.depth as int] == EMPTY_TILE,
                        0 <= i < tiles@.len(),
                        tiles@[i as int].0 == idx,
                        tile == BLANK,
                        tile == old(ctx).rack.tiles[idx as int],
                        letter_index <= 26,
                        forall|k: int|
                            0 <= k < i ==> slot_tried(
                                old(ctx),
                                old(gen_ctx),
                                self.dictionary(),
                                gen_ctx,
                                (#[trigger] tiles@[k]).0 as int,
                            ),
                        forall|l: int|
                            0 <= l < letter_index ==> tried(
                                old(ctx),
                                old(gen_ctx),
                                self.dictionary(),
                                gen_ctx,
                                #[trigger] letter(l),
                            ),
                    decreases 26 - letter_index,
                {
                    let letter_char = (65u8 + letter_index as u8) as char;
                    proof {
                        assert(letter_char == letter(letter_index as int));
                        assert('A' <= letter_char <= 'Z');
                    }
                    let ghost before = *gen_ctx;
                    proof {
                        assert(current_move(ctx) =~= current_move(old(ctx)));
                    }
                    self.try_place(gen_ctx, ctx, idx, letter_char);
                    proof {
                        assert forall|k: int| 0 <= k < i implies slot_tried(
                            old(ctx),
                            old(gen_ctx),
                            self.dictionary(),
                            gen_ctx,
                            (#[trigger] tiles@[k]).0 as int,
                        ) by {
                            lemma_slot_kept(old(ctx), old(gen_ctx), self.dictionary(), &before, gen_ctx, tiles@[k].0 as int);
                        }
                        assert forall|l: int| 0 <= l < letter_index + 1 implies tried(
                            old(ctx),
                            old(gen_ctx),
                            self.dictionary(),
                            gen_ctx,
                            #[trigger] letter(l),
                        ) by {
                            if l < letter_index {
                                if completes_word(old(ctx), old(gen_ctx), self.dictionary(), letter(l)) {
                                    lemma_keeps_found(&before, gen_ctx, with_tile(old(ctx), letter(l)));
                                }
                            }
                        }
                        lemma_walk_transfer(old(ctx), old(gen_ctx), ctx, gen_ctx, self.dictionary(), r0);
                        lemma_shape_same(old(ctx), old(gen_ctx), ctx, gen_ctx);
                        lemma_path_same(old(ctx), old(gen_ctx), ctx, gen_ctx, self.dictionary().root_node());
                    }
                    letter_index += 1;
                }
            } else {
                proof {
                    assert(is_tile(to_upper(ctx.rack.tiles[idx as int])));
                }
                let ghost before = *gen_ctx;
                proof {
                    assert(current_move(ctx) =~= current_move(old(ctx)));
                }
                self.try_place(gen_ctx, ctx, idx, tile);
                proof {
                    assert forall|k: int| 0 <= k < i implies slot_tried(
                        old(ctx),
                        old(gen_ctx),
                        self.dictionary(),
                        gen_ctx,
                        (#[trigger] tiles@[k]).0 as int,
                    ) by {
                        lemma_slot_kept(old(ctx), old(gen_ctx), self.dictionary(), &before, gen_ctx, tiles@[k].0 as int);
                    }
                    lemma_walk_transfer(old(ctx), old(gen_ctx), ctx, gen_ctx, self.dictionary(), r0);
                    lemma_shape_same(old(ctx), old(gen_ctx), ctx, gen_ctx);
                    lemma_path_same(old(ctx), old(gen_ctx), ctx, gen_ctx, self.dictionary().root_node());
                }
            }
            proof {
                assert(slot_tried(old(ctx), old(gen_ctx), self.dictionary(), gen_ctx, idx as int));
            }
            i += 1;
        }
        proof {
            assert forall|idx: int|
                0 <= idx < RACK_SIZE && #[trigger] old(ctx).rack.present(idx) implies slot_tried(
                old(ctx),
                old(gen_ctx),
                self.dictionary(),
                gen_ctx,
                idx,
            ) by {
                assert(ctx.rack.present(idx));
                let k = choose|k: int| 0 <= k < tiles@.len() && tiles@[k].0 == idx;
                assert(slot_tried(old(ctx), old(gen_ctx), self.dictionary(), gen_ctx, tiles@[k].0 as int));
            }
        }
    }

    /// Places `tile` from rack slot `idx` on the current cell, if the word it
    /// makes across the line is in the dictionary and the trie has an edge for
    /// it, walks on, and takes the tile back.
    fn try_place(
        &self,
        gen_ctx: &mut GeneratorContext,
        ctx: &mut RecursionContext<'_>,
        idx: usize,
        tile: char,
    )
        requires
            self.dictionary().wf(),
            gen_ok(old(gen_ctx), self.dictionary(), held(old(ctx))),
            walk_ok(old(ctx), old(gen_ctx), self.dictionary(), held(old(ctx))),
            shape_ok(old(ctx), old(gen_ctx)),
            path_ok(old(ctx), old(gen_ctx), self.dictionary().root_node()),
            fresh(old(ctx), old(gen_ctx)) ==> words_ok(old(gen_ctx), self.dictionary()),
            0 <= old(ctx).depth < BOARD_SIZE,
            old(ctx).buffer[old(ctx).depth as int] == EMPTY_TILE,
            idx < RACK_SIZE,
            old(ctx).rack.present(idx as int),
            is_tile(to_upper(tile)),
            tile_fits(old(ctx).rack.tiles[idx as int], tile),
        ensures
            gen_ok(final(gen_ctx), self.dictionary(), held(old(ctx))),
            fresh(old(ctx), old(gen_ctx)) ==> words_ok(final(gen_ctx), self.dictionary()),
            same_board(final(gen_ctx), old(gen_ctx)),
            keeps(old(gen_ctx), final(gen_ctx)),
            fresh(old(ctx), old(gen_ctx)) ==> new_moves_cover(old(gen_ctx), final(gen_ctx), old(ctx).anchor as int),
            new_moves_extend(old(gen_ctx), final(gen_ctx), current_move(old(ctx))),
            new_moves_drawn(old(gen_ctx), final(gen_ctx), old(ctx).rack.tiles, start_present(old(ctx))),
            restored(final(ctx), old(ctx)),
            completes_word(old(ctx), old(gen_ctx), self.dictionary(), tile) ==> has_move(
                final(gen_ctx),
                with_tile(old(ctx), tile),
            ),
            *final(final(ctx).rack) == *final(old(ctx).rack),
        decreases old(ctx).rack.len, phase(old(ctx)), room(old(ctx)), 1int,
    {
        let ghost r0 = held(old(ctx));
        let position = ctx.position_at_depth();
        if !self.is_crossword_valid(gen_ctx, tile, position, ctx.is_horizontal) {
            return;
        }
        if let Some(next_node) = ctx.node.get_child(tile) {
            proof {
                lemma_present_counted(*ctx.rack, idx as int);
            }
            let previous_node = ctx.node;
            let action = ExtendAction::PlaceFromRack(idx, tile);
            ctx.extend(&action, next_node);
            proof {
                lemma_walk_place(old(ctx), ctx, gen_ctx, self.dictionary(), r0, tile, idx as int);
                lemma_shape_place(old(ctx), old(gen_ctx), ctx, gen_ctx, tile);
                assert(current_move(ctx).subrange(0, old(ctx).current_move_len as int) =~= current_move(old(ctx)));
                lemma_path_place(old(ctx), old(gen_ctx), ctx, gen_ctx, self.dictionary().root_node(), tile);
            }
            proof {
                if completes_word(old(ctx), old(gen_ctx), self.dictionary(), tile) {
                    assert(at_word_end(ctx));
                    assert(current_move(ctx) =~= with_tile(old(ctx), tile));
                }
            }
            let ghost placed_move = current_move(ctx);
            if ctx.is_forwards {
                self.extend_forwards(gen_ctx, ctx);
            } else {
                self.extend_backwards(gen_ctx, ctx);
            }
            ctx.undo(&action, previous_node);
            proof {
                lemma_extend_shorter(old(gen_ctx), gen_ctx, current_move(old(ctx)), placed_move);
            }
            proof {
                let n = old(ctx).current_move_len as int;
                assert(old(ctx).current_tiles[n] == EMPTY_TILE);
                assert(ctx.buffer@ =~= old(ctx).buffer@);
                assert(ctx.current_tiles@ =~= old(ctx).current_tiles@);
                assert(ctx.current_positions@ =~= old(ctx).current_positions@);
                assert(ctx.current_slots@ =~= old(ctx).current_slots@);
            }
        }
    }

    /// Takes in the tile already on the next cell along the walk.
    pub fn follow_existing_tiles(
        &self,
        gen_ctx: &mut GeneratorContext,
        ctx: &mut RecursionContext<'_>,
    )
        requires
            self.dictionary().wf(),
            gen_ok(old(gen_ctx), self.dictionary(), held(old(ctx))),
            walk_ok(old(ctx), old(gen_ctx), self.dictionary(), held(old(ctx))),
            shape_ok(old(ctx), old(gen_ctx)),
            path_ok(old(ctx), old(gen_ctx), self.dictionary().root_node()),
            fresh(old(ctx), old(gen_ctx)) ==> words_ok(old(gen_ctx), self.dictionary()),
            0 <= old(ctx).depth < BOARD_SIZE,
            old(ctx).buffer[old(ctx).depth as int] != EMPTY_TILE,
            old(ctx).is_forwards ==> 0 <= old(ctx).depth && old(ctx).depth + 1 < BOARD_SIZE && old(
                ctx,
            ).buffer[old(ctx).depth + 1] != EMPTY_TILE,
            !old(ctx).is_forwards ==> 0 < old(ctx).depth < BOARD_SIZE && old(ctx).buffer[old(
                ctx,
            ).depth - 1] != EMPTY_TILE,
        ensures
            gen_ok(final(gen_ctx), self.dictionary(), held(old(ctx))),
            fresh(old(ctx), old(gen_ctx)) ==> words_ok(final(gen_ctx), self.dictionary()),
            same_board(final(gen_ctx), old(gen_ctx)),
            keeps(old(gen_ctx), final(gen_ctx)),
            fresh(old(ctx), old(gen_ctx)) ==> new_moves_cover(old(gen_ctx), final(gen_ctx), old(ctx).anchor as int),
            new_moves_extend(old(gen_ctx), final(gen_ctx), current_move(old(ctx))),
            new_moves_drawn(old(gen_ctx), final(gen_ctx), old(ctx).rack.tiles, start_present(old(ctx))),
            restored(final(ctx), old(ctx)),
            next_tile_ends_word(old(ctx)) ==> has_move(final(gen_ctx), current_move(old(ctx))),
            *final(final(ctx).rack) == *final(old(ctx).rack),
        decreases old(ctx).rack.len, phase(old(ctx)), room(old(ctx)), 2int,
    {
        let ghost r0 = held(old(ctx));
        let step: i32 = if ctx.is_forwards {
            1
        } else {
            -1
        };
        let tile = ctx.current_tile_with_mod(step);
        proof {
            assert(valid_cell(ctx.buffer[ctx.depth + step]));
        }
        if let Some(next_node) = ctx.node.get_child(tile) {
            let previous_node = ctx.node;
            let action = ExtendAction::TraverseExisting();
            ctx.extend(&action, next_node);
            proof {
                lemma_walk_transfer(old(ctx), old(gen_ctx), ctx, gen_ctx, self.dictionary(), r0);
                lemma_shape_step(old(ctx), old(gen_ctx), ctx, gen_ctx);
                assert(current_move(ctx) =~= current_move(old(ctx)));
                lemma_path_follow(old(ctx), old(gen_ctx), ctx, gen_ctx, self.dictionary().root_node());
            }
            proof {
                if next_tile_ends_word(old(ctx)) {
                    assert(at_word_end(ctx));
                    assert(current_move(ctx) =~= current_move(old(ctx)));
                }
            }
            if ctx.is_forwards {
                self.extend_forwards(gen_ctx, ctx);
            } else {
                self.extend_backwards(gen_ctx, ctx);
            }
            ctx.undo(&action, previous_node);
        }
    }

    /// Adds the move under construction to the moves found, unless an equal
    /// move is already there.
    pub fn record_move(&self, gen_ctx: &mut GeneratorContext, ctx: &RecursionContext)
        requires
            ctx.current_move_len <= RACK_SIZE,
            forall|k: int| 0 <= k < old(gen_ctx).moves@.len() ==> (#[trigger] old(gen_ctx).moves@[k]).wf(),
        ensures
            same_board(final(gen_ctx), old(gen_ctx)),
            keeps(old(gen_ctx), final(gen_ctx)),
            forall|k: int| 0 <= k < final(gen_ctx).moves@.len() ==> (#[trigger] final(gen_ctx).moves@[k]).wf(),
            recorded(old(gen_ctx), final(gen_ctx), current_move(ctx)),
            final(gen_ctx).moves@.len() > old(gen_ctx).moves@.len()
                ==> final(gen_ctx).moves@.last().slots_used() == current_slots_used(ctx),
    {
        let crossword_move = CrosswordMove::from_rack(
            ctx.current_tiles,
            ctx.current_positions,
            ctx.current_slots,
            ctx.current_move_len,
        );
        let ghost m = crossword_move.placements();
        proof {
            assert(m =~= current_move(ctx));
            assert(crossword_move.slots_used() =~= current_slots_used(ctx));
        }
        let n = gen_ctx.moves.len();
        let mut k: usize = 0;
        let mut found = false;
        while k < n
            invariant
                n == gen_ctx.moves@.len(),
                k <= n,
                crossword_move.wf(),
                m == crossword_move.placements(),
                !found ==> forall|j: int| 0 <= j < k ==> !same_pairs(gen_ctx.moves@[j].placements(), m),
                found ==> exists|j: int|
                    0 <= j < n && same_pairs(#[trigger] gen_ctx.moves@[j].placements(), m),
                forall|j: int| 0 <= j < gen_ctx.moves@.len() ==> (#[trigger] gen_ctx.moves@[j]).wf(),
                *gen_ctx == *old(gen_ctx),
            decreases n - k,
        {
            if gen_ctx.moves[k].same_placements(&crossword_move) {
                found = true;
                assert(same_pairs(gen_ctx.moves@[k as int].placements(), m));
            }
            k += 1;
        }
        if found {
            return;
        }
        gen_ctx.moves.push(crossword_move);
        proof {
            let moves = gen_ctx.moves@;
            assert(forall|k: int| 0 <= k < n ==> moves[k] == old(gen_ctx).moves@[k]);
            assert(moves.drop_last() =~= old(gen_ctx).moves@);
        }
    }

    /// Whether putting `placed_tile` at `board_pos` leaves a valid word across
    /// the walk's direction: none is formed, or the one formed is in the
    /// dictionary.
    pub fn is_crossword_valid(
        &self,
        gen_ctx: &GeneratorContext,
        placed_tile: char,
        board_pos: usize,
        is_horizontal: bool,
    ) -> (r: bool)
        requires
            self.dictionary().wf(),
            board_pos < TOTAL_SIZE,
            is_tile(to_upper(placed_tile)),
            forall|y: int, x: int|
                0 <= y < BOARD_SIZE && 0 <= x < BOARD_SIZE ==> valid_cell(
                    #[trigger] gen_ctx.hori_buffers[y][x],
                ) && gen_ctx.vert_buffers[x][y] == gen_ctx.hori_buffers[y][x],
        ensures
            r == crossword_ok(
                self.dictionary(),
                cross_line(gen_ctx, board_pos as int, is_horizontal),
                cross_index(board_pos as int, is_horizontal),
                placed_tile,
            ),
    {
        let line_idx = if is_horizontal {
            board_pos % BOARD_SIZE
        } else {
            board_pos / BOARD_SIZE
        };
        let idx_in_line = if is_horizontal {
            board_pos / BOARD_SIZE
        } else {
            board_pos % BOARD_SIZE
        };
        let crossline = self.get_cross_line(gen_ctx, line_idx, is_horizontal);
        let ghost line = crossline@;
        proof {
            assert(line == cross_line(gen_ctx, board_pos as int, is_horizontal));
            assert forall|k: int| 0 <= k < BOARD_SIZE implies valid_cell(#[trigger] line[k]) by {
                if is_horizontal {
                    assert(valid_cell(gen_ctx.hori_buffers[k][line_idx as int]));
                } else {
                    assert(valid_cell(gen_ctx.hori_buffers[line_idx as int][k]));
                }
            }
            lemma_run_start(line, idx_in_line as int);
            lemma_run_end(line, idx_in_line as int);
        }
        let mut start = idx_in_line;
        let mut end = idx_in_line;
        while start > 0 && crossline[start - 1] != EMPTY_TILE
            invariant
                line == crossline@,
                start <= idx_in_line < BOARD_SIZE,
                run_start(line, start as int) == run_start(line, idx_in_line as int),
            decreases start,
        {
            start -= 1;
        }
        while end + 1 < BOARD_SIZE && crossline[end + 1] != EMPTY_TILE
            invariant
                line == crossline@,
                idx_in_line <= end < BOARD_SIZE,
                run_end(line, end as int) == run_end(line, idx_in_line as int),
            decreases BOARD_SIZE - end,
        {
            end += 1;
        }
        let length = end - start + 1;
        if length == 1 {
            return true;
        }
        let mut word: Vec<char> = Vec::new();
        let mut i: usize = start;
        while i <= end
            invariant
                line == crossline@,
                start <= idx_in_line <= end < BOARD_SIZE,
                start <= i <= end + 1,
                start == run_start(line, idx_in_line as int),
                end == run_end(line, idx_in_line as int),
                word@ =~= cross_word(line, idx_in_line as int, placed_tile).subrange(0, i - start),
            decreases end + 1 - i,
        {
            let tile = if i == idx_in_line {
                placed_tile
            } else {
                crossline[i]
            };
            word.push(tile);
            i += 1;
            proof {
                let cw = cross_word(line, idx_in_line as int, placed_tile);
                assert(word@ =~= cw.subrange(0, i - start));
            }
        }
        proof {
            let cw = cross_word(line, idx_in_line as int, placed_tile);
            assert(word@ =~= cw);
            assert forall|j: int| 0 <= j < word@.len() implies is_tile(to_upper(#[trigger] word@[j])) by {
                if start + j != idx_in_line {
                    assert(line[start + j] != EMPTY_TILE);
                    assert(valid_cell(line[start + j]));
                }
            }
        }
        self.gaddag.is_word_chars(word.as_slice())
    }

    /// The line across the walk's line through cell `depth`: a column for a
    /// horizontal walk, a row for a vertical one.
    pub fn get_cross_line<'b>(
        &self,
        gen_ctx: &'b GeneratorContext,
        depth: usize,
        is_horizontal: bool,
    ) -> (r: &'b [char; BOARD_SIZE])
        requires
            depth < BOARD_SIZE,
        ensures
            *r == if is_horizontal {
                gen_ctx.vert_buffers[depth as int]
            } else {
                gen_ctx.hori_buffers[depth as int]
            },
    {
        if is_horizontal {
            &gen_ctx.vert_buffers[depth]
        } else {
            &gen_ctx.hori_buffers[depth]
        }
    }
}

/// The move under construction, as placements.
pub open spec fn current_move(ctx: &RecursionContext) -> Seq<(char, BoardPosition)> {
    Seq::new(
        ctx.current_move_len as nat,
        |i: int| (ctx.current_tiles[i], ctx.current_positions[i]),
    )
}

/// The slots of the move under construction.
pub open spec fn current_slots_used(ctx: &RecursionContext) -> Seq<usize> {
    Seq::new(ctx.current_move_len as nat, |i: int| ctx.current_slots[i])
}

/// `b` is `a` with `m` added, unless a move with the same placements was
/// already there.
pub open spec fn recorded(a: &GeneratorContext, b: &GeneratorContext, m: Seq<(char, BoardPosition)>) -> bool {
    let found = exists|j: int|
        0 <= j < a.moves@.len() && same_pairs(#[trigger] a.moves@[j].placements(), m);
    &&& found ==> b.moves@ == a.moves@
    &&& !found ==> b.moves@.len() == a.moves@.len() + 1 && b.moves@.drop_last() == a.moves@
        && b.moves@.last().placements() == m
}

/// After recording a move, a move with its placements is found.
proof fn lemma_recorded_found(a: &GeneratorContext, b: &GeneratorContext, m: Seq<(char, BoardPosition)>)
    requires
        recorded(a, b, m),
    ensures
        has_move(b, m),
{
    let found = exists|j: int|
        0 <= j < a.moves@.len() && same_pairs(#[trigger] a.moves@[j].placements(), m);
    if !found {
        let n = a.moves@.len() as int;
        assert(b.moves@[n] == b.moves@.last());
        assert forall|i: int| 0 <= i < m.len() implies #[trigger] m.contains(m[i]) by {
        }
        assert(same_pairs(b.moves@[n].placements(), m));
    }
}

/// Recording the move where a walk ends on a word keeps the generator's
/// invariants.
proof fn lemma_record_invariants(
    dict: Gaddag,
    before: &GeneratorContext,
    after: &GeneratorContext,
    ctx: &RecursionContext,
)
    requires
        dict.wf(),
        gen_ok(before, dict, held(ctx)),
        walk_ok(ctx, before, dict, held(ctx)),
        shape_ok(ctx, before),
        path_ok(ctx, before, dict.root_node()),
        fresh(ctx, before) ==> words_ok(before, dict),
        ctx.is_forwards,
        0 <= ctx.depth < BOARD_SIZE,
        ctx.buffer[ctx.depth as int] != EMPTY_TILE,
        ctx.depth + 1 == BOARD_SIZE || ctx.buffer[ctx.depth + 1] == EMPTY_TILE,
        ctx.node.word_flag(),
        ctx.current_move_len > 0,
        same_board(after, before),
        forall|k: int| 0 <= k < after.moves@.len() ==> (#[trigger] after.moves@[k]).wf(),
        recorded(before, after, current_move(ctx)),
        after.moves@.len() > before.moves@.len() ==> after.moves@.last().slots_used()
            == current_slots_used(ctx),
    ensures
        new_moves_drawn(before, after, rack_tiles(ctx), start_present(ctx)),
        gen_ok(after, dict, held(ctx)),
        fresh(ctx, before) ==> words_ok(after, dict),
        fresh(ctx, before) ==> new_moves_cover(before, after, ctx.anchor as int),
        new_moves_extend(before, after, current_move(ctx)),
{
    let r0 = held(ctx);
    let m = current_move(ctx);
    let n = before.moves@.len() as int;
    let found = exists|j: int|
        0 <= j < before.moves@.len() && same_pairs(#[trigger] before.moves@[j].placements(), m);
    if found {
        lemma_gen_frame(before, after, dict, r0);
        if fresh(ctx, before) {
            lemma_words_frame(before, after, dict);
        }
        return;
    }
    assert forall|i: int| 0 <= i < m.len() implies {
        &&& (#[trigger] m[i]).1 < TOTAL_SIZE
        &&& snapshot(before)[m[i].1 as int] == EMPTY_TILE
        &&& is_tile(to_upper(m[i].0))
    } by {
        assert(placed_at(before, ctx, i));
        let d = choose|d: int|
            0 <= d < BOARD_SIZE && ctx.current_positions[i] == line_pos(
                ctx.anchor as int,
                ctx.is_horizontal,
                d,
            ) && ctx.buffer[d] != EMPTY_TILE && line_cell(before, ctx, d) == EMPTY_TILE;
    }
    assert(fits(m, snapshot(before), r0));
    if fresh(ctx, before) {
        let a = ctx.anchor as int;
        let x = anchor_index(ctx);
        assert(line_pos(a, ctx.is_horizontal, x) == a) by {
            assert(a == (a / BOARD_SIZE as int) * BOARD_SIZE as int + a % BOARD_SIZE as int);
        }
        assert(placed_cell(before, ctx, x));
        let j = choose|j: int|
            0 <= j < ctx.current_move_len && ctx.current_positions[j] == line_pos(
                a,
                ctx.is_horizontal,
                x,
            );
        assert(m[j].1 == a);
        assert(covers(m, a));
    }
    assert forall|i: int| 0 <= i < m.len() implies crossword_ok(
        dict,
        cross_line(before, (#[trigger] m[i]).1 as int, ctx.is_horizontal),
        cross_index(m[i].1 as int, ctx.is_horizontal),
        m[i].0,
    ) by {
        assert(crosses_at(dict, before, ctx, i));
    }
    assert(move_crosses(dict, before, m, ctx.is_horizontal));
    lemma_record_connected(ctx, before);
    if fresh(ctx, before) {
        lemma_record_word(ctx, before, dict);
    }
    let moves = after.moves@;
    assert(moves[n].placements().subrange(0, m.len() as int) =~= m);
    assert(moves[n] == moves.last());
    assert(drawn_from(moves[n], ctx.rack.tiles, start_present(ctx))) by {
        let sl = moves[n].slots_used();
        assert forall|k: int| 0 <= k < sl.len() implies (#[trigger] sl[k]) < RACK_SIZE && start_present(ctx)(sl[k] as int) && tile_fits(
            ctx.rack.tiles[sl[k] as int],
            moves[n].placements()[k].0,
        ) by {
            assert(sl[k] == ctx.current_slots[k]);
            assert(moves[n].placements()[k] == m[k]);
        }
    }
    assert(snapshot(after) =~= snapshot(before));
    assert forall|k: int| 0 <= k < n implies moves[k] == before.moves@[k] by {
        assert(moves.drop_last()[k] == moves[k]);
    }
    assert(moves[n] == moves.last());
    if fresh(ctx, before) {
        assert forall|k: int| 0 <= k < moves.len() implies legal_one_way(
            dict,
            after,
            (#[trigger] moves[k]).placements(),
        ) by {
            let mk = moves[k].placements();
            if k < n {
                assert(legal_one_way(dict, before, mk));
                if legal_along(dict, before, mk, true) {
                    lemma_crosses_frame_along(dict, before, after, mk, true);
                } else {
                    lemma_crosses_frame_along(dict, before, after, mk, false);
                }
            } else {
                lemma_crosses_frame_along(dict, before, after, m, ctx.is_horizontal);
            }
        }
    }
    assert forall|k: int| 0 <= k < moves.len() implies crosses_one_way(
        dict,
        after,
        (#[trigger] moves[k]).placements(),
    ) by {
        if k < n {
            assert(crosses_one_way(dict, before, before.moves@[k].placements()));
            lemma_crosses_frame(dict, before, after, moves[k].placements());
        } else {
            lemma_crosses_frame_along(dict, before, after, m, ctx.is_horizontal);
        }
    }
    assert forall|k: int| 0 <= k < moves.len() implies fits(
        (#[trigger] moves[k]).placements(),
        snapshot(after),
        r0,
    ) && touches_or_centre(snapshot(after), moves[k].placements()) by {
        if k < n {
            assert(fits(before.moves@[k].placements(), snapshot(before), r0));
        }
    }
    assert forall|i: int, j: int| 0 <= i < j < moves.len() implies !same_pairs(
        moves[i].placements(),
        moves[j].placements(),
    ) by {
        if j < n {
            assert(!same_pairs(before.moves@[i].placements(), before.moves@[j].placements()));
        }
    }
}

} // verus!
