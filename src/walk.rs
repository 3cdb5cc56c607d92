use vstd::prelude::*;

use crate::board::valid_cell;
use crate::constants::{
    BOARD_SIZE, BoardPosition, EMPTY_TILE, RACK_SIZE, TOTAL_SIZE, is_tile,
    to_upper,
};
use crate::crossword_move::{CrosswordMove, same_pairs};
use crate::gaddag::Gaddag;
use crate::move_context::{GeneratorContext, RecursionContext, line_pos};
use crate::walk_shape::touches_or_centre;

verus! {

// What the move generator's walk keeps true: the moves found so far, the
// state of the walk along its line, and the words it checks across that line.

/// The board as the row snapshots of a generator context hold it.
pub open spec fn snapshot(gen: &GeneratorContext) -> Seq<char> {
    Seq::new(TOTAL_SIZE as nat, |p: int| gen.cell(p))
}

/// A move of one to `tiles_on_rack` tiles, on distinct cells that are empty on
/// the board, each tile a letter or the blank.
pub open spec fn fits(m: Seq<(char, BoardPosition)>, board: Seq<char>, tiles_on_rack: int) -> bool {
    &&& 1 <= m.len() <= tiles_on_rack
    &&& forall|i: int|
        0 <= i < m.len() ==> {
            &&& (#[trigger] m[i]).1 < TOTAL_SIZE
            &&& board[m[i].1 as int] == EMPTY_TILE
            &&& is_tile(to_upper(m[i].0))
        }
    &&& forall|i: int, j: int| 0 <= i < j < m.len() ==> m[i].1 != m[j].1
}

/// No two moves place the same `(tile, position)` pairs.
pub open spec fn distinct_moves(moves: Seq<CrosswordMove>) -> bool {
    forall|i: int, j: int|
        0 <= i < j < moves.len() ==> !same_pairs(moves[i].placements(), moves[j].placements())
}

/// The snapshots agree with each other and hold valid cells; the moves found
/// so far fit the board and are pairwise distinct.
pub open spec fn gen_ok(gen: &GeneratorContext, dictionary: Gaddag, tiles_on_rack: int) -> bool {
    &&& forall|k: int|
        0 <= k < gen.moves@.len() ==> (#[trigger] gen.moves@[k]).wf() && fits(
            gen.moves@[k].placements(),
            snapshot(gen),
            tiles_on_rack,
        )
    &&& forall|k: int|
        0 <= k < gen.moves@.len() ==> touches_or_centre(snapshot(gen), (#[trigger] gen.moves@[k]).placements())
    &&& forall|k: int|
        0 <= k < gen.moves@.len() ==> crosses_one_way(
            dictionary,
            gen,
            (#[trigger] gen.moves@[k]).placements(),
        )
    &&& distinct_moves(gen.moves@)
    &&& forall|y: int, x: int|
        0 <= y < BOARD_SIZE && 0 <= x < BOARD_SIZE ==> valid_cell(#[trigger] gen.hori_buffers[y][x])
            && gen.vert_buffers[x][y] == gen.hori_buffers[y][x]
}

/// Every move of `a` is still in `b`, at the same place.
pub open spec fn keeps(a: &GeneratorContext, b: &GeneratorContext) -> bool {
    &&& a.moves@.len() <= b.moves@.len()
    &&& forall|i: int| 0 <= i < a.moves@.len() ==> #[trigger] b.moves@[i] == a.moves@[i]
}

/// The move places a tile at board index `p`.
pub open spec fn covers(m: Seq<(char, BoardPosition)>, p: int) -> bool {
    exists|j: int| 0 <= j < m.len() && #[trigger] m[j].1 == p
}

/// A tile played from a rack slot holding `rack_tile`: that tile, or any
/// letter when the slot holds the blank.
pub open spec fn tile_fits(rack_tile: char, played: char) -> bool {
    played == rack_tile || (rack_tile == crate::constants::BLANK && crate::constants::is_letter(played))
}

/// The move's tiles come from distinct slots of a rack with these tiles, each
/// slot present by `present`, each tile the slot's tile or a letter for a blank.
pub open spec fn drawn_from(m: CrosswordMove, tiles: [char; RACK_SIZE], present: spec_fn(int) -> bool) -> bool {
    let pl = m.placements();
    let sl = m.slots_used();
    &&& sl.len() == pl.len()
    &&& forall|k: int|
        0 <= k < sl.len() ==> (#[trigger] sl[k]) < RACK_SIZE && present(sl[k] as int) && tile_fits(
            tiles[sl[k] as int],
            pl[k].0,
        )
    &&& forall|i: int, j: int| 0 <= i < j < sl.len() ==> sl[i] != sl[j]
}

/// The slots present on the rack when the walk started: those present now
/// and those the move under construction took.
pub open spec fn start_present(ctx: &RecursionContext) -> spec_fn(int) -> bool {
    |s: int| ctx.rack.present(s) || exists|k: int| 0 <= k < ctx.current_move_len && ctx.current_slots[k] == s
}

/// The slots present on a rack.
pub open spec fn present_on(r: crate::rack::Rack) -> spec_fn(int) -> bool {
    |s: int| r.present(s)
}

/// The tiles in the walk's rack slots.
pub open spec fn rack_tiles(ctx: &RecursionContext) -> [char; RACK_SIZE] {
    ctx.rack.tiles
}

/// Every move that `b` has beyond those of `a` is drawn from the rack.
pub open spec fn new_moves_drawn(
    a: &GeneratorContext,
    b: &GeneratorContext,
    tiles: [char; RACK_SIZE],
    present: spec_fn(int) -> bool,
) -> bool {
    forall|i: int| a.moves@.len() <= i < b.moves@.len() ==> drawn_from(#[trigger] b.moves@[i], tiles, present)
}

/// `m` starts with the placements `p`, in the same order.
pub open spec fn starts_with(m: Seq<(char, BoardPosition)>, p: Seq<(char, BoardPosition)>) -> bool {
    p.len() <= m.len() && m.subrange(0, p.len() as int) == p
}

/// Every move that `b` has beyond those of `a` starts with `p`.
pub open spec fn new_moves_extend(a: &GeneratorContext, b: &GeneratorContext, p: Seq<(char, BoardPosition)>) -> bool {
    forall|i: int| a.moves@.len() <= i < b.moves@.len() ==> starts_with(#[trigger] b.moves@[i].placements(), p)
}

/// Moves that start with `q` start with any prefix of `q`.
pub proof fn lemma_extend_shorter(
    a: &GeneratorContext,
    b: &GeneratorContext,
    p: Seq<(char, BoardPosition)>,
    q: Seq<(char, BoardPosition)>,
)
    requires
        new_moves_extend(a, b, q),
        starts_with(q, p),
    ensures
        new_moves_extend(a, b, p),
{
    assert forall|i: int| a.moves@.len() <= i < b.moves@.len() implies starts_with(#[trigger] b.moves@[i].placements(), p) by {
        let m = b.moves@[i].placements();
        assert(m.subrange(0, p.len() as int) =~= m.subrange(0, q.len() as int).subrange(0, p.len() as int));
    }
}

/// Every move that `b` has beyond those of `a` covers `p`.
pub open spec fn new_moves_cover(a: &GeneratorContext, b: &GeneratorContext, p: int) -> bool {
    forall|i: int| a.moves@.len() <= i < b.moves@.len() ==> covers(#[trigger] b.moves@[i].placements(), p)
}

/// A move with the same placements as `m` has been found.
pub open spec fn has_move(gen: &GeneratorContext, m: Seq<(char, BoardPosition)>) -> bool {
    exists|j: int| 0 <= j < gen.moves@.len() && same_pairs(#[trigger] gen.moves@[j].placements(), m)
}

/// Moves kept from `a` to `b` are still found in `b`.
pub proof fn lemma_keeps_found(a: &GeneratorContext, b: &GeneratorContext, m: Seq<(char, BoardPosition)>)
    requires
        keeps(a, b),
        has_move(a, m),
    ensures
        has_move(b, m),
{
    let j = choose|j: int| 0 <= j < a.moves@.len() && same_pairs(#[trigger] a.moves@[j].placements(), m);
    assert(b.moves@[j] == a.moves@[j]);
}

/// The walk stands, going forwards, on the last tile of a word of the
/// dictionary, with at least one tile placed.
pub open spec fn at_word_end(ctx: &RecursionContext) -> bool {
    &&& ctx.is_forwards
    &&& 0 <= ctx.depth < BOARD_SIZE
    &&& ctx.buffer[ctx.depth as int] != EMPTY_TILE
    &&& ctx.depth + 1 == BOARD_SIZE || ctx.buffer[ctx.depth + 1] == EMPTY_TILE
    &&& ctx.node.word_flag()
    &&& ctx.current_move_len > 0
}

/// Putting `tile` on the current empty cell, walking forwards, ends a word
/// there: the cell after it is empty or off the line, the word across is
/// valid, and the trie's edge for `tile` leads to a word node.
pub open spec fn completes_word(
    ctx: &RecursionContext,
    gen: &GeneratorContext,
    dictionary: Gaddag,
    tile: char,
) -> bool {
    let p = line_pos(ctx.anchor as int, ctx.is_horizontal, ctx.depth as int);
    &&& ctx.is_forwards
    &&& ctx.depth + 1 == BOARD_SIZE || ctx.buffer[ctx.depth + 1] == EMPTY_TILE
    &&& crossword_ok(dictionary, cross_line(gen, p, ctx.is_horizontal), cross_index(p, ctx.is_horizontal), tile)
    &&& ctx.node.child(crate::gaddag::edge(tile)) matches Some(c) && c.word_flag()
}

/// The move under construction with `tile` added at the current cell.
pub open spec fn with_tile(ctx: &RecursionContext, tile: char) -> Seq<(char, BoardPosition)> {
    Seq::new(
        ctx.current_move_len as nat,
        |i: int| (ctx.current_tiles[i], ctx.current_positions[i]),
    ).push((tile, line_pos(ctx.anchor as int, ctx.is_horizontal, ctx.depth as int) as u8))
}

/// The `i`-th letter of the alphabet.
pub open spec fn letter(i: int) -> char {
    ((65 + i) as u8) as char
}

/// Walking forwards, taking in the tile on the next cell ends a word there.
pub open spec fn next_tile_ends_word(ctx: &RecursionContext) -> bool {
    let d = ctx.depth + 1;
    &&& ctx.is_forwards
    &&& 0 <= ctx.depth && d < BOARD_SIZE
    &&& ctx.buffer[d] != EMPTY_TILE
    &&& d + 1 == BOARD_SIZE || ctx.buffer[d + 1] == EMPTY_TILE
    &&& ctx.node.child(crate::gaddag::edge(ctx.buffer[d])) matches Some(c) && c.word_flag()
    &&& ctx.current_move_len > 0
}

/// Walking backwards, the part before the anchor is complete at the current
/// cell, and crossing the pivot there ends a word at the anchor.
pub open spec fn pivot_ends_word(ctx: &RecursionContext, gen: &GeneratorContext, a: int) -> bool {
    let d = ctx.depth as int;
    &&& !ctx.is_forwards
    &&& 0 <= d < BOARD_SIZE
    &&& !gen.explored_anchors[line_pos(ctx.anchor as int, ctx.is_horizontal, d)]
    &&& ctx.buffer[d] != EMPTY_TILE
    &&& d == 0 || ctx.buffer[d - 1] == EMPTY_TILE
    &&& 0 <= a < BOARD_SIZE
    &&& a + 1 == BOARD_SIZE || ctx.buffer[a + 1] == EMPTY_TILE
    &&& ctx.node.child(crate::gaddag::edge(crate::constants::PIVOT)) matches Some(c) && c.word_flag()
    &&& ctx.current_move_len > 0
}

/// If `tile` completes a word at the walk's current cell, `found` has that move.
pub open spec fn tried(
    ctx: &RecursionContext,
    gen: &GeneratorContext,
    dictionary: Gaddag,
    found: &GeneratorContext,
    tile: char,
) -> bool {
    completes_word(ctx, gen, dictionary, tile) ==> has_move(found, with_tile(ctx, tile))
}

/// The tile of rack slot `idx` was tried at the walk's current cell; a blank
/// as each of the 26 letters.
pub open spec fn slot_tried(
    ctx: &RecursionContext,
    gen: &GeneratorContext,
    dictionary: Gaddag,
    found: &GeneratorContext,
    idx: int,
) -> bool {
    let t = ctx.rack.tiles[idx];
    if t == crate::constants::BLANK {
        forall|l: int| 0 <= l < 26 ==> tried(ctx, gen, dictionary, found, #[trigger] letter(l))
    } else {
        tried(ctx, gen, dictionary, found, t)
    }
}

/// What was tried stays tried as more moves are found.
pub proof fn lemma_slot_kept(
    ctx: &RecursionContext,
    gen: &GeneratorContext,
    dictionary: Gaddag,
    a: &GeneratorContext,
    b: &GeneratorContext,
    idx: int,
)
    requires
        keeps(a, b),
        slot_tried(ctx, gen, dictionary, a, idx),
    ensures
        slot_tried(ctx, gen, dictionary, b, idx),
{
    let t = ctx.rack.tiles[idx];
    if t == crate::constants::BLANK {
        assert forall|l: int| 0 <= l < 26 implies tried(ctx, gen, dictionary, b, #[trigger] letter(l)) by {
            if completes_word(ctx, gen, dictionary, letter(l)) {
                lemma_keeps_found(a, b, with_tile(ctx, letter(l)));
            }
        }
    } else {
        if completes_word(ctx, gen, dictionary, t) {
            lemma_keeps_found(a, b, with_tile(ctx, t));
        }
    }
}

/// The parts of a generator context that the walk only reads.
pub open spec fn same_board(a: &GeneratorContext, b: &GeneratorContext) -> bool {
    &&& a.explored_anchors == b.explored_anchors
    &&& a.hori_buffers == b.hori_buffers
    &&& a.vert_buffers == b.vert_buffers
}

/// The board cell under cell `d` of the walk's line.
pub open spec fn line_cell(gen: &GeneratorContext, ctx: &RecursionContext, d: int) -> char {
    gen.cell(line_pos(ctx.anchor as int, ctx.is_horizontal, d))
}

/// The `k`-th placement of the move under construction lies on a cell of the
/// line that holds its tile now and was empty on the board.
pub open spec fn placed_at(gen: &GeneratorContext, ctx: &RecursionContext, k: int) -> bool {
    &&& is_tile(to_upper(ctx.current_tiles[k]))
    &&& exists|d: int|
        0 <= d < BOARD_SIZE && ctx.current_positions[k] == line_pos(
            ctx.anchor as int,
            ctx.is_horizontal,
            d,
        ) && ctx.buffer[d] != EMPTY_TILE && line_cell(gen, ctx, d) == EMPTY_TILE && ctx.buffer[d]
            == ctx.current_tiles[k]
}

/// The `k`-th placement of the move under construction leaves a valid word
/// across the walk's line.
pub open spec fn crosses_at(dictionary: Gaddag, gen: &GeneratorContext, ctx: &RecursionContext, k: int) -> bool {
    let p = ctx.current_positions[k] as int;
    crossword_ok(
        dictionary,
        cross_line(gen, p, ctx.is_horizontal),
        cross_index(p, ctx.is_horizontal),
        ctx.current_tiles[k],
    )
}

/// Each placement of a move made along rows (`h`) or columns leaves a valid
/// word across, as the snapshots hold the board.
pub open spec fn move_crosses(dictionary: Gaddag, gen: &GeneratorContext, m: Seq<(char, BoardPosition)>, h: bool) -> bool {
    forall|i: int|
        0 <= i < m.len() ==> crossword_ok(
            dictionary,
            cross_line(gen, (#[trigger] m[i]).1 as int, h),
            cross_index(m[i].1 as int, h),
            m[i].0,
        )
}

/// The move was made along rows or along columns, and leaves valid words
/// across.
pub open spec fn crosses_one_way(dictionary: Gaddag, gen: &GeneratorContext, m: Seq<(char, BoardPosition)>) -> bool {
    move_crosses(dictionary, gen, m, true) || move_crosses(dictionary, gen, m, false)
}

/// The line across a move made along rows (`h`) or columns, through `pos`.
pub open spec fn board_line_across(board: Seq<char>, pos: int, is_horizontal: bool) -> Seq<char> {
    if is_horizontal {
        Seq::new(BOARD_SIZE as nat, |i: int| board[i * BOARD_SIZE as int + pos % BOARD_SIZE as int])
    } else {
        Seq::new(BOARD_SIZE as nat, |i: int| board[(pos / BOARD_SIZE as int) * BOARD_SIZE as int + i])
    }
}

/// Each placement of a move made along rows (`h`) or columns leaves, on the
/// board, no word across or one of the dictionary.
pub open spec fn board_crosses(dictionary: Gaddag, board: Seq<char>, m: Seq<(char, BoardPosition)>, h: bool) -> bool {
    forall|i: int|
        0 <= i < m.len() ==> crossword_ok(
            dictionary,
            board_line_across(board, (#[trigger] m[i]).1 as int, h),
            cross_index(m[i].1 as int, h),
            m[i].0,
        )
}

/// The move was made along rows or along columns, and leaves on the board
/// valid words across.
pub open spec fn crosses_on_board(dictionary: Gaddag, board: Seq<char>, m: Seq<(char, BoardPosition)>) -> bool {
    board_crosses(dictionary, board, m, true) || board_crosses(dictionary, board, m, false)
}

/// The state of a walk that started with `tiles_on_rack` tiles.
pub open spec fn walk_ok(
    ctx: &RecursionContext,
    gen: &GeneratorContext,
    dictionary: Gaddag,
    tiles_on_rack: int,
) -> bool {
    &&& ctx.anchor < TOTAL_SIZE
    &&& ctx.node.wf()
    &&& ctx.rack.wf()
    &&& tiles_on_rack <= RACK_SIZE
    &&& ctx.current_move_len + ctx.rack.len == tiles_on_rack
    &&& if ctx.is_forwards {
        0 <= ctx.depth <= BOARD_SIZE
    } else {
        -1 <= ctx.depth < BOARD_SIZE
    }
    &&& forall|k: int|
        ctx.current_move_len <= k < RACK_SIZE ==> ctx.current_tiles[k] == EMPTY_TILE
            && ctx.current_positions[k] == 0
    &&& forall|d: int|
        0 <= d < BOARD_SIZE ==> valid_cell(#[trigger] ctx.buffer[d]) && (ctx.buffer[d]
            == EMPTY_TILE ==> line_cell(gen, ctx, d) == EMPTY_TILE) && (line_cell(gen, ctx, d)
            != EMPTY_TILE ==> ctx.buffer[d] == line_cell(gen, ctx, d))
    &&& forall|k: int| 0 <= k < ctx.current_move_len ==> #[trigger] placed_at(gen, ctx, k)
    &&& forall|k: int| 0 <= k < ctx.current_move_len ==> #[trigger] crosses_at(dictionary, gen, ctx, k)
    &&& forall|i: int, j: int|
        0 <= i < j < ctx.current_move_len ==> ctx.current_positions[i] != ctx.current_positions[j]
    &&& forall|k: int| ctx.current_move_len <= k < RACK_SIZE ==> ctx.current_slots[k] == 0
    &&& forall|k: int|
        0 <= k < ctx.current_move_len ==> (#[trigger] ctx.current_slots[k]) < RACK_SIZE
            && !ctx.rack.present(ctx.current_slots[k] as int) && tile_fits(
            ctx.rack.tiles[ctx.current_slots[k] as int],
            ctx.current_tiles[k],
        )
    &&& forall|i: int, j: int|
        0 <= i < j < ctx.current_move_len ==> ctx.current_slots[i] != ctx.current_slots[j]
}

/// Tiles the walk started with: those placed plus those left on the rack.
pub open spec fn held(ctx: &RecursionContext) -> int {
    ctx.current_move_len + ctx.rack.len
}

/// The walk is back where it was.
pub open spec fn restored(a: &RecursionContext, b: &RecursionContext) -> bool {
    &&& a.anchor == b.anchor
    &&& a.is_horizontal == b.is_horizontal
    &&& a.is_forwards == b.is_forwards
    &&& a.depth == b.depth
    &&& *a.node == *b.node
    &&& *a.rack == *b.rack
    &&& a.buffer@ == b.buffer@
    &&& a.current_move_len == b.current_move_len
    &&& a.current_tiles@ == b.current_tiles@
    &&& a.current_positions@ == b.current_positions@
    &&& a.current_slots@ == b.current_slots@
}

/// First cell of the run of occupied cells that ends just before `i`.
pub open spec fn run_start(line: Seq<char>, i: int) -> int
    decreases i,
{
    if 0 < i <= line.len() && line[i - 1] != EMPTY_TILE {
        run_start(line, i - 1)
    } else {
        i
    }
}

/// Last cell of the run of occupied cells that starts just after `i`.
pub open spec fn run_end(line: Seq<char>, i: int) -> int
    decreases line.len() - i,
{
    if 0 <= i && i + 1 < line.len() && line[i + 1] != EMPTY_TILE {
        run_end(line, i + 1)
    } else {
        i
    }
}

/// The word across cell `i` of `line` once `tile` is put there.
pub open spec fn cross_word(line: Seq<char>, i: int, tile: char) -> Seq<char> {
    let start = run_start(line, i);
    line.subrange(start, run_end(line, i) + 1).update(i - start, tile)
}

/// Putting `tile` on cell `i` of `line` makes no word across, or a word of
/// the dictionary.
pub open spec fn crossword_ok(dictionary: Gaddag, line: Seq<char>, i: int, tile: char) -> bool {
    run_start(line, i) == run_end(line, i) || dictionary.holds_word(cross_word(line, i, tile))
}

/// The line across a walk through board index `pos`, and the place of `pos` on it.
pub open spec fn cross_line(gen: &GeneratorContext, pos: int, is_horizontal: bool) -> Seq<char> {
    if is_horizontal {
        gen.vert_buffers[pos % BOARD_SIZE as int]@
    } else {
        gen.hori_buffers[pos / BOARD_SIZE as int]@
    }
}

pub open spec fn cross_index(pos: int, is_horizontal: bool) -> int {
    if is_horizontal {
        pos / BOARD_SIZE as int
    } else {
        pos % BOARD_SIZE as int
    }
}

pub proof fn lemma_run_start(line: Seq<char>, i: int)
    requires
        0 <= i <= line.len(),
    ensures
        0 <= run_start(line, i) <= i,
        forall|k: int| run_start(line, i) <= k < i ==> line[k] != EMPTY_TILE,
        run_start(line, i) == 0 || line[run_start(line, i) - 1] == EMPTY_TILE,
    decreases i,
{
    if 0 < i && line[i - 1] != EMPTY_TILE {
        lemma_run_start(line, i - 1);
    }
}

pub(crate) proof fn lemma_run_end(line: Seq<char>, i: int)
    requires
        0 <= i < line.len(),
    ensures
        i <= run_end(line, i) < line.len(),
        forall|k: int| i < k <= run_end(line, i) ==> line[k] != EMPTY_TILE,
        run_end(line, i) + 1 == line.len() || line[run_end(line, i) + 1] == EMPTY_TILE,
    decreases line.len() - i,
{
    if i + 1 < line.len() && line[i + 1] != EMPTY_TILE {
        lemma_run_end(line, i + 1);
    }
}

/// Whether a move crosses validly along one direction depends on the board
/// snapshots only.
pub(crate) proof fn lemma_crosses_frame_along(
    dict: Gaddag,
    a: &GeneratorContext,
    b: &GeneratorContext,
    m: Seq<(char, BoardPosition)>,
    h: bool,
)
    requires
        move_crosses(dict, a, m, h),
        a.hori_buffers == b.hori_buffers,
        a.vert_buffers == b.vert_buffers,
    ensures
        move_crosses(dict, b, m, h),
{
    assert forall|i: int| 0 <= i < m.len() implies crossword_ok(
        dict,
        cross_line(b, (#[trigger] m[i]).1 as int, h),
        cross_index(m[i].1 as int, h),
        m[i].0,
    ) by {
        assert(cross_line(b, m[i].1 as int, h) == cross_line(a, m[i].1 as int, h));
    }
}

/// Whether a move crosses validly depends on the board snapshots only.
pub(crate) proof fn lemma_crosses_frame(dict: Gaddag, a: &GeneratorContext, b: &GeneratorContext, m: Seq<(char, BoardPosition)>)
    requires
        crosses_one_way(dict, a, m),
        a.hori_buffers == b.hori_buffers,
        a.vert_buffers == b.vert_buffers,
    ensures
        crosses_one_way(dict, b, m),
{
    if move_crosses(dict, a, m, true) {
        lemma_crosses_frame_along(dict, a, b, m, true);
    } else {
        lemma_crosses_frame_along(dict, a, b, m, false);
    }
}

/// The invariant of a generator context holds of another with the same moves
/// and snapshots.
pub(crate) proof fn lemma_gen_frame(a: &GeneratorContext, b: &GeneratorContext, dict: Gaddag, r0: int)
    requires
        gen_ok(a, dict, r0),
        a.moves@ == b.moves@,
        a.hori_buffers == b.hori_buffers,
        a.vert_buffers == b.vert_buffers,
    ensures
        gen_ok(b, dict, r0),
{
    assert(snapshot(a) =~= snapshot(b));
    assert forall|k: int| 0 <= k < b.moves@.len() implies crosses_one_way(
        dict,
        b,
        (#[trigger] b.moves@[k]).placements(),
    ) by {
        assert(crosses_one_way(dict, a, a.moves@[k].placements()));
        lemma_crosses_frame(dict, a, b, b.moves@[k].placements());
    }
}

/// The snapshot lines across a move made along one direction are the board's.
pub(crate) proof fn lemma_crosses_board_along(
    dict: Gaddag,
    gen: &GeneratorContext,
    board: Seq<char>,
    m: Seq<(char, BoardPosition)>,
    h: bool,
)
    requires
        gen.mirrors(board),
        move_crosses(dict, gen, m, h),
        forall|i: int| 0 <= i < m.len() ==> (#[trigger] m[i]).1 < TOTAL_SIZE,
    ensures
        board_crosses(dict, board, m, h),
{
    assert forall|i: int| 0 <= i < m.len() implies crossword_ok(
        dict,
        board_line_across(board, (#[trigger] m[i]).1 as int, h),
        cross_index(m[i].1 as int, h),
        m[i].0,
    ) by {
        let p = m[i].1 as int;
        let x = p % BOARD_SIZE as int;
        let y = p / BOARD_SIZE as int;
        if h {
            assert forall|j: int| 0 <= j < BOARD_SIZE implies gen.vert_buffers[x][j] == board[j * BOARD_SIZE as int + x] by {
                assert(gen.hori_buffers[j][x] == board[j * BOARD_SIZE as int + x]);
            }
            assert(cross_line(gen, p, h) =~= board_line_across(board, p, h));
        } else {
            assert forall|j: int| 0 <= j < BOARD_SIZE implies gen.hori_buffers[y][j] == board[y * BOARD_SIZE as int + j] by {
                assert(gen.hori_buffers[y][j] == board[y * BOARD_SIZE as int + j]);
            }
            assert(cross_line(gen, p, h) =~= board_line_across(board, p, h));
        }
    }
}

/// The snapshot lines across a move are the board's.
pub(crate) proof fn lemma_crosses_board(dict: Gaddag, gen: &GeneratorContext, board: Seq<char>, m: Seq<(char, BoardPosition)>)
    requires
        gen.mirrors(board),
        crosses_one_way(dict, gen, m),
        forall|i: int| 0 <= i < m.len() ==> (#[trigger] m[i]).1 < TOTAL_SIZE,
    ensures
        crosses_on_board(dict, board, m),
{
    if move_crosses(dict, gen, m, true) {
        lemma_crosses_board_along(dict, gen, board, m, true);
    } else {
        lemma_crosses_board_along(dict, gen, board, m, false);
    }
}

pub(crate) proof fn lemma_moves_on_board(gen: &GeneratorContext, dict: Gaddag, board: Seq<char>, r0: int)
    requires
        gen.mirrors(board),
        board.len() == TOTAL_SIZE,
        gen_ok(gen, dict, r0),
    ensures
        forall|k: int|
            0 <= k < gen.moves@.len() ==> crosses_on_board(
                dict,
                board,
                (#[trigger] gen.moves@[k]).placements(),
            ),
{
    assert forall|k: int| 0 <= k < gen.moves@.len() implies crosses_on_board(
        dict,
        board,
        (#[trigger] gen.moves@[k]).placements(),
    ) by {
        let m = gen.moves@[k].placements();
        assert(fits(m, snapshot(gen), r0));
        lemma_crosses_board(dict, gen, board, m);
    }
}

/// A valid walk stays valid when only its node, depth or direction change,
/// within the bounds of its line.
pub(crate) proof fn lemma_walk_transfer(
    a: &RecursionContext,
    ga: &GeneratorContext,
    b: &RecursionContext,
    gb: &GeneratorContext,
    dict: Gaddag,
    r0: int,
)
    requires
        walk_ok(a, ga, dict, r0),
        b.anchor == a.anchor,
        b.is_horizontal == a.is_horizontal,
        *b.rack == *a.rack,
        b.buffer@ == a.buffer@,
        b.current_move_len == a.current_move_len,
        b.current_tiles@ == a.current_tiles@,
        b.current_positions@ == a.current_positions@,
        b.current_slots@ == a.current_slots@,
        gb.hori_buffers == ga.hori_buffers,
        gb.vert_buffers == ga.vert_buffers,
        b.node.wf(),
        if b.is_forwards {
            0 <= b.depth <= BOARD_SIZE
        } else {
            -1 <= b.depth < BOARD_SIZE
        },
    ensures
        walk_ok(b, gb, dict, r0),
{
    assert forall|d: int| 0 <= d < BOARD_SIZE implies valid_cell(#[trigger] b.buffer[d]) && (
    b.buffer[d] == EMPTY_TILE ==> line_cell(gb, b, d) == EMPTY_TILE) by {
        assert(valid_cell(a.buffer[d]));
    }
    assert forall|k: int| 0 <= k < b.current_move_len implies #[trigger] placed_at(gb, b, k) by {
        assert(placed_at(ga, a, k));
        assert(b.current_tiles@[k] == a.current_tiles@[k]);
        assert(b.current_positions@[k] == a.current_positions@[k]);
        let d = choose|d: int|
            0 <= d < BOARD_SIZE && a.current_positions[k] == line_pos(
                a.anchor as int,
                a.is_horizontal,
                d,
            ) && a.buffer[d] != EMPTY_TILE && line_cell(ga, a, d) == EMPTY_TILE && a.buffer[d]
                == a.current_tiles[k];
        assert(b.buffer[d] == a.buffer[d]);
        assert(line_cell(gb, b, d) == line_cell(ga, a, d));
        assert(0 <= d < BOARD_SIZE && b.current_positions[k] == line_pos(
            b.anchor as int,
            b.is_horizontal,
            d,
        ) && b.buffer[d] != EMPTY_TILE && line_cell(gb, b, d) == EMPTY_TILE && b.buffer[d]
            == b.current_tiles[k]);
    }
    assert forall|k: int| 0 <= k < b.current_move_len implies #[trigger] crosses_at(dict, gb, b, k) by {
        assert(crosses_at(dict, ga, a, k));
        assert(b.current_tiles@[k] == a.current_tiles@[k]);
        assert(b.current_positions@[k] == a.current_positions@[k]);
    }
    assert forall|k: int| 0 <= k < RACK_SIZE implies b.current_slots[k] == a.current_slots[k] && b.current_tiles[k] == a.current_tiles[k] by {
        assert(b.current_slots@[k] == a.current_slots@[k]);
        assert(b.current_tiles@[k] == a.current_tiles@[k]);
    }
}

/// A valid walk stays valid when a tile is put on its empty current cell and
/// added to the move.
pub(crate) proof fn lemma_walk_place(
    a: &RecursionContext,
    b: &RecursionContext,
    gen: &GeneratorContext,
    dict: Gaddag,
    r0: int,
    tile: char,
    idx: int,
)
    requires
        walk_ok(a, gen, dict, r0),
        0 <= idx < RACK_SIZE,
        a.rack.present(idx),
        tile_fits(a.rack.tiles[idx], tile),
        b.rack.tiles == a.rack.tiles,
        !b.rack.present(idx),
        forall|j: int| 0 <= j < RACK_SIZE && j != idx ==> (b.rack.present(j) <==> a.rack.present(j)),
        b.current_slots@ == a.current_slots@.update(a.current_move_len as int, idx as usize),
        0 <= a.depth < BOARD_SIZE,
        a.buffer[a.depth as int] == EMPTY_TILE,
        is_tile(to_upper(tile)),
        ({
            let p = line_pos(a.anchor as int, a.is_horizontal, a.depth as int);
            crossword_ok(dict, cross_line(gen, p, a.is_horizontal), cross_index(p, a.is_horizontal), tile)
        }),
        b.anchor == a.anchor,
        b.is_horizontal == a.is_horizontal,
        b.is_forwards == a.is_forwards,
        b.depth == a.depth,
        b.node.wf(),
        b.rack.wf(),
        b.rack.len + 1 == a.rack.len,
        b.buffer@ == a.buffer@.update(a.depth as int, tile),
        b.current_move_len == a.current_move_len + 1,
        b.current_tiles@ == a.current_tiles@.update(a.current_move_len as int, tile),
        b.current_positions@ == a.current_positions@.update(
            a.current_move_len as int,
            line_pos(a.anchor as int, a.is_horizontal, a.depth as int) as u8,
        ),
    ensures
        walk_ok(b, gen, dict, r0),
{
    let n = a.current_move_len as int;
    let p = line_pos(a.anchor as int, a.is_horizontal, a.depth as int);
    assert(0 <= p < TOTAL_SIZE);
    assert forall|d: int| 0 <= d < BOARD_SIZE implies valid_cell(#[trigger] b.buffer[d]) && (
    b.buffer[d] == EMPTY_TILE ==> line_cell(gen, b, d) == EMPTY_TILE) by {
        assert(valid_cell(a.buffer[d]));
    }
    assert forall|k: int| 0 <= k < b.current_move_len implies #[trigger] placed_at(gen, b, k) by {
        if k < n {
            assert(placed_at(gen, a, k));
            assert(b.current_tiles@[k] == a.current_tiles@[k]);
            assert(b.current_positions@[k] == a.current_positions@[k]);
            let d = choose|d: int|
                0 <= d < BOARD_SIZE && a.current_positions[k] == line_pos(
                    a.anchor as int,
                    a.is_horizontal,
                    d,
                ) && a.buffer[d] != EMPTY_TILE && line_cell(gen, a, d) == EMPTY_TILE && a.buffer[d]
                    == a.current_tiles[k];
            assert(b.buffer[d] != EMPTY_TILE);
            assert(0 <= d < BOARD_SIZE && b.current_positions[k] == line_pos(
                b.anchor as int,
                b.is_horizontal,
                d,
            ) && b.buffer[d] != EMPTY_TILE && line_cell(gen, b, d) == EMPTY_TILE && b.buffer[d]
                == b.current_tiles[k]);
        } else {
            assert(b.current_tiles@[k] == tile);
            assert(b.current_positions@[k] == p);
            assert(b.buffer@[a.depth as int] != EMPTY_TILE);
            let d = a.depth as int;
            assert(0 <= d < BOARD_SIZE && b.current_positions[k] == line_pos(
                b.anchor as int,
                b.is_horizontal,
                d,
            ) && b.buffer[d] != EMPTY_TILE && line_cell(gen, b, d) == EMPTY_TILE && b.buffer[d]
                == b.current_tiles[k]);
        }
    }
    assert forall|k: int| 0 <= k < b.current_move_len implies #[trigger] crosses_at(dict, gen, b, k) by {
        if k < n {
            assert(crosses_at(dict, gen, a, k));
            assert(b.current_tiles@[k] == a.current_tiles@[k]);
            assert(b.current_positions@[k] == a.current_positions@[k]);
        } else {
            assert(b.current_tiles@[k] == tile);
            assert(b.current_positions@[k] == p);
        }
    }
    assert forall|k: int| 0 <= k < RACK_SIZE implies b.current_slots[k] == if k == n {
        idx as usize
    } else {
        a.current_slots[k]
    } && b.current_tiles[k] == if k == n {
        tile
    } else {
        a.current_tiles[k]
    } by {
        assert(b.current_slots@[k] == a.current_slots@.update(n, idx as usize)[k]);
        assert(b.current_tiles@[k] == a.current_tiles@.update(n, tile)[k]);
    }
    assert forall|i: int, j: int|
        0 <= i < j < b.current_move_len implies b.current_positions[i] != b.current_positions[j] by {
        if j == n {
            assert(placed_at(gen, a, i));
            let d = choose|d: int|
                0 <= d < BOARD_SIZE && a.current_positions[i] == line_pos(
                    a.anchor as int,
                    a.is_horizontal,
                    d,
                ) && a.buffer[d] != EMPTY_TILE && line_cell(gen, a, d) == EMPTY_TILE;
            assert(d != a.depth);
        }
    }
}

/// The row snapshots of a context that mirrors a board read as the board.
pub(crate) proof fn lemma_snapshot(gen: &GeneratorContext, board: Seq<char>)
    requires
        gen.mirrors(board),
        board.len() == TOTAL_SIZE,
    ensures
        snapshot(gen) == board,
{
    assert forall|p: int| 0 <= p < TOTAL_SIZE implies snapshot(gen)[p] == board[p] by {
        let y = p / BOARD_SIZE as int;
        let x = p % BOARD_SIZE as int;
        assert(y * BOARD_SIZE as int + x == p);
        assert(gen.hori_buffers[y][x] == board[y * BOARD_SIZE as int + x]);
    }
    assert(snapshot(gen) =~= board);
}

/// A walk that starts at an anchor, on the line as the snapshots hold it, is valid.
pub(crate) proof fn lemma_line_start(ctx: &RecursionContext, gen: &GeneratorContext, dict: Gaddag, r0: int)
    requires
        ctx.anchor < TOTAL_SIZE,
        ctx.node.wf(),
        ctx.rack.wf(),
        ctx.rack.len == r0,
        r0 <= RACK_SIZE,
        ctx.current_move_len == 0,
        forall|k: int|
            0 <= k < RACK_SIZE ==> ctx.current_tiles[k] == EMPTY_TILE && ctx.current_positions[k]
                == 0 && ctx.current_slots[k] == 0,
        !ctx.is_forwards,
        ctx.depth == if ctx.is_horizontal {
            ctx.anchor as int % BOARD_SIZE as int
        } else {
            ctx.anchor as int / BOARD_SIZE as int
        },
        ctx.is_horizontal ==> ctx.buffer == gen.hori_buffers[ctx.anchor as int / BOARD_SIZE as int],
        !ctx.is_horizontal ==> ctx.buffer == gen.vert_buffers[ctx.anchor as int % BOARD_SIZE as int],
        forall|y: int, x: int|
            0 <= y < BOARD_SIZE && 0 <= x < BOARD_SIZE ==> valid_cell(#[trigger] gen.hori_buffers[y][x])
                && gen.vert_buffers[x][y] == gen.hori_buffers[y][x],
    ensures
        walk_ok(ctx, gen, dict, r0),
        forall|d: int| 0 <= d < BOARD_SIZE ==> #[trigger] ctx.buffer[d] == line_cell(gen, ctx, d),
{
    let row = ctx.anchor as int / BOARD_SIZE as int;
    let col = ctx.anchor as int % BOARD_SIZE as int;
    assert forall|d: int| 0 <= d < BOARD_SIZE implies valid_cell(#[trigger] ctx.buffer[d]) && (
    ctx.buffer[d] == EMPTY_TILE ==> line_cell(gen, ctx, d) == EMPTY_TILE) by {
        let p = line_pos(ctx.anchor as int, ctx.is_horizontal, d);
        if ctx.is_horizontal {
            assert(p == row * BOARD_SIZE as int + d);
            assert(p / BOARD_SIZE as int == row);
            assert(p % BOARD_SIZE as int == d);
            assert(valid_cell(gen.hori_buffers[row][d]));
            assert(ctx.buffer[d] == gen.hori_buffers[row][d]);
        } else {
            assert(p == d * BOARD_SIZE as int + col);
            assert(p / BOARD_SIZE as int == d);
            assert(p % BOARD_SIZE as int == col);
            assert(valid_cell(gen.hori_buffers[d][col]));
            assert(ctx.buffer[d] == gen.vert_buffers[col][d]);
        }
    }
}

/// Distance the walk can still cover in its current direction.
pub open spec fn room(ctx: &RecursionContext) -> int {
    if ctx.is_forwards {
        BOARD_SIZE - ctx.depth
    } else {
        ctx.depth + 1
    }
}

pub open spec fn phase(ctx: &RecursionContext) -> int {
    if ctx.is_forwards {
        0
    } else {
        1
    }
}

} // verus!
