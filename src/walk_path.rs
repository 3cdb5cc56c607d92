use vstd::prelude::*;

use crate::board::{lemma_place_first_value, on_board, place_first, valid_cell};
use crate::constants::{BOARD_SIZE, BoardPosition, EMPTY_TILE, PIVOT, TOTAL_SIZE};
use crate::gaddag::{Gaddag, GaddagNode, all_tiles, edge, edges, lemma_follow_push, split_path};
use crate::move_context::{GeneratorContext, RecursionContext, line_pos};
use crate::walk::{
    board_crosses, board_line_across, cross_index, fits, gen_ok, held, lemma_crosses_board_along,
    lemma_crosses_frame_along, lemma_run_start, lemma_snapshot, line_cell, move_crosses, placed_at,
    run_end, run_start, snapshot, walk_ok,
};
use crate::walk_shape::{
    anchor_index, lemma_run_end_at, lemma_run_start_at, placed_cell, shape_ok,
};

verus! {

/// The walk started on a cell that was empty on the board.
pub open spec fn fresh(ctx: &RecursionContext, gen: &GeneratorContext) -> bool {
    line_cell(gen, ctx, anchor_index(ctx)) == EMPTY_TILE
}

/// Cell `d` of the walk's line holds a tile.
pub open spec fn holds_tile(ctx: &RecursionContext, d: int) -> bool {
    0 <= d < BOARD_SIZE && ctx.buffer[d] != EMPTY_TILE
}

/// First cell the backward walk has taken in.
pub open spec fn consumed_from(ctx: &RecursionContext) -> int {
    if holds_tile(ctx, ctx.depth as int) {
        ctx.depth as int
    } else {
        ctx.depth + 1
    }
}

/// End (exclusive) of the cells the forward walk has taken in.
pub open spec fn consumed_to(ctx: &RecursionContext) -> int {
    if holds_tile(ctx, ctx.depth as int) {
        ctx.depth + 1
    } else {
        ctx.depth as int
    }
}

/// The letters the walk has taken in, in the order the trie reads them: back
/// from the anchor, then, past the pivot, forward from it.
pub open spec fn walked(ctx: &RecursionContext) -> Seq<char> {
    let a = anchor_index(ctx);
    let line = ctx.buffer@;
    if !ctx.is_forwards {
        line.subrange(consumed_from(ctx), a + 1).reverse()
    } else {
        line.subrange(run_start(line, a), a + 1).reverse() + seq![PIVOT] + line.subrange(
            a + 1,
            consumed_to(ctx),
        )
    }
}

/// A walk that started on an empty cell stands on the node its letters lead to.
pub open spec fn path_ok(ctx: &RecursionContext, gen: &GeneratorContext, root: GaddagNode) -> bool {
    fresh(ctx, gen) ==> root.follow(edges(walked(ctx))) == Some(*ctx.node)
}

/// The path holds of a walk that is the same but for values it does not read.
pub proof fn lemma_path_same(
    a: &RecursionContext,
    ga: &GeneratorContext,
    b: &RecursionContext,
    gb: &GeneratorContext,
    root: GaddagNode,
)
    requires
        path_ok(a, ga, root),
        b.anchor == a.anchor,
        b.is_horizontal == a.is_horizontal,
        gb.hori_buffers == ga.hori_buffers,
        b.buffer@ == a.buffer@,
        b.depth == a.depth,
        b.is_forwards == a.is_forwards,
        *b.node == *a.node,
    ensures
        path_ok(b, gb, root),
        fresh(b, gb) == fresh(a, ga),
{
    assert(fresh(b, gb) == fresh(a, ga));
    assert(holds_tile(b, b.depth as int) == holds_tile(a, a.depth as int));
    assert(walked(b) == walked(a));
}

/// Taking in the tile now on cell `d` leads one edge on.
proof fn lemma_path_on(
    a: &RecursionContext,
    ga: &GeneratorContext,
    b: &RecursionContext,
    gb: &GeneratorContext,
    root: GaddagNode,
    c: char,
)
    requires
        path_ok(a, ga, root),
        b.anchor == a.anchor,
        b.is_horizontal == a.is_horizontal,
        gb.hori_buffers == ga.hori_buffers,
        fresh(a, ga) ==> walked(b) == walked(a).push(c),
        a.node.child(edge(c)) == Some(*b.node),
    ensures
        path_ok(b, gb, root),
        fresh(b, gb) == fresh(a, ga),
{
    assert(fresh(b, gb) == fresh(a, ga));
    if fresh(a, ga) {
        lemma_follow_push(root, walked(a), c, *a.node, *b.node);
    }
}

/// Putting a tile on the empty current cell takes it in.
pub proof fn lemma_path_place(
    a: &RecursionContext,
    ga: &GeneratorContext,
    b: &RecursionContext,
    gb: &GeneratorContext,
    root: GaddagNode,
    tile: char,
)
    requires
        path_ok(a, ga, root),
        shape_ok(a, ga),
        a.anchor < 225,
        b.anchor == a.anchor,
        b.is_horizontal == a.is_horizontal,
        gb.hori_buffers == ga.hori_buffers,
        0 <= a.depth < BOARD_SIZE,
        a.buffer[a.depth as int] == EMPTY_TILE,
        tile != EMPTY_TILE,
        b.is_forwards == a.is_forwards,
        b.depth == a.depth,
        b.buffer@ == a.buffer@.update(a.depth as int, tile),
        a.node.child(edge(tile)) == Some(*b.node),
    ensures
        path_ok(b, gb, root),
        fresh(b, gb) == fresh(a, ga),
{
    let x = anchor_index(a);
    let d = a.depth as int;
    assert(!holds_tile(a, d));
    assert(holds_tile(b, d));
    if !a.is_forwards {
        assert(b.buffer@.subrange(d, x + 1).reverse() =~= a.buffer@.subrange(d + 1, x + 1).reverse().push(tile));
    } else {
        assert(a.buffer[x] != EMPTY_TILE);
        assert(d > x);
        crate::walk_shape::lemma_run_start_update(a.buffer@, x, d, tile);
        assert(b.buffer@.subrange(run_start(b.buffer@, x), x + 1) =~= a.buffer@.subrange(run_start(a.buffer@, x), x + 1)) by {
            lemma_run_start(a.buffer@, x);
        }
        assert(b.buffer@.subrange(x + 1, d + 1) =~= a.buffer@.subrange(x + 1, d).push(tile));
        assert(walked(b) =~= walked(a).push(tile));
    }
    lemma_path_on(a, ga, b, gb, root, tile);
}

/// Taking in the tile on the next cell along the walk.
pub proof fn lemma_path_follow(
    a: &RecursionContext,
    ga: &GeneratorContext,
    b: &RecursionContext,
    gb: &GeneratorContext,
    root: GaddagNode,
)
    requires
        path_ok(a, ga, root),
        shape_ok(a, ga),
        a.anchor < 225,
        b.anchor == a.anchor,
        b.is_horizontal == a.is_horizontal,
        gb.hori_buffers == ga.hori_buffers,
        b.buffer@ == a.buffer@,
        0 <= a.depth < BOARD_SIZE,
        a.buffer[a.depth as int] != EMPTY_TILE,
        b.is_forwards == a.is_forwards,
        b.depth == if a.is_forwards {
            a.depth + 1
        } else {
            a.depth - 1
        },
        0 <= b.depth < BOARD_SIZE,
        b.buffer[b.depth as int] != EMPTY_TILE,
        a.node.child(edge(b.buffer[b.depth as int])) == Some(*b.node),
    ensures
        path_ok(b, gb, root),
        fresh(b, gb) == fresh(a, ga),
{
    let x = anchor_index(a);
    let d = a.depth as int;
    let c = b.buffer[b.depth as int];
    assert(holds_tile(a, d));
    assert(holds_tile(b, b.depth as int));
    if !a.is_forwards {
        assert(b.buffer@.subrange(d - 1, x + 1).reverse() =~= a.buffer@.subrange(d, x + 1).reverse().push(c));
    } else {
        assert(b.buffer@.subrange(x + 1, d + 2) =~= a.buffer@.subrange(x + 1, d + 1).push(c));
        assert(walked(b) =~= walked(a).push(c));
    }
    lemma_path_on(a, ga, b, gb, root, c);
}

/// Stepping onto an empty cell, or off the line, takes nothing in.
pub proof fn lemma_path_gap(
    a: &RecursionContext,
    ga: &GeneratorContext,
    b: &RecursionContext,
    gb: &GeneratorContext,
    root: GaddagNode,
)
    requires
        path_ok(a, ga, root),
        b.anchor == a.anchor,
        b.is_horizontal == a.is_horizontal,
        gb.hori_buffers == ga.hori_buffers,
        b.buffer@ == a.buffer@,
        *b.node == *a.node,
        0 <= a.depth < BOARD_SIZE,
        a.buffer[a.depth as int] != EMPTY_TILE,
        b.is_forwards == a.is_forwards,
        b.depth == if a.is_forwards {
            a.depth + 1
        } else {
            a.depth - 1
        },
        !holds_tile(b, b.depth as int),
    ensures
        path_ok(b, gb, root),
        fresh(b, gb) == fresh(a, ga),
{
    assert(fresh(b, gb) == fresh(a, ga));
    assert(holds_tile(a, a.depth as int));
    assert(walked(b) == walked(a));
}

/// Crossing the pivot at the start of the run.
pub proof fn lemma_path_pivot(
    a: &RecursionContext,
    ga: &GeneratorContext,
    b: &RecursionContext,
    gb: &GeneratorContext,
    root: GaddagNode,
)
    requires
        path_ok(a, ga, root),
        shape_ok(a, ga),
        a.anchor < 225,
        b.anchor == a.anchor,
        b.is_horizontal == a.is_horizontal,
        gb.hori_buffers == ga.hori_buffers,
        b.buffer@ == a.buffer@,
        !a.is_forwards,
        b.is_forwards,
        0 <= a.depth < BOARD_SIZE,
        a.buffer[a.depth as int] != EMPTY_TILE,
        a.depth == 0 || a.buffer[a.depth - 1] == EMPTY_TILE,
        b.depth == anchor_index(a),
        a.node.child(edge(PIVOT)) == Some(*b.node),
    ensures
        path_ok(b, gb, root),
        fresh(b, gb) == fresh(a, ga),
{
    let x = anchor_index(a);
    let d = a.depth as int;
    assert forall|e: int| d <= e < x implies b.buffer@[e] != EMPTY_TILE by {
        if e > d {
            assert(a.buffer[e] != EMPTY_TILE);
        }
    }
    crate::walk_shape::lemma_run_start_at(b.buffer@, d, x);
    assert(b.buffer[x] != EMPTY_TILE) by {
        if x > d {
            assert(a.buffer[x] != EMPTY_TILE);
        }
    }
    assert(holds_tile(a, d));
    assert(holds_tile(b, x));
    assert(b.buffer@.subrange(x + 1, x + 1) =~= Seq::<char>::empty());
    assert(walked(b) =~= walked(a).push(PIVOT));
    lemma_path_on(a, ga, b, gb, root, PIVOT);
}

/// A walk set up at its anchor, on the line as the snapshots hold it, stands
/// at the root on the empty path; it is fresh when the anchor's cell is empty.
pub proof fn lemma_path_start(ctx: &RecursionContext, gen: &GeneratorContext, root: GaddagNode)
    requires
        ctx.anchor < TOTAL_SIZE,
        *ctx.node == root,
        !ctx.is_forwards,
        ctx.depth == anchor_index(ctx),
        forall|d: int| 0 <= d < BOARD_SIZE ==> #[trigger] ctx.buffer[d] == line_cell(gen, ctx, d),
    ensures
        path_ok(ctx, gen, root),
        fresh(ctx, gen) == (snapshot(gen)[ctx.anchor as int] == EMPTY_TILE),
{
    let a = ctx.anchor as int;
    assert(line_pos(a, ctx.is_horizontal, anchor_index(ctx)) == a) by {
        assert(a == (a / BOARD_SIZE as int) * BOARD_SIZE as int + a % BOARD_SIZE as int);
    }
    if fresh(ctx, gen) {
        let x = anchor_index(ctx);
        assert(ctx.buffer[x] == line_cell(gen, ctx, x));
        assert(!holds_tile(ctx, x));
        assert(walked(ctx) =~= Seq::<char>::empty());
        crate::gaddag::lemma_follow_empty(root);
    }
}

/// The move, made along rows (`h`) or columns, forms a word of the dictionary
/// along its line and valid words across it, as the snapshots hold the board.
pub open spec fn legal_along(
    dictionary: Gaddag,
    gen: &GeneratorContext,
    m: Seq<(char, BoardPosition)>,
    h: bool,
) -> bool {
    word_along(dictionary, snapshot(gen), m, h) && move_crosses(dictionary, gen, m, h)
}

pub open spec fn legal_one_way(dictionary: Gaddag, gen: &GeneratorContext, m: Seq<(char, BoardPosition)>) -> bool {
    legal_along(dictionary, gen, m, true) || legal_along(dictionary, gen, m, false)
}

/// The move, made along rows or along columns, forms on the board a word of
/// the dictionary along its line, and leaves only valid words across it.
pub open spec fn legal_on_board(dictionary: Gaddag, board: Seq<char>, m: Seq<(char, BoardPosition)>) -> bool {
    ||| word_along(dictionary, board, m, true) && board_crosses(dictionary, board, m, true)
    ||| word_along(dictionary, board, m, false) && board_crosses(dictionary, board, m, false)
}

/// Every move recorded so far is legal along one direction.
pub open spec fn words_ok(gen: &GeneratorContext, dictionary: Gaddag) -> bool {
    forall|k: int|
        0 <= k < gen.moves@.len() ==> legal_one_way(
            dictionary,
            gen,
            (#[trigger] gen.moves@[k]).placements(),
        )
}

/// Legality of the moves depends on the moves and the snapshots only.
pub proof fn lemma_words_frame(a: &GeneratorContext, b: &GeneratorContext, dictionary: Gaddag)
    requires
        words_ok(a, dictionary),
        a.moves@ == b.moves@,
        a.hori_buffers == b.hori_buffers,
        a.vert_buffers == b.vert_buffers,
    ensures
        words_ok(b, dictionary),
{
    assert(snapshot(a) =~= snapshot(b));
    assert forall|k: int| 0 <= k < b.moves@.len() implies legal_one_way(
        dictionary,
        b,
        (#[trigger] b.moves@[k]).placements(),
    ) by {
        let m = b.moves@[k].placements();
        assert(legal_one_way(dictionary, a, a.moves@[k].placements()));
        if legal_along(dictionary, a, m, true) {
            lemma_crosses_frame_along(dictionary, a, b, m, true);
        } else {
            lemma_crosses_frame_along(dictionary, a, b, m, false);
        }
    }
}

/// Legal moves on the snapshots are legal on the board they mirror.
pub proof fn lemma_words_on_board(gen: &GeneratorContext, dictionary: Gaddag, board: Seq<char>, r0: int)
    requires
        gen.mirrors(board),
        board.len() == TOTAL_SIZE,
        gen_ok(gen, dictionary, r0),
        words_ok(gen, dictionary),
    ensures
        forall|k: int|
            0 <= k < gen.moves@.len() ==> legal_on_board(
                dictionary,
                board,
                (#[trigger] gen.moves@[k]).placements(),
            ),
{
    lemma_snapshot(gen, board);
    assert forall|k: int| 0 <= k < gen.moves@.len() implies legal_on_board(
        dictionary,
        board,
        (#[trigger] gen.moves@[k]).placements(),
    ) by {
        let m = gen.moves@[k].placements();
        assert(fits(m, snapshot(gen), r0));
        assert(legal_one_way(dictionary, gen, m));
        if legal_along(dictionary, gen, m, true) {
            lemma_crosses_board_along(dictionary, gen, board, m, true);
        } else {
            lemma_crosses_board_along(dictionary, gen, board, m, false);
        }
    }
}

/// The move, made along rows (`h`) or columns, leaves on the board a word of
/// the dictionary along its own line: the run of occupied cells through its
/// first tile.
pub open spec fn word_along(
    dictionary: Gaddag,
    board: Seq<char>,
    m: Seq<(char, BoardPosition)>,
    h: bool,
) -> bool {
    let after = place_first(board, m, m.len() as int);
    let p = m[0].1 as int;
    let line = board_line_across(after, p, !h);
    let i = cross_index(p, !h);
    &&& m.len() > 0
    &&& dictionary.holds_word(line.subrange(run_start(line, i), run_end(line, i) + 1))
    &&& forall|k: int|
        0 <= k < m.len() ==> #[trigger] in_run(m[k].1 as int, p, h, run_start(line, i), run_end(line, i))
}

/// Board index `q` is cell `d` of the row (`h`) or column through `p`, with
/// `lo <= d <= hi`.
pub open spec fn in_run(q: int, p: int, h: bool, lo: int, hi: int) -> bool {
    exists|d: int| lo <= d <= hi && q == #[trigger] line_pos(p, h, d)
}

/// A move recorded where a fresh walk ends on a word node, walking forwards,
/// with no tile after it, forms that word on the board.
#[verifier::rlimit(80)]
pub proof fn lemma_record_word(ctx: &RecursionContext, gen: &GeneratorContext, dict: Gaddag)
    requires
        dict.wf(),
        walk_ok(ctx, gen, dict, held(ctx)),
        shape_ok(ctx, gen),
        path_ok(ctx, gen, dict.root_node()),
        fresh(ctx, gen),
        ctx.is_forwards,
        0 <= ctx.depth < BOARD_SIZE,
        ctx.buffer[ctx.depth as int] != EMPTY_TILE,
        ctx.depth + 1 == BOARD_SIZE || ctx.buffer[ctx.depth + 1] == EMPTY_TILE,
        ctx.node.word_flag(),
        ctx.current_move_len > 0,
    ensures
        word_along(
            dict,
            snapshot(gen),
            Seq::new(
                ctx.current_move_len as nat,
                |i: int| (ctx.current_tiles[i], ctx.current_positions[i]),
            ),
            ctx.is_horizontal,
        ),
{
    let h = ctx.is_horizontal;
    let an = ctx.anchor as int;
    let line = ctx.buffer@;
    let x = anchor_index(ctx);
    let depth = ctx.depth as int;
    let rs = run_start(line, x);
    lemma_run_start(line, x);
    assert forall|d: int| rs <= d <= depth implies line[d] != EMPTY_TILE by {
        if x <= d < depth {
            assert(ctx.buffer[d] != EMPTY_TILE);
        }
    }
    // the word the walk spelled
    let w = line.subrange(rs, depth + 1);
    let i = x + 1 - rs;
    assert(holds_tile(ctx, depth));
    assert(w.subrange(0, i) =~= line.subrange(rs, x + 1));
    assert(w.subrange(i, w.len() as int) =~= line.subrange(x + 1, depth + 1));
    assert(walked(ctx) =~= split_path(w, i));
    assert(dict.root_node().accepts(edges(split_path(w, i))));
    assert forall|j: int| 0 <= j < w.len() implies crate::constants::is_tile(
        crate::constants::to_upper(#[trigger] w[j]),
    ) by {
        assert(w[j] == line[rs + j]);
        assert(valid_cell(ctx.buffer[rs + j]));
    }
    assert(all_tiles(w));
    assert(dict.holds_word(w));
    // the same word on the board once the move is made
    let m = Seq::new(
        ctx.current_move_len as nat,
        |k: int| (ctx.current_tiles[k], ctx.current_positions[k]),
    );
    let board = snapshot(gen);
    let n = ctx.current_move_len as int;
    assert(on_board(m)) by {
        assert forall|k: int| 0 <= k < m.len() implies (#[trigger] m[k]).1 < TOTAL_SIZE by {
            assert(placed_at(gen, ctx, k));
        }
    }
    let after = place_first(board, m, n);
    assert(placed_at(gen, ctx, 0));
    let d0 = choose|d: int|
        0 <= d < BOARD_SIZE && ctx.current_positions[0] == line_pos(an, h, d) && ctx.buffer[d]
            != EMPTY_TILE && line_cell(gen, ctx, d) == EMPTY_TILE && ctx.buffer[d]
            == ctx.current_tiles[0];
    assert(placed_cell(gen, ctx, d0));
    let p = m[0].1 as int;
    assert(p == line_pos(an, h, d0));
    let after_line = board_line_across(after, p, !h);
    assert forall|d: int| 0 <= d < BOARD_SIZE implies after_line[d] == line[d] by {
        let q = line_pos(an, h, d);
        if h {
            assert(p / BOARD_SIZE as int == an / BOARD_SIZE as int);
            assert(after_line[d] == after[q]);
        } else {
            assert(p % BOARD_SIZE as int == an % BOARD_SIZE as int);
            assert(after_line[d] == after[q]);
        }
        lemma_place_first_value(board, m, n, q);
        if placed_cell(gen, ctx, d) {
            let k = choose|k: int|
                0 <= k < ctx.current_move_len && ctx.current_positions[k] == line_pos(an, h, d);
            assert(placed_at(gen, ctx, k));
            let dk = choose|dd: int|
                0 <= dd < BOARD_SIZE && ctx.current_positions[k] == line_pos(an, h, dd)
                    && ctx.buffer[dd] != EMPTY_TILE && line_cell(gen, ctx, dd) == EMPTY_TILE
                    && ctx.buffer[dd] == ctx.current_tiles[k];
            assert(dk == d);
            assert(m[k].1 == q);
        } else {
            assert forall|k: int| 0 <= k < n implies m[k].1 != q by {
                assert(placed_at(gen, ctx, k));
                if m[k].1 == q {
                    let dk = choose|dd: int|
                        0 <= dd < BOARD_SIZE && ctx.current_positions[k] == line_pos(an, h, dd)
                            && ctx.buffer[dd] != EMPTY_TILE && line_cell(gen, ctx, dd)
                            == EMPTY_TILE && ctx.buffer[dd] == ctx.current_tiles[k];
                    assert(dk == d);
                }
            }
            assert(board[q] == line_cell(gen, ctx, d));
            assert(valid_cell(ctx.buffer[d]));
        }
    }
    assert(after_line =~= line);
    assert(cross_index(p, !h) == d0);
    lemma_run_start_at(line, rs, d0);
    lemma_run_end_at(line, d0, depth);
    assert forall|k: int| 0 <= k < m.len() implies #[trigger] in_run(m[k].1 as int, p, h, rs, depth) by {
        assert(placed_at(gen, ctx, k));
        let dk = choose|dd: int|
            0 <= dd < BOARD_SIZE && ctx.current_positions[k] == line_pos(an, h, dd)
                && ctx.buffer[dd] != EMPTY_TILE && line_cell(gen, ctx, dd) == EMPTY_TILE
                && ctx.buffer[dd] == ctx.current_tiles[k];
        assert(placed_cell(gen, ctx, dk));
        if h {
            assert(p / BOARD_SIZE as int == an / BOARD_SIZE as int);
        } else {
            assert(p % BOARD_SIZE as int == an % BOARD_SIZE as int);
        }
        assert(line_pos(p, h, dk) == line_pos(an, h, dk));
    }
}

} // verus!
