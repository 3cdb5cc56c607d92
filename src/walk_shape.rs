use vstd::prelude::*;

use crate::board::anchor_at;
use crate::constants::{BOARD_SIZE, BoardPosition, EMPTY_TILE, TOTAL_SIZE};
use crate::move_context::{GeneratorContext, RecursionContext, line_pos};
use crate::walk::{lemma_run_start, line_cell, placed_at, run_end, run_start, snapshot};

verus! {

/// The cell holds a tile on the board or is one of the move's positions.
pub open spec fn occupied(board: Seq<char>, m: Seq<(char, BoardPosition)>, q: int) -> bool {
    board[q] != EMPTY_TILE || exists|j: int| 0 <= j < m.len() && m[j].1 == q
}

/// An orthogonal neighbour of `p` is occupied once the move is made.
pub open spec fn touches(board: Seq<char>, m: Seq<(char, BoardPosition)>, p: int) -> bool {
    let row = p / BOARD_SIZE as int;
    let col = p % BOARD_SIZE as int;
    ||| col > 0 && occupied(board, m, p - 1)
    ||| col + 1 < BOARD_SIZE && occupied(board, m, p + 1)
    ||| row > 0 && occupied(board, m, p - BOARD_SIZE)
    ||| row + 1 < BOARD_SIZE && occupied(board, m, p + BOARD_SIZE)
}

/// The move covers the centre, or each of its tiles touches another tile.
pub open spec fn touches_or_centre(board: Seq<char>, m: Seq<(char, BoardPosition)>) -> bool {
    ||| exists|i: int| 0 <= i < m.len() && #[trigger] m[i].1 == TOTAL_SIZE / 2
    ||| forall|i: int| 0 <= i < m.len() ==> touches(board, m, (#[trigger] m[i]).1 as int)
}

/// Index of the walk's anchor along its line.
pub open spec fn anchor_index(ctx: &RecursionContext) -> int {
    if ctx.is_horizontal {
        ctx.anchor as int % BOARD_SIZE as int
    } else {
        ctx.anchor as int / BOARD_SIZE as int
    }
}

/// Cell `d` of the line holds a tile that the move put there.
pub open spec fn placed_cell(gen: &GeneratorContext, ctx: &RecursionContext, d: int) -> bool {
    ctx.buffer[d] != EMPTY_TILE && line_cell(gen, ctx, d) == EMPTY_TILE
}

/// The walk started at an anchor (or the centre), and the cells it has covered
/// form one run around the anchor that holds every tile the move placed:
/// from the current cell to the anchor while walking backwards, and from the
/// start of the run before the anchor to the current cell while walking
/// forwards.
pub open spec fn shape_ok(ctx: &RecursionContext, gen: &GeneratorContext) -> bool {
    let a = anchor_index(ctx);
    &&& anchor_at(snapshot(gen), ctx.anchor as int) || ctx.anchor == TOTAL_SIZE / 2
    &&& forall|d: int|
        0 <= d < BOARD_SIZE && #[trigger] placed_cell(gen, ctx, d) ==> exists|k: int|
            0 <= k < ctx.current_move_len && ctx.current_positions[k] == line_pos(
                ctx.anchor as int,
                ctx.is_horizontal,
                d,
            )
    &&& if !ctx.is_forwards {
        &&& ctx.depth <= a
        &&& forall|d: int| ctx.depth < d <= a ==> #[trigger] ctx.buffer[d] != EMPTY_TILE
        &&& forall|d: int|
            0 <= d < BOARD_SIZE && #[trigger] placed_cell(gen, ctx, d) ==> ctx.depth <= d <= a
    } else {
        &&& a <= ctx.depth
        &&& ctx.buffer[a] != EMPTY_TILE
        &&& forall|d: int| a <= d < ctx.depth ==> #[trigger] ctx.buffer[d] != EMPTY_TILE
        &&& forall|d: int|
            0 <= d < BOARD_SIZE && #[trigger] placed_cell(gen, ctx, d) ==> run_start(
                ctx.buffer@,
                a,
            ) <= d <= ctx.depth
    }
}

/// The fields the shape of a walk depends on, other than depth and direction.
pub open spec fn same_line(
    a: &RecursionContext,
    ga: &GeneratorContext,
    b: &RecursionContext,
    gb: &GeneratorContext,
) -> bool {
    &&& b.anchor == a.anchor
    &&& b.is_horizontal == a.is_horizontal
    &&& b.current_move_len == a.current_move_len
    &&& b.current_positions@ == a.current_positions@
    &&& gb.hori_buffers == ga.hori_buffers
}

proof fn lemma_line_facts(a: &RecursionContext, ga: &GeneratorContext, b: &RecursionContext, gb: &GeneratorContext)
    requires
        same_line(a, ga, b, gb),
    ensures
        snapshot(gb) == snapshot(ga),
        forall|d: int| #[trigger] line_cell(gb, b, d) == line_cell(ga, a, d),
{
    assert(snapshot(gb) =~= snapshot(ga));
}

/// The shape holds of a walk that is the same but for its node.
pub proof fn lemma_shape_same(
    a: &RecursionContext,
    ga: &GeneratorContext,
    b: &RecursionContext,
    gb: &GeneratorContext,
)
    requires
        shape_ok(a, ga),
        same_line(a, ga, b, gb),
        b.buffer@ == a.buffer@,
        b.depth == a.depth,
        b.is_forwards == a.is_forwards,
    ensures
        shape_ok(b, gb),
{
    lemma_line_facts(a, ga, b, gb);
    assert forall|d: int| #[trigger] placed_cell(gb, b, d) == placed_cell(ga, a, d) by {
        assert(b.buffer[d] == a.buffer[d]);
    }
    assert forall|d: int|
        0 <= d < BOARD_SIZE && #[trigger] placed_cell(gb, b, d) implies exists|k: int|
        0 <= k < b.current_move_len && b.current_positions[k] == line_pos(
            b.anchor as int,
            b.is_horizontal,
            d,
        ) by {
        assert(placed_cell(ga, a, d));
        let k = choose|k: int|
            0 <= k < a.current_move_len && a.current_positions[k] == line_pos(
                a.anchor as int,
                a.is_horizontal,
                d,
            );
        assert(b.current_positions[k] == a.current_positions[k]);
    }
    if b.is_forwards {
        assert forall|d: int| anchor_index(b) <= d < b.depth implies #[trigger] b.buffer[d] != EMPTY_TILE by {
            assert(a.buffer[d] != EMPTY_TILE);
        }
    } else {
        assert forall|d: int| b.depth < d <= anchor_index(b) implies #[trigger] b.buffer[d] != EMPTY_TILE by {
            assert(a.buffer[d] != EMPTY_TILE);
        }
    }
}

/// One step along the line from a cell that holds a tile keeps the shape.
pub proof fn lemma_shape_step(
    a: &RecursionContext,
    ga: &GeneratorContext,
    b: &RecursionContext,
    gb: &GeneratorContext,
)
    requires
        shape_ok(a, ga),
        same_line(a, ga, b, gb),
        b.buffer@ == a.buffer@,
        0 <= a.depth < BOARD_SIZE,
        a.buffer[a.depth as int] != EMPTY_TILE,
        b.is_forwards == a.is_forwards,
        b.depth == if a.is_forwards {
            a.depth + 1
        } else {
            a.depth - 1
        },
    ensures
        shape_ok(b, gb),
{
    lemma_line_facts(a, ga, b, gb);
    assert forall|d: int| #[trigger] placed_cell(gb, b, d) == placed_cell(ga, a, d) by {
        assert(b.buffer[d] == a.buffer[d]);
    }
    assert forall|d: int|
        0 <= d < BOARD_SIZE && #[trigger] placed_cell(gb, b, d) implies exists|k: int|
        0 <= k < b.current_move_len && b.current_positions[k] == line_pos(
            b.anchor as int,
            b.is_horizontal,
            d,
        ) by {
        assert(placed_cell(ga, a, d));
        let k = choose|k: int|
            0 <= k < a.current_move_len && a.current_positions[k] == line_pos(
                a.anchor as int,
                a.is_horizontal,
                d,
            );
        assert(b.current_positions[k] == a.current_positions[k]);
    }
    if b.is_forwards {
        assert forall|d: int| anchor_index(b) <= d < b.depth implies #[trigger] b.buffer[d] != EMPTY_TILE by {
            assert(b.buffer[d] == a.buffer[d]);
        }
        assert(b.buffer@ == a.buffer@);
    } else {
        assert forall|d: int| b.depth < d <= anchor_index(b) implies #[trigger] b.buffer[d] != EMPTY_TILE by {
            assert(b.buffer[d] == a.buffer[d]);
        }
    }
}

/// The run of occupied cells before `i` starts at `x` when the cells from `x`
/// up to `i` hold tiles and the cell before `x` is empty or off the line.
pub proof fn lemma_run_start_at(line: Seq<char>, x: int, i: int)
    requires
        0 <= x <= i <= line.len(),
        forall|d: int| x <= d < i ==> line[d] != EMPTY_TILE,
        x == 0 || line[x - 1] == EMPTY_TILE,
    ensures
        run_start(line, i) == x,
    decreases i - x,
{
    if i > x {
        lemma_run_start_at(line, x, i - 1);
    }
}

/// The run of occupied cells after `i` ends at `y` when the cells after `i`
/// up to `y` hold tiles and the cell after `y` is empty or off the line.
pub proof fn lemma_run_end_at(line: Seq<char>, i: int, y: int)
    requires
        0 <= i <= y < line.len(),
        forall|d: int| i < d <= y ==> line[d] != EMPTY_TILE,
        y + 1 == line.len() || line[y + 1] == EMPTY_TILE,
    ensures
        run_end(line, i) == y,
    decreases y - i,
{
    if i < y {
        lemma_run_end_at(line, i + 1, y);
    }
}

/// The run before `i` does not depend on cells at `i` or after.
pub proof fn lemma_run_start_update(line: Seq<char>, i: int, j: int, c: char)
    requires
        0 <= i <= j < line.len(),
    ensures
        run_start(line.update(j, c), i) == run_start(line, i),
    decreases i,
{
    if 0 < i {
        assert(line.update(j, c)[i - 1] == line[i - 1]);
        lemma_run_start_update(line, i - 1, j, c);
    }
}

/// Crossing the pivot at the start of the run turns the backward shape into
/// the forward one, at the anchor.
pub proof fn lemma_shape_pivot(
    a: &RecursionContext,
    ga: &GeneratorContext,
    b: &RecursionContext,
    gb: &GeneratorContext,
)
    requires
        shape_ok(a, ga),
        same_line(a, ga, b, gb),
        b.buffer@ == a.buffer@,
        !a.is_forwards,
        b.is_forwards,
        0 <= a.depth < BOARD_SIZE,
        a.buffer[a.depth as int] != EMPTY_TILE,
        a.depth == 0 || a.buffer[a.depth - 1] == EMPTY_TILE,
        b.depth == anchor_index(a),
        anchor_index(a) < BOARD_SIZE,
    ensures
        shape_ok(b, gb),
{
    lemma_line_facts(a, ga, b, gb);
    let x = anchor_index(a);
    assert forall|d: int| a.depth <= d < x implies b.buffer@[d] != EMPTY_TILE by {
        if d > a.depth {
            assert(a.buffer[d] != EMPTY_TILE);
        }
    }
    lemma_run_start_at(b.buffer@, a.depth as int, x);
    assert(b.buffer[x] != EMPTY_TILE) by {
        if x > a.depth {
            assert(a.buffer[x] != EMPTY_TILE);
        }
    }
    assert forall|d: int| #[trigger] placed_cell(gb, b, d) == placed_cell(ga, a, d) by {
        assert(b.buffer[d] == a.buffer[d]);
    }
    assert forall|d: int|
        0 <= d < BOARD_SIZE && #[trigger] placed_cell(gb, b, d) implies exists|k: int|
        0 <= k < b.current_move_len && b.current_positions[k] == line_pos(
            b.anchor as int,
            b.is_horizontal,
            d,
        ) by {
        assert(placed_cell(ga, a, d));
        let k = choose|k: int|
            0 <= k < a.current_move_len && a.current_positions[k] == line_pos(
                a.anchor as int,
                a.is_horizontal,
                d,
            );
        assert(b.current_positions[k] == a.current_positions[k]);
    }
}

/// Putting a tile on the empty current cell keeps the shape.
pub proof fn lemma_shape_place(
    a: &RecursionContext,
    ga: &GeneratorContext,
    b: &RecursionContext,
    gb: &GeneratorContext,
    tile: char,
)
    requires
        shape_ok(a, ga),
        a.anchor < TOTAL_SIZE,
        b.anchor == a.anchor,
        b.is_horizontal == a.is_horizontal,
        gb.hori_buffers == ga.hori_buffers,
        0 <= a.depth < BOARD_SIZE,
        a.buffer[a.depth as int] == EMPTY_TILE,
        tile != EMPTY_TILE,
        b.is_forwards == a.is_forwards,
        b.depth == a.depth,
        b.buffer@ == a.buffer@.update(a.depth as int, tile),
        b.current_move_len == a.current_move_len + 1,
        b.current_positions@ == a.current_positions@.update(
            a.current_move_len as int,
            line_pos(a.anchor as int, a.is_horizontal, a.depth as int) as u8,
        ),
        0 <= line_pos(a.anchor as int, a.is_horizontal, a.depth as int) < 256,
        a.current_move_len < b.current_positions@.len(),
    ensures
        shape_ok(b, gb),
{
    assert(snapshot(gb) =~= snapshot(ga));
    let n = a.current_move_len as int;
    let x = anchor_index(a);
    assert forall|d: int| #[trigger] line_cell(gb, b, d) == line_cell(ga, a, d) by {
    }
    assert forall|d: int|
        0 <= d < BOARD_SIZE && #[trigger] placed_cell(gb, b, d) implies exists|k: int|
        0 <= k < b.current_move_len && b.current_positions[k] == line_pos(
            b.anchor as int,
            b.is_horizontal,
            d,
        ) by {
        if d == a.depth {
            assert(b.current_positions[n] == line_pos(a.anchor as int, a.is_horizontal, a.depth as int));
        } else {
            assert(b.buffer[d] == a.buffer[d]);
            assert(placed_cell(ga, a, d));
            let k = choose|k: int|
                0 <= k < a.current_move_len && a.current_positions[k] == line_pos(
                    a.anchor as int,
                    a.is_horizontal,
                    d,
                );
            assert(b.current_positions[k] == a.current_positions[k]);
        }
    }
    if b.is_forwards {
        assert(a.depth != x);
        assert forall|d: int| x <= d < b.depth implies #[trigger] b.buffer[d] != EMPTY_TILE by {
            assert(b.buffer[d] == a.buffer[d]);
        }
        assert(b.buffer[x] == a.buffer[x]);
        lemma_run_start_update(a.buffer@, x, a.depth as int, tile);
        lemma_run_start(a.buffer@, x);
        assert forall|d: int|
            0 <= d < BOARD_SIZE && #[trigger] placed_cell(gb, b, d) implies run_start(b.buffer@, x)
            <= d <= b.depth by {
            if d != a.depth {
                assert(b.buffer[d] == a.buffer[d]);
                assert(placed_cell(ga, a, d));
            }
        }
    } else {
        assert forall|d: int| b.depth < d <= x implies #[trigger] b.buffer[d] != EMPTY_TILE by {
            assert(b.buffer[d] == a.buffer[d]);
        }
        assert forall|d: int|
            0 <= d < BOARD_SIZE && #[trigger] placed_cell(gb, b, d) implies b.depth <= d <= x by {
            if d != a.depth {
                assert(b.buffer[d] == a.buffer[d]);
                assert(placed_cell(ga, a, d));
            }
        }
    }
}

/// A walk starts with the shape: nothing placed, at its anchor.
pub proof fn lemma_shape_start(ctx: &RecursionContext, gen: &GeneratorContext)
    requires
        ctx.anchor < TOTAL_SIZE,
        anchor_at(snapshot(gen), ctx.anchor as int) || ctx.anchor == TOTAL_SIZE / 2,
        !ctx.is_forwards,
        ctx.depth == anchor_index(ctx),
        ctx.current_move_len == 0,
        forall|d: int| 0 <= d < BOARD_SIZE ==> #[trigger] ctx.buffer[d] == line_cell(gen, ctx, d),
    ensures
        shape_ok(ctx, gen),
{
    assert forall|d: int| 0 <= d < BOARD_SIZE implies !#[trigger] placed_cell(gen, ctx, d) by {
        assert(ctx.buffer[d] == line_cell(gen, ctx, d));
    }
}

/// Cell `e` of the line, next to cell `d`, is an orthogonal neighbour on the board.
proof fn lemma_line_neighbour(anchor: int, h: bool, d: int, e: int)
    requires
        0 <= anchor < TOTAL_SIZE,
        0 <= d < BOARD_SIZE,
        0 <= e < BOARD_SIZE,
        e == d - 1 || e == d + 1,
    ensures
        ({
            let p = line_pos(anchor, h, d);
            let q = line_pos(anchor, h, e);
            let row = p / BOARD_SIZE as int;
            let col = p % BOARD_SIZE as int;
            &&& 0 <= p < TOTAL_SIZE
            &&& 0 <= q < TOTAL_SIZE
            &&& {
                ||| col > 0 && q == p - 1
                ||| col + 1 < BOARD_SIZE && q == p + 1
                ||| row > 0 && q == p - BOARD_SIZE
                ||| row + 1 < BOARD_SIZE && q == p + BOARD_SIZE
            }
        }),
{
    let p = line_pos(anchor, h, d);
    let r = anchor / BOARD_SIZE as int;
    let c = anchor % BOARD_SIZE as int;
    if h {
        assert(p == r * BOARD_SIZE as int + d);
        assert(p / BOARD_SIZE as int == r);
        assert(p % BOARD_SIZE as int == d);
    } else {
        assert(p == d * BOARD_SIZE as int + c);
        assert(p / BOARD_SIZE as int == d);
        assert(p % BOARD_SIZE as int == c);
    }
}

/// `p` is the board index of a cell of the walk's line from `lo` to the current cell.
pub open spec fn in_region(ctx: &RecursionContext, lo: int, p: int) -> bool {
    exists|d: int|
        0 <= d < BOARD_SIZE && p == line_pos(ctx.anchor as int, ctx.is_horizontal, d) && lo <= d
            <= ctx.depth
}

/// A move recorded where the walk stands on a tile, walking forwards, covers
/// the centre or has every tile touching another.
pub proof fn lemma_record_connected(ctx: &RecursionContext, gen: &GeneratorContext)
    requires
        shape_ok(ctx, gen),
        ctx.anchor < TOTAL_SIZE,
        ctx.is_forwards,
        0 <= ctx.depth < BOARD_SIZE,
        ctx.buffer[ctx.depth as int] != EMPTY_TILE,
        ctx.current_move_len <= ctx.current_positions@.len(),
        forall|k: int| 0 <= k < ctx.current_move_len ==> #[trigger] placed_at(gen, ctx, k),
    ensures
        touches_or_centre(
            snapshot(gen),
            Seq::new(
                ctx.current_move_len as nat,
                |i: int| (ctx.current_tiles[i], ctx.current_positions[i]),
            ),
        ),
{
    let m = Seq::new(
        ctx.current_move_len as nat,
        |i: int| (ctx.current_tiles[i], ctx.current_positions[i]),
    );
    let board = snapshot(gen);
    let x = anchor_index(ctx);
    let rs = run_start(ctx.buffer@, x);
    lemma_run_start(ctx.buffer@, x);
    assert forall|d: int| rs <= d <= ctx.depth implies ctx.buffer@[d] != EMPTY_TILE by {
        if x <= d < ctx.depth {
            assert(ctx.buffer[d] != EMPTY_TILE);
        }
    }
    assert forall|i: int| 0 <= i < m.len() implies in_region(ctx, rs, (#[trigger] m[i]).1 as int) by {
        assert(placed_at(gen, ctx, i));
        let d = choose|d: int|
            0 <= d < BOARD_SIZE && ctx.current_positions[i] == line_pos(
                ctx.anchor as int,
                ctx.is_horizontal,
                d,
            ) && ctx.buffer[d] != EMPTY_TILE && line_cell(gen, ctx, d) == EMPTY_TILE;
        assert(placed_cell(gen, ctx, d));
    }
    if rs < ctx.depth {
        assert forall|i: int| 0 <= i < m.len() implies touches(board, m, (#[trigger] m[i]).1 as int) by {
            assert(in_region(ctx, rs, m[i].1 as int));
            let d = choose|d: int|
                0 <= d < BOARD_SIZE && m[i].1 == line_pos(ctx.anchor as int, ctx.is_horizontal, d)
                    && rs <= d <= ctx.depth;
            let e = if d > rs {
                d - 1
            } else {
                d + 1
            };
            lemma_line_neighbour(ctx.anchor as int, ctx.is_horizontal, d, e);
            let q = line_pos(ctx.anchor as int, ctx.is_horizontal, e);
            assert(ctx.buffer@[e] != EMPTY_TILE);
            if line_cell(gen, ctx, e) == EMPTY_TILE {
                assert(placed_cell(gen, ctx, e));
                let j = choose|j: int|
                    0 <= j < ctx.current_move_len && ctx.current_positions[j] == line_pos(
                        ctx.anchor as int,
                        ctx.is_horizontal,
                        e,
                    );
                assert(m[j].1 == q);
            } else {
                assert(board[q] != EMPTY_TILE);
            }
            assert(occupied(board, m, q));
        }
    } else {
        let a = ctx.anchor as int;
        assert(line_pos(a, ctx.is_horizontal, x) == a) by {
            assert(a == (a / BOARD_SIZE as int) * BOARD_SIZE as int + a % BOARD_SIZE as int);
        }
        if a == TOTAL_SIZE / 2 {
            if m.len() > 0 {
                assert(in_region(ctx, rs, m[0].1 as int));
                let d = choose|d: int|
                    0 <= d < BOARD_SIZE && m[0].1 == line_pos(ctx.anchor as int, ctx.is_horizontal, d)
                        && rs <= d <= ctx.depth;
                assert(m[0].1 == TOTAL_SIZE / 2);
            }
        } else {
            assert forall|i: int| 0 <= i < m.len() implies touches(board, m, (#[trigger] m[i]).1 as int) by {
                assert(in_region(ctx, rs, m[i].1 as int));
                let d = choose|d: int|
                    0 <= d < BOARD_SIZE && m[i].1 == line_pos(ctx.anchor as int, ctx.is_horizontal, d)
                        && rs <= d <= ctx.depth;
                assert(d == x);
                assert(anchor_at(board, a));
            }
        }
    }
}

} // verus!
