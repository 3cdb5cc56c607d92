use vstd::prelude::*;

use crate::board::Board;
use crate::constants::{BOARD_SIZE, BoardPosition, EMPTY_TILE, PIVOT, RACK_SIZE, TOTAL_SIZE};
use crate::crossword_move::CrosswordMove;
use crate::gaddag::{GaddagNode, edge};
use crate::rack::{Rack, lemma_present_counted};

verus! {

/// Board index of cell `d` of the row (horizontal) or column (vertical) through `anchor`.
pub open spec fn line_pos(anchor: int, is_horizontal: bool, d: int) -> int {
    if is_horizontal {
        (anchor / BOARD_SIZE as int) * BOARD_SIZE as int + d
    } else {
        d * BOARD_SIZE as int + anchor % BOARD_SIZE as int
    }
}

/// Per-call state of move generation: the moves found, the anchors already
/// explored, and each row and each column of the board.
pub struct GeneratorContext {
    pub moves: Vec<CrosswordMove>,
    pub explored_anchors: [bool; TOTAL_SIZE],
    pub hori_buffers: [[char; BOARD_SIZE]; BOARD_SIZE],
    pub vert_buffers: [[char; BOARD_SIZE]; BOARD_SIZE],
}

/// Per-anchor state of the walk: the move under construction, the trie node
/// reached, the rack, the line being extended, and where and which way the
/// walk stands on it.
pub struct RecursionContext<'a> {
    pub anchor: usize,
    pub current_tiles: [char; RACK_SIZE],
    pub current_positions: [BoardPosition; RACK_SIZE],
    pub current_slots: [usize; RACK_SIZE],
    pub current_move_len: u8,
    pub node: &'a GaddagNode,
    pub rack: &'a mut Rack,
    pub buffer: [char; BOARD_SIZE],
    pub depth: i32,
    pub is_horizontal: bool,
    pub is_forwards: bool,
}

/// One step of the walk.
#[derive(Debug)]
pub enum ExtendAction {
    /// Put the tile of a rack slot, as the given letter, on the current cell.
    PlaceFromRack(usize, char),
    /// Move one cell along the current direction.
    TraverseExisting(),
    /// Cross the pivot: turn from walking backwards to walking forwards.
    TraversePivot(),
}

impl GeneratorContext {
    /// The board cell at `p`, as the row snapshots hold it.
    pub open spec fn cell(&self, p: int) -> char {
        self.hori_buffers[p / BOARD_SIZE as int][p % BOARD_SIZE as int]
    }

    /// The row and column snapshots both hold the board.
    pub open spec fn mirrors(&self, board: Seq<char>) -> bool {
        forall|y: int, x: int|
            0 <= y < BOARD_SIZE && 0 <= x < BOARD_SIZE ==> {
                &&& #[trigger] self.hori_buffers[y][x] == board[y * BOARD_SIZE as int + x]
                &&& self.vert_buffers[x][y] == board[y * BOARD_SIZE as int + x]
            }
    }

    pub fn new(board: &Board) -> (r: GeneratorContext)
        ensures
            r.mirrors(board@),
            r.moves@.len() == 0,
            forall|i: int| 0 <= i < TOTAL_SIZE ==> !r.explored_anchors[i],
    {
        let moves: Vec<CrosswordMove> = Vec::new();
        let explored_anchors = [false; TOTAL_SIZE];
        let mut hori_buffers = [[EMPTY_TILE; BOARD_SIZE]; BOARD_SIZE];
        let mut vert_buffers = [[EMPTY_TILE; BOARD_SIZE]; BOARD_SIZE];
        proof {
            board.lemma_len();
        }
        let mut k: usize = 0;
        while k < BOARD_SIZE
            invariant
                k <= BOARD_SIZE,
                board@.len() == TOTAL_SIZE,
                forall|y: int, x: int|
                    0 <= y < k && 0 <= x < BOARD_SIZE ==> #[trigger] hori_buffers[y][x]
                        == board@[y * BOARD_SIZE as int + x],
                forall|y: int, x: int|
                    0 <= y < BOARD_SIZE && 0 <= x < k ==> #[trigger] vert_buffers[x][y]
                        == board@[y * BOARD_SIZE as int + x],
            decreases BOARD_SIZE - k,
        {
            hori_buffers[k] = board_row(board, k);
            vert_buffers[k] = board_column(board, k);
            k += 1;
        }
        GeneratorContext { moves, explored_anchors, hori_buffers, vert_buffers }
    }
}

impl<'a> RecursionContext<'a> {
    pub fn new(
        anchor: usize,
        node: &'a GaddagNode,
        rack: &'a mut Rack,
        buffer: [char; BOARD_SIZE],
        depth: i32,
        is_horizontal: bool,
        is_forwards: bool,
    ) -> (r: RecursionContext<'a>)
        ensures
            r.anchor == anchor,
            r.node == node,
            *r.rack == *old(rack),
            *final(r.rack) == *final(rack),
            r.buffer == buffer,
            r.depth == depth,
            r.is_horizontal == is_horizontal,
            r.is_forwards == is_forwards,
            r.current_move_len == 0,
            forall|k: int|
                0 <= k < RACK_SIZE ==> r.current_tiles[k] == EMPTY_TILE && r.current_positions[k]
                    == 0 && r.current_slots[k] == 0,
    {
        RecursionContext {
            anchor,
            current_tiles: [EMPTY_TILE; RACK_SIZE],
            current_positions: [0; RACK_SIZE],
            current_slots: [0; RACK_SIZE],
            current_move_len: 0,
            node,
            rack,
            buffer,
            depth,
            is_horizontal,
            is_forwards,
        }
    }

    /// The depth as an index into the line.
    pub fn depth(&self) -> (r: usize)
        requires
            self.depth >= 0,
        ensures
            r == self.depth,
    {
        self.depth as usize
    }

    /// The walk has left the line at its start.
    pub fn out_of_bounds_backwards(&self) -> (r: bool)
        ensures
            r == (self.depth < 0),
    {
        self.depth < 0
    }

    /// The depth is not a cell of the line.
    pub fn out_of_bounds_forwards(&self) -> (r: bool)
        ensures
            r == (self.depth < 0 || self.depth >= BOARD_SIZE),
    {
        self.depth < 0 || self.depth as usize >= BOARD_SIZE
    }

    pub fn is_current_empty(&self) -> (r: bool)
        requires
            0 <= self.depth < BOARD_SIZE,
        ensures
            r == (self.buffer[self.depth as int] == EMPTY_TILE),
    {
        self.current_tile() == EMPTY_TILE
    }

    /// The cell before the current one holds a tile.
    pub fn prev_tile_exists(&self) -> (r: bool)
        requires
            self.depth <= BOARD_SIZE,
        ensures
            r == (self.depth > 0 && self.buffer[self.depth - 1] != EMPTY_TILE),
    {
        self.depth > 0 && self.current_tile_with_mod(-1) != EMPTY_TILE
    }

    /// The cell after the current one holds a tile.
    pub fn next_tile_exists(&self) -> (r: bool)
        requires
            self.depth >= 0,
        ensures
            r == (self.depth + 1 < BOARD_SIZE && self.buffer[self.depth + 1] != EMPTY_TILE),
    {
        self.depth < i32::MAX && (self.depth() + 1) < BOARD_SIZE && self.current_tile_with_mod(1) != EMPTY_TILE
    }

    pub fn pivot_child(&self) -> (r: Option<&'a GaddagNode>)
        requires
            self.node.wf(),
        ensures
            r is Some == self.node.child(edge(PIVOT)) is Some,
            r matches Some(c) ==> self.node.child(edge(PIVOT)) == Some(*c) && c.wf(),
    {
        self.node.get_child(PIVOT)
    }

    /// Board index of the current cell.
    pub fn position_at_depth(&self) -> (r: usize)
        requires
            self.anchor < TOTAL_SIZE,
            0 <= self.depth < BOARD_SIZE,
        ensures
            r == line_pos(self.anchor as int, self.is_horizontal, self.depth as int),
            r < TOTAL_SIZE,
    {
        if self.is_horizontal {
            (self.anchor / BOARD_SIZE) * BOARD_SIZE + self.depth()
        } else {
            self.depth() * BOARD_SIZE + self.anchor % BOARD_SIZE
        }
    }

    /// Where the anchor lies along the line: its column for a row, its row
    /// for a column.
    pub fn starting_square(&self) -> (r: usize)
        ensures
            r == if self.is_horizontal {
                self.anchor % BOARD_SIZE
            } else {
                self.anchor / BOARD_SIZE
            },
    {
        if self.is_horizontal {
            self.anchor % BOARD_SIZE
        } else {
            self.anchor / BOARD_SIZE
        }
    }

    pub fn current_tile(&self) -> (r: char)
        requires
            0 <= self.depth < BOARD_SIZE,
        ensures
            r == self.buffer[self.depth as int],
    {
        self.buffer[self.depth()]
    }

    /// The cell `modifyer` cells away from the current one.
    pub fn current_tile_with_mod(&self, modifyer: i32) -> (r: char)
        requires
            0 <= self.depth + modifyer < BOARD_SIZE,
        ensures
            r == self.buffer[self.depth + modifyer],
    {
        self.buffer[(self.depth + modifyer) as usize]
    }

    /// Takes one step of the walk and moves to `new_node`.
    pub fn extend(&mut self, action: &ExtendAction, new_node: &'a GaddagNode)
        requires
            match *action {
                ExtendAction::PlaceFromRack(idx, tile) => {
                    &&& idx < RACK_SIZE
                    &&& old(self).rack.wf()
                    &&& old(self).rack.present(idx as int)
                    &&& old(self).anchor < TOTAL_SIZE
                    &&& 0 <= old(self).depth < BOARD_SIZE
                    &&& old(self).current_move_len < RACK_SIZE
                },
                ExtendAction::TraverseExisting() => 0 <= old(self).depth < BOARD_SIZE,
                ExtendAction::TraversePivot() => true,
            },
        ensures
            final(self).node == new_node,
            final(self).anchor == old(self).anchor,
            final(self).is_horizontal == old(self).is_horizontal,
            *final(final(self).rack) == *final(old(self).rack),
            match *action {
                ExtendAction::PlaceFromRack(idx, tile) => {
                    let n = old(self).current_move_len as int;
                    &&& final(self).rack.tiles == old(self).rack.tiles
                    &&& final(self).rack.len + 1 == old(self).rack.len
                    &&& final(self).rack.wf()
                    &&& !final(self).rack.present(idx as int)
                    &&& forall|j: int| 0 <= j < RACK_SIZE && j != idx ==> (final(self).rack.present(j) <==> old(self).rack.present(j))
                    &&& final(self).rack.unmarked(idx as int) == *old(self).rack
                    &&& final(self).buffer@ == old(self).buffer@.update(old(self).depth as int, tile)
                    &&& final(self).current_move_len == n + 1
                    &&& final(self).current_tiles@ == old(self).current_tiles@.update(n, tile)
                    &&& final(self).current_positions@ == old(self).current_positions@.update(
                        n,
                        line_pos(old(self).anchor as int, old(self).is_horizontal, old(self).depth as int) as u8,
                    )
                    &&& final(self).current_slots@ == old(self).current_slots@.update(n, idx)
                    &&& final(self).depth == old(self).depth
                    &&& final(self).is_forwards == old(self).is_forwards
                },
                ExtendAction::TraverseExisting() => {
                    &&& *final(self).rack == *old(self).rack
                    &&& final(self).buffer == old(self).buffer
                    &&& final(self).current_move_len == old(self).current_move_len
                    &&& final(self).current_tiles == old(self).current_tiles
                    &&& final(self).current_positions == old(self).current_positions
                    &&& final(self).current_slots == old(self).current_slots
                    &&& final(self).depth == if old(self).is_forwards {
                        old(self).depth + 1
                    } else {
                        old(self).depth - 1
                    }
                    &&& final(self).is_forwards == old(self).is_forwards
                },
                ExtendAction::TraversePivot() => {
                    &&& *final(self).rack == *old(self).rack
                    &&& final(self).buffer == old(self).buffer
                    &&& final(self).current_move_len == old(self).current_move_len
                    &&& final(self).current_tiles == old(self).current_tiles
                    &&& final(self).current_positions == old(self).current_positions
                    &&& final(self).current_slots == old(self).current_slots
                    &&& final(self).depth == old(self).depth
                    &&& final(self).is_forwards == !old(self).is_forwards
                },
            },
    {
        self.update_node(new_node);
        match action {
            ExtendAction::PlaceFromRack(idx, tile) => {
                self.update_move(*idx, *tile);
            },
            ExtendAction::TraverseExisting() => {
                self.update_depth_forward();
            },
            ExtendAction::TraversePivot() => {
                self.update_direction();
            },
        }
    }

    /// Takes back a step of the walk and returns to `previous_node`.
    pub fn undo(&mut self, action: &ExtendAction, previous_node: &'a GaddagNode)
        requires
            match *action {
                ExtendAction::PlaceFromRack(idx, tile) => {
                    &&& idx < RACK_SIZE
                    &&& old(self).rack.len < RACK_SIZE
                    &&& 0 <= old(self).depth < BOARD_SIZE
                    &&& 0 < old(self).current_move_len <= RACK_SIZE
                },
                ExtendAction::TraverseExisting() => -1 <= old(self).depth <= BOARD_SIZE,
                ExtendAction::TraversePivot() => true,
            },
        ensures
            final(self).node == previous_node,
            final(self).anchor == old(self).anchor,
            final(self).is_horizontal == old(self).is_horizontal,
            *final(final(self).rack) == *final(old(self).rack),
            match *action {
                ExtendAction::PlaceFromRack(idx, tile) => {
                    let n = old(self).current_move_len - 1;
                    &&& *final(self).rack == old(self).rack.unmarked(idx as int)
                    &&& final(self).buffer@ == old(self).buffer@.update(old(self).depth as int, EMPTY_TILE)
                    &&& final(self).current_move_len == n
                    &&& final(self).current_tiles@ == old(self).current_tiles@.update(n, EMPTY_TILE)
                    &&& final(self).current_positions@ == old(self).current_positions@.update(n, 0)
                &&& final(self).current_slots@ == old(self).current_slots@.update(n, 0)
                    &&& final(self).depth == old(self).depth
                    &&& final(self).is_forwards == old(self).is_forwards
                },
                ExtendAction::TraverseExisting() => {
                    &&& *final(self).rack == *old(self).rack
                    &&& final(self).buffer == old(self).buffer
                    &&& final(self).current_move_len == old(self).current_move_len
                    &&& final(self).current_tiles == old(self).current_tiles
                    &&& final(self).current_positions == old(self).current_positions
                    &&& final(self).current_slots == old(self).current_slots
                    &&& final(self).depth == if old(self).is_forwards {
                        old(self).depth - 1
                    } else {
                        old(self).depth + 1
                    }
                    &&& final(self).is_forwards == old(self).is_forwards
                },
                ExtendAction::TraversePivot() => {
                    &&& *final(self).rack == *old(self).rack
                    &&& final(self).buffer == old(self).buffer
                    &&& final(self).current_move_len == old(self).current_move_len
                    &&& final(self).current_tiles == old(self).current_tiles
                    &&& final(self).current_positions == old(self).current_positions
                    &&& final(self).current_slots == old(self).current_slots
                    &&& final(self).depth == old(self).depth
                    &&& final(self).is_forwards == !old(self).is_forwards
                },
            },
    {
        self.update_node(previous_node);
        match action {
            ExtendAction::TraversePivot() => {
                self.update_direction();
            },
            ExtendAction::PlaceFromRack(idx, _) => {
                self.revert_move(*idx);
            },
            ExtendAction::TraverseExisting() => {
                self.update_depth_backward();
            },
        }
    }

    fn update_node(&mut self, node: &'a GaddagNode)
        ensures
            final(self).node == node,
            *final(final(self).rack) == *final(old(self).rack),
            *final(self).rack == *old(self).rack,
            final(self).anchor == old(self).anchor,
            final(self).is_horizontal == old(self).is_horizontal,
            final(self).buffer == old(self).buffer,
            final(self).current_move_len == old(self).current_move_len,
            final(self).current_tiles == old(self).current_tiles,
            final(self).current_positions == old(self).current_positions,
            final(self).current_slots == old(self).current_slots,
            final(self).depth == old(self).depth,
            final(self).is_forwards == old(self).is_forwards,
    {
        self.node = node;
    }

    fn update_move(&mut self, rack_idx: usize, tile: char)
        requires
            rack_idx < RACK_SIZE,
            old(self).rack.wf(),
            old(self).rack.present(rack_idx as int),
            old(self).anchor < TOTAL_SIZE,
            0 <= old(self).depth < BOARD_SIZE,
            old(self).current_move_len < RACK_SIZE,
        ensures
            final(self).node == old(self).node,
            *final(final(self).rack) == *final(old(self).rack),
            final(self).anchor == old(self).anchor,
            final(self).is_horizontal == old(self).is_horizontal,
            ({
                let n = old(self).current_move_len as int;
                &&& final(self).rack.tiles == old(self).rack.tiles
                &&& final(self).rack.len + 1 == old(self).rack.len
                &&& final(self).rack.wf()
                &&& !final(self).rack.present(rack_idx as int)
                &&& forall|j: int| 0 <= j < RACK_SIZE && j != rack_idx ==> (final(self).rack.present(j) <==> old(self).rack.present(j))
                &&& final(self).rack.unmarked(rack_idx as int) == *old(self).rack
                &&& final(self).buffer@ == old(self).buffer@.update(old(self).depth as int, tile)
                &&& final(self).current_move_len == n + 1
                &&& final(self).current_tiles@ == old(self).current_tiles@.update(n, tile)
                &&& final(self).current_positions@ == old(self).current_positions@.update(
                    n,
                    line_pos(old(self).anchor as int, old(self).is_horizontal, old(self).depth as int) as u8,
                )
                &&& final(self).current_slots@ == old(self).current_slots@.update(n, rack_idx)
                &&& final(self).depth == old(self).depth
                &&& final(self).is_forwards == old(self).is_forwards
            }),
    {
        proof {
            lemma_present_counted(*self.rack, rack_idx as int);
        }
        self.rack.mark_used(rack_idx);
        let depth = self.depth();
        self.buffer[depth] = tile;
        let move_len = self.current_move_len as usize;
        self.current_tiles[move_len] = tile;
        let position = self.position_at_depth() as BoardPosition;
        self.current_positions[move_len] = position;
        self.current_slots[move_len] = rack_idx;
        self.current_move_len += 1;
    }

    fn revert_move(&mut self, rack_idx: usize)
        requires
            rack_idx < RACK_SIZE,
            old(self).rack.len < RACK_SIZE,
            0 <= old(self).depth < BOARD_SIZE,
            0 < old(self).current_move_len <= RACK_SIZE,
        ensures
            final(self).node == old(self).node,
            *final(final(self).rack) == *final(old(self).rack),
            final(self).anchor == old(self).anchor,
            final(self).is_horizontal == old(self).is_horizontal,
            ({
                let n = old(self).current_move_len - 1;
                &&& *final(self).rack == old(self).rack.unmarked(rack_idx as int)
                &&& final(self).buffer@ == old(self).buffer@.update(old(self).depth as int, EMPTY_TILE)
                &&& final(self).current_move_len == n
                &&& final(self).current_tiles@ == old(self).current_tiles@.update(n, EMPTY_TILE)
                &&& final(self).current_positions@ == old(self).current_positions@.update(n, 0)
                &&& final(self).current_slots@ == old(self).current_slots@.update(n, 0)
                &&& final(self).depth == old(self).depth
                &&& final(self).is_forwards == old(self).is_forwards
            }),
    {
        self.rack.unmark_used(rack_idx);
        self.current_move_len -= 1;
        let move_len = self.current_move_len as usize;
        let depth = self.depth();
        self.buffer[depth] = EMPTY_TILE;
        self.current_positions[move_len] = 0;
        self.current_slots[move_len] = 0;
        self.current_tiles[move_len] = EMPTY_TILE;
    }

    /// One cell on in the current direction.
    fn update_depth_forward(&mut self)
        requires
            0 <= old(self).depth < BOARD_SIZE,
        ensures
            final(self).node == old(self).node,
            *final(final(self).rack) == *final(old(self).rack),
            *final(self).rack == *old(self).rack,
            final(self).anchor == old(self).anchor,
            final(self).is_horizontal == old(self).is_horizontal,
            final(self).buffer == old(self).buffer,
            final(self).current_move_len == old(self).current_move_len,
            final(self).current_tiles == old(self).current_tiles,
            final(self).current_positions == old(self).current_positions,
            final(self).current_slots == old(self).current_slots,
            final(self).depth == if old(self).is_forwards {
                old(self).depth + 1
            } else {
                old(self).depth - 1
            },
            final(self).is_forwards == old(self).is_forwards,
    {
        if self.is_forwards {
            self.depth += 1;
        } else {
            self.depth -= 1;
        }
    }

    /// One cell back against the current direction.
    fn update_depth_backward(&mut self)
        requires
            -1 <= old(self).depth <= BOARD_SIZE,
        ensures
            final(self).node == old(self).node,
            *final(final(self).rack) == *final(old(self).rack),
            *final(self).rack == *old(self).rack,
            final(self).anchor == old(self).anchor,
            final(self).is_horizontal == old(self).is_horizontal,
            final(self).buffer == old(self).buffer,
            final(self).current_move_len == old(self).current_move_len,
            final(self).current_tiles == old(self).current_tiles,
            final(self).current_positions == old(self).current_positions,
            final(self).current_slots == old(self).current_slots,
            final(self).depth == if old(self).is_forwards {
                old(self).depth - 1
            } else {
                old(self).depth + 1
            },
            final(self).is_forwards == old(self).is_forwards,
    {
        if self.is_forwards {
            self.depth -= 1;
        } else {
            self.depth += 1;
        }
    }

    fn update_direction(&mut self)
        ensures
            final(self).node == old(self).node,
            *final(final(self).rack) == *final(old(self).rack),
            *final(self).rack == *old(self).rack,
            final(self).anchor == old(self).anchor,
            final(self).is_horizontal == old(self).is_horizontal,
            final(self).buffer == old(self).buffer,
            final(self).current_move_len == old(self).current_move_len,
            final(self).current_tiles == old(self).current_tiles,
            final(self).current_positions == old(self).current_positions,
            final(self).current_slots == old(self).current_slots,
            final(self).depth == old(self).depth,
            final(self).is_forwards == !old(self).is_forwards,
    {
        self.is_forwards = !self.is_forwards;
    }
}

fn board_row(board: &Board, y: usize) -> (r: [char; BOARD_SIZE])
    requires
        y < BOARD_SIZE,
        board@.len() == TOTAL_SIZE,
    ensures
        forall|x: int| 0 <= x < BOARD_SIZE ==> #[trigger] r[x] == board@[y * BOARD_SIZE as int + x],
{
    let mut r = [EMPTY_TILE; BOARD_SIZE];
    let mut x: usize = 0;
    while x < BOARD_SIZE
        invariant
            x <= BOARD_SIZE,
            y < BOARD_SIZE,
            board@.len() == TOTAL_SIZE,
            forall|xx: int| 0 <= xx < x ==> #[trigger] r[xx] == board@[y * BOARD_SIZE as int + xx],
        decreases BOARD_SIZE - x,
    {
        r[x] = board.get(y * BOARD_SIZE + x);
        x += 1;
    }
    r
}

fn board_column(board: &Board, x: usize) -> (r: [char; BOARD_SIZE])
    requires
        x < BOARD_SIZE,
        board@.len() == TOTAL_SIZE,
    ensures
        forall|y: int| 0 <= y < BOARD_SIZE ==> #[trigger] r[y] == board@[y * BOARD_SIZE as int + x],
{
    let mut r = [EMPTY_TILE; BOARD_SIZE];
    let mut y: usize = 0;
    while y < BOARD_SIZE
        invariant
            y <= BOARD_SIZE,
            x < BOARD_SIZE,
            board@.len() == TOTAL_SIZE,
            forall|yy: int| 0 <= yy < y ==> #[trigger] r[yy] == board@[yy * BOARD_SIZE as int + x],
        decreases BOARD_SIZE - y,
    {
        r[y] = board.get(y * BOARD_SIZE + x);
        y += 1;
    }
    r
}

} // verus!
