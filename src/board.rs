use vstd::prelude::*;

use crate::constants::{BOARD_SIZE, BoardPosition, EMPTY_TILE, TOTAL_SIZE, is_tile, to_upper};
use crate::crossword_move::CrosswordMove;

verus! {

/// A cell holds the empty sentinel or a tile.
pub open spec fn valid_cell(c: char) -> bool {
    c == EMPTY_TILE || is_tile(to_upper(c))
}

/// The cells after the first `k` placements of `m` are written into `cells`.
pub open spec fn place_first(cells: Seq<char>, m: Seq<(char, BoardPosition)>, k: int) -> Seq<char>
    decreases k,
{
    if k <= 0 {
        cells
    } else {
        place_first(cells, m, k - 1).update(m[k - 1].1 as int, m[k - 1].0)
    }
}

/// The cells after the positions of the first `k` placements of `m` are emptied.
pub open spec fn clear_first(cells: Seq<char>, m: Seq<(char, BoardPosition)>, k: int) -> Seq<char>
    decreases k,
{
    if k <= 0 {
        cells
    } else {
        clear_first(cells, m, k - 1).update(m[k - 1].1 as int, EMPTY_TILE)
    }
}

/// Every position of the placements is on the board.
pub open spec fn on_board(m: Seq<(char, BoardPosition)>) -> bool {
    forall|i: int| 0 <= i < m.len() ==> (#[trigger] m[i]).1 < TOTAL_SIZE
}

/// An empty cell with an occupied orthogonal neighbour.
pub open spec fn anchor_at(cells: Seq<char>, index: int) -> bool {
    let row = index / BOARD_SIZE as int;
    let col = index % BOARD_SIZE as int;
    &&& cells[index] == EMPTY_TILE
    &&& {
        ||| col > 0 && cells[index - 1] != EMPTY_TILE
        ||| col + 1 < BOARD_SIZE && cells[index + 1] != EMPTY_TILE
        ||| row > 0 && cells[index - BOARD_SIZE] != EMPTY_TILE
        ||| row + 1 < BOARD_SIZE && cells[index + BOARD_SIZE] != EMPTY_TILE
    }
}

/// The 15×15 grid, row by row, and the number of tiles that moves have put on it.
pub struct Board {
    tiles: [char; TOTAL_SIZE],
    tile_count: usize,
}

impl View for Board {
    type V = Seq<char>;

    closed spec fn view(&self) -> Seq<char> {
        self.tiles@
    }
}

impl Board {
    pub closed spec fn count(&self) -> nat {
        self.tile_count as nat
    }

    /// Every cell is empty or holds a tile.
    pub open spec fn cells_ok(&self) -> bool {
        &&& self@.len() == TOTAL_SIZE
        &&& forall|i: int| 0 <= i < TOTAL_SIZE ==> valid_cell(#[trigger] self@[i])
    }

    /// Every cell is empty or holds a tile, and the count is the number of
    /// occupied cells.
    pub open spec fn wf(&self) -> bool {
        &&& self.cells_ok()
        &&& self.count() == occupied(self@)
    }

    pub proof fn lemma_len(&self)
        ensures
            self@.len() == TOTAL_SIZE,
    {
    }

    pub fn new() -> (r: Board)
        ensures
            r.wf(),
            r@ == Seq::new(TOTAL_SIZE as nat, |i: int| EMPTY_TILE),
            r.count() == 0,
    {
        let r = Board { tiles: [EMPTY_TILE; TOTAL_SIZE], tile_count: 0 };
        assert(r@ =~= Seq::new(TOTAL_SIZE as nat, |i: int| EMPTY_TILE));
        proof {
            lemma_occupied_empty(r@, TOTAL_SIZE as int);
        }
        r
    }

    pub fn is_cell_empty(&self, index: usize) -> (r: bool)
        requires
            index < TOTAL_SIZE,
        ensures
            r == (self@[index as int] == EMPTY_TILE),
    {
        self.tiles[index] == EMPTY_TILE
    }

    /// No move has put a tile on the board.
    pub fn is_empty(&self) -> (r: bool)
        ensures
            r == (self.count() == 0),
    {
        self.tile_count == 0
    }

    /// Writes a tile into a cell; the tile count is left to `make_move`.
    pub fn place(&mut self, tile: char, index: BoardPosition)
        requires
            index < TOTAL_SIZE,
        ensures
            final(self)@ == old(self)@.update(index as int, tile),
            final(self).count() == old(self).count(),
            old(self).cells_ok() && valid_cell(tile) ==> final(self).cells_ok(),
            old(self).wf() && valid_cell(tile) && ((old(self)@[index as int] == EMPTY_TILE) == (
            tile == EMPTY_TILE)) ==> final(self).wf(),
    {
        proof {
            self.lemma_len();
            lemma_occupied_update(self@, index as int, tile, TOTAL_SIZE as int);
        }
        self.tiles[index as usize] = tile;
    }

    pub fn get(&self, index: usize) -> (r: char)
        requires
            index < TOTAL_SIZE,
        ensures
            r == self@[index as int],
    {
        self.tiles[index]
    }

    /// Writes each placement of the move and counts its tiles.
    pub fn make_move(&mut self, crossword_move: &CrosswordMove)
        requires
            crossword_move.wf(),
            on_board(crossword_move.placements()),
            old(self).count() + crossword_move.placements().len() <= usize::MAX,
        ensures
            final(self)@ == place_first(
                old(self)@,
                crossword_move.placements(),
                crossword_move.placements().len() as int,
            ),
            final(self).count() == old(self).count() + crossword_move.placements().len(),
            old(self).cells_ok() && (forall|i: int|
                0 <= i < crossword_move.placements().len() ==> valid_cell(
                    #[trigger] crossword_move.placements()[i].0,
                )) ==> final(self).cells_ok(),
            old(self).wf() && fresh_placements(old(self)@, crossword_move.placements())
                ==> final(self).wf(),
    {
        let ghost m = crossword_move.placements();
        let n = crossword_move.len();
        let mut i: usize = 0;
        while i < n
            invariant
                crossword_move.wf(),
                m == crossword_move.placements(),
                on_board(m),
                n == m.len(),
                i <= n,
                self.tile_count == old(self).tile_count,
                self@ == place_first(old(self)@, m, i as int),
                old(self).cells_ok() && (forall|j: int| 0 <= j < m.len() ==> valid_cell(#[trigger] m[j].0))
                    ==> self.cells_ok(),
                old(self).wf() && fresh_placements(old(self)@, m) ==> occupied(self@) == occupied(
                    old(self)@,
                ) + i,
            decreases n - i,
        {
            let placement = crossword_move.placement(i);
            assert(m[i as int] == placement);
            proof {
                if old(self).wf() && fresh_placements(old(self)@, m) {
                    lemma_place_first_value(old(self)@, m, i as int, m[i as int].1 as int);
                    assert(self@[m[i as int].1 as int] == EMPTY_TILE);
                }
                lemma_place_first_at(old(self)@, m, i as int, 0);
                lemma_occupied_update(self@, m[i as int].1 as int, m[i as int].0, TOTAL_SIZE as int);
            }
            self.place(placement.0, placement.1);
            i += 1;
        }
        self.tile_count = self.tile_count + n;
    }

    /// Empties the cell of each placement of the move and uncounts its tiles.
    pub fn undo_move(&mut self, crossword_move: &CrosswordMove)
        requires
            crossword_move.wf(),
            on_board(crossword_move.placements()),
            old(self).count() >= crossword_move.placements().len(),
        ensures
            final(self)@ == clear_first(
                old(self)@,
                crossword_move.placements(),
                crossword_move.placements().len() as int,
            ),
            final(self).count() == old(self).count() - crossword_move.placements().len(),
            old(self).cells_ok() ==> final(self).cells_ok(),
            old(self).wf() && placed_cells(old(self)@, crossword_move.placements())
                ==> final(self).wf(),
    {
        let ghost m = crossword_move.placements();
        let n = crossword_move.len();
        let mut i: usize = 0;
        while i < n
            invariant
                crossword_move.wf(),
                m == crossword_move.placements(),
                on_board(m),
                n == m.len(),
                i <= n,
                self.tile_count == old(self).tile_count,
                self@ == clear_first(old(self)@, m, i as int),
                old(self).cells_ok() ==> self.cells_ok(),
                old(self).wf() && placed_cells(old(self)@, m) ==> occupied(self@) + i == occupied(
                    old(self)@,
                ),
            decreases n - i,
        {
            let placement = crossword_move.placement(i);
            assert(m[i as int] == placement);
            proof {
                if old(self).wf() && placed_cells(old(self)@, m) {
                    lemma_clear_first_at(old(self)@, m, i as int, m[i as int].1 as int);
                    assert(!written(m, i as int, m[i as int].1 as int));
                    assert(self@[m[i as int].1 as int] != EMPTY_TILE);
                }
                lemma_clear_first_at(old(self)@, m, i as int, 0);
                lemma_occupied_update(self@, m[i as int].1 as int, EMPTY_TILE, TOTAL_SIZE as int);
            }
            self.place(EMPTY_TILE, placement.1);
            i += 1;
        }
        self.tile_count = self.tile_count - n;
    }

    pub fn is_anchor(&self, index: usize) -> (r: bool)
        requires
            index < TOTAL_SIZE,
        ensures
            r == anchor_at(self@, index as int),
    {
        if !self.is_cell_empty(index) {
            return false;
        }
        let row = index / BOARD_SIZE;
        let col = index % BOARD_SIZE;

        // left
        if col > 0 && !self.is_cell_empty(index - 1) {
            return true;
        }
        // right
        if col + 1 < BOARD_SIZE && !self.is_cell_empty(index + 1) {
            return true;
        }
        // up
        if row > 0 && !self.is_cell_empty(index - BOARD_SIZE) {
            return true;
        }
        // down
        if row + 1 < BOARD_SIZE && !self.is_cell_empty(index + BOARD_SIZE) {
            return true;
        }
        false
    }

    pub fn increase_tile_count(&mut self)
        requires
            old(self).count() < usize::MAX,
        ensures
            final(self)@ == old(self)@,
            final(self).count() == old(self).count() + 1,
    {
        self.tile_count += 1;
    }
}

/// Number of occupied cells among the first `k`.
pub open spec fn occupied_count(cells: Seq<char>, k: int) -> nat
    decreases k,
{
    if k <= 0 {
        0
    } else {
        occupied_count(cells, k - 1) + if cells[k - 1] != EMPTY_TILE {
            1nat
        } else {
            0nat
        }
    }
}

/// Number of occupied cells of the board.
pub open spec fn occupied(cells: Seq<char>) -> nat {
    occupied_count(cells, TOTAL_SIZE as int)
}

/// The placements put tiles on distinct cells that are empty.
pub open spec fn fresh_placements(cells: Seq<char>, m: Seq<(char, BoardPosition)>) -> bool {
    &&& forall|i: int|
        0 <= i < m.len() ==> (#[trigger] m[i]).0 != EMPTY_TILE && valid_cell(m[i].0)
            && cells[m[i].1 as int] == EMPTY_TILE
    &&& forall|i: int, j: int| 0 <= i < j < m.len() ==> m[i].1 != m[j].1
}

/// The placements lie on distinct cells that hold tiles.
pub open spec fn placed_cells(cells: Seq<char>, m: Seq<(char, BoardPosition)>) -> bool {
    &&& forall|i: int| 0 <= i < m.len() ==> cells[(#[trigger] m[i]).1 as int] != EMPTY_TILE
    &&& forall|i: int, j: int| 0 <= i < j < m.len() ==> m[i].1 != m[j].1
}

proof fn lemma_occupied_empty(cells: Seq<char>, k: int)
    requires
        0 <= k <= cells.len(),
        forall|i: int| 0 <= i < cells.len() ==> cells[i] == EMPTY_TILE,
    ensures
        occupied_count(cells, k) == 0,
    decreases k,
{
    if k > 0 {
        lemma_occupied_empty(cells, k - 1);
    }
}

/// A board with no occupied cells has every cell empty.
pub proof fn lemma_occupied_zero(cells: Seq<char>, k: int)
    requires
        0 <= k <= cells.len(),
        occupied_count(cells, k) == 0,
    ensures
        forall|i: int| 0 <= i < k ==> cells[i] == EMPTY_TILE,
    decreases k,
{
    if k > 0 {
        lemma_occupied_zero(cells, k - 1);
    }
}

proof fn lemma_occupied_update(cells: Seq<char>, x: int, c: char, k: int)
    requires
        0 <= x < cells.len(),
        0 <= k <= cells.len(),
    ensures
        occupied_count(cells.update(x, c), k) + (if x < k && cells[x] != EMPTY_TILE {
            1nat
        } else {
            0nat
        }) == occupied_count(cells, k) + (if x < k && c != EMPTY_TILE {
            1nat
        } else {
            0nat
        }),
    decreases k,
{
    if k > 0 {
        lemma_occupied_update(cells, x, c, k - 1);
    }
}

/// A cell that some of the first `k` placements write to.
pub open spec fn written(m: Seq<(char, BoardPosition)>, k: int, x: int) -> bool {
    exists|j: int| 0 <= j < k && (#[trigger] m[j]).1 == x
}

proof fn lemma_place_first_at(cells: Seq<char>, m: Seq<(char, BoardPosition)>, k: int, x: int)
    requires
        0 <= k <= m.len(),
        on_board(m),
        cells.len() == TOTAL_SIZE,
        0 <= x < TOTAL_SIZE,
    ensures
        place_first(cells, m, k).len() == TOTAL_SIZE,
        !written(m, k, x) ==> place_first(cells, m, k)[x] == cells[x],
    decreases k,
{
    if k > 0 {
        lemma_place_first_at(cells, m, k - 1, x);
        assert(m[k - 1].1 < TOTAL_SIZE);
    }
}

proof fn lemma_clear_first_at(cells: Seq<char>, m: Seq<(char, BoardPosition)>, k: int, x: int)
    requires
        0 <= k <= m.len(),
        on_board(m),
        cells.len() == TOTAL_SIZE,
        0 <= x < TOTAL_SIZE,
    ensures
        clear_first(cells, m, k).len() == TOTAL_SIZE,
        !written(m, k, x) ==> clear_first(cells, m, k)[x] == cells[x],
        written(m, k, x) ==> clear_first(cells, m, k)[x] == EMPTY_TILE,
    decreases k,
{
    if k > 0 {
        lemma_clear_first_at(cells, m, k - 1, x);
        assert(m[k - 1].1 < TOTAL_SIZE);
        if written(m, k, x) && !written(m, k - 1, x) {
            assert(m[k - 1].1 == x);
        }
        if written(m, k - 1, x) {
            let j = choose|j: int| 0 <= j < k - 1 && (#[trigger] m[j]).1 == x;
            assert(0 <= j < k && m[j].1 == x);
        }
    }
}

/// After the first `k` placements, a cell that exactly one of them writes
/// holds that placement's tile, and any other cell is unchanged.
pub proof fn lemma_place_first_value(cells: Seq<char>, m: Seq<(char, BoardPosition)>, k: int, x: int)
    requires
        0 <= k <= m.len(),
        on_board(m),
        cells.len() == TOTAL_SIZE,
        0 <= x < TOTAL_SIZE,
        forall|i: int, j: int| 0 <= i < j < m.len() ==> m[i].1 != m[j].1,
    ensures
        place_first(cells, m, k).len() == TOTAL_SIZE,
        forall|j: int| 0 <= j < k && m[j].1 == x ==> place_first(cells, m, k)[x] == m[j].0,
        (forall|j: int| 0 <= j < k ==> m[j].1 != x) ==> place_first(cells, m, k)[x] == cells[x],
    decreases k,
{
    if k > 0 {
        lemma_place_first_value(cells, m, k - 1, x);
        assert(m[k - 1].1 < TOTAL_SIZE);
    }
}

/// Undoing a move right after making it gives back the board it was made on,
/// when every cell the move writes to was empty.
pub proof fn lemma_make_undo_round_trip(board: Board, crossword_move: CrosswordMove)
    requires
        crossword_move.wf(),
        on_board(crossword_move.placements()),
        forall|i: int|
            0 <= i < crossword_move.placements().len() ==> board@[(
            #[trigger] crossword_move.placements()[i]).1 as int] == EMPTY_TILE,
    ensures
        ({
            let m = crossword_move.placements();
            clear_first(place_first(board@, m, m.len() as int), m, m.len() as int) == board@
        }),
        board.count() + crossword_move.placements().len() - crossword_move.placements().len()
            == board.count(),
{
    let m = crossword_move.placements();
    let n = m.len() as int;
    board.lemma_len();
    let placed = place_first(board@, m, n);
    lemma_place_first_at(board@, m, n, 0);
    let cleared = clear_first(placed, m, n);
    assert forall|x: int| 0 <= x < TOTAL_SIZE implies cleared[x] == board@[x] by {
        lemma_place_first_at(board@, m, n, x);
        lemma_clear_first_at(placed, m, n, x);
        if written(m, n, x) {
            let j = choose|j: int| 0 <= j < n && (#[trigger] m[j]).1 == x;
            assert(board@[m[j].1 as int] == EMPTY_TILE);
        }
    }
    lemma_clear_first_at(placed, m, n, 0);
    assert(cleared =~= board@);
}

} // verus!
