use vstd::prelude::*;

use crate::cell::cycled;
use crate::cell::glyph_of;
use crate::cell::Block;
use crate::cell::Cell;
use crate::cell::ConfigurationError;
use crate::cell::Glyph;
use crate::cell::State;
use crate::layout::adjacent;
use crate::layout::blank_count_ok;
use crate::layout::build_blocks;
use crate::layout::count_trues;
use crate::layout::counts_consistent;
use crate::layout::flat;
use crate::layout::generate;
use crate::layout::in_bounds;
use crate::layout::lemma_count_trues_le_len;
use crate::layout::lemma_count_trues_push;
use crate::layout::lemma_flat_injective;
use crate::layout::lemma_flat_range;
use crate::layout::mines_of;
use crate::layout::off_c;
use crate::layout::off_r;
use crate::message::MouseButton;
use crate::message::MouseMessage;
use vstd::pervasive::VecAdditionalExecFns;

verus! {

/// What a reveal action came to: the game goes on, the revealed cell was
/// a mine, or the action was meaningless and the board is untouched.
#[derive(Clone, Copy, Debug, PartialEq, Eq, Structural)]
pub enum RevealOutcome {
    Continue,
    Loss,
    Rejected,
}

/// Whether a mark toggle was applied or ignored.
#[derive(Clone, Copy, Debug, PartialEq, Eq, Structural)]
pub enum ToggleOutcome {
    Accepted,
    Rejected,
}

/// A minesweeper board: a rows-by-cols grid of cells in row-major order,
/// the configured mine count, and whether the game has ended (won or
/// lost), which locks the board until a restart.
pub struct MineMap {
    map: Vec<Block>,
    rows: usize,
    cols: usize,
    mine: usize,
    locked: bool,
}

impl MineMap {
    /// The grid, as a row-major sequence of blocks.
    pub closed spec fn grid(self) -> Seq<Block> {
        self.map@
    }

    /// Number of rows.
    pub closed spec fn nrows(self) -> int {
        self.rows as int
    }

    /// Number of columns.
    pub closed spec fn ncols(self) -> int {
        self.cols as int
    }

    /// The configured number of mines.
    pub closed spec fn mine_quota(self) -> int {
        self.mine as int
    }

    /// Whether the board has been locked by a win or a loss.
    pub closed spec fn is_locked(self) -> bool {
        self.locked
    }

    /// Whether `(r, c)` names a cell of this board.
    pub open spec fn in_range(self, r: int, c: int) -> bool {
        in_bounds(self.nrows(), self.ncols(), r, c)
    }

    /// Content of the cell at `(r, c)`.
    pub open spec fn cell_at(self, r: int, c: int) -> Cell {
        self.grid()[flat(self.ncols(), r, c)].cell
    }

    /// Visibility of the cell at `(r, c)`.
    pub open spec fn state_at(self, r: int, c: int) -> State {
        self.grid()[flat(self.ncols(), r, c)].state
    }

    /// The board invariant: the grid fills the configured shape, exactly
    /// `mine_quota` cells are mines, and every blank cell carries the
    /// exact number of mines in its Moore neighborhood.
    pub open spec fn wf(self) -> bool {
        &&& self.grid().len() == self.nrows() * self.ncols()
        &&& count_trues(mines_of(self.grid())) == self.mine_quota()
        &&& counts_consistent(self.grid(), self.nrows(), self.ncols())
    }

    /// The winning condition: every cell that is not a mine is revealed.
    pub open spec fn won(self) -> bool {
        forall|p: int|
            0 <= p < self.grid().len() && !((#[trigger] self.grid()[p]).cell is Mine)
                ==> self.grid()[p].state is Revealed
    }
}

/// Rows, columns, grid size and mine quota agree between two boards.
pub open spec fn same_shape(pre: MineMap, post: MineMap) -> bool {
    &&& post.nrows() == pre.nrows()
    &&& post.ncols() == pre.ncols()
    &&& post.mine_quota() == pre.mine_quota()
    &&& post.grid().len() == pre.grid().len()
}

/// Two boards have the same shape and the same content in every cell;
/// only visibility may differ.
pub open spec fn same_cells(pre: MineMap, post: MineMap) -> bool {
    &&& same_shape(pre, post)
    &&& forall|p: int|
        0 <= p < pre.grid().len() ==> (#[trigger] post.grid()[p]).cell == pre.grid()[p].cell
}

/// Changing only visibility preserves the board invariant: the mine
/// count and the adjacency counts live in the cells alone.
pub proof fn lemma_wf_from_cells(pre: MineMap, post: MineMap)
    requires
        pre.wf(),
        same_cells(pre, post),
    ensures
        post.wf(),
{
    assert(mines_of(post.grid()) =~= mines_of(pre.grid()));
    assert forall|r: int, c: int|
        in_bounds(post.nrows(), post.ncols(), r, c) implies #[trigger] blank_count_ok(
        mines_of(post.grid()),
        post.grid(),
        post.nrows(),
        post.ncols(),
        r,
        c,
    ) by {
        lemma_flat_range(post.nrows(), post.ncols(), r, c);
        assert(blank_count_ok(mines_of(pre.grid()), pre.grid(), pre.nrows(), pre.ncols(), r, c));
        assert(post.grid()[flat(post.ncols(), r, c)].cell == pre.grid()[flat(
            pre.ncols(),
            r,
            c,
        )].cell);
    }
}

/// Which answer `toggle_mark` gives: a toggle is rejected on a locked
/// board, outside the grid, or on a revealed cell, and accepted
/// otherwise.
pub open spec fn toggle_outcome(pre: MineMap, r: int, c: int) -> ToggleOutcome {
    if pre.is_locked() || !pre.in_range(r, c) || pre.state_at(r, c) is Revealed {
        ToggleOutcome::Rejected
    } else {
        ToggleOutcome::Accepted
    }
}

/// How `toggle_mark` changes the board: a rejected toggle leaves it
/// untouched; an accepted one advances exactly the targeted cell one
/// step along the mark cycle.
pub open spec fn toggle_rel(pre: MineMap, post: MineMap, r: int, c: int) -> bool {
    &&& same_cells(pre, post)
    &&& post.is_locked() == pre.is_locked()
    &&& if toggle_outcome(pre, r, c) is Rejected {
        post.grid() == pre.grid()
    } else {
        forall|r2: int, c2: int|
            in_bounds(pre.nrows(), pre.ncols(), r2, c2)
                ==> post.grid()[#[trigger] flat(pre.ncols(), r2, c2)].state == if r2 == r && c2
                == c {
                cycled(pre.state_at(r, c))
            } else {
                pre.state_at(r2, c2)
            }
    }
}

impl MineMap {
    /// Build a board with a freshly generated random layout: exactly
    /// `mine` mines, all cells hidden. Rejects a configuration asking
    /// for more mines than the grid has cells.
    pub fn new(rows: usize, cols: usize, mine: usize) -> (res: Result<MineMap, ConfigurationError>)
        requires
            rows * cols <= usize::MAX,
        ensures
            res is Ok <==> mine <= rows * cols,
            res matches Ok(m) ==> {
                &&& m.wf()
                &&& m.nrows() == rows
                &&& m.ncols() == cols
                &&& m.mine_quota() == mine
                &&& !m.is_locked()
                &&& forall|p: int| 0 <= p < m.grid().len() ==> (#[trigger] m.grid()[p]).state is Hidden
            },
    {
        if mine > rows * cols {
            return Err(ConfigurationError);
        }
        let map = generate(rows, cols, mine);
        Ok(MineMap { map, rows, cols, mine, locked: false })
    }

    /// Build a board from an explicit mine mask (row-major, `true` for a
    /// mine), for callers that need a known layout. All cells start
    /// hidden; the mine quota is the number of `true` entries. Rejects a
    /// mask that does not fill the grid.
    pub fn from_mines(rows: usize, cols: usize, mines: Vec<bool>) -> (res: Result<
        MineMap,
        ConfigurationError,
    >)
        requires
            rows * cols <= usize::MAX,
        ensures
            res is Ok <==> mines@.len() == rows * cols,
            res matches Ok(m) ==> {
                &&& m.wf()
                &&& m.nrows() == rows
                &&& m.ncols() == cols
                &&& m.mine_quota() == count_trues(mines@)
                &&& !m.is_locked()
                &&& forall|p: int| 0 <= p < m.grid().len() ==> (#[trigger] m.grid()[p]).state is Hidden
                &&& forall|r: int, c: int|
                    in_bounds(rows as int, cols as int, r, c) ==> (m.cell_at(r, c) is Mine
                        <==> mines@[#[trigger] flat(cols as int, r, c)])
            },
    {
        if mines.len() != rows * cols {
            return Err(ConfigurationError);
        }
        let mine = count_true_flags(&mines);
        let map = build_blocks(&mines, rows, cols);
        let m = MineMap { map, rows, cols, mine, locked: false };
        proof {
            assert forall|r: int, c: int|
                in_bounds(rows as int, cols as int, r, c) implies (m.cell_at(r, c) is Mine
                <==> mines@[#[trigger] flat(cols as int, r, c)]) by {
                lemma_flat_range(rows as int, cols as int, r, c);
                assert(mines_of(m.grid())[flat(cols as int, r, c)] == (m.grid()[flat(
                    cols as int,
                    r,
                    c,
                )].cell is Mine));
            }
        }
        Ok(m)
    }

    /// Report whether the game is won: every non-mine cell is revealed.
    /// On a win the board is locked until a restart.
    pub fn check_win(&mut self) -> (w: bool)
        requires
            old(self).wf(),
        ensures
            final(self).wf(),
            w == old(self).won(),
            final(self).grid() == old(self).grid(),
            same_shape(*old(self), *final(self)),
            final(self).is_locked() == (old(self).is_locked() || w),
    {
        let n = self.map.len();
        let mut p: usize = 0;
        while p < n
            invariant
                p <= n,
                n == self.map@.len(),
                *self == *old(self),
                old(self).wf(),
                forall|q: int|
                    0 <= q < p && !((#[trigger] self.map@[q]).cell is Mine) ==> self.map@[q].state
                        is Revealed,
            decreases n - p,
        {
            let b = self.map[p];
            if b.cell != Cell::Mine && b.state != State::Revealed {
                return false;
            }
            p = p + 1;
        }
        self.locked = true;
        true
    }

    /// Restart with the same layout: every cell's visibility returns to
    /// hidden, the content of every cell is kept, and the board is
    /// unlocked.
    pub fn restart_same(&mut self)
        requires
            old(self).wf(),
        ensures
            final(self).wf(),
            same_cells(*old(self), *final(self)),
            !final(self).is_locked(),
            forall|p: int|
                0 <= p < final(self).grid().len() ==> (#[trigger] final(self).grid()[p]).state
                    is Hidden,
    {
        let n = self.map.len();
        let mut p: usize = 0;
        while p < n
            invariant
                p <= n,
                n == self.map@.len(),
                self.map@.len() == old(self).map@.len(),
                self.rows == old(self).rows,
                self.cols == old(self).cols,
                self.mine == old(self).mine,
                forall|q: int|
                    0 <= q < n ==> (#[trigger] self.map@[q]).cell == old(self).map@[q].cell,
                forall|q: int| 0 <= q < p ==> (#[trigger] self.map@[q]).state is Hidden,
            decreases n - p,
        {
            let b = self.map[p];
            self.map.set(p, Block { cell: b.cell, state: State::Hidden });
            p = p + 1;
        }
        self.locked = false;
        proof {
            lemma_wf_from_cells(*old(self), *self);
        }
    }

    /// Restart with a fresh random layout of the same shape and mine
    /// count: all cells hidden, the board unlocked. The mine positions
    /// of the old layout are not kept.
    pub fn restart(&mut self)
        requires
            old(self).wf(),
        ensures
            final(self).wf(),
            same_shape(*old(self), *final(self)),
            !final(self).is_locked(),
            forall|p: int|
                0 <= p < final(self).grid().len() ==> (#[trigger] final(self).grid()[p]).state
                    is Hidden,
    {
        let n = self.map.len();
        proof {
            lemma_count_trues_le_len(mines_of(self.map@));
        }
        let map = generate(self.rows, self.cols, self.mine);
        self.map = map;
        self.locked = false;
    }

    /// Toggle the mark of the cell at `(r, c)` one step along the cycle
    /// hidden, marked, uncertain, hidden. Rejected — and the board left
    /// untouched — on a locked board, outside the grid, or on a revealed
    /// cell.
    pub fn toggle_mark(&mut self, r: usize, c: usize) -> (o: ToggleOutcome)
        requires
            old(self).wf(),
        ensures
            final(self).wf(),
            o == toggle_outcome(*old(self), r as int, c as int),
            toggle_rel(*old(self), *final(self), r as int, c as int),
    {
        let n = self.map.len();
        if self.locked || r >= self.rows || c >= self.cols {
            return ToggleOutcome::Rejected;
        }
        proof {
            lemma_flat_range(self.rows as int, self.cols as int, r as int, c as int);
        }
        let idx = r * self.cols + c;
        let b = self.map[idx];
        if b.state == State::Revealed {
            return ToggleOutcome::Rejected;
        }
        let ns = match b.state {
            State::Hidden => State::Marked,
            State::Marked => State::Uncertain,
            State::Uncertain => State::Hidden,
            State::Revealed => State::Revealed,
        };
        self.map.set(idx, Block { cell: b.cell, state: ns });
        proof {
            lemma_wf_from_cells(*old(self), *self);
            assert forall|r2: int, c2: int|
                in_bounds(old(self).nrows(), old(self).ncols(), r2, c2) implies self.map@[#[trigger] flat(
                old(self).ncols(),
                r2,
                c2,
            )].state == if r2 == r && c2 == c {
                cycled(old(self).state_at(r as int, c as int))
            } else {
                old(self).state_at(r2, c2)
            } by {
                lemma_flat_range(old(self).nrows(), old(self).ncols(), r2, c2);
                if flat(old(self).ncols(), r2, c2) == idx {
                    lemma_flat_injective(old(self).ncols(), r2, c2, r as int, c as int);
                }
            }
        }
        ToggleOutcome::Accepted
    }

    /// The visibility of the cell at `(r, c)`, or nothing when the
    /// location is outside the grid. A pure query for rendering.
    pub fn visibility_of(&self, r: usize, c: usize) -> (v: Option<State>)
        requires
            self.wf(),
        ensures
            v == if self.in_range(r as int, c as int) {
                Some(self.state_at(r as int, c as int))
            } else {
                Option::<State>::None
            },
    {
        let n = self.map.len();
        if r >= self.rows || c >= self.cols {
            return None;
        }
        proof {
            lemma_flat_range(self.rows as int, self.cols as int, r as int, c as int);
        }
        Some(self.map[r * self.cols + c].state)
    }

    /// What to draw for the cell at `(r, c)`, or nothing when the
    /// location is outside the grid. A pure query for rendering.
    pub fn display_glyph_of(&self, r: usize, c: usize) -> (g: Option<Glyph>)
        requires
            self.wf(),
        ensures
            g == if self.in_range(r as int, c as int) {
                Some(glyph_of(self.grid()[flat(self.ncols(), r as int, c as int)]))
            } else {
                Option::<Glyph>::None
            },
    {
        let n = self.map.len();
        if r >= self.rows || c >= self.cols {
            return None;
        }
        proof {
            lemma_flat_range(self.rows as int, self.cols as int, r as int, c as int);
        }
        let b = self.map[r * self.cols + c];
        Some(
            match b.state {
                State::Hidden => Glyph::Empty,
                State::Marked => Glyph::Flag,
                State::Uncertain => Glyph::Question,
                State::Revealed => match b.cell {
                    Cell::Mine => Glyph::Mine,
                    Cell::Blank(n) => if n == 0 {
                        Glyph::Empty
                    } else {
                        Glyph::Count(n)
                    },
                },
            },
        )
    }

    /// Number of rows of the board.
    pub fn row_count(&self) -> (n: usize)
        ensures
            n == self.nrows(),
    {
        self.rows
    }

    /// Number of columns of the board.
    pub fn col_count(&self) -> (n: usize)
        ensures
            n == self.ncols(),
    {
        self.cols
    }

    /// The configured number of mines.
    pub fn mine_count(&self) -> (n: usize)
        ensures
            n == self.mine_quota(),
    {
        self.mine
    }
}

/// How many cells of the grid are hidden. The cascade's termination
/// measure: every step either pops a pending cell or reveals a hidden
/// one.
pub open spec fn count_hidden(g: Seq<Block>) -> nat
    decreases g.len(),
{
    if g.len() == 0 {
        0
    } else {
        count_hidden(g.drop_last()) + if g.last().state is Hidden {
            1nat
        } else {
            0nat
        }
    }
}

/// Overwriting one block trades its old contribution to the hidden count
/// for the new one.
proof fn lemma_count_hidden_update(g: Seq<Block>, i: int, b: Block)
    requires
        0 <= i < g.len(),
    ensures
        count_hidden(g.update(i, b)) + (if g[i].state is Hidden {
            1nat
        } else {
            0nat
        }) == count_hidden(g) + (if b.state is Hidden {
            1nat
        } else {
            0nat
        }),
    decreases g.len(),
{
    let g2 = g.update(i, b);
    if i == g.len() - 1 {
        assert(g2.drop_last() =~= g.drop_last());
        assert(g2.last() == b);
    } else {
        assert(g2.drop_last() =~= g.drop_last().update(i, b));
        assert(g2.last() == g.last());
        lemma_count_hidden_update(g.drop_last(), i, b);
    }
}

/// A cascade path through the pre-reveal grid `g`: a chain of cells that
/// are all hidden and blank, starting at `(r0, c0)`; every cell but the
/// last is a zero-count blank, and consecutive cells are Moore-adjacent.
pub open spec fn path_ok(
    g: Seq<Block>,
    rows: int,
    cols: int,
    r0: int,
    c0: int,
    path: Seq<(int, int)>,
) -> bool {
    &&& path.len() >= 1
    &&& path[0] == (r0, c0)
    &&& forall|i: int|
        0 <= i < path.len() ==> {
            &&& in_bounds(rows, cols, (#[trigger] path[i]).0, path[i].1)
            &&& g[flat(cols, path[i].0, path[i].1)].state is Hidden
            &&& g[flat(cols, path[i].0, path[i].1)].cell is Blank
        }
    &&& forall|i: int|
        0 <= i < path.len() - 1 ==> {
            &&& g[flat(cols, (#[trigger] path[i]).0, path[i].1)].cell == Cell::Blank(0u8)
            &&& adjacent(path[i].0, path[i].1, path[i + 1].0, path[i + 1].1)
        }
}

/// `(r, c)` belongs to the cascade region of `(r0, c0)` in grid `g`: the
/// connected region of hidden blank cells reachable from `(r0, c0)`
/// stepping only off zero-count blanks. These are exactly the cells a
/// reveal of `(r0, c0)` uncovers.
pub open spec fn reach(g: Seq<Block>, rows: int, cols: int, r0: int, c0: int, r: int, c: int) -> bool {
    exists|path: Seq<(int, int)>|
        #[trigger] path_ok(g, rows, cols, r0, c0, path) && path.last() == (r, c)
}

/// The cascade region never holds a mine, nor a cell that was already
/// revealed or marked: every reachable cell is a hidden blank of the
/// starting grid. So the cascade reveals no mine and respects marks.
pub proof fn lemma_reach_target_blank(
    g: Seq<Block>,
    rows: int,
    cols: int,
    r0: int,
    c0: int,
    r: int,
    c: int,
)
    requires
        reach(g, rows, cols, r0, c0, r, c),
    ensures
        in_bounds(rows, cols, r, c),
        g[flat(cols, r, c)].state is Hidden,
        g[flat(cols, r, c)].cell is Blank,
{
    let path = choose|path: Seq<(int, int)>|
        #[trigger] path_ok(g, rows, cols, r0, c0, path) && path.last() == (r, c);
    assert(path[path.len() - 1] == (r, c));
}

/// A cell whose reveal cascades is itself in its cascade region, by the
/// one-cell path.
pub proof fn lemma_reach_self(g: Seq<Block>, rows: int, cols: int, r0: int, c0: int)
    requires
        in_bounds(rows, cols, r0, c0),
        g[flat(cols, r0, c0)].state is Hidden,
        g[flat(cols, r0, c0)].cell is Blank,
    ensures
        reach(g, rows, cols, r0, c0, r0, c0),
{
    let path = seq![(r0, c0)];
    assert(path[0] == (r0, c0));
    assert(path.last() == (r0, c0));
    assert(path_ok(g, rows, cols, r0, c0, path));
}

/// The cascade region extends from a zero-count blank it holds to any
/// adjacent hidden blank: append that cell to a witness path.
proof fn lemma_reach_step(
    g: Seq<Block>,
    rows: int,
    cols: int,
    r0: int,
    c0: int,
    r1: int,
    c1: int,
    r2: int,
    c2: int,
)
    requires
        reach(g, rows, cols, r0, c0, r1, c1),
        g[flat(cols, r1, c1)].cell == Cell::Blank(0u8),
        adjacent(r1, c1, r2, c2),
        in_bounds(rows, cols, r2, c2),
        g[flat(cols, r2, c2)].state is Hidden,
        g[flat(cols, r2, c2)].cell is Blank,
    ensures
        reach(g, rows, cols, r0, c0, r2, c2),
{
    let path = choose|path: Seq<(int, int)>|
        #[trigger] path_ok(g, rows, cols, r0, c0, path) && path.last() == (r1, c1);
    let path2 = path.push((r2, c2));
    assert forall|i: int| 0 <= i < path2.len() implies {
        &&& in_bounds(rows, cols, (#[trigger] path2[i]).0, path2[i].1)
        &&& g[flat(cols, path2[i].0, path2[i].1)].state is Hidden
        &&& g[flat(cols, path2[i].0, path2[i].1)].cell is Blank
    } by {
        if i < path.len() {
            assert(path2[i] == path[i]);
        } else {
            assert(path2[i] == (r2, c2));
        }
    }
    assert forall|i: int| 0 <= i < path2.len() - 1 implies {
        &&& g[flat(cols, (#[trigger] path2[i]).0, path2[i].1)].cell == Cell::Blank(0u8)
        &&& adjacent(path2[i].0, path2[i].1, path2[i + 1].0, path2[i + 1].1)
    } by {
        if i < path.len() - 1 {
            assert(path2[i] == path[i]);
            assert(path2[i + 1] == path[i + 1]);
        } else {
            assert(path2[i] == path[path.len() - 1]);
            assert(path2[i] == (r1, c1));
            assert(path2[i + 1] == (r2, c2));
        }
    }
    assert(path_ok(g, rows, cols, r0, c0, path2));
    assert(path2.last() == (r2, c2));
}

/// `(r1, c1)` is among the pending worklist coordinates.
pub open spec fn stack_has(stack: Seq<(usize, usize)>, r1: int, c1: int) -> bool {
    exists|i: int|
        0 <= i < stack.len() && (#[trigger] stack[i]).0 as int == r1 && stack[i].1 as int == c1
}

/// The cascade's frontier invariant between the starting grid `g0` and
/// the current grid `g1`: every newly revealed zero-count blank — other
/// than the worklist entries and the one cell `(er, ec)` whose neighbors
/// are being walked right now — has had all its hidden blank neighbors
/// revealed.
pub open spec fn frontier_except(
    g0: Seq<Block>,
    g1: Seq<Block>,
    rows: int,
    cols: int,
    stack: Seq<(usize, usize)>,
    er: int,
    ec: int,
) -> bool {
    forall|r1: int, c1: int, r2: int, c2: int|
        ({
            &&& in_bounds(rows, cols, r1, c1)
            &&& in_bounds(rows, cols, r2, c2)
            &&& g1[#[trigger] flat(cols, r1, c1)].state is Revealed
            &&& g0[flat(cols, r1, c1)].state is Hidden
            &&& g0[flat(cols, r1, c1)].cell == Cell::Blank(0u8)
            &&& !stack_has(stack, r1, c1)
            &&& !(r1 == er && c1 == ec)
            &&& adjacent(r1, c1, r2, c2)
            &&& g0[flat(cols, r2, c2)].state is Hidden
            &&& g0[flat(cols, r2, c2)].cell is Blank
        }) ==> g1[#[trigger] flat(cols, r2, c2)].state is Revealed
}

/// Everything the cascade's worklist loop maintains besides the
/// frontier: the cells are untouched, visibility only ever moves from
/// hidden to revealed, the starting cell is revealed, every change is of
/// a reachable cell, and every worklist entry is a revealed, reachable,
/// hidden blank of the starting grid.
pub open spec fn cascade_core(
    g0: Seq<Block>,
    g1: Seq<Block>,
    rows: int,
    cols: int,
    r0: int,
    c0: int,
    stack: Seq<(usize, usize)>,
) -> bool {
    &&& g1.len() == g0.len()
    &&& forall|p: int| 0 <= p < g0.len() ==> (#[trigger] g1[p]).cell == g0[p].cell
    &&& forall|p: int|
        0 <= p < g0.len() ==> ((#[trigger] g1[p]).state == g0[p].state || (g0[p].state is Hidden
            && g1[p].state is Revealed))
    &&& g1[flat(cols, r0, c0)].state is Revealed
    &&& forall|r2: int, c2: int|
        in_bounds(rows, cols, r2, c2) && g1[#[trigger] flat(cols, r2, c2)].state != g0[flat(
            cols,
            r2,
            c2,
        )].state ==> reach(g0, rows, cols, r0, c0, r2, c2)
    &&& forall|i: int|
        0 <= i < stack.len() ==> {
            &&& in_bounds(rows, cols, (#[trigger] stack[i]).0 as int, stack[i].1 as int)
            &&& g0[flat(cols, stack[i].0 as int, stack[i].1 as int)].state is Hidden
            &&& g0[flat(cols, stack[i].0 as int, stack[i].1 as int)].cell is Blank
            &&& g1[flat(cols, stack[i].0 as int, stack[i].1 as int)].state is Revealed
            &&& reach(g0, rows, cols, r0, c0, stack[i].0 as int, stack[i].1 as int)
        }
}

/// One revelation step of the cascade: uncovering a reachable hidden
/// blank and putting it on the worklist preserves the loop's invariants.
proof fn lemma_cascade_set(
    g0: Seq<Block>,
    g1: Seq<Block>,
    rows: int,
    cols: int,
    r0: int,
    c0: int,
    stack: Seq<(usize, usize)>,
    er: int,
    ec: int,
    nr: usize,
    nc: usize,
)
    requires
        g0.len() == rows * cols,
        in_bounds(rows, cols, r0, c0),
        cascade_core(g0, g1, rows, cols, r0, c0, stack),
        frontier_except(g0, g1, rows, cols, stack, er, ec),
        in_bounds(rows, cols, nr as int, nc as int),
        g1[flat(cols, nr as int, nc as int)].state is Hidden,
        reach(g0, rows, cols, r0, c0, nr as int, nc as int),
    ensures
        cascade_core(
            g0,
            g1.update(
                flat(cols, nr as int, nc as int),
                (Block { cell: g1[flat(cols, nr as int, nc as int)].cell, state: State::Revealed }),
            ),
            rows,
            cols,
            r0,
            c0,
            stack.push((nr, nc)),
        ),
        frontier_except(
            g0,
            g1.update(
                flat(cols, nr as int, nc as int),
                (Block { cell: g1[flat(cols, nr as int, nc as int)].cell, state: State::Revealed }),
            ),
            rows,
            cols,
            stack.push((nr, nc)),
            er,
            ec,
        ),
{
    let nidx = flat(cols, nr as int, nc as int);
    let nb = Block { cell: g1[nidx].cell, state: State::Revealed };
    let g2 = g1.update(nidx, nb);
    let stack2 = stack.push((nr, nc));
    lemma_flat_range(rows, cols, nr as int, nc as int);
    lemma_flat_range(rows, cols, r0, c0);
    assert(stack2[stack.len() as int] == (nr, nc));
    assert(stack_has(stack2, nr as int, nc as int));
    assert forall|r2: int, c2: int|
        in_bounds(rows, cols, r2, c2) && g2[#[trigger] flat(cols, r2, c2)].state != g0[flat(
            cols,
            r2,
            c2,
        )].state implies reach(g0, rows, cols, r0, c0, r2, c2) by {
        lemma_flat_range(rows, cols, r2, c2);
        if flat(cols, r2, c2) == nidx {
            lemma_flat_injective(cols, r2, c2, nr as int, nc as int);
        }
    }
    assert forall|i: int| 0 <= i < stack2.len() implies {
        &&& in_bounds(rows, cols, (#[trigger] stack2[i]).0 as int, stack2[i].1 as int)
        &&& g0[flat(cols, stack2[i].0 as int, stack2[i].1 as int)].state is Hidden
        &&& g0[flat(cols, stack2[i].0 as int, stack2[i].1 as int)].cell is Blank
        &&& g2[flat(cols, stack2[i].0 as int, stack2[i].1 as int)].state is Revealed
        &&& reach(g0, rows, cols, r0, c0, stack2[i].0 as int, stack2[i].1 as int)
    } by {
        if i < stack.len() {
            assert(stack2[i] == stack[i]);
            lemma_flat_range(rows, cols, stack[i].0 as int, stack[i].1 as int);
        } else {
            assert(stack2[i] == (nr, nc));
        }
    }
    assert forall|r1: int, c1: int, r2: int, c2: int|
        ({
            &&& in_bounds(rows, cols, r1, c1)
            &&& in_bounds(rows, cols, r2, c2)
            &&& g2[#[trigger] flat(cols, r1, c1)].state is Revealed
            &&& g0[flat(cols, r1, c1)].state is Hidden
            &&& g0[flat(cols, r1, c1)].cell == Cell::Blank(0u8)
            &&& !stack_has(stack2, r1, c1)
            &&& !(r1 == er && c1 == ec)
            &&& adjacent(r1, c1, r2, c2)
            &&& g0[flat(cols, r2, c2)].state is Hidden
            &&& g0[flat(cols, r2, c2)].cell is Blank
        }) implies g2[#[trigger] flat(cols, r2, c2)].state is Revealed by {
        lemma_flat_range(rows, cols, r1, c1);
        lemma_flat_range(rows, cols, r2, c2);
        assert(!(r1 == nr as int && c1 == nc as int));
        if flat(cols, r1, c1) == nidx {
            lemma_flat_injective(cols, r1, c1, nr as int, nc as int);
        }
        assert(g1[flat(cols, r1, c1)].state is Revealed);
        if stack_has(stack, r1, c1) {
            let i = choose|i: int|
                0 <= i < stack.len() && (#[trigger] stack[i]).0 as int == r1 && stack[i].1 as int
                    == c1;
            assert(stack2[i] == stack[i]);
            assert(stack_has(stack2, r1, c1));
        }
        assert(g1[flat(cols, r2, c2)].state is Revealed);
    }
}

/// Any Moore neighbor is one of the nine cells of the surrounding 3x3
/// square, at the offset index its row and column displacements spell.
proof fn lemma_adjacent_offset(r: int, c: int, r2: int, c2: int)
    requires
        adjacent(r, c, r2, c2),
    ensures
        exists|k: int| 0 <= k < 9 && k != 4 && off_r(r, k) == r2 && #[trigger] off_c(c, k) == c2,
{
    let k = (r2 - r + 1) * 3 + (c2 - c + 1);
    vstd::arithmetic::div_mod::lemma_fundamental_div_mod_converse(k, 3, r2 - r + 1, c2 - c + 1);
    assert(0 <= k < 9 && k != 4 && off_r(r, k) == r2 && off_c(c, k) == c2);
}

/// Each of the nine offsets except the center names a Moore neighbor.
proof fn lemma_offset_adjacent(r: int, c: int, k: int)
    requires
        0 <= k < 9,
        k != 4,
    ensures
        adjacent(r, c, off_r(r, k), off_c(c, k)),
{
    vstd::arithmetic::div_mod::lemma_fundamental_div_mod(k, 3);
    vstd::arithmetic::div_mod::lemma_mod_pos_bound(k, 3);
}

/// Once the worklist is empty, every cell of the cascade region is
/// revealed: walk the witness path; each interior cell is a revealed
/// zero-count blank, so the frontier property passes revelation along.
proof fn lemma_path_revealed(
    g0: Seq<Block>,
    g1: Seq<Block>,
    rows: int,
    cols: int,
    r0: int,
    c0: int,
    path: Seq<(int, int)>,
)
    requires
        path_ok(g0, rows, cols, r0, c0, path),
        g1[flat(cols, r0, c0)].state is Revealed,
        frontier_except(g0, g1, rows, cols, Seq::<(usize, usize)>::empty(), -1, -1),
    ensures
        g1[flat(cols, path.last().0, path.last().1)].state is Revealed,
    decreases path.len(),
{
    if path.len() == 1 {
        assert(path.last() == path[0]);
    } else {
        let prefix = path.drop_last();
        assert forall|i: int| 0 <= i < prefix.len() implies {
            &&& in_bounds(rows, cols, (#[trigger] prefix[i]).0, prefix[i].1)
            &&& g0[flat(cols, prefix[i].0, prefix[i].1)].state is Hidden
            &&& g0[flat(cols, prefix[i].0, prefix[i].1)].cell is Blank
        } by {
            assert(prefix[i] == path[i]);
        }
        assert forall|i: int| 0 <= i < prefix.len() - 1 implies {
            &&& g0[flat(cols, (#[trigger] prefix[i]).0, prefix[i].1)].cell == Cell::Blank(0u8)
            &&& adjacent(prefix[i].0, prefix[i].1, prefix[i + 1].0, prefix[i + 1].1)
        } by {
            assert(prefix[i] == path[i]);
            assert(prefix[i + 1] == path[i + 1]);
        }
        assert(path_ok(g0, rows, cols, r0, c0, prefix));
        lemma_path_revealed(g0, g1, rows, cols, r0, c0, prefix);
        let a = path[path.len() - 2];
        let b = path[path.len() - 1];
        assert(prefix.last() == a);
        assert(!stack_has(Seq::<(usize, usize)>::empty(), a.0, a.1));
        assert(g1[flat(cols, a.0, a.1)].state is Revealed);
        assert(adjacent(a.0, a.1, b.0, b.1));
        assert(g1[flat(cols, b.0, b.1)].state is Revealed);
    }
}

/// Wrap `lemma_path_revealed` for a reachable target: pick the witness
/// path.
proof fn lemma_reach_revealed(
    g0: Seq<Block>,
    g1: Seq<Block>,
    rows: int,
    cols: int,
    r0: int,
    c0: int,
    r: int,
    c: int,
)
    requires
        reach(g0, rows, cols, r0, c0, r, c),
        g1[flat(cols, r0, c0)].state is Revealed,
        frontier_except(g0, g1, rows, cols, Seq::<(usize, usize)>::empty(), -1, -1),
    ensures
        g1[flat(cols, r, c)].state is Revealed,
{
    let path = choose|path: Seq<(int, int)>|
        #[trigger] path_ok(g0, rows, cols, r0, c0, path) && path.last() == (r, c);
    lemma_path_revealed(g0, g1, rows, cols, r0, c0, path);
}

/// Which answer `reveal` gives: rejected on a locked board, outside the
/// grid, or on a cell that is not hidden; a loss on a mine; otherwise
/// the game goes on.
pub open spec fn reveal_outcome(pre: MineMap, r: int, c: int) -> RevealOutcome {
    if pre.is_locked() || !pre.in_range(r, c) || !(pre.state_at(r, c) is Hidden) {
        RevealOutcome::Rejected
    } else if pre.cell_at(r, c) is Mine {
        RevealOutcome::Loss
    } else {
        RevealOutcome::Continue
    }
}

/// How `reveal` changes the board. A rejected reveal leaves it
/// untouched. Revealing a mine reveals every cell and locks the board.
/// Revealing a zero-count blank reveals exactly its cascade region.
/// Revealing any other blank reveals exactly that cell.
pub open spec fn reveal_rel(pre: MineMap, post: MineMap, r: int, c: int) -> bool {
    &&& same_cells(pre, post)
    &&& if pre.is_locked() || !pre.in_range(r, c) || !(pre.state_at(r, c) is Hidden) {
        post.grid() == pre.grid() && post.is_locked() == pre.is_locked()
    } else if pre.cell_at(r, c) is Mine {
        &&& post.is_locked()
        &&& forall|p: int|
            0 <= p < post.grid().len() ==> (#[trigger] post.grid()[p]).state is Revealed
    } else if pre.cell_at(r, c) == Cell::Blank(0u8) {
        &&& post.is_locked() == pre.is_locked()
        &&& forall|r2: int, c2: int|
            in_bounds(pre.nrows(), pre.ncols(), r2, c2)
                ==> post.grid()[#[trigger] flat(pre.ncols(), r2, c2)].state == if reach(
                pre.grid(),
                pre.nrows(),
                pre.ncols(),
                r,
                c,
                r2,
                c2,
            ) {
                State::Revealed
            } else {
                pre.state_at(r2, c2)
            }
    } else {
        &&& post.is_locked() == pre.is_locked()
        &&& forall|r2: int, c2: int|
            in_bounds(pre.nrows(), pre.ncols(), r2, c2)
                ==> post.grid()[#[trigger] flat(pre.ncols(), r2, c2)].state == if r2 == r && c2
                == c {
                State::Revealed
            } else {
                pre.state_at(r2, c2)
            }
    }
}

impl MineMap {
    /// Reveal the cell at `(r, c)`. Rejected — board untouched — when
    /// the board is locked, the location is out of bounds, or the cell
    /// is not hidden. Revealing a mine reveals the whole layout, locks
    /// the board, and yields a loss. Revealing a zero-count blank
    /// reveals exactly its cascade region; any other blank, exactly
    /// itself.
    pub fn reveal_at(&mut self, r: usize, c: usize) -> (o: RevealOutcome)
        requires
            old(self).wf(),
        ensures
            final(self).wf(),
            o == reveal_outcome(*old(self), r as int, c as int),
            reveal_rel(*old(self), *final(self), r as int, c as int),
    {
        let n = self.map.len();
        if self.locked || r >= self.rows || c >= self.cols {
            return RevealOutcome::Rejected;
        }
        proof {
            lemma_flat_range(self.rows as int, self.cols as int, r as int, c as int);
        }
        let idx = r * self.cols + c;
        let b = self.map[idx];
        if b.state != State::Hidden {
            return RevealOutcome::Rejected;
        }
        if b.cell == Cell::Mine {
            let mut p: usize = 0;
            while p < n
                invariant
                    p <= n,
                    n == self.map@.len(),
                    old(self).wf(),
                    self.map@.len() == old(self).map@.len(),
                    self.rows == old(self).rows,
                    self.cols == old(self).cols,
                    self.mine == old(self).mine,
                    self.locked == old(self).locked,
                    forall|q: int|
                        0 <= q < n ==> (#[trigger] self.map@[q]).cell == old(self).map@[q].cell,
                    forall|q: int| 0 <= q < p ==> (#[trigger] self.map@[q]).state is Revealed,
                decreases n - p,
            {
                let bb = self.map[p];
                self.map.set(p, Block { cell: bb.cell, state: State::Revealed });
                p = p + 1;
            }
            self.locked = true;
            proof {
                lemma_wf_from_cells(*old(self), *self);
            }
            return RevealOutcome::Loss;
        }
        if b.cell == Cell::Blank(0) {
            self.cascade(r, c);
            return RevealOutcome::Continue;
        }
        self.map.set(idx, Block { cell: b.cell, state: State::Revealed });
        proof {
            lemma_wf_from_cells(*old(self), *self);
            assert forall|r2: int, c2: int|
                in_bounds(old(self).nrows(), old(self).ncols(), r2, c2) implies self.map@[#[trigger] flat(
                old(self).ncols(),
                r2,
                c2,
            )].state == (if r2 == r as int && c2 == c as int {
                State::Revealed
            } else {
                old(self).state_at(r2, c2)
            }) by {
                lemma_flat_range(old(self).nrows(), old(self).ncols(), r2, c2);
                if flat(old(self).ncols(), r2, c2) == idx as int {
                    lemma_flat_injective(old(self).ncols(), r2, c2, r as int, c as int);
                }
            }
        }
        RevealOutcome::Continue
    }

    /// The flood fill behind `reveal` on a zero-count blank: reveal the
    /// cell, then drain a worklist, revealing every hidden blank
    /// neighbor of each zero-count blank taken off the list. The cells
    /// that end up revealed are exactly the cascade region of `(r, c)`.
    #[verifier::rlimit(100)]
    #[verifier::loop_isolation(false)]
    fn cascade(&mut self, r: usize, c: usize)
        requires
            old(self).wf(),
            old(self).in_range(r as int, c as int),
            old(self).state_at(r as int, c as int) is Hidden,
            old(self).cell_at(r as int, c as int) == Cell::Blank(0u8),
        ensures
            final(self).wf(),
            same_cells(*old(self), *final(self)),
            final(self).is_locked() == old(self).is_locked(),
            forall|r2: int, c2: int|
                in_bounds(old(self).nrows(), old(self).ncols(), r2, c2)
                    ==> final(self).grid()[#[trigger] flat(old(self).ncols(), r2, c2)].state == (
                if reach(
                    old(self).grid(),
                    old(self).nrows(),
                    old(self).ncols(),
                    r as int,
                    c as int,
                    r2,
                    c2,
                ) {
                    State::Revealed
                } else {
                    old(self).state_at(r2, c2)
                }),
    {
        let ghost g0 = self.map@;
        let ghost rowsi = old(self).nrows();
        let ghost colsi = old(self).ncols();
        let n = self.map.len();
        proof {
            lemma_flat_range(rowsi, colsi, r as int, c as int);
            lemma_reach_self(g0, rowsi, colsi, r as int, c as int);
        }
        let idx = r * self.cols + c;
        let b0 = self.map[idx];
        self.map.set(idx, Block { cell: b0.cell, state: State::Revealed });
        let mut stack: Vec<(usize, usize)> = Vec::new();
        stack.push((r, c));
        proof {
            assert(stack@[0] == (r, c));
            assert(stack_has(stack@, r as int, c as int));
            assert forall|r2: int, c2: int|
                in_bounds(rowsi, colsi, r2, c2) && self.map@[#[trigger] flat(colsi, r2, c2)].state
                    != g0[flat(colsi, r2, c2)].state implies reach(
                g0,
                rowsi,
                colsi,
                r as int,
                c as int,
                r2,
                c2,
            ) by {
                lemma_flat_range(rowsi, colsi, r2, c2);
                if flat(colsi, r2, c2) == idx as int {
                    lemma_flat_injective(colsi, r2, c2, r as int, c as int);
                }
            }
            assert(cascade_core(g0, self.map@, rowsi, colsi, r as int, c as int, stack@));
            assert forall|r1: int, c1: int, r2: int, c2: int|
                ({
                    &&& in_bounds(rowsi, colsi, r1, c1)
                    &&& in_bounds(rowsi, colsi, r2, c2)
                    &&& self.map@[#[trigger] flat(colsi, r1, c1)].state is Revealed
                    &&& g0[flat(colsi, r1, c1)].state is Hidden
                    &&& g0[flat(colsi, r1, c1)].cell == Cell::Blank(0u8)
                    &&& !stack_has(stack@, r1, c1)
                    &&& !(r1 == -1 && c1 == -1)
                    &&& adjacent(r1, c1, r2, c2)
                    &&& g0[flat(colsi, r2, c2)].state is Hidden
                    &&& g0[flat(colsi, r2, c2)].cell is Blank
                }) implies self.map@[#[trigger] flat(colsi, r2, c2)].state is Revealed by {
                lemma_flat_range(rowsi, colsi, r1, c1);
                if flat(colsi, r1, c1) == idx as int {
                    lemma_flat_injective(colsi, r1, c1, r as int, c as int);
                    assert(false);
                } else {
                    assert(self.map@[flat(colsi, r1, c1)] == g0[flat(colsi, r1, c1)]);
                    assert(false);
                }
            }
            assert(frontier_except(g0, self.map@, rowsi, colsi, stack@, -1, -1));
        }
        while stack.len() != 0
            invariant
                self.rows == old(self).rows,
                self.cols == old(self).cols,
                self.mine == old(self).mine,
                self.locked == old(self).locked,
                cascade_core(g0, self.map@, rowsi, colsi, r as int, c as int, stack@),
                frontier_except(g0, self.map@, rowsi, colsi, stack@, -1, -1),
            decreases count_hidden(self.map@) + stack@.len(),
        {
            self.cascade_round(&mut stack, Ghost(g0), Ghost(r as int), Ghost(c as int));
        }
        proof {
            assert(stack@ =~= Seq::<(usize, usize)>::empty());
            assert forall|r2: int, c2: int|
                in_bounds(rowsi, colsi, r2, c2) implies self.map@[#[trigger] flat(
                colsi,
                r2,
                c2,
            )].state == (if reach(g0, rowsi, colsi, r as int, c as int, r2, c2) {
                State::Revealed
            } else {
                g0[flat(colsi, r2, c2)].state
            }) by {
                lemma_flat_range(rowsi, colsi, r2, c2);
                if reach(g0, rowsi, colsi, r as int, c as int, r2, c2) {
                    lemma_reach_revealed(
                        g0,
                        self.map@,
                        rowsi,
                        colsi,
                        r as int,
                        c as int,
                        r2,
                        c2,
                    );
                }
            }
            lemma_wf_from_cells(*old(self), *self);
        }
    }


    /// One round of the cascade's worklist loop: take a pending cell off
    /// the list; if it is a zero-count blank, reveal and enqueue every
    /// hidden blank cell of its Moore neighborhood.
    #[verifier::rlimit(100)]
    #[verifier::loop_isolation(false)]
    fn cascade_round(
        &mut self,
        stack: &mut Vec<(usize, usize)>,
        Ghost(g0): Ghost<Seq<Block>>,
        Ghost(r0): Ghost<int>,
        Ghost(c0): Ghost<int>,
    )
        requires
            old(stack)@.len() > 0,
            g0.len() == old(self).nrows() * old(self).ncols(),
            old(self).nrows() * old(self).ncols() <= usize::MAX,
            in_bounds(old(self).nrows(), old(self).ncols(), r0, c0),
            cascade_core(
                g0,
                old(self).grid(),
                old(self).nrows(),
                old(self).ncols(),
                r0,
                c0,
                old(stack)@,
            ),
            frontier_except(
                g0,
                old(self).grid(),
                old(self).nrows(),
                old(self).ncols(),
                old(stack)@,
                -1,
                -1,
            ),
        ensures
            final(self).nrows() == old(self).nrows(),
            final(self).ncols() == old(self).ncols(),
            final(self).mine_quota() == old(self).mine_quota(),
            final(self).is_locked() == old(self).is_locked(),
            cascade_core(
                g0,
                final(self).grid(),
                old(self).nrows(),
                old(self).ncols(),
                r0,
                c0,
                final(stack)@,
            ),
            frontier_except(
                g0,
                final(self).grid(),
                old(self).nrows(),
                old(self).ncols(),
                final(stack)@,
                -1,
                -1,
            ),
            count_hidden(final(self).grid()) + final(stack)@.len() < count_hidden(
                old(self).grid(),
            ) + old(stack)@.len(),
    {
        let ghost rowsi = old(self).nrows();
        let ghost colsi = old(self).ncols();
        let ghost stack_pre = stack@;
        let top = stack.pop().unwrap();
        let (pr, pc) = top;
        proof {
            assert(stack_pre[stack_pre.len() - 1] == (pr, pc));
            lemma_flat_range(rowsi, colsi, pr as int, pc as int);
            assert forall|i: int| 0 <= i < stack@.len() implies {
                &&& in_bounds(rowsi, colsi, (#[trigger] stack@[i]).0 as int, stack@[i].1 as int)
                &&& g0[flat(colsi, stack@[i].0 as int, stack@[i].1 as int)].state is Hidden
                &&& g0[flat(colsi, stack@[i].0 as int, stack@[i].1 as int)].cell is Blank
                &&& self.map@[flat(colsi, stack@[i].0 as int, stack@[i].1 as int)].state
                    is Revealed
                &&& reach(
                    g0,
                    rowsi,
                    colsi,
                    r0,
                    c0,
                    stack@[i].0 as int,
                    stack@[i].1 as int,
                )
            } by {
                assert(stack@[i] == stack_pre[i]);
            }
            assert(cascade_core(g0, self.map@, rowsi, colsi, r0, c0, stack@));
            assert forall|r1: int, c1: int, r2: int, c2: int|
                ({
                    &&& in_bounds(rowsi, colsi, r1, c1)
                    &&& in_bounds(rowsi, colsi, r2, c2)
                    &&& self.map@[#[trigger] flat(colsi, r1, c1)].state is Revealed
                    &&& g0[flat(colsi, r1, c1)].state is Hidden
                    &&& g0[flat(colsi, r1, c1)].cell == Cell::Blank(0u8)
                    &&& !stack_has(stack@, r1, c1)
                    &&& !(r1 == pr as int && c1 == pc as int)
                    &&& adjacent(r1, c1, r2, c2)
                    &&& g0[flat(colsi, r2, c2)].state is Hidden
                    &&& g0[flat(colsi, r2, c2)].cell is Blank
                }) implies self.map@[#[trigger] flat(colsi, r2, c2)].state is Revealed by {
                if stack_has(stack_pre, r1, c1) {
                    let i = choose|i: int|
                        0 <= i < stack_pre.len() && (#[trigger] stack_pre[i]).0 as int == r1
                            && stack_pre[i].1 as int == c1;
                    if i < stack@.len() {
                        assert(stack@[i] == stack_pre[i]);
                        assert(stack_has(stack@, r1, c1));
                    }
                }
            }
            assert(frontier_except(
                g0,
                self.map@,
                rowsi,
                colsi,
                stack@,
                pr as int,
                pc as int,
            ));
        }
        let pidx = pr * self.cols + pc;
        let pb = self.map[pidx];
        if pb.cell == Cell::Blank(0) {
            let ghost m0 = count_hidden(self.map@) + stack@.len();
            let mut k: usize = 0;
            while k < 9
                invariant
                    k <= 9,
                    self.rows == old(self).rows,
                    self.cols == old(self).cols,
                    self.mine == old(self).mine,
                    self.locked == old(self).locked,
                    cascade_core(g0, self.map@, rowsi, colsi, r0, c0, stack@),
                    frontier_except(
                        g0,
                        self.map@,
                        rowsi,
                        colsi,
                        stack@,
                        pr as int,
                        pc as int,
                    ),
                    count_hidden(self.map@) + stack@.len() == m0,
                    forall|k2: int|
                        0 <= k2 < k as int && k2 != 4 && in_bounds(
                            rowsi,
                            colsi,
                            #[trigger] off_r(pr as int, k2),
                            off_c(pc as int, k2),
                        ) && g0[flat(colsi, off_r(pr as int, k2), off_c(pc as int, k2))].state
                            is Hidden && g0[flat(
                            colsi,
                            off_r(pr as int, k2),
                            off_c(pc as int, k2),
                        )].cell is Blank ==> self.map@[flat(
                            colsi,
                            off_r(pr as int, k2),
                            off_c(pc as int, k2),
                        )].state is Revealed,
                decreases 9 - k,
            {
                let ghost before_visit = self.map@;
                self.cascade_visit(
                    stack,
                    pr,
                    pc,
                    k,
                    Ghost(g0),
                    Ghost(r0),
                    Ghost(c0),
                );
                proof {
                    assert forall|k2: int|
                        0 <= k2 < k as int + 1 && k2 != 4 && in_bounds(
                            rowsi,
                            colsi,
                            #[trigger] off_r(pr as int, k2),
                            off_c(pc as int, k2),
                        ) && g0[flat(colsi, off_r(pr as int, k2), off_c(pc as int, k2))].state
                            is Hidden && g0[flat(
                            colsi,
                            off_r(pr as int, k2),
                            off_c(pc as int, k2),
                        )].cell is Blank implies self.map@[flat(
                        colsi,
                        off_r(pr as int, k2),
                        off_c(pc as int, k2),
                    )].state is Revealed by {
                        lemma_flat_range(
                            rowsi,
                            colsi,
                            off_r(pr as int, k2),
                            off_c(pc as int, k2),
                        );
                        if k2 < k as int {
                            assert(before_visit[flat(
                                colsi,
                                off_r(pr as int, k2),
                                off_c(pc as int, k2),
                            )].state is Revealed);
                        }
                    }
                }
                k = k + 1;
            }
            proof {
                assert forall|r1: int, c1: int, r2: int, c2: int|
                    ({
                        &&& in_bounds(rowsi, colsi, r1, c1)
                        &&& in_bounds(rowsi, colsi, r2, c2)
                        &&& self.map@[#[trigger] flat(colsi, r1, c1)].state is Revealed
                        &&& g0[flat(colsi, r1, c1)].state is Hidden
                        &&& g0[flat(colsi, r1, c1)].cell == Cell::Blank(0u8)
                        &&& !stack_has(stack@, r1, c1)
                        &&& !(r1 == -1 && c1 == -1)
                        &&& adjacent(r1, c1, r2, c2)
                        &&& g0[flat(colsi, r2, c2)].state is Hidden
                        &&& g0[flat(colsi, r2, c2)].cell is Blank
                    }) implies self.map@[#[trigger] flat(colsi, r2, c2)].state is Revealed by {
                    lemma_flat_range(rowsi, colsi, r1, c1);
                    lemma_flat_range(rowsi, colsi, r2, c2);
                    if r1 == pr as int && c1 == pc as int {
                        lemma_adjacent_offset(pr as int, pc as int, r2, c2);
                        let k2 = choose|k2: int|
                            0 <= k2 < 9 && k2 != 4 && off_r(pr as int, k2) == r2
                                && #[trigger] off_c(pc as int, k2) == c2;
                        assert(self.map@[flat(
                            colsi,
                            off_r(pr as int, k2),
                            off_c(pc as int, k2),
                        )].state is Revealed);
                    }
                }
                assert(frontier_except(g0, self.map@, rowsi, colsi, stack@, -1, -1));
            }
        } else {
            proof {
                assert(self.map@[flat(colsi, pr as int, pc as int)].cell == g0[flat(
                    colsi,
                    pr as int,
                    pc as int,
                )].cell);
                assert forall|r1: int, c1: int, r2: int, c2: int|
                    ({
                        &&& in_bounds(rowsi, colsi, r1, c1)
                        &&& in_bounds(rowsi, colsi, r2, c2)
                        &&& self.map@[#[trigger] flat(colsi, r1, c1)].state is Revealed
                        &&& g0[flat(colsi, r1, c1)].state is Hidden
                        &&& g0[flat(colsi, r1, c1)].cell == Cell::Blank(0u8)
                        &&& !stack_has(stack@, r1, c1)
                        &&& !(r1 == -1 && c1 == -1)
                        &&& adjacent(r1, c1, r2, c2)
                        &&& g0[flat(colsi, r2, c2)].state is Hidden
                        &&& g0[flat(colsi, r2, c2)].cell is Blank
                    }) implies self.map@[#[trigger] flat(colsi, r2, c2)].state is Revealed by {
                    lemma_flat_range(rowsi, colsi, r1, c1);
                    lemma_flat_range(rowsi, colsi, r2, c2);
                    if r1 == pr as int && c1 == pc as int {
                        assert(false);
                    }
                }
                assert(frontier_except(g0, self.map@, rowsi, colsi, stack@, -1, -1));
            }
        }
    }

    /// One step of the cascade around the zero-count blank `(pr, pc)`:
    /// if offset `k` of its 3x3 square names a grid cell other than the
    /// center and that cell is still hidden and blank, reveal it and put
    /// it on the worklist.
    fn cascade_visit(
        &mut self,
        stack: &mut Vec<(usize, usize)>,
        pr: usize,
        pc: usize,
        k: usize,
        Ghost(g0): Ghost<Seq<Block>>,
        Ghost(r0): Ghost<int>,
        Ghost(c0): Ghost<int>,
    )
        requires
            k < 9,
            g0.len() == old(self).nrows() * old(self).ncols(),
            old(self).nrows() * old(self).ncols() <= usize::MAX,
            in_bounds(old(self).nrows(), old(self).ncols(), r0, c0),
            in_bounds(old(self).nrows(), old(self).ncols(), pr as int, pc as int),
            g0[flat(old(self).ncols(), pr as int, pc as int)].state is Hidden,
            g0[flat(old(self).ncols(), pr as int, pc as int)].cell == Cell::Blank(0u8),
            reach(g0, old(self).nrows(), old(self).ncols(), r0, c0, pr as int, pc as int),
            cascade_core(
                g0,
                old(self).grid(),
                old(self).nrows(),
                old(self).ncols(),
                r0,
                c0,
                old(stack)@,
            ),
            frontier_except(
                g0,
                old(self).grid(),
                old(self).nrows(),
                old(self).ncols(),
                old(stack)@,
                pr as int,
                pc as int,
            ),
        ensures
            final(self).nrows() == old(self).nrows(),
            final(self).ncols() == old(self).ncols(),
            final(self).mine_quota() == old(self).mine_quota(),
            final(self).is_locked() == old(self).is_locked(),
            cascade_core(
                g0,
                final(self).grid(),
                old(self).nrows(),
                old(self).ncols(),
                r0,
                c0,
                final(stack)@,
            ),
            frontier_except(
                g0,
                final(self).grid(),
                old(self).nrows(),
                old(self).ncols(),
                final(stack)@,
                pr as int,
                pc as int,
            ),
            count_hidden(final(self).grid()) + final(stack)@.len() == count_hidden(
                old(self).grid(),
            ) + old(stack)@.len(),
            forall|p: int|
                0 <= p < g0.len() && old(self).grid()[p].state is Revealed
                    ==> (#[trigger] final(self).grid()[p]).state is Revealed,
            (k as int != 4 && in_bounds(
                old(self).nrows(),
                old(self).ncols(),
                off_r(pr as int, k as int),
                off_c(pc as int, k as int),
            ) && g0[flat(
                old(self).ncols(),
                off_r(pr as int, k as int),
                off_c(pc as int, k as int),
            )].state is Hidden && g0[flat(
                old(self).ncols(),
                off_r(pr as int, k as int),
                off_c(pc as int, k as int),
            )].cell is Blank) ==> final(self).grid()[flat(
                old(self).ncols(),
                off_r(pr as int, k as int),
                off_c(pc as int, k as int),
            )].state is Revealed,
    {
        let ghost rowsi = old(self).nrows();
        let ghost colsi = old(self).ncols();
        if k == 4 {
            return;
        }
        let dr = k / 3;
        let dc = k % 3;
        if (pr == 0 && dr == 0) || (pc == 0 && dc == 0) {
            return;
        }
        let nr = if pr > 0 {
            pr - 1 + dr
        } else {
            dr - 1
        };
        let nc = if pc > 0 {
            pc - 1 + dc
        } else {
            dc - 1
        };
        proof {
            assert(nr as int == off_r(pr as int, k as int));
            assert(nc as int == off_c(pc as int, k as int));
        }
        if nr >= self.rows || nc >= self.cols {
            return;
        }
        proof {
            lemma_flat_range(rowsi, colsi, nr as int, nc as int);
        }
        let nidx = nr * self.cols + nc;
        let nb = self.map[nidx];
        if nb.state == State::Hidden && nb.cell != Cell::Mine {
            let ghost pre_map = self.map@;
            let ghost pre_stack = stack@;
            proof {
                lemma_offset_adjacent(pr as int, pc as int, k as int);
                assert(g0[flat(colsi, nr as int, nc as int)].state is Hidden);
                assert(g0[flat(colsi, nr as int, nc as int)].cell is Blank);
                lemma_reach_step(
                    g0,
                    rowsi,
                    colsi,
                    r0,
                    c0,
                    pr as int,
                    pc as int,
                    nr as int,
                    nc as int,
                );
            }
            self.map.set(nidx, Block { cell: nb.cell, state: State::Revealed });
            stack.push((nr, nc));
            proof {
                lemma_count_hidden_update(
                    pre_map,
                    nidx as int,
                    Block { cell: nb.cell, state: State::Revealed },
                );
                lemma_cascade_set(
                    g0,
                    pre_map,
                    rowsi,
                    colsi,
                    r0,
                    c0,
                    pre_stack,
                    pr as int,
                    pc as int,
                    nr,
                    nc,
                );
            }
        }
    }
}

impl MineMap {
    /// Apply one input event, as the presentation layer hands them over:
    /// a left click reveals, a right click toggles a mark. Returns
    /// `false` exactly when the click revealed a mine and the game is
    /// lost, `true` on every other outcome.
    pub fn input(&mut self, message: MouseMessage) -> (keep_going: bool)
        requires
            old(self).wf(),
        ensures
            final(self).wf(),
            match message.button {
                MouseButton::Left => {
                    &&& reveal_rel(
                        *old(self),
                        *final(self),
                        message.location.0 as int,
                        message.location.1 as int,
                    )
                    &&& keep_going == !(reveal_outcome(
                        *old(self),
                        message.location.0 as int,
                        message.location.1 as int,
                    ) is Loss)
                },
                MouseButton::Right => {
                    &&& toggle_rel(
                        *old(self),
                        *final(self),
                        message.location.0 as int,
                        message.location.1 as int,
                    )
                    &&& keep_going
                },
            },
    {
        match message.button {
            MouseButton::Left => {
                let o = self.reveal_at(message.location.0, message.location.1);
                o != RevealOutcome::Loss
            },
            MouseButton::Right => {
                let _ = self.toggle_mark(message.location.0, message.location.1);
                true
            },
        }
    }
}

/// On a board where every cell is hidden again — as `restart_same`
/// leaves it — and at least one cell is not a mine, the game is not won:
/// winning requires every non-mine cell revealed.
pub proof fn lemma_all_hidden_not_won(m: MineMap)
    requires
        m.wf(),
        m.mine_quota() < m.grid().len(),
        forall|p: int| 0 <= p < m.grid().len() ==> (#[trigger] m.grid()[p]).state is Hidden,
    ensures
        !m.won(),
{
    crate::layout::lemma_count_trues_lt_exists(mines_of(m.grid()));
    let i = choose|i: int| 0 <= i < mines_of(m.grid()).len() && !mines_of(m.grid())[i];
    assert(!(m.grid()[i].cell is Mine));
    assert(m.grid()[i].state is Hidden);
}

/// Count the `true` entries of a mask.
fn count_true_flags(v: &Vec<bool>) -> (n: usize)
    ensures
        n == count_trues(v@),
{
    let mut n: usize = 0;
    let mut i: usize = 0;
    while i < v.len()
        invariant
            i <= v@.len(),
            n <= i,
            n == count_trues(v@.take(i as int)),
        decreases v@.len() - i,
    {
        proof {
            assert(v@.take(i as int + 1) =~= v@.take(i as int).push(v@[i as int]));
            lemma_count_trues_push(v@.take(i as int), v@[i as int]);
        }
        if v[i] {
            n = n + 1;
        }
        i = i + 1;
    }
    proof {
        assert(v@.take(v@.len() as int) =~= v@);
    }
    n
}

} // verus!
