use vstd::prelude::*;

use crate::cell::Block;
use crate::cell::Cell;
use crate::cell::State;
use rand::seq::SliceRandom;

verus! {

/// Whether `(r, c)` names a cell of a `rows` by `cols` grid.
pub open spec fn in_bounds(rows: int, cols: int, r: int, c: int) -> bool {
    0 <= r < rows && 0 <= c < cols
}

/// Row-major index of cell `(r, c)` in the flat grid sequence.
pub open spec fn flat(cols: int, r: int, c: int) -> int {
    r * cols + c
}

/// Moore adjacency: distinct cells whose row and column each differ by
/// at most one.
pub open spec fn adjacent(r1: int, c1: int, r2: int, c2: int) -> bool {
    &&& !(r1 == r2 && c1 == c2)
    &&& -1 <= r1 - r2 <= 1
    &&& -1 <= c1 - c2 <= 1
}

/// Row of the `k`-th cell (0 <= k < 9, row-major) of the 3x3 square
/// centered on row `r`.
pub open spec fn off_r(r: int, k: int) -> int {
    r - 1 + k / 3
}

/// Column of the `k`-th cell of the 3x3 square centered on column `c`.
pub open spec fn off_c(c: int, k: int) -> int {
    c - 1 + k % 3
}

/// The mine mask of a grid: `true` at the positions whose content is a
/// mine.
pub open spec fn mines_of(g: Seq<Block>) -> Seq<bool> {
    g.map_values(|b: Block| b.cell is Mine)
}

/// How many entries of `s` are `true`.
pub open spec fn count_trues(s: Seq<bool>) -> nat
    decreases s.len(),
{
    if s.len() == 0 {
        0
    } else {
        count_trues(s.drop_last()) + if s.last() {
            1nat
        } else {
            0nat
        }
    }
}

/// Mines among the first `k` of the nine cells of the 3x3 square
/// centered on `(r, c)`, skipping the center (`k == 4`) and anything
/// outside the grid.
pub open spec fn nbr_mines_upto(m: Seq<bool>, rows: int, cols: int, r: int, c: int, k: int) -> nat
    decreases k,
{
    if k <= 0 {
        0
    } else {
        nbr_mines_upto(m, rows, cols, r, c, k - 1) + if k - 1 != 4 && in_bounds(
            rows,
            cols,
            off_r(r, k - 1),
            off_c(c, k - 1),
        ) && m[flat(cols, off_r(r, k - 1), off_c(c, k - 1))] {
            1nat
        } else {
            0nat
        }
    }
}

/// The number of mines in the Moore neighborhood of `(r, c)`.
pub open spec fn nbr_mines(m: Seq<bool>, rows: int, cols: int, r: int, c: int) -> nat {
    nbr_mines_upto(m, rows, cols, r, c, 9)
}

/// If the cell at `(r, c)` of grid `g` is blank, it carries exactly the
/// number of mines that the mask `m` has in its Moore neighborhood.
pub open spec fn blank_count_ok(m: Seq<bool>, g: Seq<Block>, rows: int, cols: int, r: int, c: int) -> bool {
    g[flat(cols, r, c)].cell matches Cell::Blank(n) ==> n == nbr_mines(m, rows, cols, r, c)
}

/// Every blank cell of the grid carries exactly the number of mines in
/// its Moore neighborhood.
pub open spec fn counts_consistent(g: Seq<Block>, rows: int, cols: int) -> bool {
    forall|r: int, c: int|
        in_bounds(rows, cols, r, c) ==> #[trigger] blank_count_ok(mines_of(g), g, rows, cols, r, c)
}

/// A row-major index is within the flat grid.
pub proof fn lemma_flat_range(rows: int, cols: int, r: int, c: int)
    requires
        in_bounds(rows, cols, r, c),
    ensures
        0 <= flat(cols, r, c) < rows * cols,
{
    assert(0 <= r * cols + c < rows * cols) by (nonlinear_arith)
        requires
            0 <= r < rows,
            0 <= c < cols,
    ;
}

/// Distinct cells have distinct row-major indices.
pub proof fn lemma_flat_injective(cols: int, r1: int, c1: int, r2: int, c2: int)
    requires
        0 <= c1 < cols,
        0 <= c2 < cols,
        flat(cols, r1, c1) == flat(cols, r2, c2),
    ensures
        r1 == r2 && c1 == c2,
{
    assert(r1 == r2 && c1 == c2) by (nonlinear_arith)
        requires
            0 <= c1 < cols,
            0 <= c2 < cols,
            r1 * cols + c1 == r2 * cols + c2,
    ;
}

/// Appending an entry adds one to the count exactly when it is `true`.
pub proof fn lemma_count_trues_push(s: Seq<bool>, b: bool)
    ensures
        count_trues(s.push(b)) == count_trues(s) + if b {
            1nat
        } else {
            0nat
        },
{
    assert(s.push(b).drop_last() =~= s);
    assert(s.push(b).last() == b);
}

/// The count of `true` entries is the multiplicity of `true` in the
/// sequence seen as a multiset, so any permutation preserves it.
pub proof fn lemma_count_trues_multiset(s: Seq<bool>)
    ensures
        count_trues(s) == s.to_multiset().count(true),
    decreases s.len(),
{
    broadcast use vstd::seq_lib::group_to_multiset_ensures;
    broadcast use vstd::multiset::group_multiset_axioms;

    if s.len() == 0 {
        assert(!s.contains(true));
    } else {
        lemma_count_trues_multiset(s.drop_last());
        assert(s =~= s.drop_last().push(s.last()));
        assert(s.drop_last().push(s.last()).to_multiset() =~= s.drop_last().to_multiset().insert(
            s.last(),
        ));
    }
}

/// No more entries are `true` than there are entries.
pub proof fn lemma_count_trues_le_len(s: Seq<bool>)
    ensures
        count_trues(s) <= s.len(),
    decreases s.len(),
{
    if s.len() > 0 {
        lemma_count_trues_le_len(s.drop_last());
    }
}

/// If not every entry is `true`, some entry is `false`.
pub proof fn lemma_count_trues_lt_exists(s: Seq<bool>)
    requires
        count_trues(s) < s.len(),
    ensures
        exists|i: int| 0 <= i < s.len() && !s[i],
    decreases s.len(),
{
    if !s.last() {
        assert(0 <= s.len() - 1 < s.len() && !s[s.len() - 1]);
    } else {
        lemma_count_trues_lt_exists(s.drop_last());
        let i = choose|i: int| 0 <= i < s.drop_last().len() && !s.drop_last()[i];
        assert(0 <= i < s.len() && !s[i]);
    }
}

/// Relies on rand's `SliceRandom::shuffle`, a Fisher-Yates shuffle: it
/// permutes the slice in place, so the multiset of its elements — and
/// hence its length — is unchanged. Which permutation comes out depends
/// on the thread-local random generator.
#[verifier::external_body]
fn shuffle_flags(v: &mut Vec<bool>)
    ensures
        final(v)@.len() == old(v)@.len(),
        final(v)@.to_multiset() == old(v)@.to_multiset(),
{
    v.shuffle(&mut rand::thread_rng());
}

/// Turn a mine mask into a grid of hidden blocks whose blank cells carry
/// their Moore-neighborhood mine counts.
pub(crate) fn build_blocks(flags: &Vec<bool>, rows: usize, cols: usize) -> (g: Vec<Block>)
    requires
        flags@.len() == rows * cols,
    ensures
        g@.len() == rows * cols,
        mines_of(g@) == flags@,
        forall|p: int| 0 <= p < g@.len() ==> (#[trigger] g@[p]).state is Hidden,
        counts_consistent(g@, rows as int, cols as int),
{
    let total = flags.len();
    let mut g: Vec<Block> = Vec::new();
    let mut r: usize = 0;
    while r < rows
        invariant
            r <= rows,
            rows * cols <= usize::MAX,
            flags@.len() == rows * cols,
            g@.len() == r * cols,
            forall|p: int| 0 <= p < g@.len() ==> (#[trigger] g@[p]).state is Hidden,
            forall|p: int|
                0 <= p < g@.len() ==> ((#[trigger] g@[p]).cell is Mine <==> flags@[p]),
            forall|r2: int, c2: int|
                in_bounds(rows as int, cols as int, r2, c2) && flat(cols as int, r2, c2) < g@.len()
                    ==> #[trigger] blank_count_ok(flags@, g@, rows as int, cols as int, r2, c2),
        decreases rows - r,
    {
        let mut c: usize = 0;
        while c < cols
            invariant
                r < rows,
                c <= cols,
                rows * cols <= usize::MAX,
                flags@.len() == rows * cols,
                g@.len() == r * cols + c,
                forall|p: int| 0 <= p < g@.len() ==> (#[trigger] g@[p]).state is Hidden,
                forall|p: int|
                    0 <= p < g@.len() ==> ((#[trigger] g@[p]).cell is Mine <==> flags@[p]),
                forall|r2: int, c2: int|
                    in_bounds(rows as int, cols as int, r2, c2) && flat(cols as int, r2, c2)
                        < g@.len() ==> #[trigger] blank_count_ok(
                        flags@,
                        g@,
                        rows as int,
                        cols as int,
                        r2,
                        c2,
                    ),
            decreases cols - c,
        {
            proof {
                lemma_flat_range(rows as int, cols as int, r as int, c as int);
            }
            let p = r * cols + c;
            let block = if flags[p] {
                Block { cell: Cell::Mine, state: State::Hidden }
            } else {
                let mut cnt: u8 = 0;
                let mut k: usize = 0;
                while k < 9
                    invariant
                        k <= 9,
                        cnt <= k,
                        r < rows,
                        c < cols,
                        rows * cols <= usize::MAX,
                        flags@.len() == rows * cols,
                        cnt == nbr_mines_upto(
                            flags@,
                            rows as int,
                            cols as int,
                            r as int,
                            c as int,
                            k as int,
                        ),
                    decreases 9 - k,
                {
                    if k != 4 {
                        let dr = k / 3;
                        let dc = k % 3;
                        if (r > 0 || dr > 0) && (c > 0 || dc > 0) {
                            let nr = if r > 0 {
                                r - 1 + dr
                            } else {
                                dr - 1
                            };
                            let nc = if c > 0 {
                                c - 1 + dc
                            } else {
                                dc - 1
                            };
                            if nr < rows && nc < cols {
                                proof {
                                    lemma_flat_range(rows as int, cols as int, nr as int, nc as int);
                                }
                                if flags[nr * cols + nc] {
                                    cnt = cnt + 1;
                                }
                            }
                        }
                    }
                    k = k + 1;
                }
                Block { cell: Cell::Blank(cnt), state: State::Hidden }
            };
            let ghost pre = g@;
            g.push(block);
            proof {
                assert forall|r2: int, c2: int|
                    in_bounds(rows as int, cols as int, r2, c2) && flat(cols as int, r2, c2)
                        < g@.len() implies #[trigger] blank_count_ok(
                    flags@,
                    g@,
                    rows as int,
                    cols as int,
                    r2,
                    c2,
                ) by {
                    if flat(cols as int, r2, c2) == pre.len() {
                        lemma_flat_injective(cols as int, r2, c2, r as int, c as int);
                    } else {
                        assert(blank_count_ok(flags@, pre, rows as int, cols as int, r2, c2));
                        assert(g@[flat(cols as int, r2, c2)] == pre[flat(cols as int, r2, c2)]);
                    }
                }
            }
            c = c + 1;
        }
        proof {
            assert((r + 1) * cols == r * cols + cols) by (nonlinear_arith);
        }
        r = r + 1;
    }
    proof {
        assert(mines_of(g@) =~= flags@);
        assert forall|r2: int, c2: int|
            in_bounds(rows as int, cols as int, r2, c2) implies #[trigger] blank_count_ok(
            mines_of(g@),
            g@,
            rows as int,
            cols as int,
            r2,
            c2,
        ) by {
            lemma_flat_range(rows as int, cols as int, r2, c2);
            assert(blank_count_ok(flags@, g@, rows as int, cols as int, r2, c2));
        }
    }
    g
}

/// Generate a fresh layout: exactly `mine` mines spread by a uniform
/// shuffle over a `rows` by `cols` grid of hidden cells, every blank
/// carrying its Moore-neighborhood mine count. Which cells hold the
/// mines is up to the random source; everything else is determined.
pub(crate) fn generate(rows: usize, cols: usize, mine: usize) -> (g: Vec<Block>)
    requires
        mine <= rows * cols,
        rows * cols <= usize::MAX,
    ensures
        g@.len() == rows * cols,
        count_trues(mines_of(g@)) == mine,
        forall|p: int| 0 <= p < g@.len() ==> (#[trigger] g@[p]).state is Hidden,
        counts_consistent(g@, rows as int, cols as int),
{
    let total = rows * cols;
    let mut flags: Vec<bool> = Vec::new();
    let mut i: usize = 0;
    while i < total
        invariant
            i <= total,
            mine <= total,
            flags@.len() == i,
            count_trues(flags@) == if i <= mine {
                i as nat
            } else {
                mine as nat
            },
        decreases total - i,
    {
        let ghost pre = flags@;
        flags.push(i < mine);
        proof {
            lemma_count_trues_push(pre, i < mine);
        }
        i = i + 1;
    }
    let ghost before = flags@;
    shuffle_flags(&mut flags);
    proof {
        lemma_count_trues_multiset(before);
        lemma_count_trues_multiset(flags@);
    }
    build_blocks(&flags, rows, cols)
}

} // verus!
