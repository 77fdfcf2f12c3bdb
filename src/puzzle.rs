use vstd::prelude::*;
use vstd::string::StringExecFns;

use crate::cell::Cell;
use crate::text::{decimal, push_decimal};
use crate::line::{
    copy_line, is_full, lemma_step_monotone, lemma_step_no_progress, lemma_step_shape, step, Line,
    LineType,
};

verus! {

/// The cells of a line and the fillings it still considers.
pub type LineState = (Seq<Cell>, Seq<Seq<Cell>>);

/// The rows and the columns of a grid.
pub type Grid = (Seq<LineState>, Seq<LineState>);

/// The state of a line.
pub open spec fn line_state(l: Line) -> LineState {
    (l.cells@, l.cands())
}

/// The states of a sequence of lines.
pub open spec fn states(ls: Seq<Line>) -> Seq<LineState> {
    Seq::new(ls.len(), |i: int| line_state(ls[i]))
}

/// Writes each known cell of `cells` into position `pos` of the matching line of
/// `lines`.
pub open spec fn project(lines: Seq<LineState>, pos: int, cells: Seq<Cell>) -> Seq<LineState> {
    Seq::new(
        lines.len(),
        |c: int|
            if cells[c] != Cell::Unknown {
                (lines[c].0.update(pos, cells[c]), lines[c].1)
            } else {
                lines[c]
            },
    )
}

/// The grid after row `r` takes state `new`, projected into the columns.
pub open spec fn apply_row(g: Grid, r: int, new: LineState) -> Grid {
    (g.0.update(r, new), project(g.1, r, new.0))
}

/// The grid after column `c` takes state `new`, projected into the rows.
pub open spec fn apply_col(g: Grid, c: int, new: LineState) -> Grid {
    (project(g.0, c, new.0), g.1.update(c, new))
}

/// The grid, whether all solved so far, and whether progress was made, after the
/// first `n` rows took one step each in order.
pub open spec fn row_pass(g: Grid, n: int) -> (Grid, bool, bool)
    decreases n,
{
    if n <= 0 {
        (g, true, false)
    } else {
        let prev = row_pass(g, n - 1);
        let l = prev.0.0[n - 1];
        let st = step(l.0, l.1);
        (apply_row(prev.0, n - 1, (st.0, st.1)), prev.1 && st.2, prev.2 || st.3)
    }
}

/// The same for the first `n` columns, starting from the flags `solved_in` and `progress_in`.
pub open spec fn col_pass(g: Grid, n: int, solved_in: bool, progress_in: bool) -> (Grid, bool, bool)
    decreases n,
{
    if n <= 0 {
        (g, solved_in, progress_in)
    } else {
        let prev = col_pass(g, n - 1, solved_in, progress_in);
        let l = prev.0.1[n - 1];
        let st = step(l.0, l.1);
        (apply_col(prev.0, n - 1, (st.0, st.1)), prev.1 && st.2, prev.2 || st.3)
    }
}

/// One iteration: every row, then every column, takes one step.
pub open spec fn iteration(g: Grid) -> (Grid, bool, bool) {
    let rp = row_pass(g, g.0.len() as int);
    col_pass(rp.0, rp.0.1.len() as int, rp.1, rp.2)
}

/// Iterations from `iters` on while the last one made progress and the budget lasts:
/// the grid, the iterations used and whether the last one found every line solved.
pub open spec fn run(g: Grid, max: nat, iters: nat, solved: bool, progress: bool) -> (
    Grid,
    nat,
    bool,
)
    decreases max - iters,
{
    if progress && iters < max {
        let it = iteration(g);
        run(it.0, max, iters + 1, it.1, it.2)
    } else {
        (g, iters, solved)
    }
}

/// Every line has the right length and only full fillings of that length.
pub open spec fn shaped(g: Grid) -> bool {
    &&& forall|r: int|
        0 <= r < g.0.len() ==> (#[trigger] g.0[r]).0.len() == g.1.len() && cands_ok(
            g.0[r].1,
            g.1.len() as int,
        )
    &&& forall|c: int|
        0 <= c < g.1.len() ==> (#[trigger] g.1[c]).0.len() == g.0.len() && cands_ok(
            g.1[c].1,
            g.0.len() as int,
        )
}

/// All fillings are full lines of `n` cells.
pub open spec fn cands_ok(cs: Seq<Seq<Cell>>, n: int) -> bool {
    forall|j: int| 0 <= j < cs.len() ==> (#[trigger] cs[j]).len() == n && is_full(cs[j])
}

/// The row view and the column view hold the same value at every cell.
pub open spec fn consistent(g: Grid) -> bool {
    forall|r: int, c: int|
        0 <= r < g.0.len() && 0 <= c < g.1.len() ==> #[trigger] g.0[r].0[c] == #[trigger] g.1[c].0[r]
}


/// The number of fillings left over the lines, capped at `u32::MAX`.
fn count_fillings(ls: &Vec<Line>) -> (r: u32)
    ensures
        r == if fillings_left(ls@) > u32::MAX {
            u32::MAX as int
        } else {
            fillings_left(ls@)
        },
{
    let mut total: u32 = 0;
    let mut i: usize = 0;
    while i < ls.len()
        invariant
            i <= ls.len(),
            total == if fillings_left(ls@.take(i as int)) > u32::MAX {
                u32::MAX as int
            } else {
                fillings_left(ls@.take(i as int))
            },
            fillings_left(ls@.take(i as int)) >= 0,
        decreases ls.len() - i,
    {
        assert(ls@.take(i + 1).drop_last() =~= ls@.take(i as int));
        let n = ls[i].potential_solutions.len();
        if n > u32::MAX as usize {
            total = u32::MAX;
        } else {
            total = total.saturating_add(n as u32);
        }
        i = i + 1;
    }
    assert(ls@.take(i as int) =~= ls@);
    total
}

/// Line lengths fit the grid's dimensions.
pub open spec fn lengths_ok(g: Grid) -> bool {
    &&& forall|r: int| 0 <= r < g.0.len() ==> (#[trigger] g.0[r]).0.len() == g.1.len()
    &&& forall|c: int| 0 <= c < g.1.len() ==> (#[trigger] g.1[c]).0.len() == g.0.len()
}

proof fn lemma_apply_row_consistent(g: Grid, r: int, new: LineState)
    requires
        lengths_ok(g),
        consistent(g),
        0 <= r < g.0.len(),
        new.0.len() == g.1.len(),
        forall|j: int|
            0 <= j < new.0.len() && new.0[j] == Cell::Unknown ==> g.0[r].0[j] == Cell::Unknown,
    ensures
        consistent(apply_row(g, r, new)),
        lengths_ok(apply_row(g, r, new)),
{
    let h = apply_row(g, r, new);
    assert forall|a: int, c: int| 0 <= a < h.0.len() && 0 <= c < h.1.len() implies #[trigger] h.0[a].0[c]
        == #[trigger] h.1[c].0[a] by {
        assert(g.0[a].0[c] == g.1[c].0[a]);
    }
}

proof fn lemma_apply_col_consistent(g: Grid, c: int, new: LineState)
    requires
        lengths_ok(g),
        consistent(g),
        0 <= c < g.1.len(),
        new.0.len() == g.0.len(),
        forall|j: int|
            0 <= j < new.0.len() && new.0[j] == Cell::Unknown ==> g.1[c].0[j] == Cell::Unknown,
    ensures
        consistent(apply_col(g, c, new)),
        lengths_ok(apply_col(g, c, new)),
{
    let h = apply_col(g, c, new);
    assert forall|a: int, b: int| 0 <= a < h.0.len() && 0 <= b < h.1.len() implies #[trigger] h.0[a].0[b]
        == #[trigger] h.1[b].0[a] by {
        assert(g.0[a].0[b] == g.1[b].0[a]);
    }
}

/// The run lengths of a clue in decimal, separated by a comma and a space.
pub open spec fn clue_text(clue: Seq<u8>) -> Seq<char>
    decreases clue.len(),
{
    if clue.len() == 0 {
        Seq::empty()
    } else if clue.len() == 1 {
        decimal(clue[0] as nat)
    } else {
        clue_text(clue.drop_last()) + seq![',', ' '] + decimal(clue.last() as nat)
    }
}

/// The run lengths of a clue in decimal, separated by a comma and a space.
pub fn clue_as_string(clue: &Vec<u8>) -> (r: String)
    ensures
        r@ == clue_text(clue@),
{
    let mut clue_string = String::new();
    let mut i: usize = 0;
    while i < clue.len()
        invariant
            i <= clue.len(),
            clue_string@ == clue_text(clue@.take(i as int)),
        decreases clue.len() - i,
    {
        assert(clue@.take(i + 1).drop_last() =~= clue@.take(i as int));
        let ghost before = clue_string@;
        proof {
            reveal_strlit(", ");
        }
        if i > 0 {
            clue_string.append(", ");
        }
        push_decimal(&mut clue_string, clue[i] as u32);
        proof {
            if i == 0 {
                assert(clue_string@ =~= clue_text(clue@.take(1)));
            } else {
                assert(clue@.take(i + 1).last() == clue@[i as int]);
                assert(clue_string@ =~= before + seq![',', ' '] + decimal(clue@[i as int] as nat));
                assert(clue_string@ =~= clue_text(clue@.take(i + 1)));
            }
        }
        i = i + 1;
    }
    assert(clue@.take(i as int) =~= clue@);
    clue_string
}

/// The number of fillings left over a sequence of lines.
pub open spec fn fillings_left(ls: Seq<Line>) -> int
    decreases ls.len(),
{
    if ls.len() == 0 {
        0
    } else {
        fillings_left(ls.drop_last()) + ls.last().potential_solutions.len()
    }
}

/// The most runs in any of the clues, or zero.
pub open spec fn most_runs(cs: Seq<Vec<u8>>) -> int
    decreases cs.len(),
{
    if cs.len() == 0 {
        0
    } else if cs.last().len() > most_runs(cs.drop_last()) {
        cs.last().len() as int
    } else {
        most_runs(cs.drop_last())
    }
}


proof fn lemma_apply_row_same(g: Grid, r: int)
    requires
        lengths_ok(g),
        consistent(g),
        0 <= r < g.0.len(),
    ensures
        apply_row(g, r, g.0[r]) == g,
{
    let h = apply_row(g, r, g.0[r]);
    assert forall|c: int| 0 <= c < g.1.len() implies #[trigger] h.1[c] == g.1[c] by {
        if g.0[r].0[c] != Cell::Unknown {
            assert(g.1[c].0.update(r, g.0[r].0[c]) =~= g.1[c].0);
        }
    }
    assert(h.0 =~= g.0);
    assert(h.1 =~= g.1);
}

proof fn lemma_apply_col_same(g: Grid, c: int)
    requires
        lengths_ok(g),
        consistent(g),
        0 <= c < g.1.len(),
    ensures
        apply_col(g, c, g.1[c]) == g,
{
    let h = apply_col(g, c, g.1[c]);
    assert forall|r: int| 0 <= r < g.0.len() implies #[trigger] h.0[r] == g.0[r] by {
        if g.1[c].0[r] != Cell::Unknown {
            assert(g.0[r].0.update(c, g.1[c].0[r]) =~= g.0[r].0);
        }
    }
    assert(h.0 =~= g.0);
    assert(h.1 =~= g.1);
}

proof fn lemma_row_pass_still(g: Grid, n: int)
    requires
        lengths_ok(g),
        consistent(g),
        n <= g.0.len(),
        !row_pass(g, n).2,
    ensures
        row_pass(g, n).0 == g,
    decreases n,
{
    if n > 0 {
        lemma_row_pass_still(g, n - 1);
        lemma_step_no_progress(g.0[n - 1].0, g.0[n - 1].1);
        lemma_apply_row_same(g, n - 1);
    }
}

proof fn lemma_col_pass_flag(g: Grid, n: int, solved_in: bool, progress_in: bool)
    ensures
        progress_in ==> col_pass(g, n, solved_in, progress_in).2,
    decreases n,
{
    if n > 0 {
        lemma_col_pass_flag(g, n - 1, solved_in, progress_in);
    }
}

proof fn lemma_col_pass_still(g: Grid, n: int, solved_in: bool, progress_in: bool)
    requires
        lengths_ok(g),
        consistent(g),
        n <= g.1.len(),
        !col_pass(g, n, solved_in, progress_in).2,
    ensures
        col_pass(g, n, solved_in, progress_in).0 == g,
        !progress_in,
    decreases n,
{
    if n > 0 {
        lemma_col_pass_still(g, n - 1, solved_in, progress_in);
        lemma_step_no_progress(g.1[n - 1].0, g.1[n - 1].1);
        lemma_apply_col_same(g, n - 1);
    }
}

/// At a fixed point nothing moves: an iteration that makes no progress leaves the
/// grid as it was, so running another one gives the same grid and the same report.
pub proof fn lemma_fixed_point(g: Grid)
    requires
        lengths_ok(g),
        consistent(g),
        !iteration(g).2,
    ensures
        iteration(g).0 == g,
        iteration(iteration(g).0) == iteration(g),
{
    let rp = row_pass(g, g.0.len() as int);
    lemma_col_pass_flag(rp.0, rp.0.1.len() as int, rp.1, rp.2);
    lemma_row_pass_still(g, g.0.len() as int);
    lemma_col_pass_still(rp.0, rp.0.1.len() as int, rp.1, rp.2);
}


proof fn lemma_apply_row_shaped(g: Grid, r: int, new: LineState)
    requires
        shaped(g),
        consistent(g),
        0 <= r < g.0.len(),
        new.0.len() == g.1.len(),
        cands_ok(new.1, g.1.len() as int),
        forall|j: int|
            0 <= j < new.0.len() && new.0[j] == Cell::Unknown ==> g.0[r].0[j] == Cell::Unknown,
    ensures
        shaped(apply_row(g, r, new)),
        consistent(apply_row(g, r, new)),
        apply_row(g, r, new).0.len() == g.0.len(),
        apply_row(g, r, new).1.len() == g.1.len(),
{
    lemma_apply_row_consistent(g, r, new);
    let h = apply_row(g, r, new);
    assert forall|c: int| 0 <= c < h.1.len() implies (#[trigger] h.1[c]).0.len() == h.0.len()
        && cands_ok(h.1[c].1, h.0.len() as int) by {
        assert(g.1[c].0.len() == g.0.len() && cands_ok(g.1[c].1, g.0.len() as int));
    }
    assert forall|a: int| 0 <= a < h.0.len() implies (#[trigger] h.0[a]).0.len() == h.1.len()
        && cands_ok(h.0[a].1, h.1.len() as int) by {
        if a != r {
            assert(g.0[a].0.len() == g.1.len() && cands_ok(g.0[a].1, g.1.len() as int));
        }
    }
}

proof fn lemma_apply_col_shaped(g: Grid, c: int, new: LineState)
    requires
        shaped(g),
        consistent(g),
        0 <= c < g.1.len(),
        new.0.len() == g.0.len(),
        cands_ok(new.1, g.0.len() as int),
        forall|j: int|
            0 <= j < new.0.len() && new.0[j] == Cell::Unknown ==> g.1[c].0[j] == Cell::Unknown,
    ensures
        shaped(apply_col(g, c, new)),
        consistent(apply_col(g, c, new)),
        apply_col(g, c, new).0.len() == g.0.len(),
        apply_col(g, c, new).1.len() == g.1.len(),
{
    lemma_apply_col_consistent(g, c, new);
    let h = apply_col(g, c, new);
    assert forall|a: int| 0 <= a < h.0.len() implies (#[trigger] h.0[a]).0.len() == h.1.len()
        && cands_ok(h.0[a].1, h.1.len() as int) by {
        assert(g.0[a].0.len() == g.1.len() && cands_ok(g.0[a].1, g.1.len() as int));
    }
    assert forall|b: int| 0 <= b < h.1.len() implies (#[trigger] h.1[b]).0.len() == h.0.len()
        && cands_ok(h.1[b].1, h.0.len() as int) by {
        if b != c {
            assert(g.1[b].0.len() == g.0.len() && cands_ok(g.1[b].1, g.0.len() as int));
        }
    }
}

proof fn lemma_row_pass_ok(g: Grid, n: int)
    requires
        shaped(g),
        consistent(g),
        n <= g.0.len(),
    ensures
        shaped(row_pass(g, n).0),
        consistent(row_pass(g, n).0),
        row_pass(g, n).0.0.len() == g.0.len(),
        row_pass(g, n).0.1.len() == g.1.len(),
    decreases n,
{
    if n > 0 {
        lemma_row_pass_ok(g, n - 1);
        let prev = row_pass(g, n - 1).0;
        let l = prev.0[n - 1];
        assert(l.0.len() == prev.1.len() && cands_ok(l.1, prev.1.len() as int));
        lemma_step_monotone(l.0, l.1);
        lemma_step_shape(l.0, l.1);
        let st = step(l.0, l.1);
        lemma_apply_row_shaped(prev, n - 1, (st.0, st.1));
    }
}

proof fn lemma_col_pass_ok(g: Grid, n: int, solved_in: bool, progress_in: bool)
    requires
        shaped(g),
        consistent(g),
        n <= g.1.len(),
    ensures
        shaped(col_pass(g, n, solved_in, progress_in).0),
        consistent(col_pass(g, n, solved_in, progress_in).0),
        col_pass(g, n, solved_in, progress_in).0.0.len() == g.0.len(),
        col_pass(g, n, solved_in, progress_in).0.1.len() == g.1.len(),
    decreases n,
{
    if n > 0 {
        lemma_col_pass_ok(g, n - 1, solved_in, progress_in);
        let prev = col_pass(g, n - 1, solved_in, progress_in).0;
        let l = prev.1[n - 1];
        assert(l.0.len() == prev.0.len() && cands_ok(l.1, prev.0.len() as int));
        lemma_step_monotone(l.0, l.1);
        lemma_step_shape(l.0, l.1);
        let st = step(l.0, l.1);
        lemma_apply_col_shaped(prev, n - 1, (st.0, st.1));
    }
}

/// After every completed iteration the row view and the column view agree on every
/// cell (and lines keep their shape).
pub proof fn lemma_iteration_consistent(g: Grid)
    requires
        shaped(g),
        consistent(g),
    ensures
        shaped(iteration(g).0),
        consistent(iteration(g).0),
        iteration(g).0.0.len() == g.0.len(),
        iteration(g).0.1.len() == g.1.len(),
{
    lemma_row_pass_ok(g, g.0.len() as int);
    let rp = row_pass(g, g.0.len() as int);
    lemma_col_pass_ok(rp.0, rp.0.1.len() as int, rp.1, rp.2);
}

/// The views also agree when the solver stops, whatever the budget.
pub proof fn lemma_run_consistent(g: Grid, max: nat, iters: nat, solved: bool, progress: bool)
    requires
        shaped(g),
        consistent(g),
    ensures
        shaped(run(g, max, iters, solved, progress).0),
        consistent(run(g, max, iters, solved, progress).0),
    decreases max - iters,
{
    if progress && iters < max {
        lemma_iteration_consistent(g);
        let it = iteration(g);
        lemma_run_consistent(it.0, max, iters + 1, it.1, it.2);
    }
}

/// The grid of a puzzle: a row line and a column line for each position.
#[derive(Debug)]
pub struct Puzzle {
    pub title: String,
    pub author: String,
    pub license: String,
    pub row_clues: Vec<Vec<u8>>,
    pub col_clues: Vec<Vec<u8>>,
    pub rows: Vec<Line>,
    pub cols: Vec<Line>,
    pub padding: u8,
}

impl Puzzle {
    /// The rows and columns as line states.
    pub open spec fn model(&self) -> Grid {
        (states(self.rows@), states(self.cols@))
    }

    /// Lines in place, well formed, with their clues, and the two views consistent.
    pub open spec fn wf(&self) -> bool {
        &&& self.rows.len() == self.row_clues.len() <= 127
        &&& self.cols.len() == self.col_clues.len() <= 127
        &&& forall|r: int|
            0 <= r < self.rows.len() ==> {
                &&& (#[trigger] self.rows@[r]).wf()
                &&& self.rows@[r].axis == LineType::Row
                &&& self.rows@[r].index == r
                &&& self.rows@[r].cells.len() == self.cols.len()
                &&& self.rows@[r].clue@ == self.row_clues@[r]@
            }
        &&& forall|c: int|
            0 <= c < self.cols.len() ==> {
                &&& (#[trigger] self.cols@[c]).wf()
                &&& self.cols@[c].axis == LineType::Col
                &&& self.cols@[c].index == c
                &&& self.cols@[c].cells.len() == self.rows.len()
                &&& self.cols@[c].clue@ == self.col_clues@[c]@
            }
        &&& consistent(self.model())
    }

    /// Title, author, license, clues and padding are those of `o`.
    pub open spec fn same_meta(&self, o: &Puzzle) -> bool {
        &&& self.title@ == o.title@
        &&& self.author@ == o.author@
        &&& self.license@ == o.license@
        &&& self.row_clues@ == o.row_clues@
        &&& self.col_clues@ == o.col_clues@
        &&& self.padding == o.padding
    }

    /// The number of rows.
    pub fn row_count(&self) -> (r: u8)
        requires
            self.rows.len() <= 255,
        ensures
            r == self.rows.len(),
    {
        self.rows.len() as u8
    }

    /// The number of columns.
    pub fn col_count(&self) -> (r: u8)
        requires
            self.cols.len() <= 255,
        ensures
            r == self.cols.len(),
    {
        self.cols.len() as u8
    }

    /// A copy of the row or column at `index`.
    pub fn get_line(&self, axis: LineType, index: u8) -> (r: Line)
        requires
            axis == LineType::Row ==> index < self.rows.len(),
            axis == LineType::Col ==> index < self.cols.len(),
        ensures
            axis == LineType::Row ==> line_state(r) == line_state(self.rows@[index as int]) && r.axis
                == self.rows@[index as int].axis && r.index == self.rows@[index as int].index
                && r.clue@ == self.rows@[index as int].clue@ && (self.rows@[index as int].wf()
                ==> r.wf()),
            axis == LineType::Col ==> line_state(r) == line_state(self.cols@[index as int]) && r.axis
                == self.cols@[index as int].axis && r.index == self.cols@[index as int].index
                && r.clue@ == self.cols@[index as int].clue@ && (self.cols@[index as int].wf()
                ==> r.wf()),
    {
        match axis {
            LineType::Row => copy_line(&self.rows[index as usize]),
            LineType::Col => copy_line(&self.cols[index as usize]),
        }
    }

    /// Stores `line` in its place and writes each of its known cells into the
    /// perpendicular line that crosses it.
    pub fn set_line(&mut self, line: Line)
        requires
            old(self).wf(),
            line.wf(),
            line.axis == LineType::Row ==> {
                &&& line.index < old(self).rows.len()
                &&& line.cells.len() == old(self).cols.len()
                &&& line.clue@ == old(self).row_clues@[line.index as int]@
                &&& forall|j: int|
                    0 <= j < line.cells.len() && line.cells@[j] == Cell::Unknown
                        ==> old(self).rows@[line.index as int].cells@[j] == Cell::Unknown
            },
            line.axis == LineType::Col ==> {
                &&& line.index < old(self).cols.len()
                &&& line.cells.len() == old(self).rows.len()
                &&& line.clue@ == old(self).col_clues@[line.index as int]@
                &&& forall|j: int|
                    0 <= j < line.cells.len() && line.cells@[j] == Cell::Unknown
                        ==> old(self).cols@[line.index as int].cells@[j] == Cell::Unknown
            },
        ensures
            final(self).wf(),
            final(self).same_meta(old(self)),
            line.axis == LineType::Row ==> final(self).model() == apply_row(
                old(self).model(),
                line.index as int,
                line_state(line),
            ),
            line.axis == LineType::Col ==> final(self).model() == apply_col(
                old(self).model(),
                line.index as int,
                line_state(line),
            ),
    {
        let ghost g = old(self).model();
        let k = line.index;
        match line.axis {
            LineType::Row => {
                let mut i: usize = 0;
                while i < line.cells.len()
                    invariant
                        old(self).wf(),
                        self.same_meta(old(self)),
                        self.rows@ == old(self).rows@,
                        self.cols.len() == old(self).cols.len(),
                        line.cells.len() == self.cols.len(),
                        k < self.rows.len(),
                        g == old(self).model(),
                        i <= line.cells.len(),
                        forall|c: int|
                            0 <= c < self.cols.len() ==> {
                                &&& (#[trigger] self.cols@[c]).wf()
                                &&& self.cols@[c].axis == LineType::Col
                                &&& self.cols@[c].index == c
                                &&& self.cols@[c].cells.len() == self.rows.len()
                                &&& self.cols@[c].clue@ == self.col_clues@[c]@
                                &&& self.cols@[c].potential_solutions@
                                    == old(self).cols@[c].potential_solutions@
                            },
                        forall|c: int|
                            0 <= c < i ==> #[trigger] states(self.cols@)[c] == project(
                                g.1,
                                k as int,
                                line.cells@,
                            )[c],
                        forall|c: int| i <= c < self.cols.len() ==> #[trigger] self.cols@[c] == old(self).cols@[c],
                    decreases line.cells.len() - i,
                {
                    let v = line.cells[i];
                    let ghost before = self.cols@;
                    if v != Cell::Unknown {
                        self.cols[i].set_cell(k, v);
                    }
                    proof {
                        assert forall|c: int| 0 <= c < i implies #[trigger] states(self.cols@)[c]
                            == project(g.1, k as int, line.cells@)[c] by {
                            assert(self.cols@[c] == before[c]);
                            assert(states(before)[c] == line_state(before[c]));
                        }
                        assert(states(self.cols@)[i as int] == project(g.1, k as int, line.cells@)[i as int]);
                    }
                    i = i + 1;
                }
                let ghost mid = self.model();
                assert(states(self.cols@) =~= project(g.1, k as int, line.cells@));
                self.rows.set(k as usize, line);
                assert(states(self.rows@) =~= g.0.update(k as int, line_state(line)));
                proof {
                    lemma_apply_row_consistent(g, k as int, line_state(line));
                }
            },
            LineType::Col => {
                let mut i: usize = 0;
                while i < line.cells.len()
                    invariant
                        old(self).wf(),
                        self.same_meta(old(self)),
                        self.cols@ == old(self).cols@,
                        self.rows.len() == old(self).rows.len(),
                        line.cells.len() == self.rows.len(),
                        k < self.cols.len(),
                        g == old(self).model(),
                        i <= line.cells.len(),
                        forall|c: int|
                            0 <= c < self.rows.len() ==> {
                                &&& (#[trigger] self.rows@[c]).wf()
                                &&& self.rows@[c].axis == LineType::Row
                                &&& self.rows@[c].index == c
                                &&& self.rows@[c].cells.len() == self.cols.len()
                                &&& self.rows@[c].clue@ == self.row_clues@[c]@
                                &&& self.rows@[c].potential_solutions@
                                    == old(self).rows@[c].potential_solutions@
                            },
                        forall|c: int|
                            0 <= c < i ==> #[trigger] states(self.rows@)[c] == project(
                                g.0,
                                k as int,
                                line.cells@,
                            )[c],
                        forall|c: int| i <= c < self.rows.len() ==> #[trigger] self.rows@[c] == old(self).rows@[c],
                    decreases line.cells.len() - i,
                {
                    let v = line.cells[i];
                    let ghost before = self.rows@;
                    if v != Cell::Unknown {
                        self.rows[i].set_cell(k, v);
                    }
                    proof {
                        assert forall|c: int| 0 <= c < i implies #[trigger] states(self.rows@)[c]
                            == project(g.0, k as int, line.cells@)[c] by {
                            assert(self.rows@[c] == before[c]);
                            assert(states(before)[c] == line_state(before[c]));
                        }
                        assert(states(self.rows@)[i as int] == project(g.0, k as int, line.cells@)[i as int]);
                    }
                    i = i + 1;
                }
                assert(states(self.rows@) =~= project(g.0, k as int, line.cells@));
                self.cols.set(k as usize, line);
                assert(states(self.cols@) =~= g.1.update(k as int, line_state(line)));
                proof {
                    lemma_apply_col_consistent(g, k as int, line_state(line));
                }
            },
        }
    }

    /// Runs iterations until one makes no progress or `max_iterations` are used;
    /// returns the iterations used and whether the last one found every line solved.
    pub fn solve(&mut self, max_iterations: u32) -> (r: (u32, bool))
        requires
            old(self).wf(),
        ensures
            final(self).wf(),
            final(self).same_meta(old(self)),
            (final(self).model(), r.0 as nat, r.1) == run(
                old(self).model(),
                max_iterations as nat,
                0,
                false,
                true,
            ),
    {
        let mut iterations: u32 = 0;
        let mut progress_was_made = true;
        let mut puzzle_is_solved = false;
        while progress_was_made && iterations < max_iterations
            invariant
                self.wf(),
                self.same_meta(old(self)),
                iterations <= max_iterations,
                run(
                    self.model(),
                    max_iterations as nat,
                    iterations as nat,
                    puzzle_is_solved,
                    progress_was_made,
                ) == run(old(self).model(), max_iterations as nat, 0, false, true),
            decreases max_iterations - iterations,
        {
            let ghost g0 = self.model();
            puzzle_is_solved = true;
            progress_was_made = false;
            iterations = iterations + 1;
            let n = self.row_count();
            let mut i: u8 = 0;
            while i < n
                invariant
                    self.wf(),
                    self.same_meta(old(self)),
                    n == self.rows.len(),
                    i <= n,
                    g0.0.len() == n,
                    (self.model(), puzzle_is_solved, progress_was_made) == row_pass(g0, i as int),
                decreases n - i,
            {
                let mut line = self.get_line(LineType::Row, i);
                let ghost before = line_state(line);
                let (line_is_solved, progress) = line.solve();
                if !line_is_solved {
                    puzzle_is_solved = false;
                }
                if progress {
                    progress_was_made = true;
                }
                proof {
                    lemma_step_monotone(before.0, before.1);
                }
                self.set_line(line);
                i = i + 1;
            }
            let ghost g1 = self.model();
            let ghost s1 = puzzle_is_solved;
            let ghost p1 = progress_was_made;
            let m = self.col_count();
            let mut i: u8 = 0;
            while i < m
                invariant
                    self.wf(),
                    self.same_meta(old(self)),
                    m == self.cols.len(),
                    i <= m,
                    g1.1.len() == m,
                    (self.model(), puzzle_is_solved, progress_was_made) == col_pass(
                        g1,
                        i as int,
                        s1,
                        p1,
                    ),
                decreases m - i,
            {
                let mut line = self.get_line(LineType::Col, i);
                let ghost before = line_state(line);
                let (line_is_solved, progress) = line.solve();
                if !line_is_solved {
                    puzzle_is_solved = false;
                }
                if progress {
                    progress_was_made = true;
                }
                proof {
                    lemma_step_monotone(before.0, before.1);
                }
                self.set_line(line);
                i = i + 1;
            }
        }
        (iterations, puzzle_is_solved)
    }

    /// The number of fillings left over all rows and columns, capped at `u32::MAX`.
    pub fn total_potential_solutions_remaining(&self) -> (r: u32)
        ensures
            r == if fillings_left(self.rows@) + fillings_left(self.cols@) > u32::MAX {
                u32::MAX as int
            } else {
                fillings_left(self.rows@) + fillings_left(self.cols@)
            },
    {
        let a = count_fillings(&self.rows);
        let b = count_fillings(&self.cols);
        a.saturating_add(b)
    }

    /// The most runs in any column clue, or zero.
    pub fn max_col_clue_length(&self) -> (r: u8)
        requires
            forall|c: int| 0 <= c < self.col_clues.len() ==> (#[trigger] self.col_clues@[c]).len() <= 255,
        ensures
            r == most_runs(self.col_clues@),
    {
        let mut max_length: usize = 0;
        let mut i: usize = 0;
        while i < self.col_clues.len()
            invariant
                i <= self.col_clues.len(),
                forall|c: int| 0 <= c < self.col_clues.len() ==> (#[trigger] self.col_clues@[c]).len() <= 255,
                max_length == most_runs(self.col_clues@.take(i as int)),
                max_length <= 255,
            decreases self.col_clues.len() - i,
        {
            assert(self.col_clues@.take(i + 1).drop_last() =~= self.col_clues@.take(i as int));
            if self.col_clues[i].len() > max_length {
                max_length = self.col_clues[i].len();
            }
            i = i + 1;
        }
        assert(self.col_clues@.take(i as int) =~= self.col_clues@);
        max_length as u8
    }
}

} // verus!
