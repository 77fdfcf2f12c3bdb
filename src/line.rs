use vstd::prelude::*;
use vstd::string::StringExecFns;

use crate::cell::{cell_vector_contains_unknown, Cell};
use crate::text::{decimal, push_decimal};
use crate::line_algorithms::{
    binom, binomial, clue_sum, lemma_candidate_count, lemma_clue_sum_nonneg, lemma_min_length_nonneg, sum_of_runs,
    candidates, copy_cells, generate_all_potential_solutions_for_clue, lemma_candidates_fit, min_length,
    valid_clue, views,
};

verus! {

/// Whether a line is a row or a column of the grid.
#[derive(Clone, Copy, Debug, PartialEq, Eq, Structural)]
pub enum LineType {
    Row,
    Col,
}

/// One row or column: its clue, its cells, and the fillings still possible.
#[derive(Debug)]
pub struct Line {
    pub axis: LineType,
    pub index: u8,
    pub clue: Vec<u8>,
    pub cells: Vec<Cell>,
    pub potential_solutions: Vec<Vec<Cell>>,
}

/// A line with no unknown cell.
pub open spec fn is_full(x: Seq<Cell>) -> bool {
    forall|j: int| 0 <= j < x.len() ==> x[j] != Cell::Unknown
}

/// `x` has the value of every known cell of `cells`.
pub open spec fn agrees(x: Seq<Cell>, cells: Seq<Cell>) -> bool {
    forall|j: int| 0 <= j < cells.len() && cells[j] != Cell::Unknown ==> x[j] == cells[j]
}

/// Every filling in `cands` agrees with the known cells of `cells`.
pub open spec fn all_agree(cands: Seq<Seq<Cell>>, cells: Seq<Cell>) -> bool {
    forall|j: int| 0 <= j < cands.len() ==> agrees(#[trigger] cands[j], cells)
}

/// The fillings of `cands` that agree with the known cells of `cells`, in order.
pub open spec fn prune(cands: Seq<Seq<Cell>>, cells: Seq<Cell>) -> Seq<Seq<Cell>>
    decreases cands.len(),
{
    if cands.len() == 0 {
        cands
    } else {
        let kept = prune(cands.drop_last(), cells);
        if agrees(cands.last(), cells) {
            kept.push(cands.last())
        } else {
            kept
        }
    }
}

/// What is known of cell `i` once all fillings in `cands` are taken into account.
pub open spec fn infer_at(cells: Seq<Cell>, cands: Seq<Seq<Cell>>, i: int) -> Cell {
    if cells[i] != Cell::Unknown {
        cells[i]
    } else if forall|j: int| 0 <= j < cands.len() ==> #[trigger] cands[j][i] == Cell::Block {
        Cell::Block
    } else if forall|j: int| 0 <= j < cands.len() ==> #[trigger] cands[j][i] == Cell::Space {
        Cell::Space
    } else {
        Cell::Unknown
    }
}

/// Each unknown cell that has one value in all fillings of `cands` set to it.
pub open spec fn infer(cells: Seq<Cell>, cands: Seq<Seq<Cell>>) -> Seq<Cell> {
    Seq::new(cells.len(), |i: int| infer_at(cells, cands, i))
}

/// One solve step on a line with cells `cells` and fillings `cands`: the new cells,
/// the new fillings, whether the line reports itself solved, and whether anything
/// changed.
pub open spec fn step(cells: Seq<Cell>, cands: Seq<Seq<Cell>>) -> (
    Seq<Cell>,
    Seq<Seq<Cell>>,
    bool,
    bool,
) {
    if cands.len() == 0 {
        (cells, cands, true, false)
    } else if !cells.contains(Cell::Unknown) {
        (cells, seq![], true, true)
    } else if cands.len() == 1 {
        (cands[0], seq![], false, true)
    } else {
        let inferred = infer(cells, cands);
        let kept = prune(cands, inferred);
        (inferred, kept, false, inferred != cells || kept.len() != cands.len())
    }
}

impl Line {
    /// The fillings are all full lines of the line's length.
    pub open spec fn wf(&self) -> bool {
        &&& self.cells.len() <= 127
        &&& forall|j: int|
            0 <= j < self.potential_solutions.len() ==> {
                &&& (#[trigger] self.potential_solutions@[j])@.len() == self.cells.len()
                &&& is_full(self.potential_solutions@[j]@)
            }
    }

    /// The fillings still possible, as sequences.
    pub open spec fn cands(&self) -> Seq<Seq<Cell>> {
        views(self.potential_solutions@)
    }

    /// A line whose fillings are all those of the clue for its length.
    pub fn new(axis: LineType, index: u8, cells: Vec<Cell>, clue: Vec<u8>) -> (r: Line)
        requires
            valid_clue(clue@),
            min_length(clue@) <= cells.len() <= 127,
        ensures
            r.wf(),
            r.axis == axis,
            r.index == index,
            r.clue@ == clue@,
            r.cells@ == cells@,
            r.cands() == candidates(clue@, cells.len() as int),
    {
        let ghost c = clue@;
        let potential_solutions = generate_all_potential_solutions_for_clue(
            copy_clue(&clue),
            cells.len() as i8,
        );
        proof {
            lemma_candidates_fit(c, cells.len() as int);
            assert forall|j: int| 0 <= j < potential_solutions.len() implies {
                &&& (#[trigger] potential_solutions@[j])@.len() == cells.len()
                &&& is_full(potential_solutions@[j]@)
            } by {
                assert(views(potential_solutions@)[j] == potential_solutions@[j]@);
            }
        }
        Line { axis, index, clue, cells, potential_solutions }
    }

    /// The number of cells.
    pub fn length(&self) -> (r: u8)
        requires
            self.cells.len() <= 255,
        ensures
            r == self.cells.len(),
    {
        self.cells.len() as u8
    }

    /// The cell at `index`.
    pub fn get_cell(&self, index: u8) -> (r: Cell)
        requires
            index < self.cells.len(),
        ensures
            r == self.cells@[index as int],
    {
        self.cells[index as usize]
    }

    /// Sets the cell at `index`.
    pub fn set_cell(&mut self, index: u8, cell: Cell)
        requires
            index < old(self).cells.len(),
        ensures
            final(self).cells@ == old(self).cells@.update(index as int, cell),
            final(self).axis == old(self).axis,
            final(self).index == old(self).index,
            final(self).clue@ == old(self).clue@,
            final(self).potential_solutions@ == old(self).potential_solutions@,
    {
        self.cells.set(index as usize, cell);
    }

    /// The line's name: its axis and its position counted from one.
    pub fn label(&self) -> (r: String)
        ensures
            r@ == (match self.axis {
                LineType::Row => seq!['R', 'o', 'w', ' '],
                LineType::Col => seq!['C', 'o', 'l', ' '],
            }) + decimal(self.index as nat + 1),
    {
        proof {
            reveal_strlit("Row ");
            reveal_strlit("Col ");
        }
        let mut s = match self.axis {
            LineType::Row => String::from_str("Row "),
            LineType::Col => String::from_str("Col "),
        };
        push_decimal(&mut s, self.index as u32 + 1);
        s
    }

    /// How many fillings the clue has on this line, counted without listing them:
    /// `C(length - sum(clue) + 1, clue.len())`.
    pub fn calculate_all_potential_solutions(&self) -> (r: u128)
        requires
            valid_clue(self.clue@),
            min_length(self.clue@) <= self.cells.len() <= 127,
        ensures
            r == binom((self.cells.len() - clue_sum(self.clue@) + 1) as nat, self.clue.len() as nat),
            r == candidates(self.clue@, self.cells.len() as int).len(),
    {
        proof {
            lemma_min_length_nonneg(self.clue@);
            lemma_candidate_count(self.clue@, self.cells.len() as int);
        }
        if self.clue.len() == 0 {
            return 1;
        }
        proof {
            lemma_clue_sum_nonneg(self.clue@.drop_first());
            assert(self.clue@[0] >= 1);
        }
        let sum_of_blocks = sum_of_runs(&self.clue, self.cells.len());
        let n = (self.cells.len() - sum_of_blocks + 1) as u8;
        binomial(n, self.clue.len())
    }

    /// One solve step; returns whether the line is solved and whether progress was made.
    pub fn solve(&mut self) -> (r: (bool, bool))
        requires
            old(self).wf(),
        ensures
            final(self).wf(),
            (final(self).cells@, final(self).cands(), r.0, r.1) == step(
                old(self).cells@,
                old(self).cands(),
            ),
            final(self).axis == old(self).axis,
            final(self).index == old(self).index,
            final(self).clue@ == old(self).clue@,
    {
        if self.is_solved() {
            return (true, false);
        }
        if !cell_vector_contains_unknown(&self.cells) {
            self.potential_solutions = Vec::new();
            assert(self.cands() =~= seq![]);
            return (true, true);
        }
        if self.potential_solutions.len() == 1 {
            let ghost first = self.potential_solutions@[0]@;
            let mut i: usize = 0;
            while i < self.cells.len()
                invariant
                    self.potential_solutions@ == old(self).potential_solutions@,
                    old(self).wf(),
                    first == self.potential_solutions@[0]@,
                    first.len() == self.cells.len(),
                    self.potential_solutions.len() == 1,
                    self.axis == old(self).axis,
                    self.index == old(self).index,
                    self.clue@ == old(self).clue@,
                    i <= self.cells.len(),
                    forall|j: int| 0 <= j < i ==> self.cells@[j] == first[j],
                decreases self.cells.len() - i,
            {
                let v = self.potential_solutions[0][i];
                self.cells.set(i, v);
                i = i + 1;
            }
            assert(self.cells@ =~= first);
            assert(old(self).cands()[0] == first);
            self.potential_solutions = Vec::new();
            assert(self.cands() =~= seq![]);
            return (false, true);
        }
        let progress_from_algorithm_1 = self.find_cells_which_are_same_in_all_potential_solutions();
        let progress_from_algorithm_2 = self.remove_solutions_which_do_not_fit_known_cells();
        (false, progress_from_algorithm_1 || progress_from_algorithm_2)
    }

    /// Whether no filling is left to consider.
    pub fn is_solved(&self) -> (r: bool)
        ensures
            r == (self.potential_solutions.len() == 0),
    {
        self.potential_solutions.len() == 0
    }
}

/// The fillings that survive pruning agree with the cells they were pruned by.
proof fn lemma_prune_agrees(cands: Seq<Seq<Cell>>, x: Seq<Cell>)
    ensures
        all_agree(prune(cands, x), x),
    decreases cands.len(),
{
    if cands.len() > 0 {
        lemma_prune_agrees(cands.drop_last(), x);
        let kept = prune(cands.drop_last(), x);
        let all = prune(cands, x);
        assert forall|j: int| 0 <= j < all.len() implies agrees(#[trigger] all[j], x) by {
            if j < kept.len() {
                assert(all[j] == kept[j]);
            }
        }
    }
}

/// Across successive solve steps on a line, known cells stay known and keep their
/// values. Every step leaves the remaining fillings in agreement with the cells, and
/// a fresh line (all cells unknown) agrees trivially, so the condition under which
/// values are kept holds before every step of such a sequence.
pub proof fn lemma_step_monotone(cells: Seq<Cell>, cands: Seq<Seq<Cell>>)
    requires
        forall|j: int|
            0 <= j < cands.len() ==> (#[trigger] cands[j]).len() == cells.len() && is_full(
                cands[j],
            ),
    ensures
        step(cells, cands).0.len() == cells.len(),
        forall|i: int|
            0 <= i < cells.len() && cells[i] != Cell::Unknown ==> #[trigger] step(
                cells,
                cands,
            ).0[i] != Cell::Unknown,
        all_agree(cands, cells) ==> forall|i: int|
            0 <= i < cells.len() && cells[i] != Cell::Unknown ==> #[trigger] step(
                cells,
                cands,
            ).0[i] == cells[i],
        all_agree(step(cells, cands).1, step(cells, cands).0),
{
    lemma_prune_agrees(cands, infer(cells, cands));
    if cands.len() == 1 && cells.contains(Cell::Unknown) {
        assert(is_full(cands[0]));
        if all_agree(cands, cells) {
            assert(agrees(cands[0], cells));
        }
    }
}


/// Pruning keeps a subsequence: never more fillings, and the same ones exactly when
/// none is dropped.
pub proof fn lemma_prune_len(cands: Seq<Seq<Cell>>, x: Seq<Cell>)
    ensures
        prune(cands, x).len() <= cands.len(),
        prune(cands, x).len() == cands.len() ==> prune(cands, x) == cands,
    decreases cands.len(),
{
    if cands.len() > 0 {
        lemma_prune_len(cands.drop_last(), x);
        if prune(cands, x).len() == cands.len() {
            assert(cands.drop_last().push(cands.last()) =~= cands);
        }
    }
}

/// Pruning keeps only fillings that were there.
pub proof fn lemma_prune_subset(cands: Seq<Seq<Cell>>, x: Seq<Cell>, n: int)
    requires
        forall|j: int| 0 <= j < cands.len() ==> (#[trigger] cands[j]).len() == n && is_full(cands[j]),
    ensures
        forall|j: int|
            0 <= j < prune(cands, x).len() ==> (#[trigger] prune(cands, x)[j]).len() == n && is_full(
                prune(cands, x)[j],
            ),
    decreases cands.len(),
{
    if cands.len() > 0 {
        let d = cands.drop_last();
        assert forall|j: int| 0 <= j < d.len() implies (#[trigger] d[j]).len() == n && is_full(d[j]) by {
            assert(d[j] == cands[j]);
        }
        lemma_prune_subset(d, x, n);
        let kept = prune(d, x);
        let all = prune(cands, x);
        assert forall|j: int| 0 <= j < all.len() implies (#[trigger] all[j]).len() == n && is_full(
            all[j],
        ) by {
            if j < kept.len() {
                assert(all[j] == kept[j]);
            } else {
                assert(all[j] == cands.last());
            }
        }
    }
}

/// A step that reports no progress leaves the line as it was.
pub proof fn lemma_step_no_progress(cells: Seq<Cell>, cands: Seq<Seq<Cell>>)
    ensures
        !step(cells, cands).3 ==> step(cells, cands).0 == cells && step(cells, cands).1 == cands,
{
    lemma_prune_len(cands, infer(cells, cands));
}

/// A step keeps the fillings full lines of the line's length.
pub proof fn lemma_step_shape(cells: Seq<Cell>, cands: Seq<Seq<Cell>>)
    requires
        forall|j: int|
            0 <= j < cands.len() ==> (#[trigger] cands[j]).len() == cells.len() && is_full(
                cands[j],
            ),
    ensures
        forall|j: int|
            0 <= j < step(cells, cands).1.len() ==> (#[trigger] step(cells, cands).1[j]).len()
                == cells.len() && is_full(step(cells, cands).1[j]),
{
    lemma_prune_subset(cands, infer(cells, cands), cells.len() as int);
}

/// A copy of a line.
pub(crate) fn copy_line(l: &Line) -> (r: Line)
    ensures
        r.axis == l.axis,
        r.index == l.index,
        r.clue@ == l.clue@,
        r.cells@ == l.cells@,
        r.potential_solutions@.len() == l.potential_solutions@.len(),
        r.cands() == l.cands(),
        l.wf() ==> r.wf(),
{
    let mut ps: Vec<Vec<Cell>> = Vec::new();
    let mut i: usize = 0;
    while i < l.potential_solutions.len()
        invariant
            i <= l.potential_solutions.len(),
            ps.len() == i,
            forall|j: int| 0 <= j < i ==> (#[trigger] ps@[j])@ == l.potential_solutions@[j]@,
        decreases l.potential_solutions.len() - i,
    {
        ps.push(copy_cells(&l.potential_solutions[i]));
        i = i + 1;
    }
    let r = Line {
        axis: l.axis,
        index: l.index,
        clue: copy_clue(&l.clue),
        cells: copy_cells(&l.cells),
        potential_solutions: ps,
    };
    assert(r.cands() =~= l.cands());
    r
}

/// A copy of a clue.
pub(crate) fn copy_clue(v: &Vec<u8>) -> (r: Vec<u8>)
    ensures
        r@ == v@,
{
    let mut r: Vec<u8> = Vec::new();
    let mut i: usize = 0;
    while i < v.len()
        invariant
            i <= v.len(),
            r@ == v@.take(i as int),
        decreases v.len() - i,
    {
        r.push(v[i]);
        i = i + 1;
        assert(r@ =~= v@.take(i as int));
    }
    assert(v@.take(v.len() as int) =~= v@);
    r
}

} // verus!
