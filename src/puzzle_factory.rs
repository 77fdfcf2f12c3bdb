use vstd::prelude::*;

use crate::cell::{generate_cell_vector, repeat, Cell};
use crate::line::{copy_clue, Line, LineType};
use crate::line_algorithms::{candidates, clue_fits, clue_runs_positive, min_length, valid_clue};
use crate::puzzle::{consistent, states, LineState, Puzzle};

verus! {

/// The most rows, and the most columns, that a puzzle may have.
pub const MAX_LINES: usize = 127;

/// A puzzle as its definition gives it.
pub struct PuzzleConfig {
    pub title: String,
    pub by: Option<String>,
    pub license: Option<String>,
    pub rows: Vec<Vec<u8>>,
    pub columns: Vec<Vec<u8>>,
}

/// Why a definition does not make a puzzle.
#[derive(Clone, Copy, Debug, PartialEq, Eq, Structural)]
pub enum PuzzleError {
    /// More than `MAX_LINES` rows or columns.
    TooLarge,
    /// A clue of the line at this index holds a run of length zero.
    ZeroRun(LineType, usize),
    /// The clue of the line at this index does not fit in the line.
    DoesNotFit(LineType, usize),
}

/// The first clue, from index `i` on, that has a zero run or does not fit in `len`
/// cells.
pub open spec fn first_bad_clue(clues: Seq<Vec<u8>>, len: int, axis: LineType, i: int) -> Option<
    PuzzleError,
>
    decreases clues.len() - i,
{
    if i < 0 || i >= clues.len() {
        None
    } else if !valid_clue(clues[i]@) {
        Some(PuzzleError::ZeroRun(axis, i as usize))
    } else if min_length(clues[i]@) > len {
        Some(PuzzleError::DoesNotFit(axis, i as usize))
    } else {
        first_bad_clue(clues, len, axis, i + 1)
    }
}

/// What is wrong with a definition, checked in this order: its size, the row clues,
/// the column clues.
pub open spec fn config_error(rows: Seq<Vec<u8>>, columns: Seq<Vec<u8>>) -> Option<PuzzleError> {
    if rows.len() > MAX_LINES || columns.len() > MAX_LINES {
        Some(PuzzleError::TooLarge)
    } else if first_bad_clue(rows, columns.len() as int, LineType::Row, 0) is Some {
        first_bad_clue(rows, columns.len() as int, LineType::Row, 0)
    } else {
        first_bad_clue(columns, rows.len() as int, LineType::Col, 0)
    }
}

/// Fresh lines for the clues: all cells unknown, all fillings possible.
pub open spec fn initial_lines(clues: Seq<Vec<u8>>, len: int) -> Seq<LineState> {
    Seq::new(
        clues.len(),
        |i: int| (repeat(Cell::Unknown, len as nat), candidates(clues[i]@, len)),
    )
}

/// The largest run length in a clue, or zero.
pub open spec fn largest_in(c: Seq<u8>) -> int
    decreases c.len(),
{
    if c.len() == 0 {
        0
    } else {
        let m = largest_in(c.drop_last());
        if c.last() > m {
            c.last() as int
        } else {
            m
        }
    }
}

/// The largest run length in any of the clues, or zero.
pub open spec fn largest(cs: Seq<Vec<u8>>) -> int
    decreases cs.len(),
{
    if cs.len() == 0 {
        0
    } else {
        let m = largest(cs.drop_last());
        let l = largest_in(cs.last()@);
        if l > m {
            l
        } else {
            m
        }
    }
}

/// The number of decimal digits of `n`.
pub open spec fn decimal_width(n: int) -> int
    decreases n,
{
    if n < 10 {
        1
    } else {
        1 + decimal_width(n / 10)
    }
}

/// The first bad clue in `clues` for lines of `len` cells.
fn check_clues(clues: &Vec<Vec<u8>>, len: usize, axis: LineType) -> (r: Option<PuzzleError>)
    ensures
        r == first_bad_clue(clues@, len as int, axis, 0),
{
    let mut i: usize = 0;
    while i < clues.len()
        invariant
            i <= clues.len(),
            first_bad_clue(clues@, len as int, axis, 0) == first_bad_clue(
                clues@,
                len as int,
                axis,
                i as int,
            ),
        decreases clues.len() - i,
    {
        if !clue_runs_positive(&clues[i]) {
            return Some(PuzzleError::ZeroRun(axis, i));
        }
        if !clue_fits(&clues[i], len) {
            return Some(PuzzleError::DoesNotFit(axis, i));
        }
        i = i + 1;
    }
    None
}

/// The largest run length in any of the clues, or zero.
fn largest_run(cs: &Vec<Vec<u8>>) -> (r: u8)
    ensures
        r == largest(cs@),
{
    let mut best: u8 = 0;
    let mut i: usize = 0;
    while i < cs.len()
        invariant
            i <= cs.len(),
            best == largest(cs@.take(i as int)),
        decreases cs.len() - i,
    {
        let c = &cs[i];
        let mut m: u8 = 0;
        let mut j: usize = 0;
        while j < c.len()
            invariant
                j <= c.len(),
                m == largest_in(c@.take(j as int)),
            decreases c.len() - j,
        {
            assert(c@.take(j + 1).drop_last() =~= c@.take(j as int));
            if c[j] > m {
                m = c[j];
            }
            j = j + 1;
        }
        assert(c@.take(j as int) =~= c@);
        assert(cs@.take(i + 1).drop_last() =~= cs@.take(i as int));
        if m > best {
            best = m;
        }
        i = i + 1;
    }
    assert(cs@.take(i as int) =~= cs@);
    best
}

/// The number of decimal digits of `n`.
fn width_of(n: u8) -> (r: u8)
    ensures
        r == decimal_width(n as int),
        r <= 3,
{
    let ghost k = n as int;
    if n < 10 {
        1
    } else if n < 100 {
        assert(decimal_width(k / 10) == 1);
        assert(decimal_width(k) == 1 + decimal_width(k / 10));
        2
    } else {
        assert(decimal_width(k / 10 / 10) == 1);
        assert(decimal_width(k / 10) == 1 + decimal_width(k / 10 / 10));
        assert(decimal_width(k) == 1 + decimal_width(k / 10));
        3
    }
}

/// Fresh lines of `len` cells for the clues.
fn fresh_lines(clues: &Vec<Vec<u8>>, len: usize, axis: LineType) -> (r: Vec<Line>)
    requires
        clues.len() <= MAX_LINES,
        len <= MAX_LINES,
        first_bad_clue(clues@, len as int, axis, 0) is None,
    ensures
        r.len() == clues.len(),
        states(r@) == initial_lines(clues@, len as int),
        forall|i: int|
            0 <= i < r.len() ==> {
                &&& (#[trigger] r@[i]).wf()
                &&& r@[i].axis == axis
                &&& r@[i].index == i
                &&& r@[i].cells.len() == len
                &&& r@[i].clue@ == clues@[i]@
            },
{
    let mut lines: Vec<Line> = Vec::new();
    let mut i: usize = 0;
    while i < clues.len()
        invariant
            clues.len() <= MAX_LINES,
            len <= MAX_LINES,
            i <= clues.len(),
            lines.len() == i,
            first_bad_clue(clues@, len as int, axis, 0) == first_bad_clue(
                clues@,
                len as int,
                axis,
                i as int,
            ),
            first_bad_clue(clues@, len as int, axis, 0) is None,
            forall|t: int|
                0 <= t < i ==> #[trigger] states(lines@)[t] == initial_lines(clues@, len as int)[t],
            forall|t: int|
                0 <= t < i ==> {
                    &&& (#[trigger] lines@[t]).wf()
                    &&& lines@[t].axis == axis
                    &&& lines@[t].index == t
                    &&& lines@[t].cells.len() == len
                    &&& lines@[t].clue@ == clues@[t]@
                },
        decreases clues.len() - i,
    {
        let cells = generate_cell_vector(Cell::Unknown, len as u8);
        let line = Line::new(axis, i as u8, cells, copy_clue(&clues[i]));
        let ghost before = lines@;
        lines.push(line);
        proof {
            assert forall|t: int| 0 <= t < i + 1 implies #[trigger] states(lines@)[t]
                == initial_lines(clues@, len as int)[t] by {
                if t < i {
                    assert(lines@[t] == before[t]);
                    assert(states(before)[t] == initial_lines(clues@, len as int)[t]);
                } else {
                    assert(line.cands() == candidates(clues@[t]@, len as int));
                    assert(lines@[t] == line);
                    assert(line.cells@ =~= repeat(Cell::Unknown, len as nat));
                }
            }
        }
        i = i + 1;
    }
    assert(states(lines@) =~= initial_lines(clues@, len as int));
    lines
}

impl PuzzleConfig {
    /// The puzzle that this definition describes: every cell unknown and every line
    /// with all the fillings of its clue; or why there is none.
    pub fn into_puzzle(self) -> (r: Result<Puzzle, PuzzleError>)
        ensures
            config_error(self.rows@, self.columns@) is Some ==> r == Err::<Puzzle, PuzzleError>(
                config_error(self.rows@, self.columns@)->0,
            ),
            config_error(self.rows@, self.columns@) is None ==> r is Ok && {
                let p = r->Ok_0;
                &&& p.wf()
                &&& p.model() == (
                    initial_lines(self.rows@, self.columns.len() as int),
                    initial_lines(self.columns@, self.rows.len() as int),
                )
                &&& p.title@ == self.title@
                &&& p.author@ == (if self.by is Some {
                    self.by->0@
                } else {
                    Seq::empty()
                })
                &&& p.license@ == (if self.license is Some {
                    self.license->0@
                } else {
                    Seq::empty()
                })
                &&& p.row_clues@ == self.rows@
                &&& p.col_clues@ == self.columns@
                &&& p.padding == decimal_width(largest(self.columns@)) + 1
            },
    {
        let row_count = self.rows.len();
        let col_count = self.columns.len();
        if row_count > MAX_LINES || col_count > MAX_LINES {
            return Err(PuzzleError::TooLarge);
        }
        match check_clues(&self.rows, col_count, LineType::Row) {
            Some(e) => {
                return Err(e);
            },
            None => {},
        }
        match check_clues(&self.columns, row_count, LineType::Col) {
            Some(e) => {
                return Err(e);
            },
            None => {},
        }
        let rows = fresh_lines(&self.rows, col_count, LineType::Row);
        let cols = fresh_lines(&self.columns, row_count, LineType::Col);
        let padding = width_of(largest_run(&self.columns)) + 1;
        let author = match self.by {
            Some(by) => by,
            None => String::new(),
        };
        let license = match self.license {
            Some(license) => license,
            None => String::new(),
        };
        let p = Puzzle {
            title: self.title,
            author,
            license,
            row_clues: self.rows,
            col_clues: self.columns,
            rows,
            cols,
            padding,
        };
        assert(consistent(p.model()));
        Ok(p)
    }
}

} // verus!
