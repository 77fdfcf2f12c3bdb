use vstd::prelude::*;
use vstd::arithmetic::power2::{
    lemma2_to64, lemma2_to64_rest, lemma_pow2_adds, lemma_pow2_pos, lemma_pow2_strictly_increases,
    lemma_pow2_unfold, pow2,
};

use crate::cell::{repeat, Cell};
use crate::line::{agrees, infer, infer_at, is_full, prune, Line};

verus! {

/// Every run of the clue is at least one cell long.
pub open spec fn valid_clue(clue: Seq<u8>) -> bool {
    forall|i: int| 0 <= i < clue.len() ==> clue[i] >= 1
}

/// The sum of the run lengths of a clue.
pub open spec fn clue_sum(clue: Seq<u8>) -> int
    decreases clue.len(),
{
    if clue.len() == 0 {
        0
    } else {
        clue[0] + clue_sum(clue.drop_first())
    }
}

/// The shortest line that holds the clue: its runs with one space between neighbours.
pub open spec fn min_length(clue: Seq<u8>) -> int
    decreases clue.len(),
{
    if clue.len() == 0 {
        0
    } else if clue.len() == 1 {
        clue[0] as int
    } else {
        clue[0] + 1 + min_length(clue.drop_first())
    }
}

/// Each line of `xs` with `p` put in front of it.
pub open spec fn with_prefix(p: Seq<Cell>, xs: Seq<Seq<Cell>>) -> Seq<Seq<Cell>> {
    Seq::new(xs.len(), |i: int| p + xs[i])
}

/// The cells in front of the remaining runs when the first run, of length `k`,
/// starts after `i` spaces.
pub open spec fn lead(i: int, k: int) -> Seq<Cell> {
    repeat(Cell::Space, i as nat) + repeat(Cell::Block, k as nat) + seq![Cell::Space]
}

/// All fillings of a line of length `len` for the clue, ordered by the offset of the
/// first run, then recursively by the fillings of the rest.
pub open spec fn candidates(clue: Seq<u8>, len: int) -> Seq<Seq<Cell>>
    decreases clue.len(), 1int, 0int,
{
    if clue.len() == 0 {
        seq![repeat(Cell::Space, len as nat)]
    } else if len < min_length(clue) {
        seq![]
    } else if clue.len() == 1 {
        let k = clue[0] as int;
        Seq::new(
            (len - k + 1) as nat,
            |i: int|
                repeat(Cell::Space, i as nat) + repeat(Cell::Block, k as nat) + repeat(
                    Cell::Space,
                    (len - k - i) as nat,
                ),
        )
    } else {
        candidates_upto(clue, len, len - min_length(clue) + 1)
    }
}

/// The fillings of a clue of two or more runs whose first run starts after fewer
/// than `n` spaces.
pub open spec fn candidates_upto(clue: Seq<u8>, len: int, n: int) -> Seq<Seq<Cell>>
    decreases clue.len(), 0int, n,
{
    if n <= 0 || clue.len() == 0 {
        seq![]
    } else {
        candidates_upto(clue, len, n - 1) + with_prefix(
            lead(n - 1, clue[0] as int),
            candidates(clue.drop_first(), len - clue[0] - 1 - (n - 1)),
        )
    }
}

/// The views of a sequence of vectors of cells.
pub open spec fn views(s: Seq<Vec<Cell>>) -> Seq<Seq<Cell>> {
    Seq::new(s.len(), |i: int| s[i]@)
}

proof fn lemma_with_prefix_add(p: Seq<Cell>, a: Seq<Seq<Cell>>, b: Seq<Seq<Cell>>)
    ensures
        with_prefix(p, a + b) == with_prefix(p, a) + with_prefix(p, b),
{
    assert(with_prefix(p, a + b) =~= with_prefix(p, a) + with_prefix(p, b));
}

proof fn lemma_with_prefix_twice(p: Seq<Cell>, q: Seq<Cell>, xs: Seq<Seq<Cell>>)
    ensures
        with_prefix(p + q, xs) == with_prefix(p, with_prefix(q, xs)),
{
    assert forall|i: int| 0 <= i < xs.len() implies (p + q) + xs[i] == p + (q + xs[i]) by {
        assert((p + q) + xs[i] =~= p + (q + xs[i]));
    }
    assert(with_prefix(p + q, xs) =~= with_prefix(p, with_prefix(q, xs)));
}

/// Appends `n` copies of `c`.
fn push_repeat(v: &mut Vec<Cell>, c: Cell, n: usize)
    ensures
        final(v)@ == old(v)@ + repeat(c, n as nat),
{
    let mut i: usize = 0;
    while i < n
        invariant
            i <= n,
            v@ == old(v)@ + repeat(c, i as nat),
        decreases n - i,
    {
        v.push(c);
        i = i + 1;
        assert(v@ =~= old(v)@ + repeat(c, i as nat));
    }
}

/// A copy of a vector of cells.
pub(crate) fn copy_cells(v: &Vec<Cell>) -> (r: Vec<Cell>)
    ensures
        r@ == v@,
{
    let mut r: Vec<Cell> = Vec::new();
    let mut i: usize = 0;
    while i < v.len()
        invariant
            i <= v.len(),
            r@ == v@.take(i as int),
        decreases v.len() - i,
    {
        r.push(v[i]);
        i = i + 1;
        assert(r@ =~= v@.take(i as int));
    }
    assert(v@.take(v.len() as int) =~= v@);
    r
}

/// Appends to `out` each filling, for the clue from position `from` on, of a line of
/// `length` cells, with `prefix` in front of it.
fn append_candidates(
    clue: &Vec<u8>,
    from: usize,
    length: usize,
    prefix: &Vec<Cell>,
    out: &mut Vec<Vec<Cell>>,
)
    requires
        from <= clue.len(),
        valid_clue(clue@),
        min_length(clue@.skip(from as int)) <= length,
        prefix.len() + length <= usize::MAX,
    ensures
        views(final(out)@) == views(old(out)@) + with_prefix(
            prefix@,
            candidates(clue@.skip(from as int), length as int),
        ),
    decreases clue.len() - from,
{
    let ghost c = clue@.skip(from as int);
    if from == clue.len() {
        let mut line = copy_cells(prefix);
        push_repeat(&mut line, Cell::Space, length);
        out.push(line);
        assert(views(out@) =~= views(old(out)@) + with_prefix(prefix@, candidates(c, length as int)));
    } else if from + 1 == clue.len() {
        let k = clue[from] as usize;
        assert(c.len() == 1 && c[0] == k);
        let mut i: usize = 0;
        while i <= length - k
            invariant
                c.len() == 1,
                c[0] == k,
                min_length(c) == k,
                1 <= k <= length,
                i <= length - k + 1,
                prefix.len() + length <= usize::MAX,
                views(out@) == views(old(out)@) + with_prefix(
                    prefix@,
                    candidates(c, length as int).take(i as int),
                ),
            decreases length - k + 1 - i,
        {
            let mut line = copy_cells(prefix);
            push_repeat(&mut line, Cell::Space, i);
            push_repeat(&mut line, Cell::Block, k);
            push_repeat(&mut line, Cell::Space, length - k - i);
            let ghost before = views(out@);
            out.push(line);
            proof {
                let cs = candidates(c, length as int);
                assert(cs[i as int] == repeat(Cell::Space, i as nat) + repeat(Cell::Block, k as nat)
                    + repeat(Cell::Space, (length - k - i) as nat));
                assert(line@ =~= prefix@ + cs[i as int]);
                assert(cs.take(i + 1) =~= cs.take(i as int).push(cs[i as int]));
                assert(views(out@) =~= before.push(line@));
                assert(with_prefix(prefix@, cs.take(i + 1)) =~= with_prefix(prefix@, cs.take(i as int)).push(line@));
            }
            i = i + 1;
        }
        assert(candidates(c, length as int).take(i as int) =~= candidates(c, length as int));
    } else {
        let k = clue[from] as usize;
        let ghost rest = c.drop_first();
        assert(rest =~= clue@.skip(from + 1));
        assert(min_length(c) == k + 1 + min_length(rest));
        let m = needed(clue, from + 1);
        let mut i: usize = 0;
        while i <= length - k - 1 - m
            invariant
                from + 1 < clue.len(),
                valid_clue(clue@),
                c == clue@.skip(from as int),
                rest == clue@.skip(from + 1),
                rest == c.drop_first(),
                k == c[0],
                m == min_length(rest),
                min_length(c) == k + 1 + m,
                min_length(c) <= length,
                prefix.len() + length <= usize::MAX,
                i <= length - k - m,
                views(out@) == views(old(out)@) + with_prefix(
                    prefix@,
                    candidates_upto(c, length as int, i as int),
                ),
            decreases length - k - m - i,
        {
            let mut line = copy_cells(prefix);
            push_repeat(&mut line, Cell::Space, i);
            push_repeat(&mut line, Cell::Block, k);
            line.push(Cell::Space);
            let ghost before = views(out@);
            proof {
                assert(line@ =~= prefix@ + lead(i as int, k as int));
            }
            append_candidates(clue, from + 1, length - k - 1 - i, &line, out);
            proof {
                let block = candidates(rest, length - k - 1 - i);
                lemma_with_prefix_twice(prefix@, lead(i as int, k as int), block);
                assert(candidates_upto(c, length as int, i + 1) == candidates_upto(
                    c,
                    length as int,
                    i as int,
                ) + with_prefix(lead(i as int, k as int), block));
                lemma_with_prefix_add(
                    prefix@,
                    candidates_upto(c, length as int, i as int),
                    with_prefix(lead(i as int, k as int), block),
                );
            }
            i = i + 1;
        }
    }
}

proof fn lemma_min_length_drop(c: Seq<u8>)
    requires
        c.len() > 0,
    ensures
        min_length(c.drop_first()) <= min_length(c),
{
    if c.len() > 1 {
        assert(min_length(c) == c[0] + 1 + min_length(c.drop_first()));
    } else {
        assert(min_length(c.drop_first()) == 0);
    }
}

proof fn lemma_min_length_skip(c: Seq<u8>, a: int, b: int)
    requires
        0 <= a <= b <= c.len(),
    ensures
        min_length(c.skip(b)) <= min_length(c.skip(a)),
    decreases b - a,
{
    if a < b {
        lemma_min_length_skip(c, a + 1, b);
        lemma_min_length_drop(c.skip(a));
        assert(c.skip(a).drop_first() =~= c.skip(a + 1));
    }
}


/// Whether every run of the clue is at least one cell long.
pub fn clue_runs_positive(clue: &Vec<u8>) -> (r: bool)
    ensures
        r == valid_clue(clue@),
{
    let mut i: usize = 0;
    while i < clue.len()
        invariant
            i <= clue.len(),
            forall|j: int| 0 <= j < i ==> clue@[j] >= 1,
        decreases clue.len() - i,
    {
        if clue[i] == 0 {
            return false;
        }
        i = i + 1;
    }
    true
}

/// Whether the clue fits in a line of `len` cells.
pub fn clue_fits(clue: &Vec<u8>, len: usize) -> (r: bool)
    ensures
        r == (min_length(clue@) <= len),
{
    let mut j: usize = clue.len();
    let mut acc: usize = 0;
    assert(clue@.skip(j as int) =~= Seq::<u8>::empty());
    assert(clue@.skip(0) =~= clue@);
    while j > 0
        invariant
            j <= clue.len(),
            acc == min_length(clue@.skip(j as int)),
            acc <= len,
            clue@.skip(0) == clue@,
        decreases j,
    {
        assert(clue@.skip(j - 1).drop_first() =~= clue@.skip(j as int));
        let next: usize;
        if j == clue.len() {
            next = clue[j - 1] as usize;
        } else if acc >= len || clue[j - 1] as usize > len - 1 - acc {
            proof {
                assert(min_length(clue@.skip(j - 1)) == clue@[j - 1] + 1 + acc);
                lemma_min_length_skip(clue@, 0, j - 1);
            }
            return false;
        } else {
            next = clue[j - 1] as usize + 1 + acc;
        }
        assert(min_length(clue@.skip(j - 1)) == next);
        if next > len {
            proof {
                lemma_min_length_skip(clue@, 0, j - 1);
            }
            return false;
        }
        acc = next;
        j = j - 1;
    }
    true
}

/// `min_length` of the clue from position `from` on.
fn needed(clue: &Vec<u8>, from: usize) -> (r: usize)
    requires
        from <= clue.len(),
        min_length(clue@.skip(from as int)) <= usize::MAX,
    ensures
        r == min_length(clue@.skip(from as int)),
{
    let mut j: usize = clue.len();
    let mut acc: usize = 0;
    assert(clue@.skip(j as int) =~= Seq::<u8>::empty());
    while j > from
        invariant
            from <= j <= clue.len(),
            min_length(clue@.skip(from as int)) <= usize::MAX,
            acc == min_length(clue@.skip(j as int)),
        decreases j,
    {
        proof {
            lemma_min_length_skip(clue@, from as int, j - 1);
            assert(clue@.skip(j - 1).drop_first() =~= clue@.skip(j as int));
        }
        if j == clue.len() {
            acc = clue[j - 1] as usize;
        } else {
            acc = clue[j - 1] as usize + 1 + acc;
        }
        j = j - 1;
    }
    acc
}


/// Every filling of the clue on a line of `length` cells, in the order of
/// `candidates`.
pub fn generate_all_potential_solutions_for_clue(clue: Vec<u8>, length: i8) -> (r: Vec<Vec<Cell>>)
    requires
        valid_clue(clue@),
        min_length(clue@) <= length,
        0 <= length,
    ensures
        views(r@) == candidates(clue@, length as int),
{
    let mut out: Vec<Vec<Cell>> = Vec::new();
    let prefix: Vec<Cell> = Vec::new();
    assert(clue@.skip(0) =~= clue@);
    append_candidates(&clue, 0, length as usize, &prefix, &mut out);
    proof {
        let cs = candidates(clue@, length as int);
        assert forall|i: int| 0 <= i < cs.len() implies prefix@ + cs[i] == cs[i] by {
            assert(prefix@ + cs[i] =~= cs[i]);
        }
        assert(with_prefix(prefix@, cs) =~= cs);
        assert(views(out@) =~= cs);
    }
    out
}


/// Whether every filling in `cands` has value `v` at position `i`.
fn all_at(cands: &Vec<Vec<Cell>>, i: usize, v: Cell) -> (r: bool)
    requires
        forall|j: int| 0 <= j < cands.len() ==> i < (#[trigger] cands@[j])@.len(),
    ensures
        r == forall|j: int| 0 <= j < cands.len() ==> #[trigger] views(cands@)[j][i as int] == v,
{
    let mut j: usize = 0;
    while j < cands.len()
        invariant
            j <= cands.len(),
            forall|t: int| 0 <= t < cands.len() ==> i < (#[trigger] cands@[t])@.len(),
            forall|t: int| 0 <= t < j ==> #[trigger] views(cands@)[t][i as int] == v,
        decreases cands.len() - j,
    {
        if cands[j][i] != v {
            assert(views(cands@)[j as int][i as int] != v);
            return false;
        }
        j = j + 1;
    }
    true
}

/// Whether `x` has the value of every known cell of `cells`.
fn agrees_with(x: &Vec<Cell>, cells: &Vec<Cell>) -> (r: bool)
    requires
        x.len() == cells.len(),
    ensures
        r == agrees(x@, cells@),
{
    let mut j: usize = 0;
    while j < cells.len()
        invariant
            j <= cells.len(),
            x.len() == cells.len(),
            forall|t: int| 0 <= t < j && cells@[t] != Cell::Unknown ==> x@[t] == cells@[t],
        decreases cells.len() - j,
    {
        if cells[j] != Cell::Unknown && x[j] != cells[j] {
            return false;
        }
        j = j + 1;
    }
    true
}

impl Line {
    /// Sets each unknown cell that has one value in all remaining fillings; returns
    /// whether a cell was set.
    pub fn find_cells_which_are_same_in_all_potential_solutions(&mut self) -> (r: bool)
        requires
            old(self).wf(),
        ensures
            final(self).wf(),
            final(self).cells@ == infer(old(self).cells@, old(self).cands()),
            r == (final(self).cells@ != old(self).cells@),
            final(self).potential_solutions@ == old(self).potential_solutions@,
            final(self).axis == old(self).axis,
            final(self).index == old(self).index,
            final(self).clue@ == old(self).clue@,
    {
        let ghost cells0 = self.cells@;
        let ghost cands = self.cands();
        let mut progress_made = false;
        let mut i: usize = 0;
        while i < self.cells.len()
            invariant
                old(self).wf(),
                i <= self.cells.len(),
                self.cells.len() == cells0.len(),
                cells0 == old(self).cells@,
                cands == old(self).cands(),
                self.potential_solutions@ == old(self).potential_solutions@,
                self.axis == old(self).axis,
                self.index == old(self).index,
                self.clue@ == old(self).clue@,
                forall|j: int| 0 <= j < i ==> self.cells@[j] == infer_at(cells0, cands, j),
                forall|j: int| i <= j < cells0.len() ==> self.cells@[j] == cells0[j],
                progress_made == exists|j: int| 0 <= j < i && self.cells@[j] != cells0[j],
            decreases cells0.len() - i,
        {
            if self.cells[i] == Cell::Unknown {
                if all_at(&self.potential_solutions, i, Cell::Block) {
                    self.cells.set(i, Cell::Block);
                    progress_made = true;
                    assert(self.cells@[i as int] != cells0[i as int]);
                } else if all_at(&self.potential_solutions, i, Cell::Space) {
                    self.cells.set(i, Cell::Space);
                    progress_made = true;
                    assert(self.cells@[i as int] != cells0[i as int]);
                }
            }
            proof {
                if self.cells@[i as int] == cells0[i as int] {
                    assert((exists|j: int| 0 <= j < i + 1 && self.cells@[j] != cells0[j]) ==> (exists|
                        j: int,
                    | 0 <= j < i && self.cells@[j] != cells0[j]));
                }
            }
            i = i + 1;
        }
        proof {
            assert(self.cells@ =~= infer(cells0, cands));
            if !progress_made {
                assert(self.cells@ =~= cells0);
            }
        }
        progress_made
    }

    /// Drops the fillings that disagree with a known cell; returns whether one was
    /// dropped.
    pub fn remove_solutions_which_do_not_fit_known_cells(&mut self) -> (r: bool)
        requires
            old(self).wf(),
        ensures
            final(self).wf(),
            final(self).cands() == prune(old(self).cands(), old(self).cells@),
            r == (final(self).cands().len() != old(self).cands().len()),
            final(self).cells@ == old(self).cells@,
            final(self).axis == old(self).axis,
            final(self).index == old(self).index,
            final(self).clue@ == old(self).clue@,
    {
        let ghost cands = self.cands();
        let mut kept: Vec<Vec<Cell>> = Vec::new();
        let mut i: usize = 0;
        while i < self.potential_solutions.len()
            invariant
                self.wf(),
                self == old(self),
                cands == self.cands(),
                i <= self.potential_solutions.len(),
                views(kept@) == prune(cands.take(i as int), self.cells@),
                kept.len() <= i,
                forall|j: int| 0 <= j < kept.len() ==> {
                    &&& (#[trigger] kept@[j])@.len() == self.cells.len()
                    &&& is_full(kept@[j]@)
                },
            decreases self.potential_solutions.len() - i,
        {
            proof {
                assert(cands.take(i + 1).drop_last() =~= cands.take(i as int));
                assert(cands[i as int] == self.potential_solutions@[i as int]@);
            }
            if agrees_with(&self.potential_solutions[i], &self.cells) {
                let x = copy_cells(&self.potential_solutions[i]);
                kept.push(x);
                assert(views(kept@) =~= prune(cands.take(i as int), self.cells@).push(x@));
            }
            i = i + 1;
        }
        proof {
            assert(cands.take(i as int) =~= cands);
        }
        let dropped = kept.len() != self.potential_solutions.len();
        self.potential_solutions = kept;
        dropped
    }
}

// ---------------------------------------------------------------------------
// What the fillings are: runs of a line, and how many fillings there are.

/// The lengths of the maximal runs of `Block` cells in `s`, left to right, when a
/// run of `cur` blocks ends just before `s`.
pub open spec fn runs_from(s: Seq<Cell>, cur: nat) -> Seq<int>
    decreases s.len(),
{
    if s.len() == 0 {
        if cur > 0 {
            seq![cur as int]
        } else {
            seq![]
        }
    } else if s[0] == Cell::Block {
        runs_from(s.drop_first(), cur + 1)
    } else {
        (if cur > 0 {
            seq![cur as int]
        } else {
            seq![]
        }) + runs_from(s.drop_first(), 0)
    }
}

/// The lengths of the maximal runs of `Block` cells in `s`, left to right.
pub open spec fn runs(s: Seq<Cell>) -> Seq<int> {
    runs_from(s, 0)
}

/// The clue's run lengths as integers.
pub open spec fn clue_ints(clue: Seq<u8>) -> Seq<int> {
    clue.map_values(|v: u8| v as int)
}

/// `x` is a full line of `len` cells whose runs are exactly those of the clue.
pub open spec fn fits(x: Seq<Cell>, clue: Seq<u8>, len: int) -> bool {
    &&& x.len() == len
    &&& runs(x) == clue_ints(clue)
    &&& forall|j: int| 0 <= j < x.len() ==> x[j] != Cell::Unknown
}

/// The binomial coefficient, by Pascal's rule.
pub open spec fn binom(n: nat, k: nat) -> nat
    decreases n,
{
    if k == 0 {
        1
    } else if n == 0 {
        0
    } else {
        binom((n - 1) as nat, (k - 1) as nat) + binom((n - 1) as nat, k)
    }
}

proof fn lemma_runs_spaces(i: nat, t: Seq<Cell>)
    ensures
        runs_from(repeat(Cell::Space, i) + t, 0) == runs_from(t, 0),
    decreases i,
{
    if i > 0 {
        let s = repeat(Cell::Space, i) + t;
        assert(s.drop_first() =~= repeat(Cell::Space, (i - 1) as nat) + t);
        lemma_runs_spaces((i - 1) as nat, t);
        assert(runs_from(s, 0) =~= runs_from(s.drop_first(), 0));
    } else {
        assert(repeat(Cell::Space, i) + t =~= t);
    }
}

proof fn lemma_runs_blocks(k: nat, t: Seq<Cell>, c: nat)
    ensures
        runs_from(repeat(Cell::Block, k) + t, c) == runs_from(t, c + k),
    decreases k,
{
    if k > 0 {
        let s = repeat(Cell::Block, k) + t;
        assert(s.drop_first() =~= repeat(Cell::Block, (k - 1) as nat) + t);
        lemma_runs_blocks((k - 1) as nat, t, c + 1);
    } else {
        assert(repeat(Cell::Block, k) + t =~= t);
    }
}

proof fn lemma_runs_space_after_run(t: Seq<Cell>, c: nat)
    requires
        c > 0,
    ensures
        runs_from(seq![Cell::Space] + t, c) == seq![c as int] + runs_from(t, 0),
{
    assert((seq![Cell::Space] + t).drop_first() =~= t);
}

proof fn lemma_runs_trailing_spaces(m: nat, c: nat)
    requires
        c > 0,
    ensures
        runs_from(repeat(Cell::Space, m), c) == seq![c as int],
{
    if m > 0 {
        assert(repeat(Cell::Space, m) =~= seq![Cell::Space] + repeat(Cell::Space, (m - 1) as nat));
        lemma_runs_space_after_run(repeat(Cell::Space, (m - 1) as nat), c);
        lemma_runs_spaces((m - 1) as nat, seq![]);
        assert(repeat(Cell::Space, (m - 1) as nat) + seq![] =~= repeat(Cell::Space, (m - 1) as nat));
        assert(seq![c as int] + seq![] =~= seq![c as int]);
    }
}

pub(crate) proof fn lemma_min_length_nonneg(c: Seq<u8>)
    ensures
        min_length(c) >= 0,
        c.len() > 0 ==> min_length(c) == clue_sum(c) + c.len() - 1,
    decreases c.len(),
{
    if c.len() > 0 {
        lemma_min_length_nonneg(c.drop_first());
        if c.len() == 1 {
            assert(clue_sum(c.drop_first()) == 0);
        }
    }
}

proof fn lemma_fits_upto(c: Seq<u8>, len: int, n: int)
    requires
        c.len() >= 2,
        valid_clue(c),
        0 <= n <= len - min_length(c) + 1,
        forall|l: int, j: int|
            min_length(c.drop_first()) <= l && 0 <= j < candidates(c.drop_first(), l).len()
                ==> fits(#[trigger] candidates(c.drop_first(), l)[j], c.drop_first(), l),
    ensures
        forall|j: int|
            0 <= j < candidates_upto(c, len, n).len() ==> fits(
                #[trigger] candidates_upto(c, len, n)[j],
                c,
                len,
            ),
    decreases n,
{
    if n > 0 {
        lemma_fits_upto(c, len, n - 1);
        let k = c[0] as int;
        let rest = c.drop_first();
        let i = n - 1;
        let l = len - k - 1 - i;
        let block = candidates(rest, l);
        let ys = with_prefix(lead(i, k), block);
        let all = candidates_upto(c, len, n);
        assert(all == candidates_upto(c, len, n - 1) + ys);
        assert forall|j: int| 0 <= j < ys.len() implies fits(#[trigger] ys[j], c, len) by {
            let y = block[j];
            assert(fits(y, rest, l));
            let x = ys[j];
            assert(x =~= repeat(Cell::Space, i as nat) + (repeat(Cell::Block, k as nat) + (
            seq![Cell::Space] + y)));
            lemma_runs_spaces(i as nat, repeat(Cell::Block, k as nat) + (seq![Cell::Space] + y));
            lemma_runs_blocks(k as nat, seq![Cell::Space] + y, 0);
            lemma_runs_space_after_run(y, k as nat);
            assert(clue_ints(c) =~= seq![k] + clue_ints(rest));
        }
        assert forall|j: int| 0 <= j < all.len() implies fits(#[trigger] all[j], c, len) by {
            if j >= candidates_upto(c, len, n - 1).len() {
                assert(all[j] == ys[j - candidates_upto(c, len, n - 1).len()]);
            }
        }
    }
}

/// Every filling that the generator lists is a full line of the given length whose
/// maximal runs of blocks are exactly the clue, in order.
pub proof fn lemma_candidates_fit(clue: Seq<u8>, len: int)
    requires
        valid_clue(clue),
        min_length(clue) <= len,
    ensures
        forall|j: int|
            0 <= j < candidates(clue, len).len() ==> fits(#[trigger] candidates(clue, len)[j], clue, len),
    decreases clue.len(),
{
    lemma_min_length_nonneg(clue);
    let cs = candidates(clue, len);
    if clue.len() == 0 {
        lemma_runs_spaces(len as nat, seq![]);
        assert(repeat(Cell::Space, len as nat) + seq![] =~= repeat(Cell::Space, len as nat));
        assert(clue_ints(clue) =~= seq![]);
        assert(cs.len() == 1);
        assert(fits(cs[0], clue, len));
    } else if clue.len() == 1 {
        let k = clue[0] as int;
        assert forall|j: int| 0 <= j < cs.len() implies fits(#[trigger] cs[j], clue, len) by {
            let t = repeat(Cell::Block, k as nat) + repeat(Cell::Space, (len - k - j) as nat);
            assert(cs[j] =~= repeat(Cell::Space, j as nat) + t);
            lemma_runs_spaces(j as nat, t);
            lemma_runs_blocks(k as nat, repeat(Cell::Space, (len - k - j) as nat), 0);
            lemma_runs_trailing_spaces((len - k - j) as nat, k as nat);
            assert(clue_ints(clue) =~= seq![k]);
        }
    } else {
        let rest = clue.drop_first();
        assert forall|l: int, j: int|
            min_length(rest) <= l && 0 <= j < candidates(rest, l).len() implies fits(
                #[trigger] candidates(rest, l)[j],
                rest,
                l,
            ) by {
            lemma_candidates_fit(rest, l);
        }
        lemma_fits_upto(clue, len, len - min_length(clue) + 1);
        assert(cs == candidates_upto(clue, len, len - min_length(clue) + 1));
    }
}

proof fn lemma_binom_one(n: nat)
    ensures
        binom(n, 1) == n,
    decreases n,
{
    if n > 0 {
        lemma_binom_one((n - 1) as nat);
        assert(binom(n, 1) == binom((n - 1) as nat, 0) + binom((n - 1) as nat, 1));
    }
}

proof fn lemma_binom_small(n: nat, k: nat)
    requires
        n < k,
    ensures
        binom(n, k) == 0,
    decreases n,
{
    if n > 0 {
        lemma_binom_small((n - 1) as nat, (k - 1) as nat);
        lemma_binom_small((n - 1) as nat, k);
    }
}

proof fn lemma_count_upto(c: Seq<u8>, len: int, n: int)
    requires
        c.len() >= 2,
        valid_clue(c),
        0 <= n <= len - min_length(c) + 1,
        forall|l: int|
            min_length(c.drop_first()) <= l ==> #[trigger] candidates(c.drop_first(), l).len()
                == binom((l - clue_sum(c.drop_first()) + 1) as nat, (c.len() - 1) as nat),
    ensures
        candidates_upto(c, len, n).len() == binom((len - clue_sum(c) + 1) as nat, c.len())
            - binom((len - clue_sum(c) + 1 - n) as nat, c.len()),
    decreases n,
{
    lemma_min_length_nonneg(c);
    lemma_min_length_nonneg(c.drop_first());
    if n > 0 {
        lemma_count_upto(c, len, n - 1);
        let k = c[0] as int;
        let rest = c.drop_first();
        let l = len - k - 1 - (n - 1);
        let block = candidates(rest, l);
        assert(candidates_upto(c, len, n) == candidates_upto(c, len, n - 1) + with_prefix(
            lead(n - 1, k),
            block,
        ));
        let a = (len - clue_sum(c) + 1 - n) as nat;
        let m = c.len();
        assert(binom(a + 1, m) == binom(a, (m - 1) as nat) + binom(a, m));
    }
}

/// The number of fillings is the binomial coefficient
/// `C(len - sum(clue) + 1, clue.len())`; for the empty clue it is one.
pub proof fn lemma_candidate_count(clue: Seq<u8>, len: int)
    requires
        valid_clue(clue),
        min_length(clue) <= len,
    ensures
        candidates(clue, len).len() == binom((len - clue_sum(clue) + 1) as nat, clue.len()),
    decreases clue.len(),
{
    lemma_min_length_nonneg(clue);
    if clue.len() == 1 {
        lemma_binom_one((len - clue[0] + 1) as nat);
        assert(clue_sum(clue) == clue[0]);
    } else if clue.len() >= 2 {
        let rest = clue.drop_first();
        assert forall|l: int| min_length(rest) <= l implies #[trigger] candidates(rest, l).len()
            == binom((l - clue_sum(rest) + 1) as nat, (clue.len() - 1) as nat) by {
            lemma_candidate_count(rest, l);
        }
        lemma_count_upto(clue, len, len - min_length(clue) + 1);
        lemma_binom_small((clue.len() - 1) as nat, clue.len());
    }
}


proof fn lemma_binom_pow2(n: nat, k: nat)
    ensures
        binom(n, k) <= pow2(n),
    decreases n,
{
    lemma_pow2_pos(n);
    if n > 0 {
        lemma_pow2_unfold(n);
        if k > 0 {
            lemma_binom_pow2((n - 1) as nat, (k - 1) as nat);
            lemma_binom_pow2((n - 1) as nat, k);
        }
    } else {
        assert(pow2(0) == 1) by {
            lemma2_to64();
        }
    }
}

/// `binom(n, k)` for `n` up to 127 fits in half of the `u128` range.
proof fn lemma_binom_fits(n: nat, k: nat)
    requires
        n <= 127,
    ensures
        binom(n, k) <= 0x8000_0000_0000_0000_0000_0000_0000_0000,
{
    lemma_binom_pow2(n, k);
    lemma2_to64_rest();
    lemma_pow2_adds(63, 64);
    if n < 127 {
        lemma_pow2_strictly_increases(n, 127);
    }
}

proof fn lemma_clue_sum_skip(c: Seq<u8>, a: int, b: int)
    requires
        0 <= a <= b <= c.len(),
    ensures
        clue_sum(c.skip(b)) <= clue_sum(c.skip(a)),
        clue_sum(c.skip(b)) >= 0,
    decreases b - a,
{
    if a < b {
        lemma_clue_sum_skip(c, a + 1, b);
        assert(c.skip(a).drop_first() =~= c.skip(a + 1));
    } else {
        lemma_clue_sum_nonneg(c.skip(b));
    }
}

pub(crate) proof fn lemma_clue_sum_nonneg(c: Seq<u8>)
    ensures
        clue_sum(c) >= 0,
    decreases c.len(),
{
    if c.len() > 0 {
        lemma_clue_sum_nonneg(c.drop_first());
    }
}

/// The sum of the run lengths of the clue.
pub(crate) fn sum_of_runs(clue: &Vec<u8>, bound: usize) -> (r: usize)
    requires
        clue_sum(clue@) <= bound,
    ensures
        r == clue_sum(clue@),
{
    let mut j: usize = clue.len();
    let mut acc: usize = 0;
    assert(clue@.skip(j as int) =~= Seq::<u8>::empty());
    assert(clue@.skip(0) =~= clue@);
    while j > 0
        invariant
            j <= clue.len(),
            acc == clue_sum(clue@.skip(j as int)),
            clue_sum(clue@) <= bound,
            clue@.skip(0) == clue@,
        decreases j,
    {
        proof {
            assert(clue@.skip(j - 1).drop_first() =~= clue@.skip(j as int));
            lemma_clue_sum_skip(clue@, 0, j - 1);
        }
        acc = clue[j - 1] as usize + acc;
        j = j - 1;
    }
    acc
}

/// `binom(n, k)`, row by row of Pascal's triangle.
pub fn binomial(n: u8, k: usize) -> (r: u128)
    requires
        n <= 127,
    ensures
        r == binom(n as nat, k as nat),
{
    if k > n as usize {
        proof {
            lemma_binom_small(n as nat, k as nat);
        }
        return 0;
    }
    let mut row: Vec<u128> = Vec::new();
    row.push(1);
    let mut j: usize = 0;
    while j < k
        invariant
            j <= k <= n,
            row.len() == j + 1,
            row@[0] == 1,
            forall|t: int| 1 <= t < row.len() ==> row@[t] == 0,
        decreases k - j,
    {
        row.push(0);
        j = j + 1;
    }
    assert forall|t: int| 0 <= t <= k implies row@[t] == binom(0, t as nat) by {}
    let mut i: u8 = 0;
    while i < n
        invariant
            i <= n <= 127,
            k <= n,
            row.len() == k + 1,
            forall|t: int| 0 <= t <= k ==> #[trigger] row@[t] == binom(i as nat, t as nat),
        decreases n - i,
    {
        let mut next: Vec<u128> = Vec::new();
        next.push(1);
        let mut t: usize = 1;
        while t <= k
            invariant
                1 <= t <= k + 1,
                i < n <= 127,
                row.len() == k + 1,
                forall|u: int| 0 <= u <= k ==> #[trigger] row@[u] == binom(i as nat, u as nat),
                next.len() == t,
                forall|u: int| 0 <= u < t ==> #[trigger] next@[u] == binom((i + 1) as nat, u as nat),
            decreases k + 1 - t,
        {
            proof {
                lemma_binom_fits((i + 1) as nat, t as nat);
                assert(binom((i + 1) as nat, t as nat) == binom(i as nat, (t - 1) as nat) + binom(
                    i as nat,
                    t as nat,
                ));
                assert(row@[t - 1] == binom(i as nat, (t - 1) as nat));
            }
            next.push(row[t - 1] + row[t]);
            t = t + 1;
        }
        row = next;
        i = i + 1;
    }
    row[k]
}

/// For a clue of at most one run, the number of fillings is
/// `C(len - sum(clue) + clue.len(), clue.len())`.
pub proof fn lemma_candidate_count_short(clue: Seq<u8>, len: int)
    requires
        valid_clue(clue),
        min_length(clue) <= len,
        clue.len() <= 1,
    ensures
        candidates(clue, len).len() == binom(
            (len - clue_sum(clue) + clue.len()) as nat,
            clue.len(),
        ),
        clue.len() == 0 ==> candidates(clue, len).len() == 1,
{
    lemma_candidate_count(clue, len);
}

} // verus!
