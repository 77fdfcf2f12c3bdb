use vstd::prelude::*;
use vstd::string::StringExecFns;

verus! {

/// The state of one cell of the grid.
#[derive(Clone, Copy, Debug, PartialEq, Eq, Structural)]
pub enum Cell {
    Block,
    Space,
    Unknown,
}

/// How a cell is shown: a glyph and a space.
pub open spec fn glyph(c: Cell) -> Seq<char> {
    match c {
        Cell::Block => seq!['◼', ' '],
        Cell::Space => seq!['∙', ' '],
        Cell::Unknown => seq!['?', ' '],
    }
}

/// How a sequence of cells is shown: the glyphs one after the other.
pub open spec fn glyphs(s: Seq<Cell>) -> Seq<char>
    decreases s.len(),
{
    if s.len() == 0 {
        Seq::empty()
    } else {
        glyphs(s.drop_last()) + glyph(s.last())
    }
}

impl Cell {
    /// The cell's glyph followed by a space.
    pub fn display(&self) -> (r: String)
        ensures
            r@ == glyph(*self),
    {
        proof {
            reveal_strlit("◼ ");
            reveal_strlit("∙ ");
            reveal_strlit("? ");
        }
        let s = match self {
            Cell::Block => "◼ ",
            Cell::Space => "∙ ",
            Cell::Unknown => "? ",
        };
        let r = String::from_str(s);
        assert(r@ =~= glyph(*self));
        r
    }
}

/// The glyphs of the cells, one after the other.
pub fn display_cell_vector(cell_vector: &Vec<Cell>) -> (r: String)
    ensures
        r@ == glyphs(cell_vector@),
{
    let mut cells_display = String::new();
    let mut i: usize = 0;
    while i < cell_vector.len()
        invariant
            i <= cell_vector.len(),
            cells_display@ == glyphs(cell_vector@.take(i as int)),
        decreases cell_vector.len() - i,
    {
        let g = cell_vector[i].display();
        cells_display.append(g.as_str());
        assert(cell_vector@.take(i + 1).drop_last() =~= cell_vector@.take(i as int));
        i = i + 1;
    }
    assert(cell_vector@.take(i as int) =~= cell_vector@);
    cells_display
}

/// `n` copies of `c`.
pub open spec fn repeat(c: Cell, n: nat) -> Seq<Cell> {
    Seq::new(n, |i: int| c)
}

/// A vector of `count` copies of `cell`.
pub fn generate_cell_vector(cell: Cell, count: u8) -> (r: Vec<Cell>)
    ensures
        r@ == repeat(cell, count as nat),
{
    let mut v: Vec<Cell> = Vec::new();
    let mut i: u8 = 0;
    while i < count
        invariant
            i <= count,
            v@ == repeat(cell, i as nat),
        decreases count - i,
    {
        v.push(cell);
        i = i + 1;
        assert(v@ =~= repeat(cell, i as nat));
    }
    v
}

/// Whether some cell of `cell_vector` is still unknown.
pub fn cell_vector_contains_unknown(cell_vector: &Vec<Cell>) -> (r: bool)
    ensures
        r == cell_vector@.contains(Cell::Unknown),
{
    let mut i: usize = 0;
    while i < cell_vector.len()
        invariant
            i <= cell_vector.len(),
            forall|j: int| 0 <= j < i ==> cell_vector@[j] != Cell::Unknown,
        decreases cell_vector.len() - i,
    {
        if cell_vector[i] == Cell::Unknown {
            return true;
        }
        i = i + 1;
    }
    false
}

} // verus!
