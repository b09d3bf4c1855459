//! Cell-level data model.
//!
//! Lines are also kept in a per-cell form: a vector of [`CellState`]. This is
//! the form in which partial knowledge about a line is combined cell by cell
//! and rendered; the solver's bit-parallel state can be projected into it.
use vstd::prelude::*;

use crate::runs::{runs_of, runs_go, to_ints, lemma_to_ints_inj};

verus! {

/// What is known about one cell of a line.
#[derive(Debug, Clone, Copy, PartialEq, Eq, Structural)]
pub enum CellState {
    Full,
    Empty,
    Unknown,
    Invalid,
}

/// Consensus of two cell states: kept only where both agree on a definite
/// state, otherwise unknown.
pub open spec fn cell_and(a: CellState, b: CellState) -> CellState {
    match (a, b) {
        (CellState::Full, CellState::Full) => CellState::Full,
        (CellState::Empty, CellState::Empty) => CellState::Empty,
        _ => CellState::Unknown,
    }
}

/// Merge of two cell states: definite states win over unknown, and two
/// conflicting definite states are invalid.
pub open spec fn cell_or(a: CellState, b: CellState) -> CellState {
    match (a, b) {
        (CellState::Full, CellState::Empty) | (CellState::Empty, CellState::Full) => CellState::Invalid,
        (_, CellState::Invalid) | (CellState::Invalid, _) => CellState::Invalid,
        (_, CellState::Empty) | (CellState::Empty, _) => CellState::Empty,
        (_, CellState::Full) | (CellState::Full, _) => CellState::Full,
        _ => CellState::Unknown,
    }
}

impl CellState {
    /// The character this cell is drawn as.
    pub open spec fn symbol(self) -> char {
        match self {
            CellState::Full => '█',
            CellState::Empty => '░',
            CellState::Unknown => '-',
            CellState::Invalid => 'x',
        }
    }

    pub fn and(self, rhs: CellState) -> (r: CellState)
        ensures
            r == cell_and(self, rhs),
    {
        match (self, rhs) {
            (CellState::Full, CellState::Full) => CellState::Full,
            (CellState::Empty, CellState::Empty) => CellState::Empty,
            _ => CellState::Unknown,
        }
    }

    pub fn or(self, rhs: CellState) -> (r: CellState)
        ensures
            r == cell_or(self, rhs),
    {
        match (self, rhs) {
            (CellState::Full, CellState::Empty) | (CellState::Empty, CellState::Full) => CellState::Invalid,
            (_, CellState::Invalid) | (CellState::Invalid, _) => CellState::Invalid,
            (_, CellState::Empty) | (CellState::Empty, _) => CellState::Empty,
            (_, CellState::Full) | (CellState::Full, _) => CellState::Full,
            _ => CellState::Unknown,
        }
    }

    /// The drawn character, as a string slice.
    pub fn symbol_str(self) -> (r: &'static str)
        ensures
            r@ == seq![self.symbol()],
    {
        match self {
            CellState::Full => {
                proof {
                    reveal_strlit("█");
                }
                assert("█"@ =~= seq![self.symbol()]);
                "█"
            },
            CellState::Empty => {
                proof {
                    reveal_strlit("░");
                }
                assert("░"@ =~= seq![self.symbol()]);
                "░"
            },
            CellState::Unknown => {
                proof {
                    reveal_strlit("-");
                }
                assert("-"@ =~= seq![self.symbol()]);
                "-"
            },
            CellState::Invalid => {
                proof {
                    reveal_strlit("x");
                }
                assert("x"@ =~= seq![self.symbol()]);
                "x"
            },
        }
    }

    /// The drawn character, as an owned string.
    pub fn to_string(self) -> (r: String)
        ensures
            r@ == seq![self.symbol()],
    {
        String::from_str(self.symbol_str())
    }
}

/// The cells of a line, as the boolean "is this cell full".
pub open spec fn full_bits(s: Seq<CellState>) -> Seq<bool> {
    Seq::new(s.len(), |i: int| s[i] == CellState::Full)
}

/// An ordered list of run lengths for one line. An empty list means the line
/// is entirely empty.
#[derive(Debug, Clone)]
pub struct Constraint {
    pub values: Vec<usize>,
}

impl View for Constraint {
    type V = Seq<int>;

    open spec fn view(&self) -> Seq<int> {
        to_ints(self.values@)
    }
}

impl Constraint {
    /// Every run length is positive.
    pub open spec fn wf(&self) -> bool {
        forall|i: int| 0 <= i < self@.len() ==> #[trigger] self@[i] >= 1
    }

    pub fn new(values: Vec<usize>) -> (r: Constraint)
        requires
            forall|i: int| 0 <= i < values@.len() ==> #[trigger] values@[i] >= 1,
        ensures
            r@ == to_ints(values@),
            r.wf(),
    {
        Constraint { values }
    }

    /// Keeps the candidate lines whose run signature is exactly this
    /// constraint.
    pub fn filter(&self, candidates: &Vec<Line>) -> (r: Vec<Line>)
        ensures
            views_of(r@) == lines_with_runs(views_of(candidates@), self@),
    {
        let ghost cv = views_of(candidates@);
        let mut out: Vec<Line> = Vec::new();
        let n = candidates.len();
        for i in 0..n
            invariant
                n == candidates@.len(),
                cv == views_of(candidates@),
                views_of(out@) == lines_with_runs(cv.take(i as int), self@),
        {
            let c = candidates[i].to_constraint();
            proof {
                assert(cv.take(i + 1).drop_last() =~= cv.take(i as int));
                assert(cv.take(i + 1).last() == candidates@[i as int]@);
            }
            if c.eq(self) {
                let d = candidates[i].duplicate();
                out.push(d);
                proof {
                    assert(c@ == self@);
                    assert(views_of(out@) =~= views_of(out@.drop_last()) + seq![
                        candidates@[i as int]@,
                    ]);
                }
            } else {
                proof {
                    if runs_of(full_bits(candidates@[i as int]@)) == self@ {
                        assert(c@ == self@);
                        assert(to_ints(c.values@) == to_ints(self.values@));
                        lemma_to_ints_inj(c.values@, self.values@);
                        assert(false);
                    }
                }
            }
            proof {
                assert(views_of(out@) =~= lines_with_runs(cv.take(i + 1), self@));
            }
        }
        proof {
            assert(cv.take(n as int) =~= cv);
        }
        out
    }
}

impl PartialEq for Constraint {
    fn eq(&self, other: &Constraint) -> (r: bool) {
        let n = self.values.len();
        if n != other.values.len() {
            proof {
                assert(self.values@ != other.values@);
            }
            return false;
        }
        for i in 0..n
            invariant
                n == self.values@.len() == other.values@.len(),
                forall|j: int| 0 <= j < i ==> self.values@[j] == other.values@[j],
        {
            if self.values[i] != other.values[i] {
                return false;
            }
        }
        proof {
            assert(self.values@ =~= other.values@);
        }
        true
    }
}

impl vstd::std_specs::cmp::PartialEqSpecImpl for Constraint {
    open spec fn obeys_eq_spec() -> bool {
        true
    }

    open spec fn eq_spec(&self, other: &Constraint) -> bool {
        self.values@ == other.values@
    }
}

/// The constraints of a whole board: one list per column and one per row.
pub struct Constraints {
    pub cols: Vec<Constraint>,
    pub rows: Vec<Constraint>,
}

impl Constraints {
    pub open spec fn wf(&self) -> bool {
        &&& forall|i: int| 0 <= i < self.rows@.len() ==> (#[trigger] self.rows@[i]).wf()
        &&& forall|i: int| 0 <= i < self.cols@.len() ==> (#[trigger] self.cols@[i]).wf()
    }

    pub fn new(cols: Vec<Constraint>, rows: Vec<Constraint>) -> (r: Constraints)
        ensures
            r.cols@ == cols@,
            r.rows@ == rows@,
    {
        Constraints { cols, rows }
    }
}

/// Size of a board: number of rows and of columns.
#[derive(Debug, Clone, Copy)]
pub struct Dimensions {
    pub num_cols: usize,
    pub num_rows: usize,
}

impl Dimensions {
    pub fn new(num_rows: usize, num_cols: usize) -> (r: Dimensions)
        ensures
            r.num_rows == num_rows,
            r.num_cols == num_cols,
    {
        Dimensions { num_cols, num_rows }
    }
}

/// One line of a board in per-cell form.
#[derive(Debug, Clone, PartialEq)]
pub struct Line {
    pub cells: Vec<CellState>,
}

impl View for Line {
    type V = Seq<CellState>;

    open spec fn view(&self) -> Seq<CellState> {
        self.cells@
    }
}

/// Two cell states agree where either is still unknown or both are equal.
pub open spec fn cells_agree(a: CellState, b: CellState) -> bool {
    a == CellState::Unknown || b == CellState::Unknown || a == b
}

/// Two lines agree position by position, over their common prefix.
pub open spec fn lines_agree(a: Seq<CellState>, b: Seq<CellState>) -> bool {
    forall|i: int| 0 <= i < a.len() && i < b.len() ==> #[trigger] cells_agree(a[i], b[i])
}

/// Pointwise consensus of two lines, over their common prefix.
pub open spec fn cells_and(a: Seq<CellState>, b: Seq<CellState>) -> Seq<CellState> {
    Seq::new(if a.len() <= b.len() {
        a.len()
    } else {
        b.len()
    }, |i: int| cell_and(a[i], b[i]))
}

/// Pointwise merge of two lines, over their common prefix.
pub open spec fn cells_or(a: Seq<CellState>, b: Seq<CellState>) -> Seq<CellState> {
    Seq::new(if a.len() <= b.len() {
        a.len()
    } else {
        b.len()
    }, |i: int| cell_or(a[i], b[i]))
}

/// Left fold of [`cells_and`] over a nonempty list of lines.
pub open spec fn sum_cells(lines: Seq<Line>) -> Seq<CellState>
    decreases lines.len(),
{
    if lines.len() <= 1 {
        if lines.len() == 0 {
            Seq::empty()
        } else {
            lines[0]@
        }
    } else {
        cells_and(sum_cells(lines.drop_last()), lines.last()@)
    }
}

/// The cell sequences of a list of lines.
pub open spec fn views_of(lines: Seq<Line>) -> Seq<Seq<CellState>> {
    Seq::new(lines.len(), |i: int| lines[i]@)
}

/// The candidates of `cands` that agree with `with`.
pub open spec fn lines_agreeing(cands: Seq<Seq<CellState>>, with: Seq<CellState>) -> Seq<
    Seq<CellState>,
>
    decreases cands.len(),
{
    if cands.len() == 0 {
        Seq::empty()
    } else {
        lines_agreeing(cands.drop_last(), with) + if lines_agree(with, cands.last()) {
            seq![cands.last()]
        } else {
            Seq::empty()
        }
    }
}

/// The candidates of `cands` whose run signature is `vals`.
pub open spec fn lines_with_runs(cands: Seq<Seq<CellState>>, vals: Seq<int>) -> Seq<
    Seq<CellState>,
>
    decreases cands.len(),
{
    if cands.len() == 0 {
        Seq::empty()
    } else {
        lines_with_runs(cands.drop_last(), vals) + if runs_of(full_bits(cands.last())) == vals {
            seq![cands.last()]
        } else {
            Seq::empty()
        }
    }
}

/// The characters a line is drawn as.
pub open spec fn line_chars(s: Seq<CellState>) -> Seq<char> {
    Seq::new(s.len(), |i: int| s[i].symbol())
}

impl Line {
    /// A line of `length` cells, all empty.
    pub fn empty(length: usize) -> (r: Line)
        ensures
            r@.len() == length,
            forall|i: int| 0 <= i < length ==> r@[i] == CellState::Empty,
    {
        Line { cells: vec![CellState::Empty; length] }
    }

    /// A line of `length` cells, all unknown.
    pub fn unknown(length: usize) -> (r: Line)
        ensures
            r@.len() == length,
            forall|i: int| 0 <= i < length ==> r@[i] == CellState::Unknown,
    {
        Line { cells: vec![CellState::Unknown; length] }
    }

    pub fn new(cells: Vec<CellState>) -> (r: Line)
        ensures
            r@ == cells@,
    {
        Line { cells }
    }

    /// A copy of this line.
    pub fn duplicate(&self) -> (r: Line)
        ensures
            r@ == self@,
    {
        let mut cells: Vec<CellState> = Vec::new();
        let n = self.cells.len();
        for i in 0..n
            invariant
                n == self.cells@.len(),
                cells@.len() == i,
                forall|j: int| 0 <= j < i ==> cells@[j] == self.cells@[j],
        {
            cells.push(self.cells[i]);
        }
        proof {
            assert(cells@ =~= self@);
        }
        Line { cells }
    }

    /// Reads the run signature of this line: the lengths of its maximal
    /// blocks of full cells.
    pub fn to_constraint(&self) -> (r: Constraint)
        ensures
            r@ == runs_of(full_bits(self@)),
            r.wf(),
    {
        let ghost fb = full_bits(self@);
        let mut values: Vec<usize> = Vec::new();
        let mut cur: usize = 0;
        let n = self.cells.len();
        proof {
            assert(fb.skip(0) =~= fb);
        }
        for i in 0..n
            invariant
                n == self.cells@.len(),
                fb == full_bits(self@),
                cur <= i,
                runs_of(fb) == to_ints(values@) + runs_go(fb.skip(i as int), cur as int),
                forall|j: int| 0 <= j < values@.len() ==> #[trigger] values@[j] >= 1,
        {
            let ghost tail = fb.skip(i as int);
            proof {
                assert(tail.len() > 0);
                assert(tail[0] == fb[i as int]);
                assert(tail.drop_first() =~= fb.skip(i + 1));
            }
            if matches!(self.cells[i], CellState::Full) {
                proof {
                    assert(tail[0]);
                }
                cur = cur + 1;
            } else {
                proof {
                    assert(!tail[0]);
                }
                if cur > 0 {
                    values.push(cur);
                    proof {
                        assert(to_ints(values@) =~= to_ints(values@.drop_last()) + seq![
                            cur as int,
                        ]);
                    }
                    cur = 0;
                } else {
                }
            }
        }
        proof {
            assert(fb.skip(n as int) =~= Seq::<bool>::empty());
        }
        if cur > 0 {
            values.push(cur);
            proof {
                assert(to_ints(values@) =~= to_ints(values@.drop_last()) + seq![cur as int]);
            }
        } else {
            proof {
                assert(to_ints(values@) + Seq::<int>::empty() =~= to_ints(values@));
            }
        }
        let r = Constraint { values };
        proof {
            assert(r@ == runs_of(fb));
        }
        r
    }

    /// True iff this line and `rhs` agree wherever both are determined.
    pub fn equivalient(&self, rhs: &Line) -> (r: bool)
        ensures
            r == lines_agree(self@, rhs@),
    {
        let n = if self.cells.len() <= rhs.cells.len() {
            self.cells.len()
        } else {
            rhs.cells.len()
        };
        for i in 0..n
            invariant
                n <= self.cells@.len(),
                n <= rhs.cells@.len(),
                n == if self.cells@.len() <= rhs.cells@.len() {
                    self.cells@.len() as int
                } else {
                    rhs.cells@.len() as int
                },
                forall|j: int| 0 <= j < i ==> #[trigger] cells_agree(self@[j], rhs@[j]),
        {
            let a = self.cells[i];
            let b = rhs.cells[i];
            let ok = matches!(a, CellState::Unknown) || matches!(b, CellState::Unknown) || a == b;
            if !ok {
                proof {
                    assert(!cells_agree(self@[i as int], rhs@[i as int]));
                }
                return false;
            }
        }
        true
    }

    /// Keeps the candidate lines that agree with this line.
    pub fn filter(&self, candidates: &Vec<Line>) -> (r: Vec<Line>)
        ensures
            views_of(r@) == lines_agreeing(views_of(candidates@), self@),
    {
        let ghost cv = views_of(candidates@);
        let mut out: Vec<Line> = Vec::new();
        let n = candidates.len();
        for i in 0..n
            invariant
                n == candidates@.len(),
                cv == views_of(candidates@),
                views_of(out@) == lines_agreeing(cv.take(i as int), self@),
        {
            proof {
                assert(cv.take(i + 1).drop_last() =~= cv.take(i as int));
                assert(cv.take(i + 1).last() == candidates@[i as int]@);
            }
            if self.equivalient(&candidates[i]) {
                let d = candidates[i].duplicate();
                out.push(d);
                proof {
                    assert(views_of(out@) =~= views_of(out@.drop_last()) + seq![
                        candidates@[i as int]@,
                    ]);
                }
            }
            proof {
                assert(views_of(out@) =~= lines_agreeing(cv.take(i + 1), self@));
            }
        }
        proof {
            assert(cv.take(n as int) =~= cv);
        }
        out
    }

    /// Pointwise consensus over all given lines; nothing for an empty list.
    pub fn sum(lines: &Vec<Line>) -> (r: Option<Line>)
        ensures
            lines@.len() == 0 <==> r is None,
            r is Some ==> r.unwrap()@ == sum_cells(lines@),
    {
        if lines.len() == 0 {
            return None;
        }
        let mut acc = lines[0].duplicate();
        let n = lines.len();
        proof {
            assert(lines@.take(1).len() == 1);
            assert(acc@ == sum_cells(lines@.take(1)));
        }
        for i in 1..n
            invariant
                n == lines@.len(),
                1 <= i <= n,
                acc@ == sum_cells(lines@.take(i as int)),
        {
            proof {
                assert(lines@.take(i + 1).drop_last() =~= lines@.take(i as int));
                assert(lines@.take(i + 1).last() == lines@[i as int]);
            }
            acc = acc.and(&lines[i]);
        }
        proof {
            assert(lines@.take(n as int) =~= lines@);
        }
        Some(acc)
    }

    /// Pointwise consensus of two lines.
    pub fn and(&self, rhs: &Line) -> (r: Line)
        ensures
            r@ == cells_and(self@, rhs@),
    {
        let n = if self.cells.len() <= rhs.cells.len() {
            self.cells.len()
        } else {
            rhs.cells.len()
        };
        let mut cells: Vec<CellState> = Vec::new();
        for i in 0..n
            invariant
                n <= self.cells@.len(),
                n <= rhs.cells@.len(),
                n == cells_and(self@, rhs@).len(),
                cells@.len() == i,
                forall|j: int| 0 <= j < i ==> cells@[j] == cells_and(self@, rhs@)[j],
        {
            cells.push(self.cells[i].and(rhs.cells[i]));
        }
        proof {
            assert(cells@ =~= cells_and(self@, rhs@));
        }
        Line { cells }
    }

    /// Pointwise merge of two lines.
    pub fn or(&self, rhs: &Line) -> (r: Line)
        ensures
            r@ == cells_or(self@, rhs@),
    {
        let n = if self.cells.len() <= rhs.cells.len() {
            self.cells.len()
        } else {
            rhs.cells.len()
        };
        let mut cells: Vec<CellState> = Vec::new();
        for i in 0..n
            invariant
                n <= self.cells@.len(),
                n <= rhs.cells@.len(),
                n == cells_or(self@, rhs@).len(),
                cells@.len() == i,
                forall|j: int| 0 <= j < i ==> cells@[j] == cells_or(self@, rhs@)[j],
        {
            cells.push(self.cells[i].or(rhs.cells[i]));
        }
        proof {
            assert(cells@ =~= cells_or(self@, rhs@));
        }
        Line { cells }
    }

    /// Draws the line as one character per cell.
    pub fn to_string(&self) -> (r: String)
        ensures
            r@ == line_chars(self@),
    {
        let mut s = String::from_str("");
        proof {
            reveal_strlit("");
            assert(s@ =~= line_chars(self@).take(0));
        }
        let n = self.cells.len();
        for i in 0..n
            invariant
                n == self.cells@.len(),
                s@ == line_chars(self@).take(i as int),
        {
            s.append(self.cells[i].symbol_str());
            proof {
                assert(s@ =~= line_chars(self@).take(i + 1));
            }
        }
        proof {
            assert(line_chars(self@).take(n as int) =~= line_chars(self@));
        }
        s
    }
}

} // verus!
