//! One generation of the automaton: a rectangular board of binary cells.

use vstd::prelude::*;

use crate::parse_state_error::ParseStateError;

verus! {

/// A board is a non-empty rectangle whose cells are all `0` (dead) or `1` (alive).
pub open spec fn is_board(cells: Seq<Seq<u8>>) -> bool {
    &&& cells.len() > 0
    &&& cells[0].len() > 0
    &&& forall|i: int| 0 <= i < cells.len() ==> (#[trigger] cells[i]).len() == cells[0].len()
    &&& forall|i: int, j: int|
        0 <= i < cells.len() && 0 <= j < cells[0].len() ==> #[trigger] cells[i][j] <= 1
}

/// Number of rows of a board.
pub open spec fn board_height(cells: Seq<Seq<u8>>) -> nat {
    cells.len()
}

/// Number of columns of a board.
pub open spec fn board_width(cells: Seq<Seq<u8>>) -> nat {
    cells[0].len()
}

/// A row of dead cells.
pub open spec fn dead_row(width: nat) -> Seq<u8> {
    Seq::new(width, |j: int| 0u8)
}

/// The board of the given size with every cell dead.
pub open spec fn dead_board(width: nat, height: nat) -> Seq<Seq<u8>> {
    Seq::new(height, |i: int| dead_row(width))
}

/// A row is usable in a board of the given width when it has that width and
/// holds binary cells only.
pub open spec fn is_row(row: Seq<u8>, width: nat) -> bool {
    &&& row.len() == width
    &&& forall|j: int| 0 <= j < row.len() ==> #[trigger] row[j] <= 1
}

/// Whether row `at` is the first row that cannot be part of a board as wide
/// as the first row.
pub open spec fn is_first_bad_row(cells: Seq<Seq<u8>>, at: int) -> bool {
    &&& 0 <= at < cells.len()
    &&& !is_row(cells[at], cells[0].len())
    &&& forall|k: int| 0 <= k < at ==> is_row(#[trigger] cells[k], cells[0].len())
}

/// Why cells that are no board are refused.
pub open spec fn rejection(cells: Seq<Seq<u8>>) -> Seq<char> {
    if cells.len() == 0 {
        "a state needs at least one row"@
    } else if cells[0].len() == 0 {
        "a state needs at least one column"@
    } else {
        let at = choose|at: int| is_first_bad_row(cells, at);
        if cells[at].len() != cells[0].len() {
            "the rows of a state have one length"@
        } else {
            "a cell is 0 or 1"@
        }
    }
}

/// At most one row is the first bad row.
pub proof fn lemma_first_bad_row(cells: Seq<Seq<u8>>, at: int)
    requires
        is_first_bad_row(cells, at),
    ensures
        (choose|first: int| is_first_bad_row(cells, first)) == at,
{
    let first = choose|first: int| is_first_bad_row(cells, first);
    assert(is_first_bad_row(cells, first));
    if first < at {
        assert(is_row(cells[first], cells[0].len()));
    } else if at < first {
        assert(is_row(cells[at], cells[0].len()));
    }
}

/// The cells held by a vector of rows.
pub open spec fn rows_view(rows: Seq<Vec<u8>>) -> Seq<Seq<u8>> {
    Seq::new(rows.len(), |i: int| rows[i]@)
}

/// A fixed-size matrix of cells. The dimensions are set at construction and
/// never change; every cell is `0` or `1`.
#[derive(Debug)]
pub struct State {
    cells: Vec<Vec<u8>>,
}

impl View for State {
    type V = Seq<Seq<u8>>;

    closed spec fn view(&self) -> Seq<Seq<u8>> {
        rows_view(self.cells@)
    }
}

impl State {
    /// Every `State` is a board.
    #[verifier::type_invariant]
    pub closed spec fn wf(&self) -> bool {
        is_board(rows_view(self.cells@))
    }

    /// Number of columns.
    pub open spec fn spec_width(&self) -> nat {
        board_width(self@)
    }

    /// Number of rows.
    pub open spec fn spec_height(&self) -> nat {
        board_height(self@)
    }

    /// What the type invariant says, for callers that only see the view.
    pub proof fn lemma_is_board(&self)
        requires
            self.wf(),
        ensures
            is_board(self@),
    {
    }

    /// Builds a state from its rows, top row first. Fails when the rows do not
    /// form a board: no rows, empty rows, rows of different lengths, or a cell
    /// other than `0` and `1`; the error names the first of these that is met,
    /// going through the rows from the top.
    pub fn from_rows(rows: Vec<Vec<u8>>) -> (r: Result<State, ParseStateError>)
        ensures
            r is Ok <==> is_board(rows_view(rows@)),
            r matches Ok(s) ==> s@ == rows_view(rows@),
            r matches Err(e) ==> e.0@ == rejection(rows_view(rows@)),
    {
        if rows.len() == 0 {
            return Err(ParseStateError("a state needs at least one row".to_string()));
        }
        let width = rows[0].len();
        if width == 0 {
            return Err(ParseStateError("a state needs at least one column".to_string()));
        }
        let ghost cells = rows_view(rows@);
        assert(cells.len() == rows.len());
        assert(cells[0] == rows[0]@);
        let mut i: usize = 0;
        while i < rows.len()
            invariant
                0 <= i <= rows.len(),
                cells == rows_view(rows@),
                cells.len() == rows.len(),
                width == cells[0].len(),
                width > 0,
                forall|k: int| 0 <= k < i ==> is_row(#[trigger] cells[k], width as nat),
            decreases rows.len() - i,
        {
            assert(cells[i as int] == rows[i as int]@);
            if rows[i].len() != width {
                proof {
                    lemma_first_bad_row(cells, i as int);
                }
                return Err(ParseStateError("the rows of a state have one length".to_string()));
            }
            let mut j: usize = 0;
            while j < width
                invariant
                    0 <= j <= width,
                    i < rows.len(),
                    cells == rows_view(rows@),
                    cells[i as int] == rows[i as int]@,
                    rows[i as int]@.len() == width,
                    width == cells[0].len(),
                    forall|k: int| 0 <= k < i ==> is_row(#[trigger] cells[k], width as nat),
                    forall|k: int| 0 <= k < j ==> #[trigger] cells[i as int][k] <= 1,
                decreases width - j,
            {
                if rows[i][j] > 1 {
                    proof {
                        assert(cells[i as int][j as int] > 1);
                        lemma_first_bad_row(cells, i as int);
                    }
                    return Err(ParseStateError("a cell is 0 or 1".to_string()));
                }
                j += 1;
            }
            i += 1;
        }
        assert(is_board(cells)) by {
            assert forall|a: int, b: int|
                0 <= a < cells.len() && 0 <= b < cells[0].len() implies #[trigger] cells[a][b]
                <= 1 by {
                assert(is_row(cells[a], width as nat));
            }
        }
        Ok(State { cells: rows })
    }

    /// Wraps rows that are known to form a board.
    pub(crate) fn from_board(rows: Vec<Vec<u8>>) -> (r: State)
        requires
            is_board(rows_view(rows@)),
        ensures
            r@ == rows_view(rows@),
    {
        State { cells: rows }
    }

    /// The state of the given size with every cell dead.
    pub fn dead(width: usize, height: usize) -> (r: State)
        requires
            width > 0,
            height > 0,
        ensures
            r@ == dead_board(width as nat, height as nat),
    {
        let mut cells: Vec<Vec<u8>> = Vec::new();
        let mut i: usize = 0;
        while i < height
            invariant
                0 <= i <= height,
                cells@.len() == i,
                rows_view(cells@) == dead_board(width as nat, i as nat),
            decreases height - i,
        {
            let mut row: Vec<u8> = Vec::new();
            let mut j: usize = 0;
            while j < width
                invariant
                    0 <= j <= width,
                    row@ == dead_row(j as nat),
                decreases width - j,
            {
                row.push(0u8);
                j += 1;
                assert(row@ =~= dead_row(j as nat));
            }
            let ghost before = cells@;
            cells.push(row);
            i += 1;
            proof {
                assert forall|k: int| 0 <= k < i implies #[trigger] rows_view(cells@)[k]
                    == dead_row(width as nat) by {
                    if k < i - 1 {
                        assert(rows_view(before)[k] == dead_row(width as nat));
                    }
                }
                assert(rows_view(cells@) =~= dead_board(width as nat, i as nat));
            }
        }
        State { cells }
    }

    /// Number of columns.
    pub fn width(&self) -> (w: usize)
        ensures
            w == self.spec_width(),
            w > 0,
            is_board(self@),
    {
        proof {
            use_type_invariant(self);
        }
        self.cells[0].len()
    }

    /// Number of rows.
    pub fn height(&self) -> (h: usize)
        ensures
            h == self.spec_height(),
            h > 0,
            is_board(self@),
    {
        proof {
            use_type_invariant(self);
        }
        self.cells.len()
    }

    /// The cell in row `y`, column `x`.
    pub fn cell_at(&self, y: usize, x: usize) -> (cell: u8)
        requires
            y < self.spec_height(),
            x < self.spec_width(),
        ensures
            cell == self@[y as int][x as int],
            cell <= 1,
    {
        proof {
            use_type_invariant(self);
            assert(self@[y as int] == self.cells[y as int]@);
        }
        self.cells[y][x]
    }

    /// The rows, top row first, each as a vector of its own.
    pub fn iter(&self) -> (rows: Vec<Vec<u8>>)
        ensures
            rows_view(rows@) == self@,
            is_board(self@),
    {
        proof {
            use_type_invariant(self);
        }
        let copy = self.clone();
        copy.cells
    }

    /// The whole matrix, top row first.
    pub fn get_cells(&self) -> (cells: &Vec<Vec<u8>>)
        ensures
            rows_view(cells@) == self@,
            is_board(self@),
    {
        proof {
            use_type_invariant(self);
        }
        &self.cells
    }
}

impl Clone for State {
    /// An independent copy with the same cells.
    fn clone(&self) -> (copy: State)
        ensures
            copy@ == self@,
    {
        proof {
            use_type_invariant(self);
        }
        let mut cells: Vec<Vec<u8>> = Vec::new();
        let mut i: usize = 0;
        while i < self.cells.len()
            invariant
                0 <= i <= self.cells.len(),
                cells@.len() == i,
                forall|k: int| 0 <= k < i ==> (#[trigger] cells@[k])@ == self.cells@[k]@,
            decreases self.cells.len() - i,
        {
            let source = &self.cells[i];
            let mut row: Vec<u8> = Vec::new();
            let mut j: usize = 0;
            while j < source.len()
                invariant
                    0 <= j <= source.len(),
                    row@ == source@.take(j as int),
                decreases source.len() - j,
            {
                row.push(source[j]);
                j += 1;
                assert(row@ =~= source@.take(j as int));
            }
            assert(row@ =~= source@);
            cells.push(row);
            i += 1;
        }
        assert(rows_view(cells@) =~= rows_view(self.cells@));
        State { cells }
    }
}

impl PartialEq for State {
    /// Two states are equal when they hold the same cells.
    fn eq(&self, other: &State) -> (same: bool) {
        proof {
            use_type_invariant(self);
            use_type_invariant(other);
        }
        if self.cells.len() != other.cells.len() {
            return false;
        }
        let mut i: usize = 0;
        while i < self.cells.len()
            invariant
                0 <= i <= self.cells.len(),
                self.cells.len() == other.cells.len(),
                forall|k: int| 0 <= k < i ==> (#[trigger] self.cells@[k])@ == other.cells@[k]@,
            decreases self.cells.len() - i,
        {
            let left = &self.cells[i];
            let right = &other.cells[i];
            if left.len() != right.len() {
                assert(self@[i as int] != other@[i as int]);
                return false;
            }
            let mut j: usize = 0;
            while j < left.len()
                invariant
                    0 <= j <= left.len(),
                    left.len() == right.len(),
                    i < self.cells.len(),
                    self.cells.len() == other.cells.len(),
                    left == &self.cells@[i as int],
                    right == &other.cells@[i as int],
                    forall|k: int| 0 <= k < j ==> left@[k] == right@[k],
                decreases left.len() - j,
            {
                if left[j] != right[j] {
                    assert(self@[i as int][j as int] != other@[i as int][j as int]);
                    return false;
                }
                j += 1;
            }
            assert(left@ =~= right@);
            i += 1;
        }
        assert(self@ =~= other@);
        true
    }
}

impl vstd::std_specs::cmp::PartialEqSpecImpl for State {
    open spec fn obeys_eq_spec() -> bool {
        true
    }

    open spec fn eq_spec(&self, other: &State) -> bool {
        self@ == other@
    }
}

impl Eq for State {

}

} // verus!
