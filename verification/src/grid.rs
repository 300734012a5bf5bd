use vstd::prelude::*;

use crate::dictionary::{word_set, Dictionary};
use crate::solver::{first_path, lemma_lex_asym, lex_less, yields, GridSolver};
use crate::text::{ascii_lower, lemma_lower_idempotent, chars_of, normalize, normalize_str, push_decimal_wide, push_str, string_of, decimal, trim};

verus! {

/// The row of cell `i` on a board whose side is `size`.
pub open spec fn row_of(size: nat, i: int) -> int {
    i / (size as int)
}

/// The column of cell `i` on a board whose side is `size`.
pub open spec fn col_of(size: nat, i: int) -> int {
    i % (size as int)
}

/// Cells `a` and `b` touch in one of the eight directions; a cell does not touch itself.
pub open spec fn adjacent(size: nat, a: int, b: int) -> bool {
    &&& a != b
    &&& -1 <= row_of(size, a) - row_of(size, b) <= 1
    &&& -1 <= col_of(size, a) - col_of(size, b) <= 1
}

/// The word that the cells along `path` spell, read in order.
pub open spec fn spell(cells: Seq<Seq<char>>, path: Seq<usize>) -> Seq<char>
    decreases path.len(),
{
    if path.len() == 0 {
        Seq::empty()
    } else {
        spell(cells, path.drop_last()) + cells[path.last() as int]
    }
}

/// `path` visits cells of a board of side `size`, never the same cell twice, each step
/// going to a touching cell.
pub open spec fn valid_path(size: nat, path: Seq<usize>) -> bool {
    &&& path.len() > 0
    &&& forall|k: int| 0 <= k < path.len() ==> (#[trigger] path[k]) < size * size
    &&& path.no_duplicates()
    &&& forall|k: int|
        0 < k < path.len() ==> adjacent(size, path[k - 1] as int, #[trigger] path[k] as int)
}

/// Why a sequence of cell indices is not a path on the board.
#[derive(Debug, Clone, Copy, PartialEq, Eq, Structural)]
pub enum WordPathError {
    /// The path has no cells.
    EmptyPath,
    /// The path names a cell that is not on the board.
    OutOfBounds { index: usize },
    /// The path visits a cell a second time.
    ReusedCell { index: usize },
    /// Two consecutive cells of the path do not touch.
    NotAdjacent { from: usize, to: usize },
}

/// The message that describes a path error.
pub open spec fn path_error_message(e: WordPathError) -> Seq<char> {
    match e {
        WordPathError::EmptyPath => "a word path must contain at least one cell"@,
        WordPathError::OutOfBounds { index } => "cell "@ + decimal(index as nat)
            + " is not on the board"@,
        WordPathError::ReusedCell { index } => "cell "@ + decimal(index as nat)
            + " is used more than once"@,
        WordPathError::NotAdjacent { from, to } => "cells "@ + decimal(from as nat) + " and "@
            + decimal(to as nat) + " are not adjacent"@,
    }
}

impl WordPathError {
    /// The message that describes this error.
    pub fn message(&self) -> (r: String)
        ensures
            r@ == path_error_message(*self),
    {
        match self {
            WordPathError::EmptyPath => String::from_str("a word path must contain at least one cell"),
            WordPathError::OutOfBounds { index } => {
                let mut s = String::from_str("cell ");
                crate::text::push_decimal(&mut s, *index);
                push_str(&mut s, " is not on the board");
                s
            },
            WordPathError::ReusedCell { index } => {
                let mut s = String::from_str("cell ");
                crate::text::push_decimal(&mut s, *index);
                push_str(&mut s, " is used more than once");
                s
            },
            WordPathError::NotAdjacent { from, to } => {
                let mut s = String::from_str("cells ");
                crate::text::push_decimal(&mut s, *from);
                push_str(&mut s, " and ");
                crate::text::push_decimal(&mut s, *to);
                push_str(&mut s, " are not adjacent");
                s
            },
        }
    }
}

/// What is wrong at position `i` of `path`, looking at that step alone.
pub open spec fn step_error(size: nat, path: Seq<usize>, i: int) -> Option<WordPathError> {
    if path[i] >= size * size {
        Some(WordPathError::OutOfBounds { index: path[i] })
    } else if path.take(i).contains(path[i]) {
        Some(WordPathError::ReusedCell { index: path[i] })
    } else if i > 0 && !adjacent(size, path[i - 1] as int, path[i] as int) {
        Some(WordPathError::NotAdjacent { from: path[i - 1], to: path[i] })
    } else {
        None
    }
}

/// The first error among the first `k` steps of `path`.
pub open spec fn first_error(size: nat, path: Seq<usize>, k: nat) -> Option<WordPathError>
    decreases k,
{
    if k == 0 {
        None
    } else {
        match first_error(size, path, (k - 1) as nat) {
            Some(e) => Some(e),
            None => step_error(size, path, k - 1),
        }
    }
}

/// The error that checking `path` step by step meets first, if any.
pub open spec fn path_error(size: nat, path: Seq<usize>) -> Option<WordPathError> {
    if path.len() == 0 {
        Some(WordPathError::EmptyPath)
    } else {
        first_error(size, path, path.len())
    }
}

/// A square board of letter cells, each cell normalized and not empty.
#[derive(Debug, PartialEq, Eq)]
pub struct WordGrid {
    size: usize,
    cells: Vec<String>,
}

/// The message for a cell list whose length does not fit the side.
pub open spec fn cell_count_message(count: nat, size: nat) -> Seq<char> {
    "grid has "@ + decimal(count) + " cells, but size "@ + decimal(size) + " requires "@
        + decimal(size * size) + " cells"@
}

/// What building a board of side `size` from `cells` gives: the normalized cells, or the
/// message of the first check that fails.
pub open spec fn grid_outcome(size: nat, cells: Seq<Seq<char>>) -> Result<Seq<Seq<char>>, Seq<char>> {
    if size == 0 {
        Err("grid size must be greater than 0"@)
    } else if cells.len() != size * size {
        Err(cell_count_message(cells.len(), size))
    } else if exists|i: int| 0 <= i < cells.len() && normalize(#[trigger] cells[i]).len() == 0 {
        Err("grid cells cannot be empty"@)
    } else {
        Ok(cells.map_values(|c: Seq<char>| normalize(c)))
    }
}

impl WordGrid {
    /// The side of the board.
    pub closed spec fn side(&self) -> nat {
        self.size as nat
    }

    /// The cells in row-major order.
    pub closed spec fn cell_seq(&self) -> Seq<Seq<char>> {
        self.cells@.map_values(|c: String| c@)
    }

    /// The board is square, has a positive side and no empty cell.
    #[verifier::type_invariant]
    pub closed spec fn shape_ok(&self) -> bool {
        &&& self.size > 0
        &&& self.cells.len() == self.size * self.size
        &&& forall|i: int| 0 <= i < self.cells.len() ==> (#[trigger] self.cells@[i])@.len() > 0
        &&& forall|i: int| 0 <= i < self.cells.len() ==> ascii_lower((#[trigger] self.cells@[i])@)
            == self.cells@[i]@
        &&& forall|i: int| 0 <= i < self.cells.len() ==> trim((#[trigger] self.cells@[i])@) == self.cells@[i]@
    }

    /// What the shape invariant says, over the public view.
    pub proof fn lemma_shape(&self)
        requires
            self.shape_ok(),
        ensures
            self.side() > 0,
            self.cell_seq().len() == self.side() * self.side(),
            forall|i: int| 0 <= i < self.cell_seq().len() ==> (#[trigger] self.cell_seq()[i]).len() > 0,
            forall|i: int|
                0 <= i < self.cell_seq().len() ==> ascii_lower(#[trigger] self.cell_seq()[i])
                    == self.cell_seq()[i],
            forall|i: int| 0 <= i < self.cell_seq().len() ==> trim(#[trigger] self.cell_seq()[i]) == self.cell_seq()[i],
    {
        assert forall|i: int| 0 <= i < self.cell_seq().len() implies (#[trigger] self.cell_seq()[i]).len() > 0
            && ascii_lower(self.cell_seq()[i]) == self.cell_seq()[i] && trim(self.cell_seq()[i]) == self.cell_seq()[i] by {
            assert(self.cell_seq()[i] == self.cells@[i]@);
        }
    }

    /// Builds a board of side `size` from `size * size` cells, given row by row. Each cell
    /// is trimmed and put in ASCII lower case; an empty cell is refused.
    pub fn new(size: usize, cells: Vec<String>) -> (r: Result<Self, String>)
        ensures
            match r {
                Ok(g) => g.side() == size && grid_outcome(size as nat, cells@.map_values(
                    |c: String| c@,
                )) == Ok::<Seq<Seq<char>>, Seq<char>>(g.cell_seq()),
                Err(e) => grid_outcome(size as nat, cells@.map_values(|c: String| c@)) == Err::<
                    Seq<Seq<char>>,
                    Seq<char>,
                >(e@),
            },
    {
        if size == 0 {
            return Err(String::from_str("grid size must be greater than 0"));
        }
        let count = cells.len();
        let wide = size as u128;
        assert(wide * wide <= 0xffff_ffff_ffff_ffff * 0xffff_ffff_ffff_ffffu128) by (nonlinear_arith)
            requires
                wide <= 0xffff_ffff_ffff_ffffu128,
        ;
        let product = wide * wide;
        if (count as u128) != product {
            let mut message = String::from_str("grid has ");
            push_decimal_wide(&mut message, count as u128);
            push_str(&mut message, " cells, but size ");
            push_decimal_wide(&mut message, size as u128);
            push_str(&mut message, " requires ");
            push_decimal_wide(&mut message, product);
            push_str(&mut message, " cells");
            return Err(message);
        }
        assert(count == size * size);
        let ghost views = cells@.map_values(|c: String| c@);
        let mut normalized: Vec<String> = Vec::new();
        let mut i: usize = 0;
        while i < count
            invariant
                count == cells.len(),
                count == size * size,
                views == cells@.map_values(|c: String| c@),
                i <= count,
                normalized.len() == i,
                forall|k: int| 0 <= k < i ==> normalize(#[trigger] cells@[k]@).len() > 0,
                forall|k: int| 0 <= k < i ==> (#[trigger] normalized@[k])@ == normalize(cells@[k]@),
                forall|k: int| 0 <= k < i ==> ascii_lower((#[trigger] normalized@[k])@) == normalized@[k]@,
                forall|k: int| 0 <= k < i ==> crate::text::trim((#[trigger] normalized@[k])@) == normalized@[k]@,
            decreases count - i,
        {
            let cell = normalize_str(cells[i].as_str());
            assert(views[i as int] == cells@[i as int]@);
            if cell.len() == 0 {
                assert(normalize(views[i as int]).len() == 0);
                return Err(String::from_str("grid cells cannot be empty"));
            }
            normalized.push(string_of(cell.as_slice()));
            proof {
                lemma_lower_idempotent(crate::text::trim(cells@[i as int]@));
                crate::text::lemma_normalize_trimmed(cells@[i as int]@);
            }
            i += 1;
        }
        assert forall|k: int| 0 <= k < count implies normalize(#[trigger] views[k]).len() > 0 by {
            assert(views[k] == cells@[k]@);
        }
        let grid = WordGrid { size, cells: normalized };
        assert(grid.cell_seq() =~= views.map_values(|c: Seq<char>| normalize(c)));
        Ok(grid)
    }

    /// A copy of the board.
    pub fn duplicate(&self) -> (r: Self)
        ensures
            r.side() == self.side(),
            r.cell_seq() == self.cell_seq(),
    {
        proof {
            use_type_invariant(self);
        }
        let cells = self.cells.clone();
        proof {
            assert forall|i: int| 0 <= i < cells.len() implies cells@[i] == self.cells@[i] by {
                assert(cloned::<String>(self.cells[i], cells[i]));
            }
            assert(cells@ =~= self.cells@);
        }
        WordGrid { size: self.size, cells }
    }

    /// The side of the board.
    pub fn size(&self) -> (r: usize)
        ensures
            r == self.side(),
    {
        self.size
    }

    /// The cells in row-major order.
    pub fn cells(&self) -> (r: &[String])
        ensures
            r@.map_values(|c: String| c@) == self.cell_seq(),
    {
        self.cells.as_slice()
    }

    /// The cell at `index`.
    pub fn cell(&self, index: usize) -> (r: &str)
        requires
            index < self.cell_seq().len(),
        ensures
            r@ == self.cell_seq()[index as int],
    {
        self.cells[index].as_str()
    }
}


/// Cell `row * size + col` lies in row `row` and column `col`.
pub proof fn lemma_cell_position(size: nat, row: int, col: int)
    requires
        size > 0,
        row >= 0,
        0 <= col < size,
    ensures
        row_of(size, row * size + col) == row,
        col_of(size, row * size + col) == col,
{
    vstd::arithmetic::div_mod::lemma_fundamental_div_mod_converse(
        row * size + col,
        size as int,
        row,
        col,
    );
}

/// A cell at or after the start of row `row` lies in that row or below; one before it lies above.
pub proof fn lemma_row_bounds(size: nat, j: int, row: int)
    requires
        size > 0,
        j >= 0,
        row >= 0,
    ensures
        j >= row * size ==> row_of(size, j) >= row,
        j < row * size ==> row_of(size, j) < row,
{
    let q = j / (size as int);
    let r = j % (size as int);
    vstd::arithmetic::div_mod::lemma_fundamental_div_mod(j, size as int);
    assert(j == size * q + r);
    assert(0 <= r < size);
    if j >= row * size && q < row {
        assert(size * q + r < row * size) by (nonlinear_arith)
            requires
                q < row,
                0 <= r < size,
                size > 0,
        ;
    }
    if j < row * size && q >= row {
        assert(size * q + r >= row * size) by (nonlinear_arith)
            requires
                q >= row,
                0 <= r,
                size > 0,
        ;
    }
}

/// A cell of row `row` before column `col` comes before `row * size + col`, and so on.
pub proof fn lemma_same_row_order(size: nat, j: int, row: int, col: int)
    requires
        size > 0,
        j >= 0,
        row >= 0,
        0 <= col < size,
        row_of(size, j) == row,
    ensures
        j < row * size + col <==> col_of(size, j) < col,
        j == row * size + col <==> col_of(size, j) == col,
{
    vstd::arithmetic::div_mod::lemma_fundamental_div_mod(j, size as int);
    assert(j == size * row + col_of(size, j));
    assert(size * row == row * size) by (nonlinear_arith);
}

impl WordGrid {
    /// The cells that touch cell `index`, in increasing order.
    pub fn neighbors(&self, index: usize) -> (r: Vec<usize>)
        ensures
            forall|k: int|
                0 <= k < r.len() ==> (#[trigger] r@[k]) < self.side() * self.side() && adjacent(
                    self.side(),
                    index as int,
                    r@[k] as int,
                ),
            forall|k1: int, k2: int| 0 <= k1 < k2 < r.len() ==> r@[k1] < r@[k2],
            forall|j: int|
                0 <= j < self.side() * self.side() && adjacent(self.side(), index as int, j)
                    ==> r@.contains(j as usize),
    {
        proof {
            use_type_invariant(self);
        }
        let size = self.size;
        let ghost n = size * size;
        let ghost sz = size as nat;
        let row = index / size;
        let col = index % size;
        let row_start = if row > 0 { row - 1 } else { 0 };
        let row_end = if row < size - 1 { row + 1 } else { size - 1 };
        let col_start = if col > 0 { col - 1 } else { 0 };
        let col_end = if col < size - 1 { col + 1 } else { size - 1 };
        assert(row == row_of(sz, index as int));
        assert(col == col_of(sz, index as int));
        let mut result: Vec<usize> = Vec::new();
        let mut next_row = row_start;
        proof {
            assert forall|j: int| 0 <= j < n && j < next_row * size implies !adjacent(sz, index as int, j) by {
                lemma_row_bounds(sz, j, next_row as int);
            }
        }
        while next_row <= row_end
            invariant
                size == self.size,
                size > 0,
                n == size * size,
                n == self.cells.len(),
                sz == size,
                row == row_of(sz, index as int),
                col == col_of(sz, index as int),
                row_start == (if row > 0 { row - 1 } else { 0 }),
                row_end == (if row < size - 1 { row + 1 } else { size - 1 }),
                col_start == (if col > 0 { col - 1 } else { 0 }),
                col_end == (if col < size - 1 { col + 1 } else { size - 1 }),
                row_start <= next_row,
                next_row <= row_end + 1 || next_row == row_start,
                forall|k: int|
                    0 <= k < result.len() ==> (#[trigger] result@[k]) < n && result@[k] < next_row
                        * size && adjacent(sz, index as int, result@[k] as int),
                forall|k1: int, k2: int|
                    0 <= k1 < k2 < result.len() ==> result@[k1] < result@[k2],
                forall|j: int|
                    0 <= j < n && j < next_row * size && adjacent(sz, index as int, j)
                        ==> result@.contains(j as usize),
            decreases row_end + 1 - next_row,
        {
            let mut next_col = col_start;
            proof {
                assert forall|j: int|
                    0 <= j < n && j < next_row * size + next_col && adjacent(sz, index as int, j)
                    implies result@.contains(j as usize) by {
                    lemma_row_bounds(sz, j, next_row as int);
                    if j >= next_row * size {
                        lemma_row_bounds(sz, j, next_row + 1);
                        assert((next_row + 1) * size == next_row * size + size) by (nonlinear_arith);
                        lemma_same_row_order(sz, j, next_row as int, next_col as int);
                    }
                }
            }
            while next_col <= col_end
                invariant
                    size == self.size,
                    size > 0,
                    n == size * size,
                    n == self.cells.len(),
                    sz == size,
                    row == row_of(sz, index as int),
                    col == col_of(sz, index as int),
                    row_start == (if row > 0 { row - 1 } else { 0 }),
                    row_end == (if row < size - 1 { row + 1 } else { size - 1 }),
                    col_start == (if col > 0 { col - 1 } else { 0 }),
                    col_end == (if col < size - 1 { col + 1 } else { size - 1 }),
                    row_start <= next_row <= row_end,
                    col_start <= next_col <= col_end + 1,
                    forall|k: int|
                        0 <= k < result.len() ==> (#[trigger] result@[k]) < n && result@[k] < next_row
                            * size + next_col && adjacent(sz, index as int, result@[k] as int),
                    forall|k1: int, k2: int|
                        0 <= k1 < k2 < result.len() ==> result@[k1] < result@[k2],
                    forall|j: int|
                        0 <= j < n && j < next_row * size + next_col && adjacent(sz, index as int, j)
                            ==> result@.contains(j as usize),
                decreases col_end + 1 - next_col,
            {
                assert(next_row * size + next_col < n) by (nonlinear_arith)
                    requires
                        next_row < size,
                        next_col < size,
                        n == size * size,
                ;
                let next = next_row * size + next_col;
                proof {
                    lemma_cell_position(sz, next_row as int, next_col as int);
                }
                let ghost before = result@;
                if next != index {
                    result.push(next);
                    assert(result@[result.len() - 1] == next);
                }
                proof {
                    assert forall|j: int|
                        0 <= j < n && j < next + 1 && adjacent(sz, index as int, j)
                        implies result@.contains(j as usize) by {
                        if j == next {
                            assert(result@[result.len() - 1] == next);
                        } else {
                            assert(before.contains(j as usize));
                            let w = choose|w: int| 0 <= w < before.len() && before[w] == j as usize;
                            assert(result@[w] == j as usize);
                        }
                    }
                }
                next_col += 1;
            }
            proof {
                assert forall|j: int|
                    0 <= j < n && j < (next_row + 1) * size && adjacent(sz, index as int, j)
                    implies result@.contains(j as usize) by {
                    assert((next_row + 1) * size == next_row * size + size) by (nonlinear_arith);
                    if j >= next_row * size + next_col {
                        lemma_row_bounds(sz, j, next_row as int);
                        lemma_row_bounds(sz, j, next_row + 1);
                        if next_col < size {
                            lemma_same_row_order(sz, j, next_row as int, next_col as int);
                        } else {
                            lemma_same_row_order(sz, j, next_row as int, (size - 1) as int);
                        }
                    }
                }
                assert forall|k: int| 0 <= k < result.len() implies (#[trigger] result@[k]) < (next_row + 1) * size by {
                    assert(next_row * size + next_col <= (next_row + 1) * size) by (nonlinear_arith)
                        requires
                            next_col <= size;
                }
            }
            next_row += 1;
        }
        proof {
            assert forall|j: int|
                0 <= j < n && adjacent(sz, index as int, j) implies result@.contains(j as usize) by {
                if j >= next_row * size {
                    lemma_row_bounds(sz, j, next_row as int);
                    lemma_row_bounds(sz, j, size as int);
                }
            }
        }
        result
    }
}

/// `path` has no error among its first `k` steps exactly when no one of those steps has one.
pub proof fn lemma_first_error_none(size: nat, path: Seq<usize>, k: nat)
    requires
        k <= path.len(),
    ensures
        first_error(size, path, k) is None <==> forall|i: int|
            0 <= i < k ==> (#[trigger] step_error(size, path, i)) is None,
    decreases k,
{
    if k > 0 {
        lemma_first_error_none(size, path, (k - 1) as nat);
    }
}

/// Once an error is met, checking more steps keeps it.
pub proof fn lemma_first_error_stable(size: nat, path: Seq<usize>, k: nat, j: nat)
    requires
        k <= j,
        first_error(size, path, k) is Some,
    ensures
        first_error(size, path, j) == first_error(size, path, k),
    decreases j - k,
{
    if j > k {
        lemma_first_error_stable(size, path, k, (j - 1) as nat);
    }
}

/// Checking a path step by step finds no error exactly when it is a valid path.
pub proof fn lemma_path_error_iff_valid(size: nat, path: Seq<usize>)
    ensures
        path_error(size, path) is None <==> valid_path(size, path),
{
    if path.len() > 0 {
        lemma_first_error_none(size, path, path.len());
        if path_error(size, path) is None {
            assert forall|k: int| 0 <= k < path.len() implies (#[trigger] path[k]) < size * size by {
                assert(step_error(size, path, k) is None);
            }
            assert forall|i: int, j: int| 0 <= i < path.len() && 0 <= j < path.len() && i != j
                implies path[i] != path[j] by {
                let (a, b) = if i < j { (i, j) } else { (j, i) };
                assert(step_error(size, path, b) is None);
                if path[a] == path[b] {
                    assert(path.take(b)[a] == path[a]);
                    assert(path.take(b).contains(path[b]));
                }
            }
            assert forall|k: int| 0 < k < path.len() implies adjacent(size, path[k - 1] as int, #[trigger] path[k] as int) by {
                assert(step_error(size, path, k) is None);
            }
        }
        if valid_path(size, path) {
            assert forall|i: int| 0 <= i < path.len() implies (#[trigger] step_error(size, path, i)) is None by {
                if path.take(i).contains(path[i]) {
                    let w = choose|w: int| 0 <= w < path.take(i).len() && path.take(i)[w] == path[i];
                    assert(path[w] == path[i]);
                }
            }
        }
    }
}

/// The word spelt by the first `k` cells of `path` starts the word spelt by all of it.
pub proof fn lemma_spell_prefix(cells: Seq<Seq<char>>, path: Seq<usize>, k: int)
    requires
        0 <= k <= path.len(),
    ensures
        spell(cells, path) == spell(cells, path.take(k)) + spell(cells, path.skip(k)),
    decreases path.len(),
{
    if k == path.len() {
        assert(path.take(k) == path);
        assert(path.skip(k) =~= Seq::<usize>::empty());
        assert(spell(cells, path) + Seq::<char>::empty() == spell(cells, path));
    } else {
        lemma_spell_prefix(cells, path.drop_last(), k);
        assert(path.drop_last().take(k) == path.take(k));
        assert(path.skip(k).drop_last() == path.drop_last().skip(k));
        assert(path.skip(k).last() == path.last());
    }
}

/// Spelling a path one cell longer appends that cell.
pub proof fn lemma_spell_push(cells: Seq<Seq<char>>, path: Seq<usize>, c: usize)
    ensures
        spell(cells, path.push(c)) == spell(cells, path) + cells[c as int],
{
    assert(path.push(c).drop_last() == path);
}

/// A path of distinct cells below `n` has at most `n` cells.
pub proof fn lemma_distinct_len(path: Seq<usize>, n: nat)
    requires
        path.no_duplicates(),
        forall|k: int| 0 <= k < path.len() ==> (#[trigger] path[k]) < n,
    ensures
        path.len() <= n,
{
    let ints = path.map_values(|x: usize| x as int);
    assert(ints.no_duplicates()) by {
        assert forall|i: int, j: int| 0 <= i < ints.len() && 0 <= j < ints.len() && i != j
            implies ints[i] != ints[j] by {
            assert(path[i] != path[j]);
        }
    }
    ints.unique_seq_to_set();
    let range = vstd::set_lib::set_int_range(0, n as int);
    assert(ints.to_set().subset_of(range)) by {
        assert forall|x: int| ints.to_set().contains(x) implies range.contains(x) by {
            let w = choose|w: int| 0 <= w < ints.len() && ints[w] == x;
            assert(path[w] < n);
        }
    }
    vstd::set_lib::lemma_int_range(0, n as int);
    vstd::set_lib::lemma_len_subset(ints.to_set(), range);
}

/// Whether `x` occurs among the first `end` entries of `v`.
pub(crate) fn contains_before(v: &[usize], end: usize, x: usize) -> (r: bool)
    requires
        end <= v.len(),
    ensures
        r == v@.take(end as int).contains(x),
{
    let mut i: usize = 0;
    while i < end
        invariant
            end <= v.len(),
            i <= end,
            forall|k: int| 0 <= k < i ==> v@[k] != x,
        decreases end - i,
    {
        if v[i] == x {
            assert(v@.take(end as int)[i as int] == x);
            return true;
        }
        i += 1;
    }
    false
}

/// Whether cells `a` and `b` of a board of side `size` touch.
pub(crate) fn touching(size: usize, a: usize, b: usize) -> (r: bool)
    requires
        size > 0,
    ensures
        r == adjacent(size as nat, a as int, b as int),
{
    let ra = a / size;
    let rb = b / size;
    let ca = a % size;
    let cb = b % size;
    let row_gap = if ra >= rb { ra - rb } else { rb - ra };
    let col_gap = if ca >= cb { ca - cb } else { cb - ca };
    a != b && row_gap <= 1 && col_gap <= 1
}

/// `p` is the least path, in lexicographic order of cell indices, among the paths on `g`
/// that spell `w`.
pub open spec fn least_path(g: WordGrid, w: Seq<char>, p: Seq<usize>) -> bool {
    &&& valid_path(g.side(), p)
    &&& spell(g.cell_seq(), p) == w
    &&& forall|p2: Seq<usize>|
        valid_path(g.side(), p2) && #[trigger] spell(g.cell_seq(), p2) == w && p2 != p ==> lex_less(p, p2)
}

/// There is at most one least path for a word.
pub proof fn lemma_least_path_unique(g: WordGrid, w: Seq<char>, p: Seq<usize>, q: Seq<usize>)
    requires
        least_path(g, w, p),
        least_path(g, w, q),
    ensures
        p == q,
{
    if p != q {
        assert(lex_less(p, q));
        lemma_lex_asym(p, q);
        assert(spell(g.cell_seq(), p) == w);
    }
}

/// A path over nonempty cells spells a nonempty word.
proof fn lemma_spell_nonempty(cells: Seq<Seq<char>>, p: Seq<usize>)
    requires
        p.len() > 0,
        cells[p.last() as int].len() > 0,
    ensures
        spell(cells, p).len() > 0,
{
}

impl WordGrid {
    /// The word that `path` spells, or the first reason why `path` is not a path on this
    /// board, checking its steps in order.
    pub fn word_for_path(&self, path: &[usize]) -> (r: Result<String, WordPathError>)
        ensures
            match r {
                Ok(w) => path_error(self.side(), path@) is None && valid_path(self.side(), path@)
                    && w@ == spell(self.cell_seq(), path@),
                Err(e) => path_error(self.side(), path@) == Some(e),
            },
    {
        proof {
            use_type_invariant(self);
            lemma_path_error_iff_valid(self.side(), path@);
        }
        if path.len() == 0 {
            return Err(WordPathError::EmptyPath);
        }
        let n = self.cells.len();
        let mut word = String::new();
        let mut k: usize = 0;
        while k < path.len()
            invariant
                n == self.cells.len(),
                n == self.size * self.size,
                self.size > 0,
                k <= path.len(),
                first_error(self.side(), path@, k as nat) is None,
                word@ == spell(self.cell_seq(), path@.take(k as int)),
            decreases path.len() - k,
        {
            let index = path[k];
            if index >= n {
                proof {
                    lemma_first_error_stable(self.side(), path@, (k + 1) as nat, path.len() as nat);
                }
                return Err(WordPathError::OutOfBounds { index });
            }
            if contains_before(path, k, index) {
                proof {
                    lemma_first_error_stable(self.side(), path@, (k + 1) as nat, path.len() as nat);
                }
                return Err(WordPathError::ReusedCell { index });
            }
            if k > 0 && !touching(self.size, path[k - 1], index) {
                proof {
                    lemma_first_error_stable(self.side(), path@, (k + 1) as nat, path.len() as nat);
                }
                return Err(WordPathError::NotAdjacent { from: path[k - 1], to: index });
            }
            push_str(&mut word, self.cells[index].as_str());
            proof {
                assert(path@.take(k + 1) == path@.take(k as int).push(index));
                lemma_spell_push(self.cell_seq(), path@.take(k as int), index);
                assert(self.cell_seq()[index as int] == self.cells@[index as int]@);
            }
            k += 1;
        }
        assert(path@.take(path.len() as int) == path@);
        Ok(word)
    }

    /// The first path, in the order of the board search, that spells `word` once it is
    /// trimmed and put in ASCII lower case: the least such path in lexicographic order of cell
    /// indices; none when no path spells it.
    pub fn find_path_for_word(&self, word: &str) -> (r: Option<Vec<usize>>)
        ensures
            match r {
                Some(p) => least_path(*self, normalize(word@), p@),
                None => forall|p: Seq<usize>|
                    valid_path(self.side(), p) ==> #[trigger] spell(self.cell_seq(), p) != normalize(
                        word@,
                    ),
            },
    {
        proof {
            use_type_invariant(self);
            self.lemma_shape();
        }
        let ghost target = normalize(word@);
        let dictionary = Dictionary::from_words(&[word]);
        let ghost raw = seq![word@];
        proof {
            assert([word]@.map_values(|s: &str| s@) =~= raw);
            assert(raw[0] == word@);
        }
        let ghost words = word_set(raw);
        let solver = GridSolver::new(dictionary, 1);
        let mut found = solver.find_words(self);
        proof {
            assert forall|w: Seq<char>| #[trigger] words.contains(w) implies w == target by {
                let i = choose|i: int| 0 <= i < raw.len() && normalize(#[trigger] raw[i]) == w;
            }
        }
        if found.len() == 0 {
            proof {
                assert forall|p: Seq<usize>| valid_path(self.side(), p) implies #[trigger] spell(self.cell_seq(), p)
                    != target by {
                    if spell(self.cell_seq(), p) == target {
                        lemma_spell_nonempty(self.cell_seq(), p);
                        assert(normalize(raw[0]) == target);
                        assert(words.contains(target));
                        assert(yields(*self, words, 1, p, target));
                    }
                }
            }
            return None;
        }
        let first = found.remove(0);
        proof {
            let p = first.path@;
            assert(first_path(*self, words, 1, first.word@, p));
            assert(first.word@ == target);
            assert forall|p2: Seq<usize>|
                valid_path(self.side(), p2) && spell(self.cell_seq(), p2) == target && p2 != p implies lex_less(p, p2) by {
                assert(yields(*self, words, 1, p2, target));
            }
        }
        Some(first.path)
    }
}

impl Clone for WordGrid {
    fn clone(&self) -> (r: Self)
        ensures
            r.side() == self.side(),
            r.cell_seq() == self.cell_seq(),
    {
        self.duplicate()
    }
}

} // verus!
