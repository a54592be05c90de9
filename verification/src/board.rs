//! The 9x9 board: indexed access, group validation over rows, columns and
//! blocks, and the textual grid form.
//!
//! The 27 groups are numbered 0 through 26: group `i` (0..9) is row `i`,
//! group `9 + i` is column `i`, and group `18 + i` is the 3x3 block whose
//! top-left corner sits at row `(i / 3) * 3`, column `(i % 3) * 3`, its nine
//! positions enumerated in row-major order.

use vstd::prelude::*;

use crate::value::{char_digit, display_char, lemma_unknown, Error, Value};

verus! {

/// How a board stands with respect to the sudoku rules.
#[derive(Debug, PartialEq, Eq, Structural)]
pub enum Solution {
    /// Every cell is final and no group repeats a digit.
    Valid,
    /// Some group holds the same digit in two final cells.
    Invalid,
    /// No group repeats a digit, but some cell is still open.
    Incomplete,
}

/// A 9x9 grid of candidate cells, stored row-major.
#[derive(Clone, Copy)]
pub struct Sudoku {
    cells: [Value; 81],
}

/// The row of the `k`-th position of group `g`.
pub open spec fn group_row(g: int, k: int) -> int {
    if g < 9 {
        g
    } else if g < 18 {
        k
    } else {
        ((g - 18) / 3) * 3 + k / 3
    }
}

/// The column of the `k`-th position of group `g`.
pub open spec fn group_col(g: int, k: int) -> int {
    if g < 9 {
        k
    } else if g < 18 {
        g - 9
    } else {
        ((g - 18) % 3) * 3 + k % 3
    }
}

/// The row-major cell index of the `k`-th position of group `g`.
pub open spec fn group_index(g: int, k: int) -> int {
    group_row(g, k) * 9 + group_col(g, k)
}

/// Every group position lies on the board.
pub proof fn lemma_group_bounds(g: int, k: int)
    requires
        0 <= g < 27,
        0 <= k < 9,
    ensures
        0 <= group_row(g, k) < 9,
        0 <= group_col(g, k) < 9,
        0 <= group_index(g, k) < 81,
{
    if g >= 18 {
        let b = g - 18;
        assert(0 <= b / 3 < 3 && 0 <= b % 3 < 3 && 0 <= k / 3 < 3 && 0 <= k % 3 < 3)
            by (nonlinear_arith)
            requires
                0 <= b < 9 && 0 <= k < 9,
        ;
    }
}

impl Sudoku {
    /// Every cell is well-formed.
    pub open spec fn wf(self) -> bool {
        forall|i: int| 0 <= i < 81 ==> self.cell(i).wf()
    }

    /// The cell at row-major index `i`.
    pub closed spec fn cell(self, i: int) -> Value {
        self.cells@[i]
    }

    /// The cell at a (row, column) coordinate pair.
    pub open spec fn coord_cell(self, p: (usize, usize)) -> Value {
        self.cell(p.0 as int * 9 + p.1 as int)
    }

    /// Two distinct positions of group `g` hold the same final digit.
    pub open spec fn group_conflict(self, g: int) -> bool {
        exists|k1: int, k2: int|
            0 <= k1 < 9 && 0 <= k2 < 9 && k1 != k2
                && self.cell(group_index(g, k1)).is_final_spec()
                && self.cell(group_index(g, k2)).is_final_spec()
                && self.cell(group_index(g, k1)).value_spec() == self.cell(
                group_index(g, k2),
            ).value_spec()
    }

    /// Some position of group `g` is still open.
    pub open spec fn group_open(self, g: int) -> bool {
        exists|k: int| 0 <= k < 9 && !self.cell(group_index(g, k)).is_final_spec()
    }

    /// Some of the 27 groups repeats a digit.
    pub open spec fn has_conflict(self) -> bool {
        exists|g: int| 0 <= g < 27 && self.group_conflict(g)
    }

    /// Every cell is final.
    pub open spec fn complete(self) -> bool {
        forall|i: int| 0 <= i < 81 ==> self.cell(i).is_final_spec()
    }

    /// Solved: every cell is final and no group repeats a digit.
    pub open spec fn solved(self) -> bool {
        self.complete() && !self.has_conflict()
    }

    /// Two distinct listed positions hold the same final digit.
    pub open spec fn coords_conflict(self, cs: Seq<(usize, usize)>) -> bool {
        exists|k1: int, k2: int|
            0 <= k1 < cs.len() && 0 <= k2 < cs.len() && k1 != k2
                && self.coord_cell(cs[k1]).is_final_spec()
                && self.coord_cell(cs[k2]).is_final_spec()
                && self.coord_cell(cs[k1]).value_spec() == self.coord_cell(cs[k2]).value_spec()
    }

    /// Some listed position is still open.
    pub open spec fn coords_open(self, cs: Seq<(usize, usize)>) -> bool {
        exists|k: int| 0 <= k < cs.len() && !self.coord_cell(cs[k]).is_final_spec()
    }

    /// An empty board: every cell still allows every digit.
    pub fn new() -> (s: Sudoku)
        ensures
            s.wf(),
            forall|i: int| 0 <= i < 81 ==> s.cell(i) == Value::unknown(),
    {
        proof {
            lemma_unknown();
        }
        let v = Value::default();
        let cells = vstd::array::array_fill_for_copy_types::<Value, 81>(v);
        proof {
            assert(forall|i: int| 0 <= i < 81 ==> cells@[i] == v);
        }
        Sudoku { cells }
    }

    /// The cell at row `x`, column `y`.
    pub fn get(&self, x: usize, y: usize) -> (r: Value)
        requires
            x < 9,
            y < 9,
        ensures
            r == self.cell(x as int * 9 + y as int),
    {
        let i = x * 9 + y;
        self.cells[i]
    }

    /// Replaces the cell at row `x`, column `y`; all other cells are kept.
    pub fn set(&mut self, x: usize, y: usize, value: Value)
        requires
            x < 9,
            y < 9,
        ensures
            final(self).cell(x as int * 9 + y as int) == value,
            forall|i: int|
                0 <= i < 81 && i != x as int * 9 + y as int ==> final(self).cell(i) == old(
                    self,
                ).cell(i),
            old(self).wf() && value.wf() ==> final(self).wf(),
    {
        let i = x * 9 + y;
        self.cells[i] = value;
        proof {
            if old(self).wf() && value.wf() {
                assert forall|j: int| 0 <= j < 81 implies self.cell(j).wf() by {
                    if j != i as int {
                        assert(self.cell(j) == old(self).cell(j));
                    }
                }
            }
        }
    }
}

impl Default for Sudoku {
    /// An empty board, as [`Sudoku::new`] builds it.
    fn default() -> (s: Self)
        ensures
            s.wf(),
            forall|i: int| 0 <= i < 81 ==> s.cell(i) == Value::unknown(),
    {
        Sudoku::new()
    }
}

impl Sudoku {
    /// Classifies one nine-cell group, given its positions: `Invalid` when
    /// two of the listed cells are final with the same digit, otherwise
    /// `Incomplete` when one is still open, otherwise `Valid`.
    pub fn validate_group(&self, coords: &Vec<(usize, usize)>) -> (r: Solution)
        requires
            self.wf(),
            coords@.len() == 9,
            forall|k: int| 0 <= k < 9 ==> (#[trigger] coords@[k]).0 < 9 && coords@[k].1 < 9,
        ensures
            (r == Solution::Invalid) <==> self.coords_conflict(coords@),
            (r == Solution::Incomplete) <==> (!self.coords_conflict(coords@) && self.coords_open(
                coords@,
            )),
            (r == Solution::Valid) <==> (!self.coords_conflict(coords@) && !self.coords_open(
                coords@,
            )),
    {
        let ghost cs = coords@;
        let mut seen = [false; 10];
        let mut k: usize = 0;
        while k < 9
            invariant
                self.wf(),
                coords@ == cs,
                cs.len() == 9,
                forall|j: int| 0 <= j < 9 ==> (#[trigger] cs[j]).0 < 9 && cs[j].1 < 9,
                k <= 9,
                !self.coords_conflict(cs.take(k as int)),
                seen@.len() == 10,
                seen@[0] == self.coords_open(cs.take(k as int)),
                forall|d: int|
                    1 <= d <= 9 ==> (#[trigger] seen@[d] == exists|j: int|
                        0 <= j < k && self.coord_cell(cs[j]).is_final_spec() && self.coord_cell(
                            cs[j],
                        ).value_spec() == d),
            decreases 9 - k,
        {
            let p = coords[k];
            let v = self.get(p.0, p.1);
            proof {
                assert(v == self.coord_cell(cs[k as int]));
            }
            let d = v.value();
            let was_final = v.is_final();
            if was_final && seen[d as usize] {
                proof {
                    let j = choose|j: int|
                        0 <= j < k && self.coord_cell(cs[j]).is_final_spec() && self.coord_cell(
                            cs[j],
                        ).value_spec() == d as int;
                    assert(self.coords_conflict(cs));
                }
                return Solution::Invalid;
            }
            seen[d as usize] = true;
            proof {
                assert(cs.take(k + 1 as int).drop_last() =~= cs.take(k as int));
                assert(cs.take(k + 1 as int).last() == cs[k as int]);
                let prev = cs.take(k as int);
                let cur = cs.take(k + 1 as int);
                assert forall|j: int| 0 <= j < cur.len() implies cur[j] == cs[j] by {}
                if self.coords_conflict(cur) {
                    let (k1, k2) = choose|k1: int, k2: int|
                        0 <= k1 < cur.len() && 0 <= k2 < cur.len() && k1 != k2
                            && self.coord_cell(cur[k1]).is_final_spec() && self.coord_cell(
                            cur[k2],
                        ).is_final_spec() && self.coord_cell(cur[k1]).value_spec()
                            == self.coord_cell(cur[k2]).value_spec();
                    assert(false);
                }
                if !was_final {
                    assert(self.coords_open(cur));
                } else {
                    if self.coords_open(cur) {
                        assert(self.coords_open(prev));
                    }
                }
            }
            k += 1;
        }
        proof {
            assert(cs.take(9) =~= cs);
        }
        if seen[0] {
            Solution::Incomplete
        } else {
            Solution::Valid
        }
    }
}

/// Nine pairwise distinct digits drawn from 1 through 9 hit each digit.
proof fn lemma_nine_distinct_digits_cover(v0: u16, v1: u16, v2: u16, v3: u16, v4: u16, v5: u16, v6: u16, v7: u16, v8: u16, d: u16)
    requires
        1 <= d <= 9,
        1 <= v0 <= 9,
        1 <= v1 <= 9,
        1 <= v2 <= 9,
        1 <= v3 <= 9,
        1 <= v4 <= 9,
        1 <= v5 <= 9,
        1 <= v6 <= 9,
        1 <= v7 <= 9,
        1 <= v8 <= 9,
        v0 != v1,
        v0 != v2,
        v0 != v3,
        v0 != v4,
        v0 != v5,
        v0 != v6,
        v0 != v7,
        v0 != v8,
        v1 != v2,
        v1 != v3,
        v1 != v4,
        v1 != v5,
        v1 != v6,
        v1 != v7,
        v1 != v8,
        v2 != v3,
        v2 != v4,
        v2 != v5,
        v2 != v6,
        v2 != v7,
        v2 != v8,
        v3 != v4,
        v3 != v5,
        v3 != v6,
        v3 != v7,
        v3 != v8,
        v4 != v5,
        v4 != v6,
        v4 != v7,
        v4 != v8,
        v5 != v6,
        v5 != v7,
        v5 != v8,
        v6 != v7,
        v6 != v8,
        v7 != v8,
    ensures
        v0 == d || v1 == d || v2 == d || v3 == d || v4 == d || v5 == d || v6 == d || v7 == d || v8 == d,
{
    assert(v0 == d || v1 == d || v2 == d || v3 == d || v4 == d || v5 == d || v6 == d || v7 == d || v8 == d) by (bit_vector)
        requires
            1 <= d <= 9,
            1 <= v0 <= 9,
            1 <= v1 <= 9,
            1 <= v2 <= 9,
            1 <= v3 <= 9,
            1 <= v4 <= 9,
            1 <= v5 <= 9,
            1 <= v6 <= 9,
            1 <= v7 <= 9,
            1 <= v8 <= 9,
            v0 != v1,
            v0 != v2,
            v0 != v3,
            v0 != v4,
            v0 != v5,
            v0 != v6,
            v0 != v7,
            v0 != v8,
            v1 != v2,
            v1 != v3,
            v1 != v4,
            v1 != v5,
            v1 != v6,
            v1 != v7,
            v1 != v8,
            v2 != v3,
            v2 != v4,
            v2 != v5,
            v2 != v6,
            v2 != v7,
            v2 != v8,
            v3 != v4,
            v3 != v5,
            v3 != v6,
            v3 != v7,
            v3 != v8,
            v4 != v5,
            v4 != v6,
            v4 != v7,
            v4 != v8,
            v5 != v6,
            v5 != v7,
            v5 != v8,
            v6 != v7,
            v6 != v8,
            v7 != v8,
    ;
}

/// A group whose nine cells are all final without a repeated digit covers
/// every digit 1 through 9.
pub proof fn lemma_full_group_covers(s: Sudoku, g: int, d: u16)
    requires
        0 <= g < 27,
        1 <= d <= 9,
        forall|k: int| 0 <= k < 9 ==> (#[trigger] s.cell(group_index(g, k))).is_final_spec(),
        !s.group_conflict(g),
    ensures
        exists|k: int| 0 <= k < 9 && (#[trigger] s.cell(group_index(g, k))).value_spec() == d,
{
    let v0 = s.cell(group_index(g, 0)).value_spec();
    let v1 = s.cell(group_index(g, 1)).value_spec();
    let v2 = s.cell(group_index(g, 2)).value_spec();
    let v3 = s.cell(group_index(g, 3)).value_spec();
    let v4 = s.cell(group_index(g, 4)).value_spec();
    let v5 = s.cell(group_index(g, 5)).value_spec();
    let v6 = s.cell(group_index(g, 6)).value_spec();
    let v7 = s.cell(group_index(g, 7)).value_spec();
    let v8 = s.cell(group_index(g, 8)).value_spec();
    crate::value::lemma_final_is_singleton(s.cell(group_index(g, 0)));
    crate::value::lemma_final_is_singleton(s.cell(group_index(g, 1)));
    crate::value::lemma_final_is_singleton(s.cell(group_index(g, 2)));
    crate::value::lemma_final_is_singleton(s.cell(group_index(g, 3)));
    crate::value::lemma_final_is_singleton(s.cell(group_index(g, 4)));
    crate::value::lemma_final_is_singleton(s.cell(group_index(g, 5)));
    crate::value::lemma_final_is_singleton(s.cell(group_index(g, 6)));
    crate::value::lemma_final_is_singleton(s.cell(group_index(g, 7)));
    crate::value::lemma_final_is_singleton(s.cell(group_index(g, 8)));
    lemma_nine_distinct_digits_cover(v0, v1, v2, v3, v4, v5, v6, v7, v8, d);
}

/// A list of positions that matches group `g` pointwise classifies exactly
/// as that group does.
proof fn lemma_coords_group(s: Sudoku, cs: Seq<(usize, usize)>, g: int)
    requires
        0 <= g < 27,
        cs.len() == 9,
        forall|k: int|
            0 <= k < 9 ==> (#[trigger] cs[k]).0 == group_row(g, k) && cs[k].1 == group_col(g, k),
    ensures
        s.coords_conflict(cs) <==> s.group_conflict(g),
        s.coords_open(cs) <==> s.group_open(g),
{
    assert forall|k: int| 0 <= k < 9 implies s.coord_cell(cs[k]) == s.cell(group_index(g, k)) by {
        lemma_group_bounds(g, k);
    }
}

/// Some group has an open position exactly when some cell of the board is
/// not final.
proof fn lemma_open_iff_incomplete(s: Sudoku)
    ensures
        (exists|g: int| 0 <= g < 27 && s.group_open(g)) <==> !s.complete(),
{
    if exists|g: int| 0 <= g < 27 && s.group_open(g) {
        let g = choose|g: int| 0 <= g < 27 && s.group_open(g);
        let k = choose|k: int| 0 <= k < 9 && !s.cell(group_index(g, k)).is_final_spec();
        lemma_group_bounds(g, k);
    }
    if !s.complete() {
        let i = choose|i: int| 0 <= i < 81 && !s.cell(i).is_final_spec();
        let r = i / 9;
        let c = i % 9;
        assert(0 <= r < 9 && 0 <= c < 9 && r * 9 + c == i) by (nonlinear_arith)
            requires
                0 <= i < 81 && r == i / 9 && c == i % 9,
        ;
        assert(group_index(r, c) == i);
        assert(s.group_open(r));
    }
}

impl Sudoku {
    /// Classifies the whole board: `Invalid` when any of the 27 groups
    /// repeats a digit; otherwise `Incomplete` when any cell is still open;
    /// otherwise `Valid`. Rows, columns and blocks are checked in that order
    /// for each index, and the first conflict found decides.
    pub fn validate(&self) -> (r: Solution)
        requires
            self.wf(),
        ensures
            (r == Solution::Invalid) <==> self.has_conflict(),
            (r == Solution::Incomplete) <==> (!self.has_conflict() && !self.complete()),
            (r == Solution::Valid) <==> (!self.has_conflict() && self.complete()),
    {
        let mut incomplete = false;
        for i in 0..9usize
            invariant
                self.wf(),
                forall|g: int|
                    (0 <= g < i || 9 <= g < 9 + i || 18 <= g < 18 + i)
                        ==> !(#[trigger] self.group_conflict(g)),
                incomplete == exists|g: int|
                    (0 <= g < i || 9 <= g < 9 + i || 18 <= g < 18 + i) && (
                    #[trigger] self.group_open(g)),
        {
            let rows = row_iter(i);
            let rc = self.validate_group(&rows);
            proof {
                lemma_coords_group(*self, rows@, i as int);
            }
            match rc {
                Solution::Invalid => {
                    return Solution::Invalid;
                },
                Solution::Incomplete => {
                    incomplete = true;
                },
                Solution::Valid => {},
            }
            let cols = col_iter(i);
            let cc = self.validate_group(&cols);
            proof {
                lemma_coords_group(*self, cols@, 9 + i as int);
            }
            match cc {
                Solution::Invalid => {
                    return Solution::Invalid;
                },
                Solution::Incomplete => {
                    incomplete = true;
                },
                Solution::Valid => {},
            }
            let blocks = block_iter(i);
            let bc = self.validate_group(&blocks);
            proof {
                lemma_coords_group(*self, blocks@, 18 + i as int);
            }
            match bc {
                Solution::Invalid => {
                    return Solution::Invalid;
                },
                Solution::Incomplete => {
                    incomplete = true;
                },
                Solution::Valid => {},
            }
        }
        proof {
            lemma_open_iff_incomplete(*self);
        }
        if incomplete {
            Solution::Incomplete
        } else {
            Solution::Valid
        }
    }

    /// True exactly when the board is solved: complete and without any
    /// repeated digit in a row, column or block.
    pub fn valid(&self) -> (r: bool)
        requires
            self.wf(),
        ensures
            r == self.solved(),
    {
        match self.validate() {
            Solution::Valid => true,
            _ => false,
        }
    }
}

/// The nine positions of row `row`, left to right.
pub fn row_iter(row: usize) -> (r: Vec<(usize, usize)>)
    requires
        row < 9,
    ensures
        r@.len() == 9,
        forall|k: int|
            0 <= k < 9 ==> (#[trigger] r@[k]).0 == group_row(row as int, k) && r@[k].1
                == group_col(row as int, k),
        forall|k: int| 0 <= k < 9 ==> (#[trigger] r@[k]).0 < 9 && r@[k].1 < 9,
{
    let mut r: Vec<(usize, usize)> = Vec::new();
    for k in 0..9usize
        invariant
            row < 9,
            r@.len() == k,
            forall|j: int| 0 <= j < k ==> r@[j].0 == row && r@[j].1 == j,
    {
        r.push((row, k));
    }
    r
}

/// The nine positions of column `col`, top to bottom.
pub fn col_iter(col: usize) -> (r: Vec<(usize, usize)>)
    requires
        col < 9,
    ensures
        r@.len() == 9,
        forall|k: int|
            0 <= k < 9 ==> (#[trigger] r@[k]).0 == group_row(9 + col as int, k) && r@[k].1
                == group_col(9 + col as int, k),
        forall|k: int| 0 <= k < 9 ==> (#[trigger] r@[k]).0 < 9 && r@[k].1 < 9,
{
    let mut r: Vec<(usize, usize)> = Vec::new();
    for k in 0..9usize
        invariant
            col < 9,
            r@.len() == k,
            forall|j: int| 0 <= j < k ==> r@[j].0 == j && r@[j].1 == col,
    {
        r.push((k, col));
    }
    r
}

/// The nine positions of block `block`, row-major within the block; block
/// `block` has its top-left corner at row `(block / 3) * 3`, column
/// `(block % 3) * 3`.
pub fn block_iter(block: usize) -> (r: Vec<(usize, usize)>)
    requires
        block < 9,
    ensures
        r@.len() == 9,
        forall|k: int|
            0 <= k < 9 ==> (#[trigger] r@[k]).0 == group_row(18 + block as int, k) && r@[k].1
                == group_col(18 + block as int, k),
        forall|k: int| 0 <= k < 9 ==> (#[trigger] r@[k]).0 < 9 && r@[k].1 < 9,
{
    let row0 = (block / 3) * 3;
    let col0 = (block % 3) * 3;
    let mut r: Vec<(usize, usize)> = Vec::new();
    for k in 0..9usize
        invariant
            block < 9,
            row0 == (block as int / 3) * 3,
            col0 == (block as int % 3) * 3,
            r@.len() == k,
            forall|j: int| 0 <= j < k ==> r@[j].0 == row0 + j / 3 && r@[j].1 == col0 + j % 3,
    {
        r.push((row0 + k / 3, col0 + k % 3));
    }
    r
}

/// How many line breaks come before position `i` of a text: the grid row
/// the position falls in.
pub open spec fn line_of(s: Seq<char>, i: int) -> int
    decreases i,
{
    if i <= 0 {
        0
    } else {
        line_of(s, i - 1) + if s[i - 1] == '\n' {
            1int
        } else {
            0int
        }
    }
}

/// How far position `i` stands from the line break before it: the grid
/// column the position falls in.
pub open spec fn col_of(s: Seq<char>, i: int) -> int
    decreases i,
{
    if i <= 0 {
        0
    } else if s[i - 1] == '\n' {
        0
    } else {
        col_of(s, i - 1) + 1
    }
}

/// Position `i` of the text denotes the cell at row `x`, column `y`.
pub open spec fn at_cell(s: Seq<char>, i: int, x: int, y: int) -> bool {
    0 <= i < s.len() && s[i] != '\n' && line_of(s, i) == x && col_of(s, i) == y
}

/// The parser rejects position `i`: it lies inside the 9x9 region and its
/// character is neither a digit 1 through 9 nor a space.
pub open spec fn bad_at(s: Seq<char>, i: int) -> bool {
    0 <= i < s.len() && s[i] != '\n' && line_of(s, i) < 9 && col_of(s, i) < 9 && s[i] != ' '
        && char_digit(s[i]) == 0
}

/// The error for the first rejected position at or after `i`, scanning left
/// to right; `None` when every position from `i` on is accepted.
pub open spec fn scan_error(s: Seq<char>, i: int) -> Option<Error>
    decreases s.len() - i,
{
    if i < 0 || i >= s.len() {
        None
    } else if bad_at(s, i) {
        Some(
            if s[i] == '0' {
                Error::ValueOutOfRange
            } else {
                Error::ParseFailure
            },
        )
    } else {
        scan_error(s, i + 1)
    }
}

/// The cell that the first `m` positions of the text give the grid at row
/// `x`, column `y`: the digit of the position that denotes it, the unknown
/// cell where no such position was read or it held a space.
pub open spec fn parsed_cell_upto(s: Seq<char>, m: int, x: int, y: int) -> Value {
    if exists|j: int| j < m && at_cell(s, j, x, y) {
        let j = choose|j: int| j < m && at_cell(s, j, x, y);
        if char_digit(s[j]) != 0 {
            Value::singleton(char_digit(s[j]) as u16)
        } else {
            Value::unknown()
        }
    } else {
        Value::unknown()
    }
}

/// The cell the whole text gives the grid at row `x`, column `y`.
pub open spec fn parsed_cell(s: Seq<char>, x: int, y: int) -> Value {
    parsed_cell_upto(s, s.len() as int, x, y)
}

/// The grid row of a position never shrinks as the text is read on.
proof fn lemma_line_mono(s: Seq<char>, i: int, j: int)
    requires
        0 <= i <= j,
    ensures
        line_of(s, i) <= line_of(s, j),
    decreases j - i,
{
    if i < j {
        lemma_line_mono(s, i, j - 1);
    }
}

/// Two positions on the same grid row are that many columns apart.
proof fn lemma_cols_on_line(s: Seq<char>, i: int, j: int)
    requires
        0 <= i <= j,
        line_of(s, i) == line_of(s, j),
    ensures
        col_of(s, j) == col_of(s, i) + (j - i),
    decreases j - i,
{
    if i < j {
        lemma_line_mono(s, i, j - 1);
        lemma_line_mono(s, j - 1, j);
        assert(s[j - 1] != '\n');
        lemma_cols_on_line(s, i, j - 1);
    }
}

/// At most one position of the text denotes a given cell.
proof fn lemma_at_cell_unique(s: Seq<char>, i: int, j: int, x: int, y: int)
    requires
        at_cell(s, i, x, y),
        at_cell(s, j, x, y),
    ensures
        i == j,
{
    if i < j {
        lemma_cols_on_line(s, i, j);
    }
    if j < i {
        lemma_cols_on_line(s, j, i);
    }
}

/// Reading one more position that denotes no cell of the 9x9 region leaves
/// every parsed cell as it was.
proof fn lemma_parse_upto_extend(s: Seq<char>, ii: int, a: int, b: int)
    requires
        !at_cell(s, ii, a, b),
    ensures
        parsed_cell_upto(s, ii + 1, a, b) == parsed_cell_upto(s, ii, a, b),
{
    assert forall|j: int| j < ii + 1 && at_cell(s, j, a, b) implies j < ii by {}
    if exists|j: int| j < ii && at_cell(s, j, a, b) {
        let j1 = choose|j: int| j < ii && at_cell(s, j, a, b);
        let j2 = choose|j: int| j < ii + 1 && at_cell(s, j, a, b);
        lemma_at_cell_unique(s, j1, j2, a, b);
    }
}

/// A parser step over a line break or a position outside the 9x9 region
/// changes no cell and rejects nothing.
proof fn lemma_parse_step_keeps(board: Sudoku, s: Seq<char>, ii: int, m: int, ox: int, oy: int)
    requires
        m == ii + 1,
        0 <= ii < s.len(),
        ox == line_of(s, ii),
        oy == col_of(s, ii),
        s[ii] == '\n' || ox >= 9 || oy >= 9,
        forall|a: int, b: int|
            0 <= a < 9 && 0 <= b < 9 ==> board.cell(a * 9 + b) == parsed_cell_upto(s, ii, a, b),
    ensures
        forall|a: int, b: int|
            0 <= a < 9 && 0 <= b < 9 ==> board.cell(a * 9 + b) == parsed_cell_upto(s, m, a, b),
        scan_error(s, m) == scan_error(s, ii),
{
    assert forall|a: int, b: int| 0 <= a < 9 && 0 <= b < 9 implies board.cell(a * 9 + b)
        == parsed_cell_upto(s, m, a, b) by {
        assert(!at_cell(s, ii, a, b));
        lemma_parse_upto_extend(s, ii, a, b);
    }
}

/// A parser step that stores the cell a position denotes leaves every other
/// cell as it was and rejects nothing.
proof fn lemma_parse_step_set(board: Sudoku, s: Seq<char>, ii: int, m: int, ox: int, oy: int)
    requires
        m == ii + 1,
        0 <= ii < s.len(),
        ox == line_of(s, ii),
        oy == col_of(s, ii),
        0 <= ox < 9,
        0 <= oy < 9,
        s[ii] != '\n',
        s[ii] == ' ' || char_digit(s[ii]) != 0,
        board.cell(ox * 9 + oy) == (if char_digit(s[ii]) != 0 {
            Value::singleton(char_digit(s[ii]) as u16)
        } else {
            Value::unknown()
        }),
        forall|a: int, b: int|
            0 <= a < 9 && 0 <= b < 9 && !(a == ox && b == oy) ==> board.cell(a * 9 + b)
                == parsed_cell_upto(s, ii, a, b),
    ensures
        forall|a: int, b: int|
            0 <= a < 9 && 0 <= b < 9 ==> board.cell(a * 9 + b) == parsed_cell_upto(s, m, a, b),
        scan_error(s, m) == scan_error(s, ii),
{
    assert forall|a: int, b: int| 0 <= a < 9 && 0 <= b < 9 implies board.cell(a * 9 + b)
        == parsed_cell_upto(s, m, a, b) by {
        if a == ox && b == oy {
            assert(at_cell(s, ii, a, b));
            assert forall|j: int| j < ii + 1 && at_cell(s, j, a, b) implies j == ii by {
                lemma_at_cell_unique(s, j, ii, a, b);
            }
            assert(parsed_cell_upto(s, ii + 1, a, b) == (if char_digit(s[ii]) != 0 {
                Value::singleton(char_digit(s[ii]) as u16)
            } else {
                Value::unknown()
            }));
        } else {
            assert(!at_cell(s, ii, a, b));
            lemma_parse_upto_extend(s, ii, a, b);
        }
    }
}

impl Sudoku {
    /// Reads the textual grid form: rows separated by line breaks, a digit
    /// 1 through 9 for a forced cell and a space for an open one. Positions
    /// beyond the ninth row or column are ignored. Fails on the first
    /// character inside the 9x9 region that is no cell: with
    /// `ValueOutOfRange` for `'0'`, with `ParseFailure` for anything else.
    pub fn from_str(text: &str) -> (r: Result<Sudoku, Error>)
        ensures
            scan_error(text@, 0) matches Some(e) ==> r == Err::<Sudoku, Error>(e),
            scan_error(text@, 0) is None ==> (r matches Ok(b) && b.wf() && forall|x: int, y: int|
                0 <= x < 9 && 0 <= y < 9 ==> b.cell(x * 9 + y) == parsed_cell(text@, x, y)),
    {
        let ghost s = text@;
        let n = text.unicode_len();
        let mut board = Sudoku::new();
        proof {
            lemma_unknown();
        }
        let mut i: usize = 0;
        let mut x: usize = 0;
        let mut y: usize = 0;
        while i < n
            invariant
                text@ == s,
                n == s.len(),
                i <= n,
                x <= i,
                y <= i,
                x == line_of(s, i as int),
                y == col_of(s, i as int),
                board.wf(),
                scan_error(s, 0) == scan_error(s, i as int),
                forall|a: int, b: int|
                    0 <= a < 9 && 0 <= b < 9 ==> board.cell(a * 9 + b) == parsed_cell_upto(
                        s,
                        i as int,
                        a,
                        b,
                    ),
            decreases n - i,
        {
            let c = text.get_char(i);
            let ghost ii = i as int;
            let ghost ox = x as int;
            let ghost oy = y as int;
            if c == '\n' {
                proof {
                    lemma_parse_step_keeps(board, s, ii, ii + 1, ox, oy);
                }
                x += 1;
                y = 0;
            } else {
                if x < 9 && y < 9 {
                    match Value::from_char(c) {
                        Ok(cv) => {
                            board.set(x, y, cv);
                            proof {
                                lemma_unknown();
                                if char_digit(c) != 0 {
                                    crate::value::lemma_singleton(char_digit(c) as u16);
                                }
                                lemma_parse_step_set(board, s, ii, ii + 1, ox, oy);
                            }
                        },
                        Err(e) => {
                            proof {
                                assert(bad_at(s, ii));
                                assert(scan_error(s, ii) == Some(e));
                            }
                            return Err(e);
                        },
                    }
                } else {
                    proof {
                        lemma_parse_step_keeps(board, s, ii, ii + 1, ox, oy);
                    }
                }
                y += 1;
            }
            i += 1;
        }
        Ok(board)
    }

    /// The textual grid form: nine lines of nine characters each, a digit
    /// for every final cell and a space for every open one, each row closed
    /// by a line break.
    pub fn to_text(&self) -> (r: String)
        requires
            self.wf(),
        ensures
            r@.len() == 90,
            forall|i: int| 0 <= i < 90 ==> r@[i] == rendered_char(*self, i),
    {
        let mut out = String::new();
        for x in 0..9usize
            invariant
                self.wf(),
                out@.len() == x * 10,
                forall|i: int| 0 <= i < out@.len() ==> out@[i] == rendered_char(*self, i),
        {
            for y in 0..9usize
                invariant
                    self.wf(),
                    x < 9,
                    out@.len() == x * 10 + y,
                    forall|i: int| 0 <= i < out@.len() ==> out@[i] == rendered_char(*self, i),
            {
                let v = self.get(x, y);
                out.append(v.as_str());
                proof {
                    let p = x * 10 + y as int;
                    assert(p % 10 == y && p / 10 == x) by (nonlinear_arith)
                        requires
                            0 <= y < 9 && 0 <= x < 9 && p == x * 10 + y,
                    ;
                }
            }
            proof {
                reveal_strlit("\n");
                let p = x * 10 + 9int;
                assert(p % 10 == 9 && p / 10 == x) by (nonlinear_arith)
                    requires
                        0 <= x < 9 && p == x * 10 + 9,
                ;
            }
            out.append("\n");
        }
        out
    }
}

/// The character at position `i` of the textual form of `s`: each row is
/// ten characters, nine cells and a closing line break.
pub open spec fn rendered_char(s: Sudoku, i: int) -> char {
    if i % 10 == 9 {
        '\n'
    } else {
        display_char(s.cell((i / 10) * 9 + i % 10))
    }
}

} // verus!
