//! Exhaustive backtracking search over boards.
//!
//! The solver walks the cells in row-major order, forces the first open cell
//! to each digit 1 through 9 in turn on an independent copy of the board, and
//! recurses. It is proved sound — a returned board is solved and keeps every
//! digit the puzzle had forced — and complete: a `None` answer means no such
//! board exists at all.

use vstd::prelude::*;

use crate::board::{group_index, lemma_group_bounds, Solution, Sudoku};
use crate::value::{lemma_final_is_singleton, lemma_singleton, Value};

verus! {

/// `sol` keeps every digit that `base` has already forced.
pub open spec fn extends(sol: Sudoku, base: Sudoku) -> bool {
    forall|i: int|
        0 <= i < 81 && (#[trigger] base.cell(i)).is_final_spec() ==> sol.cell(i) == base.cell(i)
}

/// `sol` is a solution of the puzzle `base`: solved, and keeping every digit
/// `base` had forced.
pub open spec fn solves(sol: Sudoku, base: Sudoku) -> bool {
    sol.solved() && extends(sol, base)
}

/// A repeated digit survives into every board that keeps the forced cells,
/// so a conflicted puzzle has no solution.
proof fn lemma_conflict_extends(sol: Sudoku, base: Sudoku)
    requires
        base.has_conflict(),
        extends(sol, base),
    ensures
        sol.has_conflict(),
{
    let g = choose|g: int| 0 <= g < 27 && base.group_conflict(g);
    let (k1, k2) = choose|k1: int, k2: int|
        0 <= k1 < 9 && 0 <= k2 < 9 && k1 != k2 && base.cell(
            group_index(g, k1),
        ).is_final_spec() && base.cell(group_index(g, k2)).is_final_spec() && base.cell(
            group_index(g, k1),
        ).value_spec() == base.cell(group_index(g, k2)).value_spec();
    lemma_group_bounds(g, k1);
    lemma_group_bounds(g, k2);
    assert(sol.cell(group_index(g, k1)) == base.cell(group_index(g, k1)));
    assert(sol.cell(group_index(g, k2)) == base.cell(group_index(g, k2)));
    assert(sol.group_conflict(g));
}

/// Depth-first search from row-major cell `level` on, every cell before
/// `level` already final. Returns the first solution found, trying the
/// digits of each open cell in ascending order; `None` exactly when no
/// solution of `root` exists.
fn backtrack(root: Sudoku, level: usize) -> (r: Option<Sudoku>)
    requires
        root.wf(),
        level <= 81,
        forall|i: int| 0 <= i < level ==> (#[trigger] root.cell(i)).is_final_spec(),
    ensures
        r matches Some(sol) ==> solves(sol, root),
        r is None ==> forall|sol: Sudoku| !solves(sol, root),
        root.solved() ==> r == Some(root),
    decreases 81 - level,
{
    match root.validate() {
        Solution::Valid => Some(root),
        Solution::Invalid => {
            proof {
                assert forall|sol: Sudoku| !solves(sol, root) by {
                    if solves(sol, root) {
                        lemma_conflict_extends(sol, root);
                    }
                }
            }
            None
        },
        Solution::Incomplete => {
            let mut idx = level;
            proof {
                let j = choose|j: int| 0 <= j < 81 && !root.cell(j).is_final_spec();
                assert(idx <= j < 81);
            }
            while root.get(idx / 9, idx % 9).is_final()
                invariant
                    root.wf(),
                    level <= idx,
                    forall|i: int| 0 <= i < idx ==> (#[trigger] root.cell(i)).is_final_spec(),
                    exists|j: int| idx <= j < 81 && !(#[trigger] root.cell(j)).is_final_spec(),
                decreases 81 - idx,
            {
                proof {
                    assert((idx as int / 9) * 9 + idx as int % 9 == idx as int);
                }
                idx += 1;
            }
            proof {
                assert((idx as int / 9) * 9 + idx as int % 9 == idx as int);
                assert(!root.cell(idx as int).is_final_spec());
                assert forall|sol: Sudoku| #[trigger] solves(sol, root) implies sol.cell(
                    idx as int,
                ).value_spec() >= 1 by {
                    lemma_final_is_singleton(sol.cell(idx as int));
                }
            }
            let mut v: u8 = 1;
            while v <= 9
                invariant
                    root.wf(),
                    level <= idx < 81,
                    forall|i: int| 0 <= i < idx ==> (#[trigger] root.cell(i)).is_final_spec(),
                    !root.cell(idx as int).is_final_spec(),
                    1 <= v <= 10,
                    forall|sol: Sudoku|
                        #[trigger] solves(sol, root) ==> sol.cell(idx as int).value_spec() >= v,
                decreases 10 - v,
            {
                let cell = Value::new(v).unwrap();
                proof {
                    lemma_singleton(v as u16);
                }
                let mut candidate = root;
                candidate.set(idx / 9, idx % 9, cell);
                proof {
                    assert((idx as int / 9) * 9 + idx as int % 9 == idx as int);
                    assert(candidate.cell(idx as int) == Value::singleton(v as u16));
                    assert forall|i: int| 0 <= i < idx + 1 implies (#[trigger] candidate.cell(
                        i,
                    )).is_final_spec() by {
                        if i < idx {
                            assert(candidate.cell(i) == root.cell(i));
                        }
                    }
                }
                match backtrack(candidate, idx + 1) {
                    Some(sol) => {
                        proof {
                            assert forall|i: int|
                                0 <= i < 81 && (#[trigger] root.cell(i)).is_final_spec() implies sol.cell(
                                i,
                            ) == root.cell(i) by {
                                assert(i != idx as int);
                                assert(candidate.cell(i) == root.cell(i));
                            }
                        }
                        return Some(sol);
                    },
                    None => {
                        proof {
                            assert forall|sol: Sudoku| #[trigger] solves(sol, root) implies sol.cell(
                                idx as int,
                            ).value_spec() >= v + 1 by {
                                assert(sol.cell(idx as int).is_final_spec());
                                if sol.cell(idx as int).value_spec() == v {
                                    lemma_final_is_singleton(sol.cell(idx as int));
                                    assert(sol.cell(idx as int) == candidate.cell(idx as int));
                                    assert forall|i: int|
                                        0 <= i < 81 && (#[trigger] candidate.cell(
                                            i,
                                        )).is_final_spec() implies sol.cell(i) == candidate.cell(
                                        i,
                                    ) by {
                                        if i != idx as int {
                                            assert(candidate.cell(i) == root.cell(i));
                                        }
                                    }
                                    assert(solves(sol, candidate));
                                    assert(false);
                                }
                            }
                        }
                    },
                }
                v += 1;
            }
            proof {
                assert forall|sol: Sudoku| !solves(sol, root) by {
                    if solves(sol, root) {
                        lemma_final_is_singleton(sol.cell(idx as int));
                    }
                }
            }
            None
        },
    }
}

/// Solves a puzzle by exhaustive backtracking. A returned board is solved
/// and keeps every digit the puzzle had forced; `None` means no such board
/// exists. A board that is already solved comes back unchanged.
pub fn solve(sudoku: Sudoku) -> (r: Option<Sudoku>)
    requires
        sudoku.wf(),
    ensures
        r matches Some(sol) ==> solves(sol, sudoku),
        r is None ==> forall|sol: Sudoku| !solves(sol, sudoku),
        sudoku.solved() ==> r == Some(sudoku),
{
    backtrack(sudoku, 0)
}

} // verus!
