//! The grid of hexagon slots: rows of `count_x` slots, numbered row by row,
//! every odd row shifted right by half a column. A hexagon touches the slot two
//! rows above it and the two slots of the row above that lie half a column to
//! its left and to its right.

use vstd::arithmetic::div_mod::lemma_fundamental_div_mod;
use vstd::arithmetic::div_mod::lemma_fundamental_div_mod_converse;
use vstd::arithmetic::div_mod::lemma_mod_pos_bound;
use vstd::prelude::*;

verus! {

/// The row of a slot.
pub open spec fn row_of(count_x: int, slot: int) -> int {
    slot / count_x
}

/// The column of a slot.
pub open spec fn column_of(count_x: int, slot: int) -> int {
    slot % count_x
}

/// The slot straight above: two rows up, same column.
pub open spec fn top(count_x: int, slot: int) -> Option<int> {
    if row_of(count_x, slot) >= 2 {
        Some(slot - 2 * count_x)
    } else {
        None
    }
}

/// The slot above and to the left: one row up, half a column to the left.
pub open spec fn top_left(count_x: int, slot: int) -> Option<int> {
    if row_of(count_x, slot) <= 0 {
        None
    } else if row_of(count_x, slot) % 2 == 1 {
        Some(slot - count_x)
    } else if column_of(count_x, slot) >= 1 {
        Some(slot - count_x - 1)
    } else {
        None
    }
}

/// The slot above and to the right: one row up, half a column to the right.
pub open spec fn top_right(count_x: int, slot: int) -> Option<int> {
    if row_of(count_x, slot) <= 0 {
        None
    } else if row_of(count_x, slot) % 2 == 0 {
        Some(slot - count_x)
    } else if column_of(count_x, slot) + 1 < count_x {
        Some(slot - count_x + 1)
    } else {
        None
    }
}

/// A slot is its row times the row length plus its column.
pub proof fn lemma_row_and_column(count_x: int, slot: int)
    requires
        count_x > 0,
        slot >= 0,
    ensures
        slot == row_of(count_x, slot) * count_x + column_of(count_x, slot),
        0 <= column_of(count_x, slot) < count_x,
        0 <= row_of(count_x, slot),
{
    lemma_fundamental_div_mod(slot, count_x);
    lemma_mod_pos_bound(slot, count_x);
    assert(count_x * (slot / count_x) == (slot / count_x) * count_x) by (nonlinear_arith);
    assert(slot / count_x >= 0) by (nonlinear_arith)
        requires
            slot >= 0,
            count_x > 0,
    ;
}

/// The slot in a given row and column.
pub proof fn lemma_slot_at(count_x: int, row: int, column: int)
    requires
        0 <= column < count_x,
    ensures
        row_of(count_x, row * count_x + column) == row,
        column_of(count_x, row * count_x + column) == column,
{
    lemma_fundamental_div_mod_converse(row * count_x + column, count_x, row, column);
}

/// A neighbour above lies before the slot in the scan, at most two rows back.
pub proof fn lemma_neighbours_precede(count_x: int, slot: int)
    requires
        count_x > 0,
        slot >= 0,
    ensures
        top(count_x, slot) matches Some(j) ==> 0 <= j < slot && slot - 2 * count_x <= j,
        top_left(count_x, slot) matches Some(j) ==> 0 <= j < slot && slot - 2 * count_x <= j,
        top_right(count_x, slot) matches Some(j) ==> 0 <= j < slot && slot - 2 * count_x <= j,
{
    lemma_row_and_column(count_x, slot);
    let row = row_of(count_x, slot);
    let column = column_of(count_x, slot);
    if row >= 2 {
        assert(row * count_x >= 2 * count_x) by (nonlinear_arith)
            requires
                row >= 2,
                count_x > 0,
        ;
    }
    if row >= 1 {
        assert(row * count_x >= count_x) by (nonlinear_arith)
            requires
                row >= 1,
                count_x > 0,
        ;
    }
}

/// Row and column of the two neighbours in the row above.
pub proof fn lemma_row_above(count_x: int, slot: int)
    requires
        count_x > 0,
        slot >= 0,
    ensures
        top_left(count_x, slot) matches Some(j) ==> {
            &&& row_of(count_x, j) == row_of(count_x, slot) - 1
            &&& column_of(count_x, j) == if row_of(count_x, slot) % 2 == 1 {
                column_of(count_x, slot)
            } else {
                column_of(count_x, slot) - 1
            }
        },
        top_right(count_x, slot) matches Some(j) ==> {
            &&& row_of(count_x, j) == row_of(count_x, slot) - 1
            &&& column_of(count_x, j) == if row_of(count_x, slot) % 2 == 0 {
                column_of(count_x, slot)
            } else {
                column_of(count_x, slot) + 1
            }
        },
{
    lemma_row_and_column(count_x, slot);
    let row = row_of(count_x, slot);
    let column = column_of(count_x, slot);
    assert((row - 1) * count_x == row * count_x - count_x) by (nonlinear_arith);
    if column >= 1 {
        lemma_slot_at(count_x, row - 1, column - 1);
    }
    if column + 1 < count_x {
        lemma_slot_at(count_x, row - 1, column + 1);
    }
    lemma_slot_at(count_x, row - 1, column);
}

/// The hexagon above a slot is the upper right neighbour of the slot's upper
/// left neighbour, and the upper left neighbour of its upper right neighbour.
pub proof fn lemma_neighbours_meet_above(count_x: int, slot: int)
    requires
        count_x > 0,
        slot >= 0,
    ensures
        top_left(count_x, slot) matches Some(j) ==> top_right(count_x, j) == top(count_x, slot),
        top_right(count_x, slot) matches Some(j) ==> top_left(count_x, j) == top(count_x, slot),
{
    lemma_row_above(count_x, slot);
    lemma_row_and_column(count_x, slot);
}

/// The slot straight above, if the grid has one.
pub fn top_of(count_x: usize, slot: usize) -> (found: Option<usize>)
    requires
        count_x > 0,
    ensures
        found matches Some(j) ==> top(count_x as int, slot as int) == Some(j as int),
        found is None ==> top(count_x as int, slot as int) is None,
{
    proof {
        lemma_row_and_column(count_x as int, slot as int);
        let row = row_of(count_x as int, slot as int);
        if row >= 2 {
            assert(row * count_x >= 2 * count_x) by (nonlinear_arith)
                requires
                    row >= 2,
                    count_x > 0,
            ;
        }
    }
    if slot / count_x >= 2 {
        Some(slot - count_x - count_x)
    } else {
        None
    }
}

/// The slot above and to the left, if the grid has one.
pub fn top_left_of(count_x: usize, slot: usize) -> (found: Option<usize>)
    requires
        count_x > 0,
    ensures
        found matches Some(j) ==> top_left(count_x as int, slot as int) == Some(j as int),
        found is None ==> top_left(count_x as int, slot as int) is None,
{
    proof {
        lemma_neighbours_precede(count_x as int, slot as int);
    }
    let row = slot / count_x;
    if row == 0 {
        None
    } else if row % 2 == 1 {
        Some(slot - count_x)
    } else if slot % count_x >= 1 {
        Some(slot - count_x - 1)
    } else {
        None
    }
}

/// The slot above and to the right, if the grid has one.
pub fn top_right_of(count_x: usize, slot: usize) -> (found: Option<usize>)
    requires
        count_x > 0,
    ensures
        found matches Some(j) ==> top_right(count_x as int, slot as int) == Some(j as int),
        found is None ==> top_right(count_x as int, slot as int) is None,
{
    proof {
        lemma_neighbours_precede(count_x as int, slot as int);
    }
    let row = slot / count_x;
    if row == 0 {
        None
    } else if row % 2 == 0 {
        Some(slot - count_x)
    } else if slot % count_x < count_x - 1 {
        Some(slot - count_x + 1)
    } else {
        None
    }
}

} // verus!
