//! Directional traversal: the six lines of the board for a move direction.
//!
//! For a press in direction `d` the board splits into six disjoint lines (the
//! rows for Left/Right, the columns for Up/Down). Each line is read from its
//! head, the cell nearest the pressed edge, outward to the far edge.

use vstd::prelude::*;

use crate::coord::Direction;
use crate::coord::Position;

verus! {

/// The j-th cell of the k-th line for a press in `d`: j counts from the
/// pressed edge outward, k walks the lines in the order the heads are visited.
pub open spec fn line_cell(d: Direction, k: int, j: int) -> Position {
    match d {
        Direction::Up => Position { row: j as u8, column: (5 - k) as u8 },
        Direction::Down => Position { row: (5 - j) as u8, column: k as u8 },
        Direction::Left => Position { row: k as u8, column: j as u8 },
        Direction::Right => Position { row: (5 - k) as u8, column: (5 - j) as u8 },
    }
}

/// Which line the cell with flat index `i` belongs to, for a press in `d`.
pub open spec fn line_of(d: Direction, i: int) -> int {
    match d {
        Direction::Up => 5 - i % 6,
        Direction::Down => i % 6,
        Direction::Left => i / 6,
        Direction::Right => 5 - i / 6,
    }
}

/// The offset of the cell with flat index `i` within its line: its distance
/// from the pressed edge.
pub open spec fn offset_of(d: Direction, i: int) -> int {
    match d {
        Direction::Up => i / 6,
        Direction::Down => 5 - i / 6,
        Direction::Left => i % 6,
        Direction::Right => 5 - i % 6,
    }
}

/// A cell on the edge that `d` presses toward: the head of one line.
pub open spec fn is_edge_head(p: Position, d: Direction) -> bool {
    p.wf() && (match d {
        Direction::Up => p.row == 0,
        Direction::Down => p.row == 5,
        Direction::Left => p.column == 0,
        Direction::Right => p.column == 5,
    })
}

/// Which line the head `p` starts, for a press in `d`.
pub open spec fn head_line(d: Direction, p: Position) -> int {
    match d {
        Direction::Up => 5 - p.column,
        Direction::Down => p.column as int,
        Direction::Left => p.row as int,
        Direction::Right => 5 - p.row,
    }
}

/// How many steps in `step` are left before the board edge.
pub open spec fn edge_distance(p: Position, step: Direction) -> int {
    match step {
        Direction::Up => p.row as int,
        Direction::Down => 5 - p.row,
        Direction::Left => p.column as int,
        Direction::Right => 5 - p.column,
    }
}

/// `line_cell` lands inside the grid and `line_of`/`offset_of` recover its
/// line and offset.
pub proof fn lemma_line_cell_flat(d: Direction, k: int, j: int)
    requires
        0 <= k < 6,
        0 <= j < 6,
    ensures
        line_cell(d, k, j).wf(),
        0 <= line_cell(d, k, j).flat() < 36,
        line_of(d, line_cell(d, k, j).flat()) == k,
        offset_of(d, line_cell(d, k, j).flat()) == j,
{
    let p = line_cell(d, k, j);
    let i = p.flat();
    assert(i == p.row * 6 + p.column);
    vstd::arithmetic::div_mod::lemma_fundamental_div_mod_converse_div(
        i, 6, p.row as int, p.column as int);
    vstd::arithmetic::div_mod::lemma_fundamental_div_mod_converse_mod(
        i, 6, p.row as int, p.column as int);
}

/// Every flat index belongs to exactly one line cell.
pub proof fn lemma_flat_line_cell(d: Direction, i: int)
    requires
        0 <= i < 36,
    ensures
        0 <= line_of(d, i) < 6,
        0 <= offset_of(d, i) < 6,
        line_cell(d, line_of(d, i), offset_of(d, i)).flat() == i,
        line_cell(d, line_of(d, i), offset_of(d, i)).wf(),
{
    vstd::arithmetic::div_mod::lemma_fundamental_div_mod(i, 6);
    vstd::arithmetic::div_mod::lemma_mod_bound(i, 6);
    assert(i / 6 < 6) by {
        vstd::arithmetic::div_mod::lemma_div_is_ordered(i, 35, 6);
    }
    assert(i / 6 >= 0) by {
        vstd::arithmetic::div_mod::lemma_div_pos_is_pos(i, 6);
    }
}

/// Stepping away from the pressed edge moves one offset further along the
/// same line, and stops exactly at the far edge.
pub proof fn lemma_line_step(d: Direction, k: int, j: int)
    requires
        0 <= k < 6,
        0 <= j < 6,
    ensures
        j < 5 ==> line_cell(d, k, j).neighbor_spec(d.opposite_spec())
            == Some(line_cell(d, k, j + 1)),
        j == 5 ==> line_cell(d, k, j).neighbor_spec(d.opposite_spec()) is None,
{
}

/// The six heads of the lines for a press in `d`, in the order the engine
/// visits them: the starting corner first, then its successors one
/// `perpendicular_positive` step apart.
pub fn line_heads(d: Direction) -> (r: Vec<Position>)
    ensures
        r@.len() == 6,
        forall|k: int| 0 <= k < 6 ==> (#[trigger] r@[k]) == line_cell(d, k, 0),
        forall|k: int| 0 <= k < 6 ==> is_edge_head(#[trigger] r@[k], d)
            && head_line(d, r@[k]) == k,
{
    let start = match d {
        Direction::Up => Position { row: 0, column: 5 },
        Direction::Down => Position { row: 5, column: 0 },
        Direction::Left => Position { row: 0, column: 0 },
        Direction::Right => Position { row: 5, column: 5 },
    };
    let step = d.perpendicular_positive();
    let mut r: Vec<Position> = Vec::new();
    let mut cur = start;
    let mut k: usize = 0;
    while k < 6
        invariant
            k <= 6,
            r@.len() == k,
            forall|m: int| 0 <= m < k ==> (#[trigger] r@[m]) == line_cell(d, m, 0),
            step == d.perpendicular_positive_spec(),
            k < 6 ==> cur == line_cell(d, k as int, 0),
            k < 6 ==> cur.wf(),
        decreases 6 - k,
    {
        r.push(cur);
        k = k + 1;
        if k < 6 {
            proof {
                lemma_line_cell_flat(d, k as int - 1, 0);
                lemma_line_cell_flat(d, k as int, 0);
            }
            cur = cur.neighbor(step).unwrap();
        }
    }
    proof {
        assert forall|k2: int| 0 <= k2 < 6 implies is_edge_head(#[trigger] r@[k2], d)
            && head_line(d, r@[k2]) == k2 by {
            lemma_line_cell_flat(d, k2, 0);
        }
    }
    r
}

/// The cells of one line, head first: starting at `head`, each next cell is
/// the neighbor one step in `step`, until the board edge. The sequence has
/// exactly `edge_distance(head, step) + 1` cells.
pub fn line_positions(head: Position, step: Direction) -> (r: Vec<Position>)
    requires
        head.wf(),
    ensures
        r@.len() == edge_distance(head, step) + 1,
        r@[0] == head,
        forall|i: int| 0 <= i < r@.len() ==> (#[trigger] r@[i]).wf(),
        forall|i: int| 0 <= i < r@.len() - 1 ==> (#[trigger] r@[i]).neighbor_spec(step)
            == Some(r@[i + 1]),
        r@[r@.len() - 1].neighbor_spec(step) is None,
{
    let mut r: Vec<Position> = Vec::new();
    let mut cur = head;
    loop
        invariant_except_break
            r@.len() + edge_distance(cur, step) == edge_distance(head, step),
            r@.len() == 0 ==> cur == head,
            r@.len() > 0 ==> r@[0] == head,
            r@.len() > 0 ==> r@[r@.len() - 1].neighbor_spec(step) == Some(cur),
        invariant
            head.wf(),
            cur.wf(),
            forall|i: int| 0 <= i < r@.len() ==> (#[trigger] r@[i]).wf(),
            forall|i: int| 0 <= i < r@.len() - 1 ==> (#[trigger] r@[i]).neighbor_spec(step)
                == Some(r@[i + 1]),
        ensures
            r@.len() == edge_distance(head, step) + 1,
            r@.len() > 0,
            r@[0] == head,
            r@[r@.len() - 1].neighbor_spec(step) is None,
        decreases edge_distance(cur, step),
    {
        r.push(cur);
        match cur.neighbor(step) {
            Some(n) => {
                cur = n;
            },
            None => {
                break;
            },
        }
    }
    r
}

} // verus!
