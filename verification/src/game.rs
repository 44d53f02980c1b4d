//! The board, terminal detection, tile spawning, and the move state machine.

use vstd::prelude::*;

use crate::coord::Direction;
use crate::coord::Position;
use crate::coord::lemma_flat_injective;
use crate::line::line_cell;
use crate::line::line_of;
use crate::line::offset_of;
use crate::line::is_edge_head;
use crate::line::head_line;
use crate::line::edge_distance;
use crate::line::line_heads;
use crate::line::line_positions;
use crate::line::lemma_line_cell_flat;
use crate::line::lemma_flat_line_cell;
use crate::line::lemma_line_step;
use crate::merge::TILE_MAX;
use crate::merge::merged_line;
use crate::merge::merge_line_values;
use crate::merge::merge_pairs_fit;
use crate::merge::tiles_of;
use crate::merge::lemma_bounded_line_fit;
use crate::merge::lemma_merged_line_len;
use crate::rng::random_byte;

verus! {

/// Whether the game still accepts moves, was already won, or is lost.
#[derive(Clone, Copy, Debug, PartialEq, Eq, Structural)]
pub enum Status {
    Playing,
    Won,
    Lost,
}

/// The random source could not produce a byte, so no tile could be spawned;
/// the game cannot make progress without one.
#[derive(Clone, Copy, Debug, PartialEq, Eq, Structural)]
pub struct RngError;

/// The value the cell at address `p` holds.
pub open spec fn val(cells: Seq<u64>, p: Position) -> u64 {
    cells[p.flat()]
}

/// The values of line `k` for a press in `d`, head first.
pub open spec fn line_vals(cells: Seq<u64>, d: Direction, k: int) -> Seq<u64> {
    Seq::new(6, |j: int| val(cells, line_cell(d, k, j)))
}

/// The whole board after the merge pass of a move in `d`: each of the six
/// lines merged independently toward the pressed edge.
pub open spec fn merge_board(cells: Seq<u64>, d: Direction) -> Seq<u64> {
    Seq::new(36, |i: int| merged_line(line_vals(cells, d, line_of(d, i)))[offset_of(d, i)])
}

/// The win condition: some cell reached 2048.
pub open spec fn wins_board(cells: Seq<u64>) -> bool {
    exists|i: int| 0 <= i < 36 && cells[i] >= 2048
}

/// Both cells hold tiles and the tiles are equal.
pub open spec fn mergeable_cells(cells: Seq<u64>, x: Position, y: Position) -> bool {
    val(cells, x) != 0 && val(cells, y) != 0 && val(cells, x) == val(cells, y)
}

/// No neighbor of `p` holds a tile equal to the one at `p`.
pub open spec fn stuck_cell(cells: Seq<u64>, p: Position) -> bool {
    forall|d: Direction| match #[trigger] p.neighbor_spec(d) {
        Some(q) => !mergeable_cells(cells, p, q),
        None => true,
    }
}

/// The loss condition: every cell is occupied and no adjacent pair of cells
/// holds equal tiles.
pub open spec fn dead_board(cells: Seq<u64>) -> bool {
    forall|p: Position| p.wf() ==> (#[trigger] val(cells, p)) != 0 && stuck_cell(cells, p)
}

/// Every tile leaves room for one more doubling inside `u64`.
pub open spec fn tiles_ok(cells: Seq<u64>) -> bool {
    forall|i: int| 0 <= i < 36 ==> cells[i] <= TILE_MAX
}

/// The flat indices of the empty cells below index `n`, in ascending order.
pub open spec fn empty_cells_upto(cells: Seq<u64>, n: int) -> Seq<usize>
    decreases n,
{
    if n <= 0 {
        Seq::empty()
    } else if cells[n - 1] == 0 {
        empty_cells_upto(cells, n - 1).push((n - 1) as usize)
    } else {
        empty_cells_upto(cells, n - 1)
    }
}

/// Every listed index lies below `n` and names an empty cell, and the list is
/// empty exactly when no cell below `n` is empty.
proof fn lemma_empty_cells_props(cells: Seq<u64>, n: int)
    requires
        n <= 36,
    ensures
        forall|m: int| 0 <= m < empty_cells_upto(cells, n).len()
            ==> (#[trigger] empty_cells_upto(cells, n)[m]) < n
                && cells[empty_cells_upto(cells, n)[m] as int] == 0,
        (empty_cells_upto(cells, n).len() == 0) <==> (forall|i: int| 0 <= i < n
            ==> cells[i] != 0),
    decreases n,
{
    if n > 0 {
        lemma_empty_cells_props(cells, n - 1);
        let prev = empty_cells_upto(cells, n - 1);
        let cur = empty_cells_upto(cells, n);
        if cells[n - 1] == 0 {
            assert(cur == prev.push((n - 1) as usize));
            assert forall|m: int| 0 <= m < cur.len() implies (#[trigger] cur[m]) < n
                && cells[cur[m] as int] == 0 by {
                if m < prev.len() {
                    assert(cur[m] == prev[m]);
                } else {
                    assert(cur[m] == (n - 1) as usize);
                }
            }
        } else {
            assert(cur == prev);
        }
    }
}

/// The board `cells` with the cells of line `k` at offsets below `j`
/// overwritten by the corresponding entries of `m`.
spec fn spliced(cells: Seq<u64>, d: Direction, k: int, m: Seq<u64>, j: int) -> Seq<u64> {
    Seq::new(
        36,
        |i: int| if line_of(d, i) == k && offset_of(d, i) < j {
            m[offset_of(d, i)]
        } else {
            cells[i]
        },
    )
}

/// Win preservation for a whole move: once some cell holds at least 2048,
/// the merge pass of any direction leaves a cell holding at least 2048, so
/// the win check right after the pass must fire.
pub proof fn lemma_merge_board_keeps_win(cells: Seq<u64>, d: Direction, i: int)
    requires
        cells.len() == 36,
        tiles_ok(cells),
        0 <= i < 36,
        cells[i] >= 2048,
    ensures
        wins_board(merge_board(cells, d)),
{
    lemma_flat_line_cell(d, i);
    let k = line_of(d, i);
    let j = offset_of(d, i);
    assert(line_vals(cells, d, k)[j] == cells[i]);
    assert forall|m: int| 0 <= m < 6 implies (#[trigger] line_vals(cells, d, k)[m])
        <= TILE_MAX by {
        lemma_line_cell_flat(d, k, m);
    }
    crate::merge::lemma_merged_line_keeps_win(line_vals(cells, d, k), j);
    let j2 = choose|j2: int| 0 <= j2 < 6 && merged_line(line_vals(cells, d, k))[j2]
        >= 2048;
    lemma_line_cell_flat(d, k, j2);
    let i2 = line_cell(d, k, j2).flat();
    assert(merge_board(cells, d)[i2] >= 2048);
}

/// The board of a fresh game before the first spawn: all cells empty.
pub open spec fn zero_board() -> Seq<u64> {
    Seq::new(36, |i: int| 0u64)
}

/// One running game: the 36-cell grid and the two sticky terminal flags.
pub struct GameState {
    pub state: Vec<u64>,
    pub is_dead: bool,
    pub won: bool,
}

impl GameState {
    /// The grid as a sequence of 36 tile values, row-major.
    pub open spec fn board(self) -> Seq<u64> {
        self.state@
    }

    pub open spec fn wf(self) -> bool {
        self.state@.len() == 36
    }

    /// Neither terminal flag is set: moves still mutate the board.
    pub open spec fn playing(self) -> bool {
        !self.won && !self.is_dead
    }

    pub open spec fn status_spec(self) -> Status {
        if self.won {
            Status::Won
        } else if self.is_dead {
            Status::Lost
        } else {
            Status::Playing
        }
    }

    /// Well-formedness: 36 cells, and while a further merge is still possible
    /// every tile leaves room for one more doubling.
    pub open spec fn inv(self) -> bool {
        self.wf() && (!self.won ==> tiles_ok(self.board()))
    }

    /// A board with every cell empty, ready for the first spawn.
    pub fn new() -> (g: GameState)
        ensures
            g.inv(),
            g.playing(),
            g.board() == zero_board(),
    {
        let mut state: Vec<u64> = Vec::new();
        let mut i: usize = 0;
        while i < 36
            invariant
                state@.len() == i,
                i <= 36,
                forall|m: int| 0 <= m < i ==> state@[m] == 0,
            decreases 36 - i,
        {
            state.push(0);
            i = i + 1;
        }
        let g = GameState { state, is_dead: false, won: false };
        proof {
            assert(g.board() =~= zero_board());
        }
        g
    }

    /// The tile value at `p`; 0 means the cell is empty.
    pub fn cell_value(&self, p: Position) -> (r: u64)
        requires
            self.wf(),
            p.wf(),
        ensures
            r == val(self.board(), p),
    {
        self.state[p.index()]
    }

    /// Writes `v` at `p`. The bound on `v` keeps every later merge within `u64`.
    pub fn set_cell(&mut self, p: Position, v: u64)
        requires
            old(self).inv(),
            p.wf(),
            v <= TILE_MAX,
        ensures
            final(self).inv(),
            final(self).board() == old(self).board().update(p.flat(), v),
            final(self).won == old(self).won,
            final(self).is_dead == old(self).is_dead,
    {
        let i = p.index();
        self.state[i] = v;
    }

    /// Whether the two cells hold equal tiles that a move could combine.
    pub fn mergeable(&self, x: Position, y: Position) -> (r: bool)
        requires
            self.wf(),
            x.wf(),
            y.wf(),
        ensures
            r == mergeable_cells(self.board(), x, y),
    {
        let a = self.cell_value(x);
        let b = self.cell_value(y);
        a != 0 && b != 0 && a == b
    }

    /// Whether `p` holds a tile equal to its neighbor one step in `d`.
    fn mergeable_with_neighbor(&self, p: Position, d: Direction) -> (r: bool)
        requires
            self.wf(),
            p.wf(),
        ensures
            r == (match p.neighbor_spec(d) {
                Some(q) => mergeable_cells(self.board(), p, q),
                None => false,
            }),
    {
        match p.neighbor(d) {
            Some(q) => self.mergeable(p, q),
            None => false,
        }
    }

    /// The win check: true exactly when some cell reached 2048.
    pub fn wins(&self) -> (r: bool)
        requires
            self.wf(),
        ensures
            r == wins_board(self.board()),
    {
        let mut i: usize = 0;
        while i < 36
            invariant
                self.wf(),
                i <= 36,
                forall|m: int| 0 <= m < i ==> self.board()[m] < 2048,
            decreases 36 - i,
        {
            if self.state[i] >= 2048 {
                proof {
                    assert(self.board()[i as int] >= 2048);
                }
                return true;
            }
            i = i + 1;
        }
        false
    }

    /// The loss check: true exactly when the board is full and no adjacent
    /// pair of cells holds equal tiles.
    pub fn dead(&self) -> (r: bool)
        requires
            self.wf(),
        ensures
            r == dead_board(self.board()),
    {
        let mut i: u64 = 0;
        while i < 36
            invariant
                self.wf(),
                i <= 36,
                forall|p: Position| p.wf() && p.flat() < i
                    ==> (#[trigger] val(self.board(), p)) != 0
                        && stuck_cell(self.board(), p),
            decreases 36 - i,
        {
            let p = Position::from_index(i);
            if self.cell_value(p) == 0 {
                proof {
                    assert(val(self.board(), p) == 0);
                }
                return false;
            }
            let up = self.mergeable_with_neighbor(p, Direction::Up);
            let down = self.mergeable_with_neighbor(p, Direction::Down);
            let left = self.mergeable_with_neighbor(p, Direction::Left);
            let right = self.mergeable_with_neighbor(p, Direction::Right);
            if up || down || left || right {
                proof {
                    assert(!stuck_cell(self.board(), p)) by {
                        if up {
                            assert(p.neighbor_spec(Direction::Up) is Some);
                        } else if down {
                            assert(p.neighbor_spec(Direction::Down) is Some);
                        } else if left {
                            assert(p.neighbor_spec(Direction::Left) is Some);
                        } else {
                            assert(p.neighbor_spec(Direction::Right) is Some);
                        }
                    }
                }
                return false;
            }
            proof {
                assert(stuck_cell(self.board(), p)) by {
                    assert forall|d: Direction| match #[trigger] p.neighbor_spec(d) {
                        Some(q) => !mergeable_cells(self.board(), p, q),
                        None => true,
                    } by {
                        match d {
                            Direction::Up => {},
                            Direction::Down => {},
                            Direction::Left => {},
                            Direction::Right => {},
                        }
                    }
                }
                assert forall|p2: Position| p2.wf() && p2.flat() < i + 1 implies (
                    #[trigger] val(self.board(), p2)) != 0 && stuck_cell(
                    self.board(),
                    p2,
                ) by {
                    if p2.flat() == i {
                        lemma_flat_injective(p2, p);
                    }
                }
            }
            i = i + 1;
        }
        proof {
            assert forall|p: Position| p.wf() implies (#[trigger] val(self.board(), p))
                != 0 && stuck_cell(self.board(), p) by {
                assert(p.flat() < 36);
            }
        }
        true
    }

    /// The flat indices of the empty cells, in ascending order.
    pub fn empty_cells(&self) -> (r: Vec<usize>)
        requires
            self.wf(),
        ensures
            r@ == empty_cells_upto(self.board(), 36),
    {
        let mut r: Vec<usize> = Vec::new();
        let mut i: usize = 0;
        while i < 36
            invariant
                self.wf(),
                i <= 36,
                r@ == empty_cells_upto(self.board(), i as int),
            decreases 36 - i,
        {
            if self.state[i] == 0 {
                r.push(i);
            }
            i = i + 1;
        }
        r
    }

    /// Places the spawned tile: value 1 in the empty cell selected by reducing
    /// the byte modulo the number of empty cells. With no empty cell the board
    /// stays as it is.
    pub fn spawn_from_byte(&mut self, b: u8)
        requires
            old(self).wf(),
        ensures
            final(self).wf(),
            final(self).won == old(self).won,
            final(self).is_dead == old(self).is_dead,
            ({
                let es = empty_cells_upto(old(self).board(), 36);
                if es.len() == 0 {
                    final(self).board() == old(self).board()
                } else {
                    final(self).board() == old(self).board().update(
                        es[(b as int) % (es.len() as int)] as int,
                        1u64,
                    )
                }
            }),
            old(self).inv() ==> final(self).inv(),
    {
        let empties = self.empty_cells();
        if empties.len() == 0 {
            return;
        }
        proof {
            lemma_empty_cells_props(self.board(), 36);
        }
        let number = (b as usize) % empties.len();
        let target = empties[number];
        self.state[target] = 1;
    }

    /// Spawns one tile of value 1 in an empty cell chosen uniformly by the
    /// random source, or reports that the source failed. With no empty cell
    /// nothing happens at all: the board stays as it is, the random source is
    /// not consulted, and the call succeeds.
    pub fn add_at_random_position(&mut self) -> (r: Result<(), RngError>)
        requires
            old(self).wf(),
        ensures
            final(self).wf(),
            final(self).won == old(self).won,
            final(self).is_dead == old(self).is_dead,
            old(self).inv() ==> final(self).inv(),
            empty_cells_upto(old(self).board(), 36).len() == 0 ==> r is Ok,
            r is Err ==> final(self).board() == old(self).board(),
            r is Ok ==> ({
                let es = empty_cells_upto(old(self).board(), 36);
                if es.len() == 0 {
                    final(self).board() == old(self).board()
                } else {
                    exists|j: int| 0 <= j < 36 && old(self).board()[j] == 0
                        && final(self).board() == old(self).board().update(j, 1u64)
                }
            }),
    {
        let empties = self.empty_cells();
        if empties.len() == 0 {
            return Ok(());
        }
        match random_byte() {
            Ok(b) => {
                let ghost es = empty_cells_upto(self.board(), 36);
                self.spawn_from_byte(b);
                proof {
                    lemma_empty_cells_props(old(self).board(), 36);
                    let j = es[(b as int) % (es.len() as int)] as int;
                    assert(0 <= j < 36);
                    assert(old(self).board()[j] == 0);
                    assert(self.board() == old(self).board().update(j, 1u64));
                }
                Ok(())
            },
            Err(_) => Err(RngError),
        }
    }

    /// The slide-and-merge pass on the one line headed at `head`, for a move
    /// pressing toward `direction`; every cell off that line keeps its value.
    #[verifier::loop_isolation(false)]
    #[verifier::rlimit(60)]
    pub fn aggregate(&mut self, head: Position, direction: Direction)
        requires
            old(self).wf(),
            is_edge_head(head, direction),
            merge_pairs_fit(
                tiles_of(line_vals(old(self).board(), direction, head_line(direction, head))),
            ),
        ensures
            final(self).wf(),
            final(self).won == old(self).won,
            final(self).is_dead == old(self).is_dead,
            forall|i: int| 0 <= i < 36 ==> final(self).board()[i] == (
                if line_of(direction, i) == head_line(direction, head) {
                    merged_line(
                        line_vals(old(self).board(), direction, head_line(direction, head)),
                    )[offset_of(direction, i)]
                } else {
                    old(self).board()[i]
                }),
    {
        let ghost k = head_line(direction, head);
        proof {
            lemma_line_cell_flat(direction, k, 0);
            assert(0 <= k < 6);
            assert(head == line_cell(direction, k, 0));
            assert(edge_distance(head, direction.opposite_spec()) == 5);
        }
        let step = direction.opposite();
        let ps = line_positions(head, step);
        proof {
            lemma_line_step(direction, k, 0);
            lemma_line_step(direction, k, 1);
            lemma_line_step(direction, k, 2);
            lemma_line_step(direction, k, 3);
            lemma_line_step(direction, k, 4);
            assert(ps@.len() == 6);
            assert(ps@[0] == line_cell(direction, k, 0));
            assert(ps@[1] == line_cell(direction, k, 1));
            assert(ps@[2] == line_cell(direction, k, 2));
            assert(ps@[3] == line_cell(direction, k, 3));
            assert(ps@[4] == line_cell(direction, k, 4));
            assert(ps@[5] == line_cell(direction, k, 5));
        }
        let mut vals: Vec<u64> = Vec::new();
        let mut j: usize = 0;
        while j < 6
            invariant
                j <= 6,
                *self == *old(self),
                self.wf(),
                0 <= k < 6,
                ps@.len() == 6,
                forall|m: int| 0 <= m < 6 ==> (#[trigger] ps@[m]) == line_cell(direction, k, m),
                forall|m: int| 0 <= m < 6 ==> (#[trigger] ps@[m]).wf(),
                vals@.len() == j,
                forall|m: int| 0 <= m < j ==> (#[trigger] vals@[m]) == val(
                    old(self).board(),
                    line_cell(direction, k, m),
                ),
            decreases 6 - j,
        {
            let p = ps[j];
            let v = self.cell_value(p);
            vals.push(v);
            j = j + 1;
        }
        proof {
            assert(vals@ =~= line_vals(old(self).board(), direction, k));
        }
        let merged = merge_line_values(&vals);
        proof {
            lemma_merged_line_len(line_vals(old(self).board(), direction, k));
        }
        let mut j: usize = 0;
        while j < 6
            invariant
                j <= 6,
                self.wf(),
                old(self).wf(),
                self.won == old(self).won,
                self.is_dead == old(self).is_dead,
                0 <= k < 6,
                k == head_line(direction, head),
                ps@.len() == 6,
                forall|m: int| 0 <= m < 6 ==> (#[trigger] ps@[m]) == line_cell(direction, k, m),
                forall|m: int| 0 <= m < 6 ==> (#[trigger] ps@[m]).wf(),
                merged@.len() == 6,
                merged@ == merged_line(line_vals(old(self).board(), direction, k)),
                self.board() == spliced(old(self).board(), direction, k, merged@, j as int),
            decreases 6 - j,
        {
            let p = ps[j];
            let idx = p.index();
            let ghost before = self.board();
            self.state[idx] = merged[j];
            proof {
                lemma_line_cell_flat(direction, k, j as int);
                assert forall|i: int| 0 <= i < 36 implies self.board()[i] == spliced(
                    old(self).board(),
                    direction,
                    k,
                    merged@,
                    j as int + 1,
                )[i] by {
                    lemma_flat_line_cell(direction, i);
                    if i != p.flat() {
                        assert(self.board()[i] == before[i]);
                    } else {
                        assert(line_of(direction, i) == k && offset_of(direction, i)
                            == j);
                        assert(self.board()[i] == merged@[j as int]);
                    }
                }
                assert(self.board() =~= spliced(
                    old(self).board(),
                    direction,
                    k,
                    merged@,
                    j as int + 1,
                ));
            }
            j = j + 1;
        }
        proof {
            assert forall|i: int| 0 <= i < 36 implies self.board()[i] == (
                if line_of(direction, i) == k {
                    merged_line(line_vals(old(self).board(), direction, k))[offset_of(
                        direction,
                        i,
                    )]
                } else {
                    old(self).board()[i]
                }) by {
                lemma_flat_line_cell(direction, i);
            }
        }
    }

    /// One accepted move: merge every line toward `direction`, then the win
    /// check; without a win, one spawn and then the loss check. The merge
    /// pass and the spawn happen even when the pass moved nothing visible.
    fn update_state(&mut self, direction: Direction) -> (r: Result<(), RngError>)
        requires
            old(self).wf(),
            old(self).playing(),
            tiles_ok(old(self).board()),
        ensures
            final(self).inv(),
            ({
                let merged = merge_board(old(self).board(), direction);
                &&& (wins_board(merged) ==> r is Ok && final(self).board() == merged
                    && final(self).won && !final(self).is_dead)
                &&& (wins_board(old(self).board()) ==> wins_board(merged))
                &&& (!wins_board(merged) ==> !final(self).won)
                &&& (!wins_board(merged) && empty_cells_upto(merged, 36).len() == 0
                    ==> r is Ok)
                &&& (!wins_board(merged) && r is Err ==> final(self).board() == merged
                    && !final(self).is_dead)
                &&& (!wins_board(merged) && r is Ok ==> ({
                    let es = empty_cells_upto(merged, 36);
                    &&& (es.len() == 0 ==> final(self).board() == merged)
                    &&& (es.len() > 0 ==> exists|j: int| 0 <= j < 36 && merged[j] == 0
                        && final(self).board() == merged.update(j, 1u64))
                    &&& final(self).is_dead == dead_board(final(self).board())
                }))
            }),
    {
        let heads = line_heads(direction);
        let mut n: usize = 0;
        while n < 6
            invariant
                n <= 6,
                self.wf(),
                self.won == old(self).won,
                self.is_dead == old(self).is_dead,
                old(self).wf(),
                tiles_ok(old(self).board()),
                heads@.len() == 6,
                forall|m: int| 0 <= m < 6 ==> (#[trigger] heads@[m]) == line_cell(
                    direction,
                    m,
                    0,
                ) && is_edge_head(heads@[m], direction)
                    && head_line(direction, heads@[m]) == m,
                forall|i: int| 0 <= i < 36 ==> self.board()[i] == (
                    if line_of(direction, i) < n {
                        merge_board(old(self).board(), direction)[i]
                    } else {
                        old(self).board()[i]
                    }),
            decreases 6 - n,
        {
            let h = heads[n];
            let ghost pre = self.board();
            proof {
                assert forall|m: int| 0 <= m < 6 implies (#[trigger] line_vals(
                    pre,
                    direction,
                    n as int,
                )[m]) <= TILE_MAX by {
                    lemma_line_cell_flat(direction, n as int, m);
                }
                lemma_bounded_line_fit(line_vals(pre, direction, n as int));
            }
            self.aggregate(h, direction);
            proof {
                assert(line_vals(pre, direction, n as int) =~= line_vals(
                    old(self).board(),
                    direction,
                    n as int,
                )) by {
                    assert forall|j: int| 0 <= j < 6 implies val(
                        pre,
                        #[trigger] line_cell(direction, n as int, j),
                    ) == val(old(self).board(), line_cell(direction, n as int, j)) by {
                        lemma_line_cell_flat(direction, n as int, j);
                    }
                }
                assert forall|i: int| 0 <= i < 36 implies self.board()[i] == (
                    if line_of(direction, i) < n + 1 {
                        merge_board(old(self).board(), direction)[i]
                    } else {
                        old(self).board()[i]
                    }) by {
                    lemma_flat_line_cell(direction, i);
                }
            }
            n = n + 1;
        }
        proof {
            assert forall|i: int| 0 <= i < 36 implies self.board()[i] == merge_board(
                old(self).board(),
                direction,
            )[i] by {
                lemma_flat_line_cell(direction, i);
            }
            assert(self.board() =~= merge_board(old(self).board(), direction));
            if wins_board(old(self).board()) {
                let i = choose|i: int| 0 <= i < 36 && old(self).board()[i] >= 2048;
                lemma_merge_board_keeps_win(old(self).board(), direction, i);
            }
        }
        if self.wins() {
            self.won = true;
            return Ok(());
        }
        proof {
            assert forall|i: int| 0 <= i < 36 implies self.board()[i] <= TILE_MAX by {
                if self.board()[i] >= 2048 {
                    assert(wins_board(self.board()));
                }
            }
        }
        match self.add_at_random_position() {
            Ok(()) => {},
            Err(e) => {
                return Err(e);
            },
        }
        if self.dead() {
            self.is_dead = true;
        }
        Ok(())
    }

    /// Applies one move event. While playing the move is processed in full:
    /// merge pass, win check, spawn, loss check; `Ok(true)` reports that the
    /// view must re-render. In a terminal state the event is accepted but
    /// changes nothing and `Ok(false)` comes back. `Err` reports that the
    /// random source failed; the merge pass has then still been applied.
    pub fn apply_move(&mut self, direction: Direction) -> (r: Result<bool, RngError>)
        requires
            old(self).inv(),
        ensures
            final(self).inv(),
            !old(self).playing() ==> r == Ok::<bool, RngError>(false)
                && final(self).board() == old(self).board()
                && final(self).won == old(self).won
                && final(self).is_dead == old(self).is_dead,
            old(self).playing() ==> ({
                let merged = merge_board(old(self).board(), direction);
                &&& (wins_board(merged) ==> r == Ok::<bool, RngError>(true)
                    && final(self).board() == merged && final(self).won
                    && !final(self).is_dead)
                &&& (wins_board(old(self).board()) ==> wins_board(merged))
                &&& (!wins_board(merged) ==> !final(self).won)
                &&& (!wins_board(merged) && empty_cells_upto(merged, 36).len() == 0
                    ==> r == Ok::<bool, RngError>(true))
                &&& (!wins_board(merged) && r is Err ==> final(self).board() == merged
                    && !final(self).is_dead)
                &&& (!wins_board(merged) && r is Ok ==> r == Ok::<bool, RngError>(true)
                    && ({
                    let es = empty_cells_upto(merged, 36);
                    &&& (es.len() == 0 ==> final(self).board() == merged)
                    &&& (es.len() > 0 ==> exists|j: int| 0 <= j < 36 && merged[j] == 0
                        && final(self).board() == merged.update(j, 1u64))
                    &&& final(self).is_dead == dead_board(final(self).board())
                }))
            }),
    {
        if !self.is_dead && !self.won {
            match self.update_state(direction) {
                Ok(()) => Ok(true),
                Err(e) => Err(e),
            }
        } else {
            Ok(false)
        }
    }

    /// A new game: an all-empty board with one tile of value 1 already
    /// spawned, or the random source's failure.
    pub fn new_game() -> (r: Result<GameState, RngError>)
        ensures
            r is Ok ==> ({
                let g = r->Ok_0;
                &&& g.inv()
                &&& g.playing()
                &&& exists|j: int| 0 <= j < 36 && g.board() == zero_board().update(j, 1u64)
            }),
    {
        let mut g = GameState::new();
        match g.add_at_random_position() {
            Ok(()) => {
                proof {
                    lemma_empty_cells_props(zero_board(), 36);
                    assert(zero_board()[0] == 0);
                    assert(empty_cells_upto(zero_board(), 36).len() != 0);
                }
                Ok(g)
            },
            Err(e) => Err(e),
        }
    }

    /// The current status for rendering.
    pub fn status(&self) -> (r: Status)
        ensures
            r == self.status_spec(),
    {
        if self.won {
            Status::Won
        } else if self.is_dead {
            Status::Lost
        } else {
            Status::Playing
        }
    }
}

} // verus!
