//! Game state for the 8x8 disc-flipping game: the grid of tri-state cells,
//! the turn marker, placement with capture-and-flip, the legality probe and
//! pass detection.
//!
//! The capture semantics is stated once, as recursive spec functions over a
//! mathematical view of the grid (`anchored`, `flips_in_dir`,
//! `on_flipped_run`), and every executable operation is proved against it.

use vstd::prelude::*;

use crate::position::Position;
use crate::position::in_bounds;

verus! {

// ---------------------------------------------------------------------------
// Mathematical model
// ---------------------------------------------------------------------------

/// The grid as a mathematical value: 8 rows of 8 cells, row-major, so that
/// `grid_of(a)[x][y]` is the cell at column `y` of row `x`.
pub open spec fn grid_of(a: [[i32; 8]; 8]) -> Seq<Seq<int>> {
    Seq::new(8, |i: int| Seq::new(8, |j: int| a[i][j] as int))
}

/// A cell is empty (`0`) or holds a disc of one of the two players
/// (`1` or `-1`).
pub open spec fn cell_ok(v: int) -> bool {
    v == 0 || v == 1 || v == -1
}

/// The turn marker names one of the two players.
pub open spec fn turn_ok(t: int) -> bool {
    t == 1 || t == -1
}

/// Every cell of the grid is in the tri-state set.
pub open spec fn grid_cells_ok(g: Seq<Seq<int>>) -> bool {
    forall|i: int, j: int| in_bounds(i, j) ==> cell_ok(#[trigger] g[i][j])
}

/// The x-component of the `d`-th of the 8 scan directions.
pub open spec fn dir_dx(d: int) -> int {
    if d == 0 || d == 1 || d == 2 {
        -1
    } else if d == 3 || d == 4 {
        0
    } else {
        1
    }
}

/// The y-component of the `d`-th of the 8 scan directions.
pub open spec fn dir_dy(d: int) -> int {
    if d == 0 || d == 3 || d == 5 {
        -1
    } else if d == 1 || d == 6 {
        0
    } else {
        1
    }
}

/// A unit step vector: both components in `{-1, 0, 1}`, not both zero.
pub open spec fn dir_ok(dx: int, dy: int) -> bool {
    -1 <= dx <= 1 && -1 <= dy <= 1 && !(dx == 0 && dy == 0)
}

/// How many cells a walk from `(x, y)` in direction `(dx, dy)` can still
/// visit before leaving the board; drives termination of the scan specs.
pub open spec fn ray_fuel(x: int, y: int, dx: int, dy: int) -> int {
    let fx = if dx > 0 {
        8 - x
    } else if dx < 0 {
        x + 1
    } else {
        9
    };
    let fy = if dy > 0 {
        8 - y
    } else if dy < 0 {
        y + 1
    } else {
        9
    };
    if fx <= fy {
        fx
    } else {
        fy
    }
}

/// True iff the walk that starts at `(x, y)` and steps by `(dx, dy)` runs
/// through cells that are neither empty nor out of bounds until it reaches a
/// disc of the mover `t` (the anchor). The cell `(x, y)` itself may already
/// be the anchor.
pub open spec fn anchored(g: Seq<Seq<int>>, t: int, x: int, y: int, dx: int, dy: int) -> bool
    decreases ray_fuel(x, y, dx, dy)
        when dir_ok(dx, dy)
{
    if !in_bounds(x, y) {
        false
    } else if g[x][y] == 0 {
        false
    } else if g[x][y] == t {
        true
    } else {
        anchored(g, t, x + dx, y + dy, dx, dy)
    }
}

/// The number of discs a scan starting at `(x, y)` flips for mover `t`: the
/// length of the unbroken run of non-mover discs ending at an anchor, and 0
/// when there is no anchor or `(x, y)` already holds the mover's disc.
pub open spec fn flips_in_dir(g: Seq<Seq<int>>, t: int, x: int, y: int, dx: int, dy: int) -> nat
    decreases ray_fuel(x, y, dx, dy)
        when dir_ok(dx, dy)
{
    if !anchored(g, t, x, y, dx, dy) {
        0
    } else if g[x][y] == t {
        0
    } else {
        1 + flips_in_dir(g, t, x + dx, y + dy, dx, dy)
    }
}

/// True iff `(i, j)` is one of the cells that the scan starting at `(x, y)`
/// flips: a cell of the anchored run, strictly before the anchor.
pub open spec fn on_flipped_run(
    g: Seq<Seq<int>>,
    t: int,
    x: int,
    y: int,
    dx: int,
    dy: int,
    i: int,
    j: int,
) -> bool
    decreases ray_fuel(x, y, dx, dy)
        when dir_ok(dx, dy)
{
    anchored(g, t, x, y, dx, dy) && g[x][y] != t && ((i == x && j == y) || on_flipped_run(
        g,
        t,
        x + dx,
        y + dy,
        dx,
        dy,
        i,
        j,
    ))
}

/// The number of discs the scan of direction `e` flips for a placement at
/// `(px, py)`; the scan starts one step away from the placement.
pub open spec fn dir_flips(g: Seq<Seq<int>>, t: int, px: int, py: int, e: int) -> nat {
    flips_in_dir(g, t, px + dir_dx(e), py + dir_dy(e), dir_dx(e), dir_dy(e))
}

/// True iff the scan of direction `e` flips the cell `(i, j)` for a
/// placement at `(px, py)`.
pub open spec fn flipped_in_dir(
    g: Seq<Seq<int>>,
    t: int,
    px: int,
    py: int,
    e: int,
    i: int,
    j: int,
) -> bool {
    on_flipped_run(g, t, px + dir_dx(e), py + dir_dy(e), dir_dx(e), dir_dy(e), i, j)
}

/// The total number of discs flipped by the first `d` of the 8 directions.
pub open spec fn total_flips_upto(g: Seq<Seq<int>>, t: int, px: int, py: int, d: int) -> nat
    decreases d,
{
    if d <= 0 {
        0
    } else {
        total_flips_upto(g, t, px, py, d - 1) + dir_flips(g, t, px, py, d - 1)
    }
}

/// The total number of discs a placement at `(px, py)` by mover `t` flips,
/// across all 8 directions.
pub open spec fn total_flips(g: Seq<Seq<int>>, t: int, px: int, py: int) -> nat {
    total_flips_upto(g, t, px, py, 8)
}

/// True iff some of the first `d` directions flips the cell `(i, j)`.
pub open spec fn flipped_upto(
    g: Seq<Seq<int>>,
    t: int,
    px: int,
    py: int,
    d: int,
    i: int,
    j: int,
) -> bool {
    exists|e: int| 0 <= e < d && #[trigger] flipped_in_dir(g, t, px, py, e, i, j)
}

/// True iff a placement at `(px, py)` by mover `t` flips the cell `(i, j)`.
pub open spec fn flipped_any(g: Seq<Seq<int>>, t: int, px: int, py: int, i: int, j: int) -> bool {
    flipped_upto(g, t, px, py, 8, i, j)
}

/// The value of cell `(i, j)` after a successful placement at `(px, py)` by
/// mover `t` on grid `g`: the placed disc, a flipped disc, or the old value.
pub open spec fn placed_cell(g: Seq<Seq<int>>, t: int, px: int, py: int, i: int, j: int) -> int {
    if i == px && j == py {
        t
    } else if flipped_any(g, t, px, py, i, j) {
        t
    } else {
        g[i][j]
    }
}

/// A placement is legal iff it targets an empty cell on the board and flips
/// at least one disc.
pub open spec fn legal(g: Seq<Seq<int>>, t: int, px: int, py: int) -> bool {
    in_bounds(px, py) && g[px][py] == 0 && total_flips(g, t, px, py) > 0
}

// ---------------------------------------------------------------------------
// Lemmas about the scan
// ---------------------------------------------------------------------------

/// Each of the 8 direction indices denotes a unit step vector.
pub proof fn lemma_dir_ok(d: int)
    requires
        0 <= d < 8,
    ensures
        dir_ok(dir_dx(d), dir_dy(d)),
{
}

/// A scan flips at most `ray_fuel` discs, hence at most 8; off the board it
/// flips none.
pub proof fn lemma_flips_le_fuel(g: Seq<Seq<int>>, t: int, x: int, y: int, dx: int, dy: int)
    requires
        dir_ok(dx, dy),
    ensures
        !in_bounds(x, y) ==> flips_in_dir(g, t, x, y, dx, dy) == 0,
        in_bounds(x, y) ==> flips_in_dir(g, t, x, y, dx, dy) <= ray_fuel(x, y, dx, dy),
        flips_in_dir(g, t, x, y, dx, dy) <= 8,
    decreases if in_bounds(x, y) {
        ray_fuel(x, y, dx, dy)
    } else {
        0
    },
{
    if anchored(g, t, x, y, dx, dy) && g[x][y] != t {
        lemma_flips_le_fuel(g, t, x + dx, y + dy, dx, dy);
    }
}

/// True iff `(i, j)` is one of the first `n` cells of the ray that starts at
/// `(x, y)` and steps by `(dx, dy)`. Pure geometry: independent of the grid.
pub open spec fn run_member(x: int, y: int, dx: int, dy: int, n: nat, i: int, j: int) -> bool
    decreases n,
{
    n > 0 && ((i == x && j == y) || run_member(x + dx, y + dy, dx, dy, (n - 1) as nat, i, j))
}

/// True iff the first `n` cells of the ray from `(x, y)` all lie on the
/// board.
pub open spec fn run_in_bounds(x: int, y: int, dx: int, dy: int, n: nat) -> bool
    decreases n,
{
    n == 0 || (in_bounds(x, y) && run_in_bounds(x + dx, y + dy, dx, dy, (n - 1) as nat))
}

/// The cells a scan flips are exactly the first `flips_in_dir` cells of its
/// ray, and they all lie on the board.
pub proof fn lemma_flips_run(g: Seq<Seq<int>>, t: int, x: int, y: int, dx: int, dy: int)
    requires
        dir_ok(dx, dy),
    ensures
        run_in_bounds(x, y, dx, dy, flips_in_dir(g, t, x, y, dx, dy)),
        forall|i: int, j: int|
            #[trigger] on_flipped_run(g, t, x, y, dx, dy, i, j) == run_member(
                x,
                y,
                dx,
                dy,
                flips_in_dir(g, t, x, y, dx, dy),
                i,
                j,
            ),
    decreases if in_bounds(x, y) {
        ray_fuel(x, y, dx, dy)
    } else {
        0
    },
{
    let n = flips_in_dir(g, t, x, y, dx, dy);
    if anchored(g, t, x, y, dx, dy) && g[x][y] != t {
        lemma_flips_run(g, t, x + dx, y + dy, dx, dy);
        assert forall|i: int, j: int|
            #[trigger] on_flipped_run(g, t, x, y, dx, dy, i, j) == run_member(
                x,
                y,
                dx,
                dy,
                n,
                i,
                j,
            ) by {
            assert(on_flipped_run(g, t, x, y, dx, dy, i, j) == ((i == x && j == y)
                || on_flipped_run(g, t, x + dx, y + dy, dx, dy, i, j)));
            assert(run_member(x, y, dx, dy, n, i, j) == ((i == x && j == y) || run_member(
                x + dx,
                y + dy,
                dx,
                dy,
                (n - 1) as nat,
                i,
                j,
            )));
        }
    } else {
        assert(n == 0);
        assert forall|i: int, j: int|
            #[trigger] on_flipped_run(g, t, x, y, dx, dy, i, j) == run_member(
                x,
                y,
                dx,
                dy,
                n,
                i,
                j,
            ) by {
            assert(!on_flipped_run(g, t, x, y, dx, dy, i, j));
            assert(!run_member(x, y, dx, dy, 0, i, j));
        }
    }
}

/// Direction `d` contributes its own flips to `flipped_upto(d + 1)`.
pub proof fn lemma_flipped_upto_step(
    g: Seq<Seq<int>>,
    t: int,
    px: int,
    py: int,
    d: int,
    i: int,
    j: int,
)
    requires
        0 <= d,
    ensures
        flipped_upto(g, t, px, py, d + 1, i, j) == (flipped_upto(g, t, px, py, d, i, j)
            || flipped_in_dir(g, t, px, py, d, i, j)),
{
    if flipped_upto(g, t, px, py, d + 1, i, j) {
        let e = choose|e: int| 0 <= e < d + 1 && #[trigger] flipped_in_dir(g, t, px, py, e, i, j);
        if e < d {
            assert(flipped_upto(g, t, px, py, d, i, j));
        }
    }
    if flipped_in_dir(g, t, px, py, d, i, j) {
        assert(0 <= d < d + 1 && flipped_in_dir(g, t, px, py, d, i, j));
    }
    if flipped_upto(g, t, px, py, d, i, j) {
        let e = choose|e: int| 0 <= e < d && #[trigger] flipped_in_dir(g, t, px, py, e, i, j);
        assert(0 <= e < d + 1 && flipped_in_dir(g, t, px, py, e, i, j));
    }
}

/// The partial totals grow with the number of directions counted.
pub proof fn lemma_total_upto_mono(g: Seq<Seq<int>>, t: int, px: int, py: int, d1: int, d2: int)
    requires
        0 <= d1 <= d2,
    ensures
        total_flips_upto(g, t, px, py, d1) <= total_flips_upto(g, t, px, py, d2),
    decreases d2,
{
    if d1 < d2 {
        lemma_total_upto_mono(g, t, px, py, d1, d2 - 1);
    }
}

/// When no direction among the first `d` flips anything, the partial total
/// is zero.
pub proof fn lemma_total_upto_zero(g: Seq<Seq<int>>, t: int, px: int, py: int, d: int)
    requires
        0 <= d <= 8,
        forall|e: int| 0 <= e < d ==> #[trigger] dir_flips(g, t, px, py, e) == 0,
    ensures
        total_flips_upto(g, t, px, py, d) == 0,
    decreases d,
{
    if d > 0 {
        lemma_total_upto_zero(g, t, px, py, d - 1);
    }
}

/// True iff the ray from `(x, y)` runs through exactly `m` of the
/// opponent's discs and then reaches a disc of mover `t` (the anchor).
pub open spec fn opponent_run(
    g: Seq<Seq<int>>,
    t: int,
    x: int,
    y: int,
    dx: int,
    dy: int,
    m: nat,
) -> bool
    decreases m,
{
    if m == 0 {
        in_bounds(x, y) && g[x][y] == t
    } else {
        in_bounds(x, y) && g[x][y] == -t && opponent_run(g, t, x + dx, y + dy, dx, dy, (m - 1) as nat)
    }
}

/// Law: a scan whose ray crosses `m` contiguous opponent discs before
/// reaching an anchor flips all `m` of them — the flipped cells are exactly
/// the `m` cells of the run, however long it is.
pub proof fn lemma_run_flips_all(
    g: Seq<Seq<int>>,
    t: int,
    x: int,
    y: int,
    dx: int,
    dy: int,
    m: nat,
)
    requires
        turn_ok(t),
        dir_ok(dx, dy),
        opponent_run(g, t, x, y, dx, dy, m),
    ensures
        anchored(g, t, x, y, dx, dy),
        flips_in_dir(g, t, x, y, dx, dy) == m,
        forall|i: int, j: int|
            #[trigger] on_flipped_run(g, t, x, y, dx, dy, i, j) == run_member(x, y, dx, dy, m, i, j),
    decreases m,
{
    if m > 0 {
        lemma_run_flips_all(g, t, x + dx, y + dy, dx, dy, (m - 1) as nat);
    }
    lemma_flips_run(g, t, x, y, dx, dy);
}

/// Law: a scan whose ray reaches an empty cell or the edge of the board
/// before any anchor flips nothing: not a single cell it visited changes.
pub proof fn lemma_broken_run_flips_none(g: Seq<Seq<int>>, t: int, x: int, y: int, dx: int, dy: int)
    requires
        dir_ok(dx, dy),
        !anchored(g, t, x, y, dx, dy),
    ensures
        flips_in_dir(g, t, x, y, dx, dy) == 0,
        forall|i: int, j: int| !#[trigger] on_flipped_run(g, t, x, y, dx, dy, i, j),
{
}

/// Law: only the opponent's discs are ever flipped — every cell on a
/// flipped run lies on the board and held the opponent's disc.
pub proof fn lemma_flipped_cells_are_opponent(
    g: Seq<Seq<int>>,
    t: int,
    x: int,
    y: int,
    dx: int,
    dy: int,
    i: int,
    j: int,
)
    requires
        turn_ok(t),
        dir_ok(dx, dy),
        grid_cells_ok(g),
        on_flipped_run(g, t, x, y, dx, dy, i, j),
    ensures
        in_bounds(i, j),
        g[i][j] == -t,
    decreases if in_bounds(x, y) {
        ray_fuel(x, y, dx, dy)
    } else {
        0
    },
{
    if !(i == x && j == y) {
        lemma_flipped_cells_are_opponent(g, t, x + dx, y + dy, dx, dy, i, j);
    }
}

/// The canonical starting grid: empty but for the centre 2x2 block, which
/// holds the two opening diagonals.
pub open spec fn start_grid() -> Seq<Seq<int>> {
    Seq::new(
        8,
        |i: int|
            Seq::new(
                8,
                |j: int|
                    if i == 3 && j == 3 {
                        -1
                    } else if i == 3 && j == 4 {
                        1
                    } else if i == 4 && j == 3 {
                        1
                    } else if i == 4 && j == 4 {
                        -1
                    } else {
                        0
                    },
            ),
    )
}

// ---------------------------------------------------------------------------
// Game state
// ---------------------------------------------------------------------------

/// Why a placement was rejected. A rejected placement leaves the state
/// unchanged; the attempted position is the caller's own argument, so the
/// variants carry no payload.
#[derive(Debug, PartialEq, Eq, Clone, Copy)]
pub enum ErrorKind {
    /// The target cell already holds a disc.
    CellOccupied,
    /// The target cell is empty but the placement would flip no disc.
    NoCaptures,
}

/// The game state: the 8x8 grid, addressed as `raw_array[x][y]`, and the
/// marker of the player to move (`1` or `-1`).
#[derive(Debug, PartialEq, Clone)]
pub struct Stage {
    pub raw_array: [[i32; 8]; 8],
    pub turn: i32,
}

impl Stage {
    /// The grid as a mathematical value.
    pub open spec fn grid(&self) -> Seq<Seq<int>> {
        grid_of(self.raw_array)
    }

    /// Well-formedness: every cell tri-state, the turn marker one of the two
    /// players. Constructors establish it and `put_disc` preserves it.
    pub open spec fn wf(&self) -> bool {
        turn_ok(self.turn as int) && grid_cells_ok(self.grid())
    }

    /// The canonical starting state: the two opening diagonals in the
    /// centre, player `1` to move first.
    pub fn new() -> (s: Stage)
        ensures
            s.wf(),
            s.turn == 1,
            s.grid() == start_grid(),
    {
        let default_array: [[i32; 8]; 8] = [
            [0, 0, 0, 0, 0, 0, 0, 0],
            [0, 0, 0, 0, 0, 0, 0, 0],
            [0, 0, 0, 0, 0, 0, 0, 0],
            [0, 0, 0, -1, 1, 0, 0, 0],
            [0, 0, 0, 1, -1, 0, 0, 0],
            [0, 0, 0, 0, 0, 0, 0, 0],
            [0, 0, 0, 0, 0, 0, 0, 0],
            [0, 0, 0, 0, 0, 0, 0, 0],
        ];
        let s = Stage { raw_array: default_array, turn: 1 };
        proof {
            assert(s.grid() =~~= start_grid());
        }
        s
    }

    /// An arbitrary mid-game state, for loading and testing: the caller
    /// supplies the grid and whose turn it is, and is responsible for both
    /// being well formed.
    pub fn new_with_array(array: [[i32; 8]; 8], turn: i32) -> (s: Stage)
        requires
            grid_cells_ok(grid_of(array)),
            turn_ok(turn as int),
        ensures
            s.wf(),
            s.grid() == grid_of(array),
            s.turn == turn,
    {
        Stage { raw_array: array, turn }
    }

    /// The `d`-th of the 8 scan directions, as a step vector.
    fn direction(d: usize) -> (r: (isize, isize))
        requires
            d < 8,
        ensures
            r.0 as int == dir_dx(d as int),
            r.1 as int == dir_dy(d as int),
            dir_ok(r.0 as int, r.1 as int),
    {
        match d {
            0 => (-1, -1),
            1 => (-1, 0),
            2 => (-1, 1),
            3 => (0, -1),
            4 => (0, 1),
            5 => (1, -1),
            6 => (1, 0),
            _ => (1, 1),
        }
    }

    /// Read-only capture scan: walks from `(x, y)` by `(dx, dy)` and reports
    /// whether the walk reaches an anchor and how many discs a placement
    /// would flip along it. Mutates nothing.
    fn scan_dir(&self, x: isize, y: isize, dx: isize, dy: isize) -> (res: (bool, u32))
        requires
            dir_ok(dx as int, dy as int),
            -8 <= x <= 8,
            -8 <= y <= 8,
        ensures
            res.0 == anchored(self.grid(), self.turn as int, x as int, y as int, dx as int, dy as int),
            res.1 as nat == flips_in_dir(
                self.grid(),
                self.turn as int,
                x as int,
                y as int,
                dx as int,
                dy as int,
            ),
        decreases ray_fuel(x as int, y as int, dx as int, dy as int),
    {
        if x < 0 || x >= 8 || y < 0 || y >= 8 {
            return (false, 0);
        }
        let c = self.raw_array[x as usize][y as usize];
        if c == 0 {
            return (false, 0);
        }
        if c == self.turn {
            return (true, 0);
        }
        let (a, n) = self.scan_dir(x + dx, y + dy, dx, dy);
        if a {
            proof {
                lemma_flips_le_fuel(
                    self.grid(),
                    self.turn as int,
                    x as int + dx as int,
                    y as int + dy as int,
                    dx as int,
                    dy as int,
                );
            }
            (true, n + 1)
        } else {
            (false, 0)
        }
    }

    /// Flips the first `n` cells of the ray from `(x, y)` to the current
    /// player's marker; the caller has established that those cells are
    /// exactly an anchored run of the opponent's discs.
    fn flip_run(&mut self, x: isize, y: isize, dx: isize, dy: isize, n: u32)
        requires
            dir_ok(dx as int, dy as int),
            -8 <= x <= 8,
            -8 <= y <= 8,
            run_in_bounds(x as int, y as int, dx as int, dy as int, n as nat),
        ensures
            final(self).turn == old(self).turn,
            forall|i: int, j: int|
                in_bounds(i, j) ==> final(self).grid()[i][j] == (if run_member(
                    x as int,
                    y as int,
                    dx as int,
                    dy as int,
                    n as nat,
                    i,
                    j,
                ) {
                    old(self).turn as int
                } else {
                    old(self).grid()[i][j]
                }),
        decreases n,
    {
        if n > 0 {
            let t = self.turn;
            self.raw_array[x as usize][y as usize] = t;
            self.flip_run(x + dx, y + dy, dx, dy, n - 1);
        }
    }

    /// Places the current player's disc at `pos`, flipping every captured
    /// disc, and passes the turn to the other player. Rejects the placement
    /// with `CellOccupied` when the target cell holds a disc, and with
    /// `NoCaptures` when it is empty but no direction captures anything; a
    /// rejected placement leaves the state unchanged. Out-of-range positions
    /// are out of contract: callers check `Position::validate` first.
    pub fn put_disc(&mut self, pos: &Position) -> (r: Result<(), ErrorKind>)
        requires
            old(self).wf(),
            in_bounds(pos.x as int, pos.y as int),
        ensures
            final(self).wf(),
            (r == Ok::<(), ErrorKind>(())) == legal(
                old(self).grid(),
                old(self).turn as int,
                pos.x as int,
                pos.y as int,
            ),
            old(self).grid()[pos.x as int][pos.y as int] != 0 ==> r == Err::<(), ErrorKind>(
                ErrorKind::CellOccupied,
            ) && *final(self) == *old(self),
            old(self).grid()[pos.x as int][pos.y as int] == 0 && total_flips(
                old(self).grid(),
                old(self).turn as int,
                pos.x as int,
                pos.y as int,
            ) == 0 ==> r == Err::<(), ErrorKind>(ErrorKind::NoCaptures) && *final(self) == *old(
                self,
            ),
            r == Ok::<(), ErrorKind>(()) ==> final(self).turn as int == -(old(self).turn as int)
                && (forall|i: int, j: int|
                in_bounds(i, j) ==> final(self).grid()[i][j] == placed_cell(
                    old(self).grid(),
                    old(self).turn as int,
                    pos.x as int,
                    pos.y as int,
                    i,
                    j,
                )),
    {
        let px = pos.x;
        let py = pos.y;
        if self.raw_array[px][py] != 0 {
            return Err(ErrorKind::CellOccupied);
        }
        let ghost g0 = self.grid();
        let ghost t0 = self.turn as int;
        let mut counts: [u32; 8] = [0; 8];
        let mut total: u32 = 0;
        let mut d: usize = 0;
        while d < 8
            invariant
                *self == *old(self),
                old(self).wf(),
                px == pos.x,
                py == pos.y,
                in_bounds(px as int, py as int),
                g0 == old(self).grid(),
                t0 == old(self).turn as int,
                g0[px as int][py as int] == 0,
                d <= 8,
                forall|e: int|
                    0 <= e < d ==> counts@[e] as nat == dir_flips(g0, t0, px as int, py as int, e),
                total as nat == total_flips_upto(g0, t0, px as int, py as int, d as int),
                total <= 8 * d,
            decreases 8 - d,
        {
            let (dx, dy) = Self::direction(d);
            let (_a, n) = self.scan_dir(px as isize + dx, py as isize + dy, dx, dy);
            proof {
                lemma_flips_le_fuel(
                    g0,
                    t0,
                    px as int + dx as int,
                    py as int + dy as int,
                    dx as int,
                    dy as int,
                );
            }
            counts[d] = n;
            total = total + n;
            d += 1;
        }
        if total == 0 {
            return Err(ErrorKind::NoCaptures);
        }
        let mut e: usize = 0;
        while e < 8
            invariant
                old(self).wf(),
                px == pos.x,
                py == pos.y,
                in_bounds(px as int, py as int),
                g0 == old(self).grid(),
                t0 == old(self).turn as int,
                g0[px as int][py as int] == 0,
                total as nat == total_flips(g0, t0, px as int, py as int),
                total > 0,
                e <= 8,
                self.turn == old(self).turn,
                forall|ee: int|
                    0 <= ee < 8 ==> counts@[ee] as nat == dir_flips(g0, t0, px as int, py as int, ee),
                forall|i: int, j: int|
                    in_bounds(i, j) ==> self.grid()[i][j] == (if flipped_upto(
                        g0,
                        t0,
                        px as int,
                        py as int,
                        e as int,
                        i,
                        j,
                    ) {
                        t0
                    } else {
                        g0[i][j]
                    }),
            decreases 8 - e,
        {
            let (dx, dy) = Self::direction(e);
            proof {
                lemma_flips_run(
                    g0,
                    t0,
                    px as int + dx as int,
                    py as int + dy as int,
                    dx as int,
                    dy as int,
                );
            }
            self.flip_run(px as isize + dx, py as isize + dy, dx, dy, counts[e]);
            assert forall|i: int, j: int|
                in_bounds(i, j) implies self.grid()[i][j] == (if flipped_upto(
                g0,
                t0,
                px as int,
                py as int,
                e as int + 1,
                i,
                j,
            ) {
                t0
            } else {
                g0[i][j]
            }) by {
                lemma_flipped_upto_step(g0, t0, px as int, py as int, e as int, i, j);
            }
            e += 1;
        }
        let t = self.turn;
        self.raw_array[px][py] = t;
        self.turn = -t;
        proof {
            assert(legal(g0, t0, px as int, py as int));
            assert forall|i: int, j: int|
                in_bounds(i, j) implies self.grid()[i][j] == placed_cell(
                g0,
                t0,
                px as int,
                py as int,
                i,
                j,
            ) by {
            }
            assert forall|i: int, j: int| in_bounds(i, j) implies cell_ok(
                #[trigger] self.grid()[i][j],
            ) by {
                assert(cell_ok(g0[i][j]));
            }
        }
        Ok(())
    }

    /// Non-mutating legality probe: reports whether `put_disc` at `pos`
    /// would succeed. Takes `&self`, so no number of calls can change the
    /// observable grid or turn. Out-of-range positions are out of contract,
    /// as for `put_disc`: callers check `Position::validate` first.
    pub fn can_put_disc(&self, pos: &Position) -> (r: bool)
        requires
            self.wf(),
            in_bounds(pos.x as int, pos.y as int),
        ensures
            r == legal(self.grid(), self.turn as int, pos.x as int, pos.y as int),
    {
        let px = pos.x;
        let py = pos.y;
        if self.raw_array[px][py] != 0 {
            return false;
        }
        let ghost g = self.grid();
        let ghost t = self.turn as int;
        let mut d: usize = 0;
        while d < 8
            invariant
                self.wf(),
                px == pos.x,
                py == pos.y,
                in_bounds(px as int, py as int),
                g == self.grid(),
                t == self.turn as int,
                g[px as int][py as int] == 0,
                d <= 8,
                forall|e: int| 0 <= e < d ==> #[trigger] dir_flips(g, t, px as int, py as int, e) == 0,
            decreases 8 - d,
        {
            let (dx, dy) = Self::direction(d);
            let (_a, n) = self.scan_dir(px as isize + dx, py as isize + dy, dx, dy);
            if n > 0 {
                proof {
                    lemma_total_upto_mono(g, t, px as int, py as int, d as int + 1, 8);
                }
                return true;
            }
            d += 1;
        }
        proof {
            lemma_total_upto_zero(g, t, px as int, py as int, 8);
        }
        false
    }

    /// Pass detection: true iff the current player has no legal placement
    /// anywhere on the board. Scans the 64 positions and stops at the first
    /// legal one.
    pub fn is_pass(&self) -> (r: bool)
        requires
            self.wf(),
        ensures
            r == (forall|px: int, py: int|
                in_bounds(px, py) ==> !#[trigger] legal(self.grid(), self.turn as int, px, py)),
    {
        let ghost g = self.grid();
        let ghost t = self.turn as int;
        let mut x: usize = 0;
        while x < 8
            invariant
                self.wf(),
                g == self.grid(),
                t == self.turn as int,
                x <= 8,
                forall|px: int, py: int|
                    0 <= px < x && 0 <= py < 8 ==> !#[trigger] legal(g, t, px, py),
            decreases 8 - x,
        {
            let mut y: usize = 0;
            while y < 8
                invariant
                    self.wf(),
                    g == self.grid(),
                    t == self.turn as int,
                    x < 8,
                    y <= 8,
                    forall|px: int, py: int|
                        0 <= px < x && 0 <= py < 8 ==> !#[trigger] legal(g, t, px, py),
                    forall|py: int| 0 <= py < y ==> !#[trigger] legal(g, t, x as int, py),
                decreases 8 - y,
            {
                if self.can_put_disc(&Position { x, y }) {
                    return false;
                }
                y += 1;
            }
            x += 1;
        }
        true
    }
}

} // verus!
