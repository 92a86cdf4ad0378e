//! The Conway's Game of Life board and its small seeding generator.

use vstd::prelude::*;

verus! {

/// Seed used in place of zero: xorshift cannot leave the all-zero state.
pub const ZERO_SEED_REPLACEMENT: u64 = 0x9e37_79b9_7f4a_7c15;

/// The mathematical model of a board.
pub struct Board {
    pub width: nat,
    pub height: nat,
    pub alive: Seq<bool>,
    pub age: Seq<u16>,
    pub generation: u64,
    pub last_changed: bool,
    pub last_change_count: usize,
}

/// The largest number of cells a board can hold: each cell occupies four
/// bytes and no allocation may exceed `isize::MAX` bytes.
pub open spec fn max_cells() -> int {
    isize::MAX as int / 4
}

/// The neighbourhood offsets in the order the engine visits them: row by row
/// from `dy = -1` to `dy = 1`, and in each row from `dx = -1` to `dx = 1`.
/// Position 4 is the cell itself.
pub open spec fn offset_x(k: int) -> int {
    k % 3 - 1
}

pub open spec fn offset_y(k: int) -> int {
    k / 3 - 1
}

/// `x` wrapped into `0..dimension`.
pub open spec fn wrap(x: int, dimension: int) -> int {
    x % dimension
}

pub open spec fn sat_inc(age: u16) -> u16 {
    if age == u16::MAX {
        u16::MAX
    } else {
        (age + 1) as u16
    }
}

/// Number of `true` entries.
pub open spec fn count_true(s: Seq<bool>) -> nat
    decreases s.len(),
{
    if s.len() == 0 {
        0
    } else {
        count_true(s.drop_last()) + if s.last() {
            1nat
        } else {
            0nat
        }
    }
}

impl Board {
    pub open spec fn cell_count(self) -> int {
        (self.width * self.height) as int
    }

    pub open spec fn wf(self) -> bool {
        &&& 0 < self.width <= isize::MAX
        &&& 0 < self.height <= isize::MAX
        &&& self.cell_count() <= max_cells()
        &&& self.alive.len() == self.cell_count()
        &&& self.age.len() == self.alive.len()
        &&& forall|i: int|
            0 <= i < self.alive.len() ==> (#[trigger] self.alive[i] <==> self.age[i] > 0)
    }

    /// Row-major index of the in-bounds cell `(x, y)`.
    pub open spec fn index(self, x: int, y: int) -> int {
        y * self.width + x
    }

    /// Row-major index of `(x, y)` after wrapping both coordinates.
    pub open spec fn wrapped_index(self, x: int, y: int) -> int {
        self.index(wrap(x, self.width as int), wrap(y, self.height as int))
    }

    /// Whether the cell at `(x, y)` lives; coordinates wrap at every edge.
    pub open spec fn alive_at(self, x: int, y: int) -> bool {
        self.alive[self.wrapped_index(x, y)]
    }

    pub open spec fn age_at(self, x: int, y: int) -> u16 {
        self.age[self.wrapped_index(x, y)]
    }

    /// Live cells among the first `k` positions of the 3x3 neighbourhood of
    /// `(x, y)`, the centre excluded.
    pub open spec fn partial_neighbours(self, x: int, y: int, k: int) -> nat
        decreases k,
    {
        if k <= 0 {
            0
        } else {
            self.partial_neighbours(x, y, k - 1) + if k - 1 != 4 && self.alive_at(
                x + offset_x(k - 1),
                y + offset_y(k - 1),
            ) {
                1nat
            } else {
                0nat
            }
        }
    }

    /// Number of live cells among the eight neighbours of `(x, y)`, each
    /// wrapped onto the board (so a neighbour met twice counts twice).
    pub open spec fn neighbours(self, x: int, y: int) -> nat {
        self.partial_neighbours(x, y, 9)
    }

    /// Conway's B3/S23 rule.
    pub open spec fn next_alive(self, x: int, y: int) -> bool {
        self.neighbours(x, y) == 3 || (self.alive_at(x, y) && self.neighbours(x, y) == 2)
    }

    /// A survivor ages by one (saturating), a newborn has age one, and a dead
    /// cell has age zero.
    pub open spec fn next_age(self, x: int, y: int) -> u16 {
        if self.next_alive(x, y) {
            if self.alive_at(x, y) {
                sat_inc(self.age_at(x, y))
            } else {
                1
            }
        } else {
            0
        }
    }

    /// Whether the cell at `(x, y)` changes state in the next generation.
    pub open spec fn changes_at(self, x: int, y: int) -> bool {
        self.next_alive(x, y) != self.alive_at(x, y)
    }

    /// Cells of row `y` among its first `columns` that change state.
    pub open spec fn row_changes(self, y: int, columns: int) -> nat
        decreases columns,
    {
        if columns <= 0 {
            0
        } else {
            self.row_changes(y, columns - 1) + if self.changes_at(columns - 1, y) {
                1nat
            } else {
                0nat
            }
        }
    }

    /// Cells of the first `rows` rows that change state.
    pub open spec fn rows_changes(self, rows: int) -> nat
        decreases rows,
    {
        if rows <= 0 {
            0
        } else {
            self.rows_changes(rows - 1) + self.row_changes(rows - 1, self.width as int)
        }
    }

    /// Number of cells that change state in the next generation.
    pub open spec fn change_count(self) -> nat {
        self.rows_changes(self.height as int)
    }

    /// Number of live cells.
    pub open spec fn population(self) -> nat {
        count_true(self.alive)
    }

}

pub open spec fn sat_inc_u64(g: u64) -> u64 {
    if g == u64::MAX {
        u64::MAX
    } else {
        (g + 1) as u64
    }
}

/// The board one generation later: every cell follows Conway's rule and
/// ages accordingly, the generation count advances (saturating), and the
/// changes are counted.
pub open spec fn step(b: Board) -> Board {
    Board {
        width: b.width,
        height: b.height,
        alive: Seq::new(
            b.alive.len(),
            |i: int| b.next_alive(i % (b.width as int), i / (b.width as int)),
        ),
        age: Seq::new(b.age.len(), |i: int| b.next_age(i % (b.width as int), i / (b.width as int))),
        generation: sat_inc_u64(b.generation),
        last_changed: b.change_count() > 0,
        last_change_count: b.change_count() as usize,
    }
}

/// The board after seeding it from a generator in `state`: each cell lives
/// as `seeded` says, live cells have age one, and counting starts afresh.
pub open spec fn reseeded(b: Board, state: u64, threshold: u32) -> Board {
    Board {
        alive: seeded(state, threshold, b.alive.len()),
        age: Seq::new(
            b.alive.len(),
            |i: int|
                if seeded(state, threshold, b.alive.len())[i] {
                    1u16
                } else {
                    0u16
                },
        ),
        generation: 0,
        last_changed: true,
        last_change_count: 0,
        ..b
    }
}

/// An index into a `width` by `height` board splits into the in-bounds
/// column `index % width` and row `index / width`.
pub proof fn lemma_index_split(index: int, width: int, height: int)
    requires
        0 <= index < width * height,
        width > 0,
    ensures
        0 <= index % width < width,
        0 <= index / width < height,
        index == (index / width) * width + index % width,
{
    vstd::arithmetic::div_mod::lemma_fundamental_div_mod(index, width);
    let q = index / width;
    let r = index % width;
    assert(0 <= q) by (nonlinear_arith)
        requires
            index >= 0,
            width > 0,
            index == width * q + r,
            0 <= r < width,
    ;
    assert(q < height) by (nonlinear_arith)
        requires
            index < width * height,
            width > 0,
            index == width * q + r,
            0 <= r < width,
    ;
    assert(index == q * width + r) by (nonlinear_arith)
        requires
            index == width * q + r,
    ;
}

/// A cell in an earlier row lies before every cell of row `y`.
pub proof fn lemma_earlier_row(width: int, x: int, row: int, y: int)
    requires
        0 <= x < width,
        0 <= row < y,
    ensures
        row * width + x < y * width,
{
    assert(row * width + x < y * width) by (nonlinear_arith)
        requires
            0 <= x < width,
            0 <= row < y,
    ;
}

pub proof fn lemma_index_bounds(width: int, height: int, x: int, y: int)
    requires
        0 <= x < width,
        0 <= y < height,
    ensures
        0 <= y * width + x < width * height,
        y * width <= y * width + x,
{
    assert(0 <= y * width) by (nonlinear_arith)
        requires
            0 <= y,
            0 <= x < width,
    ;
    assert(y * width + x < width * height) by (nonlinear_arith)
        requires
            0 <= x < width,
            0 <= y < height,
    ;
}

/// Each side of a board is at most its number of cells.
pub proof fn lemma_sides_within_cells(b: Board)
    requires
        b.wf(),
    ensures
        b.width <= b.cell_count(),
        b.height <= b.cell_count(),
{
    assert(b.width <= b.width * b.height) by (nonlinear_arith)
        requires
            b.height >= 1,
    ;
    assert(b.height <= b.width * b.height) by (nonlinear_arith)
        requires
            b.width >= 1,
    ;
}

/// Every wrapped coordinate pair names a cell of the board.
pub proof fn lemma_wrapped_index_bounds(b: Board, x: int, y: int)
    requires
        b.wf(),
    ensures
        0 <= b.wrapped_index(x, y) < b.cell_count(),
{
    lemma_wrap_bounds(x, b.width as int);
    lemma_wrap_bounds(y, b.height as int);
    lemma_index_bounds(
        b.width as int,
        b.height as int,
        wrap(x, b.width as int),
        wrap(y, b.height as int),
    );
}

pub proof fn lemma_wrap_bounds(x: int, dimension: int)
    requires
        dimension > 0,
    ensures
        0 <= wrap(x, dimension) < dimension,
        0 <= x < dimension ==> wrap(x, dimension) == x,
{
    if 0 <= x < dimension {
        vstd::arithmetic::div_mod::lemma_small_mod(x as nat, dimension as nat);
    }
}

/// Coordinates wrap at every edge: moving a whole board's width or height
/// lands on the same cell.
pub proof fn lemma_alive_at_wraps(b: Board, x: int, y: int)
    requires
        b.wf(),
    ensures
        b.alive_at(x + b.width, y) == b.alive_at(x, y),
        b.alive_at(x - b.width, y) == b.alive_at(x, y),
        b.alive_at(x, y + b.height) == b.alive_at(x, y),
        b.alive_at(x, y - b.height) == b.alive_at(x, y),
{
    let w = b.width as int;
    let h = b.height as int;
    vstd::arithmetic::div_mod::lemma_mod_add_multiples_vanish(x, w);
    vstd::arithmetic::div_mod::lemma_mod_sub_multiples_vanish(x, w);
    vstd::arithmetic::div_mod::lemma_mod_add_multiples_vanish(y, h);
    vstd::arithmetic::div_mod::lemma_mod_sub_multiples_vanish(y, h);
}

/// Dead cells always have age zero, and live cells a positive age.
pub proof fn lemma_dead_cells_are_ageless(b: Board, x: int, y: int)
    requires
        b.wf(),
    ensures
        !b.alive_at(x, y) <==> b.age_at(x, y) == 0,
{
    lemma_wrapped_index_bounds(b, x, y);
}

/// A count of live neighbours above zero has a live neighbour behind it.
pub proof fn lemma_counted_neighbour(b: Board, x: int, y: int, k: int)
    requires
        0 <= k <= 9,
        b.partial_neighbours(x, y, k) > 0,
    ensures
        exists|j: int| 0 <= j < k && j != 4 && #[trigger] b.alive_at(x + offset_x(j), y + offset_y(j)),
    decreases k,
{
    if k > 0 {
        if k - 1 != 4 && b.alive_at(x + offset_x(k - 1), y + offset_y(k - 1)) {
        } else {
            lemma_counted_neighbour(b, x, y, k - 1);
        }
    }
}

/// Conway's B3/S23 rule, stated by counting the eight wrapped neighbours
/// one by one: in the next generation a dead cell is alive exactly when
/// three of them live, and a live cell exactly when two or three do.
pub proof fn lemma_conway_rule(b: Board, x: int, y: int)
    requires
        b.wf(),
        0 <= x < b.width,
        0 <= y < b.height,
    ensures
        ({
            let n = (if b.alive_at(x - 1, y - 1) { 1int } else { 0int })
                + (if b.alive_at(x, y - 1) { 1int } else { 0int })
                + (if b.alive_at(x + 1, y - 1) { 1int } else { 0int })
                + (if b.alive_at(x - 1, y) { 1int } else { 0int })
                + (if b.alive_at(x + 1, y) { 1int } else { 0int })
                + (if b.alive_at(x - 1, y + 1) { 1int } else { 0int })
                + (if b.alive_at(x, y + 1) { 1int } else { 0int })
                + (if b.alive_at(x + 1, y + 1) { 1int } else { 0int });
            &&& b.neighbours(x, y) == n
            &&& b.next_alive(x, y) == if b.alive_at(x, y) {
                n == 2 || n == 3
            } else {
                n == 3
            }
            &&& step(b).alive[b.index(x, y)] == if b.alive[b.index(x, y)] {
                n == 2 || n == 3
            } else {
                n == 3
            }
        }),
{
    reveal_with_fuel(Board::partial_neighbours, 10);
    let w = b.width as int;
    let h = b.height as int;
    lemma_index_bounds(w, h, x, y);
    vstd::arithmetic::div_mod::lemma_fundamental_div_mod_converse(y * w + x, w, y, x);
    lemma_wrap_bounds(x, w);
    lemma_wrap_bounds(y, h);
    assert(offset_x(0) == -1 && offset_y(0) == -1);
    assert(offset_x(1) == 0 && offset_y(1) == -1);
    assert(offset_x(2) == 1 && offset_y(2) == -1);
    assert(offset_x(3) == -1 && offset_y(3) == 0);
    assert(offset_x(5) == 1 && offset_y(5) == 0);
    assert(offset_x(6) == -1 && offset_y(6) == 1);
    assert(offset_x(7) == 0 && offset_y(7) == 1);
    assert(offset_x(8) == 1 && offset_y(8) == 1);
    assert(b.alive_at(x, y) == b.alive[b.index(x, y)]);
}

/// Ages in the next generation: a survivor is one generation older (never
/// wrapping past `u16::MAX`), a newborn is one generation old, and every
/// other cell has age zero; the board keeps its size, its generation count
/// advances by one (never wrapping), and it counts a change exactly when
/// some cell changes state.
pub proof fn lemma_step_ages_and_counters(b: Board, x: int, y: int)
    requires
        b.wf(),
        0 <= x < b.width,
        0 <= y < b.height,
    ensures
        step(b).age[b.index(x, y)] as int == if !step(b).alive[b.index(x, y)] {
            0
        } else if !b.alive[b.index(x, y)] {
            1
        } else if b.age[b.index(x, y)] == u16::MAX {
            u16::MAX as int
        } else {
            b.age[b.index(x, y)] + 1
        },
        step(b).width == b.width,
        step(b).height == b.height,
        step(b).alive.len() == b.alive.len(),
        step(b).generation == if b.generation == u64::MAX {
            u64::MAX as int
        } else {
            b.generation + 1
        },
        step(b).last_changed <==> exists|cx: int, cy: int|
            0 <= cx < b.width && 0 <= cy < b.height && step(b).alive[b.index(cx, cy)] != #[trigger] b.alive[b.index(cx, cy)],
{
    let w = b.width as int;
    let h = b.height as int;
    lemma_index_bounds(w, h, x, y);
    vstd::arithmetic::div_mod::lemma_fundamental_div_mod_converse(y * w + x, w, y, x);
    lemma_wrap_bounds(x, w);
    lemma_wrap_bounds(y, h);
    lemma_change_count_zero(b);
    if b.change_count() == 0 {
        assert forall|cx: int, cy: int|
            0 <= cx < b.width && 0 <= cy < b.height implies step(b).alive[b.index(cx, cy)] == #[trigger] b.alive[b.index(cx, cy)] by {
            lemma_index_bounds(w, h, cx, cy);
            vstd::arithmetic::div_mod::lemma_fundamental_div_mod_converse(cy * w + cx, w, cy, cx);
            lemma_wrap_bounds(cx, w);
            lemma_wrap_bounds(cy, h);
        }
    } else {
        let (cx, cy) = choose|cx: int, cy: int|
            0 <= cx < b.width && 0 <= cy < b.height && b.next_alive(cx, cy) != b.alive_at(cx, cy);
        lemma_index_bounds(w, h, cx, cy);
        vstd::arithmetic::div_mod::lemma_fundamental_div_mod_converse(cy * w + cx, w, cy, cx);
        lemma_wrap_bounds(cx, w);
        lemma_wrap_bounds(cy, h);
        assert(step(b).alive[b.index(cx, cy)] != b.alive[b.index(cx, cy)]);
    }
}

/// A threshold of zero seeds no cell and a threshold of 2^23 seeds every
/// cell; raising the threshold only adds live cells.
pub proof fn lemma_seeding_thresholds(state: u64, low: u32, high: u32, cells: nat, i: int)
    requires
        low <= high,
        0 <= i < cells,
    ensures
        !seeded(state, 0, cells)[i],
        seeded(state, 0x80_0000, cells)[i],
        seeded(state, low, cells)[i] ==> seeded(state, high, cells)[i],
{
    let s = state_after(state, (i + 1) as nat);
    assert(s >> 41u64 < 0x80_0000) by (bit_vector);
}

/// Any birth is adjacent to a live cell: a dead cell that comes alive has
/// a live neighbour.
pub proof fn lemma_births_need_live_neighbours(b: Board, x: int, y: int)
    requires
        !b.alive_at(x, y),
        b.next_alive(x, y),
    ensures
        exists|k: int| 0 <= k < 9 && k != 4 && #[trigger] b.alive_at(x + offset_x(k), y + offset_y(k)),
{
    lemma_counted_neighbour(b, x, y, 9);
}

/// No cell of a row changes exactly when the row's change count is zero.
pub proof fn lemma_row_changes_zero(b: Board, y: int, columns: int)
    requires
        columns >= 0,
    ensures
        b.row_changes(y, columns) <= columns,
        b.row_changes(y, columns) == 0 <==> forall|x: int| 0 <= x < columns ==> !#[trigger] b.changes_at(x, y),
    decreases columns,
{
    if columns > 0 {
        lemma_row_changes_zero(b, y, columns - 1);
        if b.row_changes(y, columns) == 0 {
            assert forall|x: int| 0 <= x < columns implies !#[trigger] b.changes_at(x, y) by {
                if x < columns - 1 {
                }
            }
        }
    }
}

/// No cell of the first `rows` rows changes exactly when their change count
/// is zero.
pub proof fn lemma_rows_changes_zero(b: Board, rows: int)
    requires
        rows >= 0,
    ensures
        b.rows_changes(rows) == 0 <==> forall|x: int, y: int|
            0 <= x < b.width && 0 <= y < rows ==> !#[trigger] b.changes_at(x, y),
    decreases rows,
{
    if rows > 0 {
        lemma_rows_changes_zero(b, rows - 1);
        lemma_row_changes_zero(b, rows - 1, b.width as int);
        if b.rows_changes(rows) == 0 {
            assert forall|x: int, y: int| 0 <= x < b.width && 0 <= y < rows implies !#[trigger] b.changes_at(x, y) by {
                if y < rows - 1 {
                }
            }
        }
    }
}

/// The change count of a board is zero exactly when no cell changes
/// state: a generation reports a change exactly when its layout changed.
pub proof fn lemma_change_count_zero(b: Board)
    ensures
        b.change_count() == 0 <==> forall|x: int, y: int|
            0 <= x < b.width && 0 <= y < b.height ==> b.next_alive(x, y) == b.alive_at(x, y),
{
    lemma_rows_changes_zero(b, b.height as int);
    if b.change_count() == 0 {
        assert forall|x: int, y: int| 0 <= x < b.width && 0 <= y < b.height implies b.next_alive(x, y) == b.alive_at(x, y) by {
            assert(!b.changes_at(x, y));
        }
    } else {
        assert(exists|x: int, y: int| 0 <= x < b.width && 0 <= y < b.height && #[trigger] b.changes_at(x, y));
    }
}

/// A board whose generation reports no change keeps every cell's state.
pub proof fn lemma_unchanged_board_is_fixed(b: Board)
    requires
        b.wf(),
        b.change_count() == 0,
    ensures
        step(b).alive == b.alive,
{
    lemma_change_count_zero(b);
    assert forall|i: int| 0 <= i < b.alive.len() implies step(b).alive[i] == b.alive[i] by {
        lemma_index_split(i, b.width as int, b.height as int);
        let x = i % (b.width as int);
        let y = i / (b.width as int);
        assert(i == b.index(x, y));
        lemma_wrap_bounds(x, b.width as int);
        lemma_wrap_bounds(y, b.height as int);
    }
    assert(step(b).alive =~= b.alive);
}

#[derive(Debug, Clone, Copy)]
struct Cell {
    alive: bool,
    age: u16,
}

/// A compact, toroidal Conway's Game of Life board.
///
/// Coordinates wrap at every edge, so gliders and other moving patterns do
/// not disappear when they reach the screen boundary.
#[derive(Debug)]
pub struct Life {
    width: usize,
    height: usize,
    cells: Vec<Cell>,
    generation: u64,
    last_changed: bool,
    last_change_count: usize,
}

impl View for Life {
    type V = Board;

    closed spec fn view(&self) -> Board {
        Board {
            width: self.width as nat,
            height: self.height as nat,
            alive: self.cells@.map_values(|c: Cell| c.alive),
            age: self.cells@.map_values(|c: Cell| c.age),
            generation: self.generation,
            last_changed: self.last_changed,
            last_change_count: self.last_change_count,
        }
    }
}

impl Life {
    /// Creates an empty board. Both dimensions are non-zero and fit in an
    /// `isize`, which makes wrapped coordinate arithmetic well-defined, and
    /// the cells fit in one allocation.
    pub fn new(width: usize, height: usize) -> (life: Self)
        requires
            width > 0,
            height > 0,
            width <= isize::MAX,
            height <= isize::MAX,
            width * height <= max_cells(),
        ensures
            life@.wf(),
            life@.width == width,
            life@.height == height,
            forall|i: int| 0 <= i < life@.alive.len() ==> !#[trigger] life@.alive[i],
            life@.generation == 0,
            !life@.last_changed,
            life@.last_change_count == 0,
    {
        let cell_count = width * height;
        let cells = vec![Cell { alive: false, age: 0 }; cell_count];
        let life = Life {
            width,
            height,
            cells,
            generation: 0,
            last_changed: false,
            last_change_count: 0,
        };
        assert forall|i: int| 0 <= i < life@.alive.len() implies !#[trigger] life@.alive[i] && life@.age[i] == 0 by {
            assert(cloned(Cell { alive: false, age: 0 }, cells@[i]));
        }
        life
    }

    /// Board width in cells.
    pub fn width(&self) -> (w: usize)
        ensures
            w == self@.width,
    {
        self.width
    }

    /// Board height in cells.
    pub fn height(&self) -> (h: usize)
        ensures
            h == self@.height,
    {
        self.height
    }

    /// The number of generations since the last seed.
    pub fn generation(&self) -> (g: u64)
        ensures
            g == self@.generation,
    {
        self.generation
    }

    /// The number of cells that changed state in the previous generation.
    pub fn last_change_count(&self) -> (c: usize)
        ensures
            c == self@.last_change_count,
    {
        self.last_change_count
    }

    fn live_neighbour_count(&self, x: usize, y: usize) -> (count: u8)
        requires
            self@.wf(),
            x < self@.width,
            y < self@.height,
        ensures
            count == self@.neighbours(x as int, y as int),
    {
        let x = x as isize;
        let y = y as isize;
        let mut count: u8 = 0;
        let mut k: usize = 0;
        while k < 9
            invariant
                self@.wf(),
                0 <= x < self@.width,
                0 <= y < self@.height,
                k <= 9,
                count <= k,
                count == self@.partial_neighbours(x as int, y as int, k as int),
            decreases 9 - k,
        {
            if k != 4 {
                let offset_x = (k % 3) as isize - 1;
                let offset_y = (k / 3) as isize - 1;
                if self.is_alive(x + offset_x, y + offset_y) {
                    count += 1;
                }
            }
            k += 1;
        }
        count
    }

    /// Whether the in-bounds cell lives in the next generation under
    /// Conway's B3/S23 rule.
    pub fn will_be_alive_at(&self, x: usize, y: usize) -> (alive: bool)
        requires
            self@.wf(),
            x < self@.width,
            y < self@.height,
        ensures
            alive == self@.next_alive(x as int, y as int),
    {
        let neighbours = self.live_neighbour_count(x, y);
        neighbours == 3 || (self.is_alive_at(x, y) && neighbours == 2)
    }

    /// Sets a cell's state: a live cell gets age one, a dead cell age zero.
    pub fn set_alive(&mut self, x: usize, y: usize, alive: bool)
        requires
            old(self)@.wf(),
            x < old(self)@.width,
            y < old(self)@.height,
        ensures
            final(self)@.wf(),
            final(self)@ == (Board {
                alive: old(self)@.alive.update(old(self)@.index(x as int, y as int), alive),
                age: old(self)@.age.update(
                    old(self)@.index(x as int, y as int),
                    if alive {
                        1u16
                    } else {
                        0u16
                    },
                ),
                ..old(self)@
            }),
    {
        let index = self.index(x, y);
        let age: u16 = if alive {
            1
        } else {
            0
        };
        self.cells.set(index, Cell { alive, age });
        assert(self@.alive =~= old(self)@.alive.update(index as int, alive));
        assert(self@.age =~= old(self)@.age.update(index as int, age));
    }

    /// Seeds the whole board from the generator: each cell, in row-major
    /// order, draws one number and lives when it falls below `threshold`
    /// out of 2^23, the density scaled to the generator's resolution.
    pub fn seed_random(&mut self, rng: &mut Rng, threshold: u32)
        requires
            old(self)@.wf(),
        ensures
            final(self)@.wf(),
            final(self)@.width == old(self)@.width,
            final(self)@.height == old(self)@.height,
            final(self)@.alive == seeded(old(rng)@, threshold, old(self)@.alive.len()),
            forall|i: int|
                0 <= i < final(self)@.age.len() ==> #[trigger] final(self)@.age[i] == if final(self)@.alive[i] {
                    1u16
                } else {
                    0u16
                },
            final(rng)@ == state_after(old(rng)@, old(self)@.alive.len()),
            final(self)@.generation == 0,
            final(self)@.last_changed,
            final(self)@.last_change_count == 0,
            final(self)@ == reseeded(old(self)@, old(rng)@, threshold),
    {
        let ghost start = rng@;
        let mut i: usize = 0;
        assert forall|j: int| 0 <= j < self.cells@.len() implies (#[trigger] self.cells@[j].alive
            <==> self.cells@[j].age > 0) by {
            assert(old(self)@.alive[j] == self.cells@[j].alive);
        }
        while i < self.cells.len()
            invariant
                self.cells@.len() == old(self).cells@.len(),
                self.width == old(self).width,
                self.height == old(self).height,
                self.generation == old(self).generation,
                self.last_changed == old(self).last_changed,
                self.last_change_count == old(self).last_change_count,
                old(self)@.wf(),
                i <= self.cells@.len(),
                rng@ == state_after(start, i as nat),
                forall|j: int|
                    0 <= j < i ==> #[trigger] self.cells@[j].alive == seeded(start, threshold, self.cells@.len())[j],
                forall|j: int|
                    0 <= j < i ==> #[trigger] self.cells@[j].age == if self.cells@[j].alive {
                        1u16
                    } else {
                        0u16
                    },
                forall|j: int|
                    0 <= j < self.cells@.len() ==> (#[trigger] self.cells@[j].alive
                        <==> self.cells@[j].age > 0),
            decreases self.cells@.len() - i,
        {
            let alive = rng.next_mantissa() < threshold;
            let age: u16 = if alive {
                1
            } else {
                0
            };
            self.cells.set(i, Cell { alive, age });
            i += 1;
        }
        self.generation = 0;
        self.last_changed = true;
        self.last_change_count = 0;
        assert(self@.alive =~= seeded(start, threshold, old(self)@.alive.len()));
        assert(self@.age =~= reseeded(old(self)@, start, threshold).age);
    }

    /// Counts currently live cells.
    pub fn alive_count(&self) -> (count: usize)
        requires
            self@.wf(),
        ensures
            count == self@.population(),
    {
        let mut count: usize = 0;
        let mut i: usize = 0;
        while i < self.cells.len()
            invariant
                i <= self.cells@.len(),
                count <= i,
                count == count_true(self@.alive.subrange(0, i as int)),
            decreases self.cells@.len() - i,
        {
            assert(self@.alive.subrange(0, i + 1).drop_last() =~= self@.alive.subrange(0, i as int));
            if self.cells[i].alive {
                count += 1;
            }
            i += 1;
        }
        assert(self@.alive.subrange(0, i as int) =~= self@.alive);
        count
    }

    /// Advances the board by one generation, returning whether its layout
    /// changed. Conway's classic B3/S23 rules are applied.
    pub fn tick(&mut self) -> (changed: bool)
        requires
            old(self)@.wf(),
        ensures
            final(self)@.wf(),
            final(self)@.generation == sat_inc_u64(old(self)@.generation),
            final(self)@.last_change_count == old(self)@.change_count(),
            final(self)@.last_changed == (old(self)@.change_count() > 0),
            changed == final(self)@.last_changed,
            final(self)@ == step(old(self)@),
    {
        let ghost board = self@;
        let mut next: Vec<Cell> = Vec::with_capacity(self.cells.len());
        let mut change_count: usize = 0;
        let mut y: usize = 0;
        while y < self.height
            invariant
                self@ == board,
                board.wf(),
                y <= board.height,
                next@.len() == y * board.width,
                change_count <= next@.len(),
                change_count == board.rows_changes(y as int),
                forall|j: int|
                    0 <= j < next@.len() ==> (#[trigger] next@[j].alive <==> next@[j].age > 0),
                forall|cx: int, cy: int|
                    0 <= cx < board.width && 0 <= cy < y ==> {
                        &&& #[trigger] next@[board.index(cx, cy)].alive == board.next_alive(cx, cy)
                        &&& next@[board.index(cx, cy)].age == board.next_age(cx, cy)
                    },
            decreases board.height - y,
        {
            let ghost row_start = next@;
            let mut x: usize = 0;
            while x < self.width
                invariant
                    self@ == board,
                    board.wf(),
                    y < board.height,
                    x <= board.width,
                    next@.len() == y * board.width + x,
                    row_start.len() == y * board.width,
                    forall|j: int| 0 <= j < row_start.len() ==> next@[j] == row_start[j],
                    change_count <= next@.len(),
                    change_count == board.rows_changes(y as int) + board.row_changes(y as int, x as int),
                    forall|j: int|
                        0 <= j < next@.len() ==> (#[trigger] next@[j].alive <==> next@[j].age > 0),
                    forall|cx: int|
                        0 <= cx < x ==> {
                            &&& #[trigger] next@[board.index(cx, y as int)].alive == board.next_alive(cx, y as int)
                            &&& next@[board.index(cx, y as int)].age == board.next_age(cx, y as int)
                        },
                decreases board.width - x,
            {
                let current = self.cells[self.index(x, y)];
                let alive = self.will_be_alive_at(x, y);
                proof {
                    lemma_wrap_bounds(x as int, board.width as int);
                    lemma_wrap_bounds(y as int, board.height as int);
                }
                if alive != current.alive {
                    change_count += 1;
                }
                let age: u16 = if alive {
                    if current.alive {
                        current.age.saturating_add(1)
                    } else {
                        1
                    }
                } else {
                    0
                };
                next.push(Cell { alive, age });
                x += 1;
            }
            proof {
                assert forall|cx: int, cy: int|
                    0 <= cx < board.width && 0 <= cy < y + 1 implies {
                        &&& #[trigger] next@[board.index(cx, cy)].alive == board.next_alive(cx, cy)
                        &&& next@[board.index(cx, cy)].age == board.next_age(cx, cy)
                    } by {
                    if cy < y {
                        lemma_earlier_row(board.width as int, cx, cy, y as int);
                        lemma_index_bounds(board.width as int, board.height as int, cx, cy);
                        assert(next@[board.index(cx, cy)] == row_start[board.index(cx, cy)]);
                    } else {
                        assert(cy == y);
                        assert(next@[board.index(cx, y as int)].alive == board.next_alive(cx, y as int));
                    }
                }
                assert((y + 1) * board.width == y * board.width + board.width) by (nonlinear_arith);
            }
            y += 1;
        }
        proof {
            vstd::arithmetic::mul::lemma_mul_is_commutative(board.width as int, board.height as int);
            assert(next@.len() == board.alive.len());
        }
        self.cells = next;
        self.generation = self.generation.saturating_add(1);
        self.last_changed = change_count > 0;
        self.last_change_count = change_count;
        assert forall|cx: int, cy: int|
            0 <= cx < board.width && 0 <= cy < board.height implies {
                &&& #[trigger] self@.alive[board.index(cx, cy)] == board.next_alive(cx, cy)
                &&& self@.age[board.index(cx, cy)] == board.next_age(cx, cy)
            } by {
            lemma_index_bounds(board.width as int, board.height as int, cx, cy);
            assert(self.cells@[board.index(cx, cy)].alive == board.next_alive(cx, cy));
        }
        proof {
            let w = board.width as int;
            let h = board.height as int;
            let next = step(board);
            assert forall|i: int| 0 <= i < board.alive.len() implies self@.alive[i] == next.alive[i]
                && self@.age[i] == next.age[i] by {
                lemma_index_split(i, w, h);
                let cx = i % w;
                let cy = i / w;
                assert(board.index(cx, cy) == i);
                assert(self@.alive[board.index(cx, cy)] == board.next_alive(cx, cy));
            }
            assert(self@.alive =~= next.alive);
            assert(self@.age =~= next.age);
        }
        self.last_changed
    }

    fn index(&self, x: usize, y: usize) -> (i: usize)
        requires
            self@.wf(),
            x < self@.width,
            y < self@.height,
        ensures
            i == self@.index(x as int, y as int),
            i < self.cells@.len(),
    {
        proof {
            lemma_index_bounds(self.width as int, self.height as int, x as int, y as int);
        }
        y * self.width + x
    }

    fn index_wrapped(&self, x: isize, y: isize) -> (i: usize)
        requires
            self@.wf(),
        ensures
            i == self@.wrapped_index(x as int, y as int),
            i < self.cells@.len(),
    {
        let wrapped_x = x.checked_rem_euclid(self.width as isize).unwrap();
        let wrapped_y = y.checked_rem_euclid(self.height as isize).unwrap();
        proof {
            lemma_wrap_bounds(x as int, self.width as int);
            lemma_wrap_bounds(y as int, self.height as int);
        }
        self.index(wrapped_x as usize, wrapped_y as usize)
    }

    /// Returns whether a cell is alive. Coordinates wrap around the board.
    pub fn is_alive(&self, x: isize, y: isize) -> (alive: bool)
        requires
            self@.wf(),
        ensures
            alive == self@.alive_at(x as int, y as int),
    {
        self.cells[self.index_wrapped(x, y)].alive
    }

    /// Returns whether the in-bounds cell is alive.
    pub fn is_alive_at(&self, x: usize, y: usize) -> (alive: bool)
        requires
            self@.wf(),
            x < self@.width,
            y < self@.height,
        ensures
            alive == self@.alive[self@.index(x as int, y as int)],
            alive == self@.alive_at(x as int, y as int),
    {
        proof {
            lemma_wrap_bounds(x as int, self.width as int);
            lemma_wrap_bounds(y as int, self.height as int);
        }
        self.cells[self.index(x, y)].alive
    }

    /// Returns the age of a live cell; dead cells always have age zero.
    pub fn age(&self, x: usize, y: usize) -> (age: u16)
        requires
            self@.wf(),
            x < self@.width,
            y < self@.height,
        ensures
            age == self@.age[self@.index(x as int, y as int)],
            age == self@.age_at(x as int, y as int),
            age > 0 <==> self@.alive_at(x as int, y as int),
    {
        proof {
            lemma_wrap_bounds(x as int, self.width as int);
            lemma_wrap_bounds(y as int, self.height as int);
        }
        self.cells[self.index(x, y)].age
    }
}

/// One step of the xorshift generator.
pub open spec fn xorshift(state: u64) -> u64 {
    let a = state ^ (state << 13u64);
    let b = a ^ (a >> 7u64);
    b ^ (b << 17u64)
}

/// The generator's state after `steps` steps from `state`.
pub open spec fn state_after(state: u64, steps: nat) -> u64
    decreases steps,
{
    if steps == 0 {
        state
    } else {
        xorshift(state_after(state, (steps - 1) as nat))
    }
}

/// The cells a generator in `state` seeds: the cell at position `i` lives
/// when the top 23 bits of the state after `i + 1` steps fall below
/// `threshold`.
pub open spec fn seeded(state: u64, threshold: u32, cells: nat) -> Seq<bool> {
    Seq::new(cells, |i: int| (state_after(state, (i + 1) as nat) >> 41u64) < threshold)
}

/// xorshift never reaches the all-zero state from any other state, so a
/// generator seeded with a non-zero value keeps advancing.
pub proof fn lemma_xorshift_nonzero(state: u64)
    requires
        state != 0,
    ensures
        xorshift(state) != 0,
{
    let a = state ^ (state << 13u64);
    let b = a ^ (a >> 7u64);
    assert(state != 0 ==> state ^ (state << 13u64) != 0) by (bit_vector);
    assert(a != 0 ==> a ^ (a >> 7u64) != 0) by (bit_vector);
    assert(b != 0 ==> b ^ (b << 17u64) != 0) by (bit_vector);
}

/// Tiny xorshift generator: reproducible, dependency-free, and entirely
/// sufficient for scattering initial Life cells.
#[derive(Debug, Clone, Copy)]
pub struct Rng(u64);

impl View for Rng {
    type V = u64;

    closed spec fn view(&self) -> u64 {
        self.0
    }
}

impl Rng {
    /// Constructs a generator. A zero seed is adjusted because xorshift's
    /// all-zero internal state cannot advance.
    pub fn new(seed: u64) -> (rng: Self)
        ensures
            rng@ == if seed == 0 {
                ZERO_SEED_REPLACEMENT
            } else {
                seed
            },
            rng@ != 0,
    {
        Rng(
            if seed == 0 {
                ZERO_SEED_REPLACEMENT
            } else {
                seed
            },
        )
    }

    /// Advances the generator by one xorshift step and returns the top 23
    /// bits of the new state: the mantissa of a uniformly distributed number
    /// in `[1.0, 2.0)`.
    pub fn next_mantissa(&mut self) -> (mantissa: u32)
        ensures
            final(self)@ == xorshift(old(self)@),
            mantissa == final(self)@ >> 41u64,
            mantissa < 0x80_0000,
            old(self)@ != 0 ==> final(self)@ != 0,
    {
        proof {
            if self.0 != 0 {
                lemma_xorshift_nonzero(self.0);
            }
        }
        self.0 = self.0 ^ (self.0 << 13u64);
        self.0 = self.0 ^ (self.0 >> 7u64);
        self.0 = self.0 ^ (self.0 << 17u64);
        let state = self.0;
        assert(state >> 41u64 < 0x80_0000) by (bit_vector);
        (state >> 41u64) as u32
    }
}

impl Clone for Life {
    fn clone(&self) -> (copy: Self)
        ensures
            copy@ == self@,
    {
        let cells = self.cells.clone();
        assert(cells@ =~= self.cells@);
        Life {
            width: self.width,
            height: self.height,
            cells,
            generation: self.generation,
            last_changed: self.last_changed,
            last_change_count: self.last_change_count,
        }
    }
}

} // verus!
