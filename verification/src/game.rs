//! The board, the falling piece on it, and the game that moves it.
use vstd::prelude::*;
use crate::pieces::{
    next_ori, ori_even, rot_cell, well_shaped, lemma_spawned_shaped, lemma_rotated_shaped, lemma_shifted_shaped,
    lemma_lowered_shaped, lemma_column_joined, turn_exact, law_shift_back, law_four_turns, blank_mino,    black, black_color, can_lower, can_step, cell, cell_x, cell_y, color_list, cord_list, cord_offsets,
    dealt, lowered, random_word, CORD_NUM, lemma_offsets_small, shape_of_word, spawned, rot_x, rot_y, rotated, shape_color, shifted, spawn_cell, Mino, Orientation, Shape,
};

verus! {

/// Number of columns of the board.
pub const B_LEN: usize = 10;
/// Number of rows of the board, the two hidden rows at the top included.
pub const B_HEI: usize = 22;
/// Number of pieces shown ahead.
pub const NUM_MINOS: usize = 3;
/// The highest level.
pub const MAX_LEVEL: usize = 19;

/// What occupies a cell of the board.
#[derive(PartialEq, Eq, Structural, Copy, Clone, Debug)]
pub enum State {
    Empty,
    Falling,
    Placed,
    Phantom,
}

impl Default for State {
    fn default() -> (r: Self)
        ensures
            r == State::Empty,
    {
        State::Empty
    }
}

/// A cell of the board: what occupies it and the color it is drawn in.
#[derive(Copy, Clone)]
pub struct Block {
    /// What occupies the cell.
    pub state: State,
    pub color: [u8; 3],
}

impl Default for Block {
    fn default() -> (r: Self)
        ensures
            r == empty_block(),
    {
        Block { state: State::Empty, color: [0, 0, 0] }
    }
}

impl Block {
    /// What occupies the cell.
    pub open spec fn kind(self) -> State {
        self.state
    }

    /// The color of the cell.
    pub open spec fn shade(self) -> [u8; 3] {
        self.color
    }

    /// What occupies the cell.
    pub fn state(&self) -> (r: State)
        ensures
            r == self.kind(),
    {
        self.state
    }

    /// A cell of the given kind and color.
    pub fn with_state(state: State, color: [u8; 3]) -> (r: Block)
        ensures
            r.kind() == state,
            r.shade() == color,
    {
        Block { state, color }
    }

    /// Whether a piece has come to rest in the cell.
    pub fn is_placed(&self) -> (r: bool)
        ensures
            r == (self.kind() == State::Placed),
    {
        self.state == State::Placed
    }
}

/// The board: ten columns of twenty-two cells, row 0 at the bottom.
pub type Board = [[Block; 22]; 10];

/// A board as a function of column and row; off the board it reads as empty.
pub type Grid = spec_fn(int, int) -> Block;

/// The cell `(x, y)` lies on the board.
pub open spec fn on_board(x: int, y: int) -> bool {
    0 <= x < 10 && 0 <= y < 22
}

/// An empty black cell.
pub open spec fn empty_block() -> Block {
    Block { state: State::Empty, color: black() }
}

/// A cell of the given kind and color.
pub open spec fn block_of(s: State, c: [u8; 3]) -> Block {
    Block { state: s, color: c }
}

/// The board as a grid.
pub open spec fn grid(b: Board) -> Grid {
    |x: int, y: int| if on_board(x, y) { b[x][y] } else { empty_block() }
}

/// A board where every cell is empty and black.
pub open spec fn empty_grid() -> Grid {
    |x: int, y: int| empty_block()
}

/// The grid with the cell `(x, y)` replaced by `blk`.
pub open spec fn with_block(g: Grid, x: int, y: int, blk: Block) -> Grid {
    |a: int, b: int| if a == x && b == y && on_board(a, b) { blk } else { g(a, b) }
}

/// A piece has come to rest in cell `(x, y)`.
pub open spec fn placed(g: Grid, x: int, y: int) -> bool {
    g(x, y).state == State::Placed
}

/// How far a cell at row `y` of column `x` can fall when the rows from `j`
/// down have still to be searched for a resting piece.
pub open spec fn gap_below(g: Grid, x: int, y: int, j: int) -> int
    decreases j + 1,
{
    if j < 0 {
        y
    } else if placed(g, x, j) {
        y - (j + 1)
    } else {
        gap_below(g, x, y, j - 1)
    }
}

/// How far a cell at row `y` of column `x` can fall: down to the row above
/// the highest resting cell below it, or to row 0.
pub open spec fn col_drop(g: Grid, x: int, y: int) -> int {
    gap_below(g, x, y, y - 1)
}

/// Cell `k` counts for the drop distance: the center, and every other cell
/// but those in the center's column at or above it.
pub open spec fn counts_for_drop(m: Mino, k: int) -> bool {
    k == 0 || cell_x(m, k) != cell_x(m, 0) || cell_y(m, k) < cell_y(m, 0)
}

/// The least fall of cells `0..n` that count.
pub open spec fn drop_upto(g: Grid, m: Mino, n: int) -> int
    decreases n,
{
    if n <= 1 {
        col_drop(g, cell_x(m, 0), cell_y(m, 0))
    } else {
        let d = drop_upto(g, m, n - 1);
        let e = col_drop(g, cell_x(m, n - 1), cell_y(m, n - 1));
        if counts_for_drop(m, n - 1) && e < d {
            e
        } else {
            d
        }
    }
}

/// How many rows the piece falls when dropped.
pub open spec fn drop_dist(g: Grid, m: Mino) -> int {
    drop_upto(g, m, 4)
}

/// Every cell of the piece lies on the board.
pub open spec fn in_board(m: Mino) -> bool {
    forall|k: int| 0 <= k < 4 ==> on_board(#[trigger] cell_x(m, k), cell_y(m, k))
}

/// Cells of a falling piece and of its shadow turn empty and black.
pub open spec fn clear_transient(g: Grid) -> Grid {
    |x: int, y: int|
        if on_board(x, y) && (g(x, y).state == State::Falling || g(x, y).state == State::Phantom) {
            empty_block()
        } else {
            g(x, y)
        }
}

/// Where write `i` of a repaint goes: write `2k` marks the shadow of cell `k`,
/// `d` rows below it, and write `2k + 1` marks cell `k` itself.
pub open spec fn paint_x(m: Mino, i: int) -> int {
    cell_x(m, i / 2)
}

/// The row of write `i` of a repaint.
pub open spec fn paint_y(m: Mino, d: int, i: int) -> int {
    if i % 2 == 0 {
        cell_y(m, i / 2) - d
    } else {
        cell_y(m, i / 2)
    }
}

/// What write `i` of a repaint marks.
pub open spec fn paint_kind(i: int) -> State {
    if i % 2 == 0 {
        State::Phantom
    } else {
        State::Falling
    }
}

/// The grid after the first `n` writes of a repaint, in the piece's color.
pub open spec fn painted(g: Grid, m: Mino, d: int, n: int) -> Grid
    decreases n,
{
    if n <= 0 {
        g
    } else {
        with_block(
            painted(g, m, d, n - 1),
            paint_x(m, n - 1),
            paint_y(m, d, n - 1),
            block_of(paint_kind(n - 1), color_list(m.shape)),
        )
    }
}

/// The board redrawn around the piece `m`: the old piece and shadow are
/// erased, then for each cell of `m` in turn its shadow, where it would land
/// if dropped, and the cell itself are marked in the piece's color.
pub open spec fn repaint(g: Grid, m: Mino) -> Grid {
    painted(clear_transient(g), m, drop_dist(g, m), 8)
}

/// Writes `blk` into cell `(x, y)` of the board.
fn set_cell(board: &mut Board, x: usize, y: usize, blk: Block)
    requires
        x < 10,
        y < 22,
    ensures
        grid(*final(board)) == with_block(grid(*old(board)), x as int, y as int, blk),
{
    board[x][y] = blk;
    assert(grid(*board) =~= with_block(grid(*old(board)), x as int, y as int, blk));
}

proof fn lemma_gap_below_bounds(g: Grid, x: int, y: int, j: int)
    requires
        -1 <= j < y,
    ensures
        0 <= gap_below(g, x, y, j) <= y,
    decreases j + 1,
{
    if j >= 0 && !placed(g, x, j) {
        lemma_gap_below_bounds(g, x, y, j - 1);
    }
}

proof fn lemma_col_drop_bounds(g: Grid, x: int, y: int)
    requires
        0 <= y,
    ensures
        0 <= col_drop(g, x, y) <= y,
{
    lemma_gap_below_bounds(g, x, y, y - 1);
}

proof fn lemma_drop_upto(g: Grid, m: Mino, n: int)
    requires
        1 <= n <= 4,
    ensures
        0 <= drop_upto(g, m, n) <= col_drop(g, cell_x(m, 0), cell_y(m, 0)),
        forall|k: int|
            0 <= k < n && counts_for_drop(m, k) ==> drop_upto(g, m, n) <= #[trigger] col_drop(
                g,
                cell_x(m, k),
                cell_y(m, k),
            ),
    decreases n,
{
    lemma_col_drop_bounds(g, cell_x(m, 0), cell_y(m, 0));
    if n > 1 {
        lemma_drop_upto(g, m, n - 1);
        lemma_col_drop_bounds(g, cell_x(m, n - 1), cell_y(m, n - 1));
    }
}

/// A dropped piece moves down no further than any of its cells can go, and
/// every cell stays at or above row 0.
proof fn lemma_drop_dist_bounds(g: Grid, m: Mino)
    ensures
        0 <= drop_dist(g, m),
        forall|k: int| 0 <= k < 4 ==> drop_dist(g, m) <= #[trigger] cell_y(m, k),
        forall|k: int|
            0 <= k < 4 && counts_for_drop(m, k) ==> drop_dist(g, m) <= #[trigger] col_drop(
                g,
                cell_x(m, k),
                cell_y(m, k),
            ),
{
    lemma_drop_upto(g, m, 4);
    lemma_col_drop_bounds(g, cell_x(m, 0), cell_y(m, 0));
    assert forall|k: int| 0 <= k < 4 implies drop_dist(g, m) <= #[trigger] cell_y(m, k) by {
        if counts_for_drop(m, k) {
            lemma_col_drop_bounds(g, cell_x(m, k), cell_y(m, k));
        }
    }
}

/// Cell `c + 1` of the piece, once turned, lies on the board and is free.
pub open spec fn rot_ok(g: Grid, m: Mino, c: int) -> bool {
    on_board(rot_x(m, c), rot_y(m, c)) && !placed(g, rot_x(m, c), rot_y(m, c))
}

/// Cell `c + 1` of the piece, once turned, lands in a column of the board but
/// above its top row.
pub open spec fn rot_above(m: Mino, c: int) -> bool {
    0 <= rot_x(m, c) < 10 && rot_y(m, c) >= 22
}

/// Testing whether the piece may turn reads a cell above the top row: the
/// piece is no O piece, and the first of its turned cells that is not on the
/// board and free lands above the top row.
pub open spec fn rotation_faults(g: Grid, m: Mino) -> bool {
    &&& !(m.shape is ShapeO)
    &&& exists|c: int|
        0 <= c < 3 && #[trigger] rot_above(m, c) && forall|j: int| 0 <= j < c ==> rot_ok(g, m, j)
}

/// The piece may turn: it is no O piece and every turned cell lies on the
/// board and is free.
pub open spec fn rotation_allowed(g: Grid, m: Mino) -> bool {
    !(m.shape is ShapeO) && forall|c: int| 0 <= c < 3 ==> rot_ok(g, m, c)
}

/// One column right (`dir`) or left.
pub open spec fn step(dir: bool) -> int {
    if dir {
        1
    } else {
        -1
    }
}

/// Cell `k` of the piece, moved one column, lies on the board and is free.
pub open spec fn step_ok(g: Grid, m: Mino, dir: bool, k: int) -> bool {
    on_board(cell_x(m, k) + step(dir), cell_y(m, k)) && !placed(g, cell_x(m, k) + step(dir), cell_y(m, k))
}

/// The piece may move one column right (`dir`) or left.
pub open spec fn shift_allowed(g: Grid, m: Mino, dir: bool) -> bool {
    forall|k: int| 0 <= k < 4 ==> step_ok(g, m, dir, k)
}

/// Cell `k` does not keep the piece from falling: it stands in the center's
/// column above the center, or the cell below it is on the board and holds no
/// resting piece.
pub open spec fn fall_ok(g: Grid, m: Mino, k: int) -> bool {
    ||| (cell_x(m, k) == cell_x(m, 0) && cell_y(m, k) > cell_y(m, 0))
    ||| (cell_y(m, k) >= 1 && !placed(g, cell_x(m, k), cell_y(m, k) - 1))
}

/// The piece may fall one row.
pub open spec fn fall_allowed(g: Grid, m: Mino) -> bool {
    forall|k: int| 0 <= k < 4 ==> fall_ok(g, m, k)
}

/// `(x, y)` is one of cells `0..n` of the piece.
pub open spec fn cell_among(m: Mino, x: int, y: int, n: int) -> bool {
    exists|k: int| 0 <= k < n && #[trigger] cell_x(m, k) == x && cell_y(m, k) == y
}

/// The cells of the piece come to rest, keeping their colors.
pub open spec fn place_cells(g: Grid, m: Mino) -> Grid {
    |x: int, y: int|
        if on_board(x, y) && cell_among(m, x, y, 4) {
            block_of(State::Placed, g(x, y).color)
        } else {
            g(x, y)
        }
}

/// Every row from `bottom` up to the next-to-top takes the content of the row
/// above it; the top row stays as it is.
pub open spec fn shift_down(g: Grid, bottom: int) -> Grid {
    |x: int, y: int|
        if on_board(x, y) && bottom <= y < 21 {
            g(x, y + 1)
        } else {
            g(x, y)
        }
}

/// Every cell of row `j` holds a resting piece.
pub open spec fn row_full(g: Grid, j: int) -> bool {
    forall|x: int| 0 <= x < 10 ==> placed(g, x, j)
}

/// Scanning up from row `j` with `n` rows cleared so far: a full row is
/// removed and the rows above move down, then the same row is looked at
/// again; the scan stops after the top row or once four rows are cleared.
/// Gives the grid and the number of rows cleared.
pub open spec fn cleared_from(g: Grid, j: int, n: int) -> (Grid, int)
    decreases 4 - n, 22 - j,
{
    if j < 0 || j >= 22 || n >= 4 {
        (g, n)
    } else if row_full(g, j) {
        cleared_from(shift_down(g, j), j, n + 1)
    } else {
        cleared_from(g, j + 1, n)
    }
}

/// The grid after full rows are cleared, and how many were.
pub open spec fn cleared(g: Grid) -> (Grid, int) {
    cleared_from(g, 0, 0)
}

/// The level once `lines` lines have been cleared at level `level`: one up,
/// at most to the highest, when `lines` reaches four times the level plus one.
pub open spec fn next_level(level: int, lines: int) -> int {
    if lines / (4 * (level + 1)) != 0 {
        if level + 1 < 19 {
            level + 1
        } else {
            19
        }
    } else {
        level
    }
}

/// A count divided by a positive multiple of four is nonzero exactly when the
/// count reaches that multiple.
proof fn lemma_quotient_nonzero(n: int, level: int)
    by (nonlinear_arith)
    requires
        0 <= n,
        0 <= level,
    ensures
        (n / (4 * (level + 1)) != 0) == (n >= 4 * (level + 1)),
{
}

/// Ticks between two falls of a piece at a level.
pub open spec fn drop_ticks_for(level: int) -> int {
    if level < 10 {
        30 - 2 * level
    } else {
        20 - level
    }
}

proof fn lemma_cleared_count(g: Grid, j: int, n: int)
    requires
        0 <= n <= 4,
    ensures
        n <= cleared_from(g, j, n).1 <= 4,
    decreases 4 - n, 22 - j,
{
    if j < 0 || j >= 22 || n >= 4 {
    } else if row_full(g, j) {
        lemma_cleared_count(shift_down(g, j), j, n + 1);
    } else {
        lemma_cleared_count(g, j + 1, n);
    }
}

/// The cells of the piece come to rest on the board.
fn place_piece(board: &mut Board, m: Mino)
    requires
        in_board(m),
    ensures
        grid(*final(board)) == place_cells(grid(*old(board)), m),
{
    let ghost g0 = grid(*board);
    assert(on_board(cell_x(m, 0), cell_y(m, 0)));
    let x = m.center[0] as usize;
    let y = m.center[1] as usize;
    board[x][y].state = State::Placed;
    assert forall|a: int, b: int| on_board(a, b) implies #[trigger] board[a][b] == if cell_among(m, a, b, 1) {
        block_of(State::Placed, g0(a, b).color)
    } else {
        g0(a, b)
    } by {
        if cell_among(m, a, b, 1) {
            let k = choose|k: int| 0 <= k < 1 && #[trigger] cell_x(m, k) == a && cell_y(m, k) == b;
            assert(k == 0);
        } else {
            assert(!(cell_x(m, 0) == a && cell_y(m, 0) == b));
        }
    }
    let mut i: usize = 0;
    while i < CORD_NUM
        invariant
            0 <= i <= 3,
            in_board(m),
            forall|a: int, b: int|
                on_board(a, b) ==> #[trigger] board[a][b] == if cell_among(m, a, b, i + 1) {
                    block_of(State::Placed, g0(a, b).color)
                } else {
                    g0(a, b)
                },
        decreases 3 - i,
    {
        let ghost prev = *board;
        assert(on_board(cell_x(m, i + 1), cell_y(m, i + 1)));
        let x = m.cords[i][0] as usize;
        let y = m.cords[i][1] as usize;
        board[x][y].state = State::Placed;
        assert forall|a: int, b: int| on_board(a, b) implies #[trigger] board[a][b] == if cell_among(m, a, b, i + 2) {
            block_of(State::Placed, g0(a, b).color)
        } else {
            g0(a, b)
        } by {
            if a == x && b == y {
                assert(cell_x(m, i + 1) == a && cell_y(m, i + 1) == b);
                assert(cell_among(m, a, b, i + 2));
                assert(prev[a][b].color == g0(a, b).color);
            } else {
                assert(board[a][b] == prev[a][b]);
                if cell_among(m, a, b, i + 2) {
                    let k = choose|k: int| 0 <= k < i + 2 && #[trigger] cell_x(m, k) == a && cell_y(m, k) == b;
                    assert(k != i + 1);
                    assert(cell_among(m, a, b, i + 1));
                } else {
                    assert forall|k: int| 0 <= k < i + 1 implies !(#[trigger] cell_x(m, k) == a && cell_y(m, k) == b) by {
                        assert(!(0 <= k < i + 2 && cell_x(m, k) == a && cell_y(m, k) == b));
                    }
                }
            }
        }
        i += 1;
    }
    assert(grid(*board) =~= place_cells(g0, m));
}

/// Every row from `bottom` up to the next-to-top takes the content of the row
/// above it.
fn all_down_one(board: &mut Board, bottom: usize)
    ensures
        grid(*final(board)) == shift_down(grid(*old(board)), bottom as int),
{
    let ghost g0 = grid(*board);
    let mut i: usize = 0;
    while i < B_LEN
        invariant
            0 <= i <= 10,
            forall|x: int, y: int|
                on_board(x, y) ==> #[trigger] board[x][y] == if x < i {
                    shift_down(g0, bottom as int)(x, y)
                } else {
                    g0(x, y)
                },
        decreases 10 - i,
    {
        let mut j: usize = bottom;
        while j < B_HEI - 1
            invariant
                0 <= i < 10,
                bottom <= j,
                j <= 21 || j == bottom,
                forall|x: int, y: int|
                    on_board(x, y) ==> #[trigger] board[x][y] == if x < i || (x == i && y < j) {
                        shift_down(g0, bottom as int)(x, y)
                    } else {
                        g0(x, y)
                    },
            decreases 21 - j,
        {
            assert(board[i as int][j + 1] == g0(i as int, j + 1));
            board[i][j] = board[i][j + 1];
            j += 1;
        }
        i += 1;
    }
    assert(grid(*board) =~= shift_down(g0, bottom as int));
}

/// Clears full rows, scanning up from the bottom, at most four of them;
/// gives how many were cleared.
fn clear_full_rows(board: &mut Board) -> (n: usize)
    ensures
        (grid(*final(board)), n as int) == cleared(grid(*old(board))),
        n <= 4,
{
    let ghost g0 = grid(*board);
    proof {
        lemma_cleared_count(g0, 0, 0);
    }
    let mut num_rows: usize = 0;
    let mut j: usize = 0;
    while j < B_HEI && num_rows < 4
        invariant
            j <= 22,
            num_rows <= 4,
            cleared(g0) == cleared_from(grid(*board), j as int, num_rows as int),
        decreases (4 - num_rows) * 23 + (22 - j),
    {
        let ghost g = grid(*board);
        let mut is_filled: bool = true;
        let mut i: usize = 0;
        while i < B_LEN && is_filled
            invariant
                0 <= i <= 10,
                j < 22,
                g == grid(*board),
                is_filled ==> forall|x: int| 0 <= x < i ==> placed(g, x, j as int),
                !is_filled ==> !row_full(g, j as int),
            decreases 10 - i,
        {
            if board[i][j].state != State::Placed {
                is_filled = false;
                assert(!placed(g, i as int, j as int));
            }
            i += 1;
        }
        j += 1;
        if is_filled {
            j -= 1;
            all_down_one(board, j);
            num_rows += 1;
        }
    }
    proof {
        let r = cleared_from(grid(*board), j as int, num_rows as int);
        assert(r == (grid(*board), num_rows as int));
    }
    num_rows
}

/// Ticks between two falls of a piece at a level.
fn level_ticks(level: usize) -> (t: u16)
    requires
        level <= MAX_LEVEL,
    ensures
        t == drop_ticks_for(level as int),
{
    match level {
        0 => 30,
        1 => 28,
        2 => 26,
        3 => 24,
        4 => 22,
        5 => 20,
        6 => 18,
        7 => 16,
        8 => 14,
        9 => 12,
        10 => 10,
        11 => 9,
        12 => 8,
        13 => 7,
        14 => 6,
        15 => 5,
        16 => 4,
        17 => 3,
        18 => 2,
        _ => 1,
    }
}

/// `(x, y)` is cell `k` of a piece of shape `s` drawn with its center at
/// `(cx, cy)` and pointing as it enters the board.
pub open spec fn shape_cell(s: Shape, cx: int, cy: int, x: int, y: int, k: int) -> bool {
    if k == 0 {
        x == cx && y == cy
    } else {
        x == cx + cord_list(s)[k - 1][0] && y == cy + cord_list(s)[k - 1][1]
    }
}

/// `(x, y)` is one of cells `0..n` of such a drawing.
pub open spec fn in_shape(s: Shape, cx: int, cy: int, x: int, y: int, n: int) -> bool {
    exists|k: int| 0 <= k < n && #[trigger] shape_cell(s, cx, cy, x, y, k)
}

/// The color of cell `(x, y)` of the panel of coming pieces once the first
/// `n` of them are drawn, the `j`-th with its center at column 1 and row
/// `7 - 3 j`; a later piece covers an earlier one.
pub open spec fn next_panel(ms: [Mino; 3], n: int, x: int, y: int) -> [u8; 3]
    decreases n,
{
    if n <= 0 {
        black()
    } else if in_shape(ms[n - 1].shape, 1, 7 - 3 * (n - 1), x, y, 4) {
        color_list(ms[n - 1].shape)
    } else {
        next_panel(ms, n - 1, x, y)
    }
}

/// The color of cell `(x, y)` of the panel of the held piece, drawn with its
/// center at column 1 and row 1 when there is one.
pub open spec fn held_panel(holding: bool, h: Mino, x: int, y: int) -> [u8; 3] {
    if holding && in_shape(h.shape, 1, 1, x, y, 4) {
        color_list(h.shape)
    } else {
        black()
    }
}

/// A piece at the entry position lies on the board.
pub proof fn lemma_spawned_in_board(s: Shape, ori: Orientation)
    ensures
        in_board(spawned(s, ori)),
{
    lemma_offsets_small(s);
    let m = spawned(s, ori);
    assert forall|k: int| 0 <= k < 4 implies on_board(#[trigger] cell_x(m, k), cell_y(m, k)) by {
        if k > 0 {
            assert(-1 <= cord_list(s)[k - 1][0] <= 2);
            assert(0 <= cord_list(s)[k - 1][1] <= 1);
        }
    }
}

/// A piece that may turn lies on the board once turned.
proof fn lemma_rotated_in_board(g: Grid, m: Mino)
    requires
        in_board(m),
        rotation_allowed(g, m),
    ensures
        in_board(rotated(m)),
{
    let r = rotated(m);
    assert(rot_ok(g, m, 0) && rot_ok(g, m, 1) && rot_ok(g, m, 2));
    assert(on_board(cell_x(m, 0), cell_y(m, 0)));
    assert forall|k: int| 0 <= k < 4 implies on_board(#[trigger] cell_x(r, k), cell_y(r, k)) by {
        if k > 0 {
            assert(rot_ok(g, m, k - 1));
        }
    }
}

/// A piece that may move one column lies on the board once moved, and the
/// move keeps its columns within eight bits.
proof fn lemma_shifted_in_board(g: Grid, m: Mino, dir: bool)
    requires
        in_board(m),
        shift_allowed(g, m, dir),
    ensures
        can_step(m, dir),
        in_board(shifted(m, dir)),
{
    let r = shifted(m, dir);
    assert forall|k: int| 0 <= k < 4 implies (if dir { cell_x(m, k) < 255 } else { cell_x(m, k) >= 1 })
        && on_board(#[trigger] cell_x(r, k), cell_y(r, k)) by {
        assert(step_ok(g, m, dir, k));
    }
    assert forall|k: int| 0 <= k < 4 implies (if dir { #[trigger] cell_x(m, k) < 255 } else { cell_x(m, k) >= 1 }) by {
        assert(step_ok(g, m, dir, k));
    }
}

/// A piece lowered by `d` rows, `d` at most its lowest row, lies on the board.
proof fn lemma_lowered_in_board(m: Mino, d: int)
    requires
        in_board(m),
        0 <= d,
        forall|k: int| 0 <= k < 4 ==> d <= #[trigger] cell_y(m, k),
    ensures
        can_lower(m, d),
        in_board(lowered(m, d)),
{
    let r = lowered(m, d);
    assert forall|k: int| 0 <= k < 4 implies on_board(#[trigger] cell_x(r, k), cell_y(r, k)) by {
        assert(on_board(cell_x(m, k), cell_y(m, k)));
        assert(d <= cell_y(m, k));
    }
}

/// A piece that may fall lies on the board once it has fallen one row.
proof fn lemma_fallen_in_board(g: Grid, m: Mino)
    requires
        in_board(m),
        fall_allowed(g, m),
    ensures
        can_lower(m, 1),
        in_board(lowered(m, 1)),
{
    assert(fall_ok(g, m, 0));
    assert forall|k: int| 0 <= k < 4 implies 1 <= #[trigger] cell_y(m, k) by {
        assert(fall_ok(g, m, k));
    }
    lemma_lowered_in_board(m, 1);
}

/// No cell of the piece holds a resting piece.
pub open spec fn piece_clear(g: Grid, m: Mino) -> bool {
    forall|k: int| 0 <= k < 4 ==> !placed(g, #[trigger] cell_x(m, k), cell_y(m, k))
}

/// `(x, y)` lies on the board and is the target of one of the first `n`
/// writes of a repaint of `m` with drop distance `d`.
pub open spec fn painted_at(m: Mino, d: int, x: int, y: int, n: int) -> bool {
    on_board(x, y) && exists|i: int| 0 <= i < n && #[trigger] paint_x(m, i) == x && paint_y(m, d, i) == y
}

proof fn lemma_painted_placed(g: Grid, m: Mino, d: int, n: int, x: int, y: int)
    requires
        0 <= n,
    ensures
        placed(painted(g, m, d, n), x, y) <==> (placed(g, x, y) && !painted_at(m, d, x, y, n)),
    decreases n,
{
    if n > 0 {
        lemma_painted_placed(g, m, d, n - 1, x, y);
        if painted_at(m, d, x, y, n) && !painted_at(m, d, x, y, n - 1) {
            let i = choose|i: int| 0 <= i < n && #[trigger] paint_x(m, i) == x && paint_y(m, d, i) == y;
            assert(i == n - 1);
        }
        if painted_at(m, d, x, y, n - 1) {
            let i = choose|i: int| 0 <= i < n - 1 && #[trigger] paint_x(m, i) == x && paint_y(m, d, i) == y;
            assert(0 <= i < n && paint_x(m, i) == x && paint_y(m, d, i) == y);
        }
    }
}

/// A redraw of the falling piece neither makes nor removes a resting cell
/// anywhere but under the piece and its shadow, and leaves none there.
pub proof fn law_repaint_keeps_rest(g: Grid, m: Mino, x: int, y: int)
    ensures
        placed(repaint(g, m), x, y) <==> (placed(g, x, y) && !painted_at(m, drop_dist(g, m), x, y, 8)),
{
    lemma_painted_placed(clear_transient(g), m, drop_dist(g, m), 8, x, y);
}

proof fn lemma_painted_shows(g: Grid, m: Mino, d: int, n: int, i: int)
    requires
        0 <= i < n,
        on_board(paint_x(m, i), paint_y(m, d, i)),
    ensures
        ({
            let b = painted(g, m, d, n)(paint_x(m, i), paint_y(m, d, i));
            &&& b.color == color_list(m.shape)
            &&& (b.state == State::Falling || b.state == State::Phantom)
        }),
    decreases n,
{
    if i < n - 1 {
        lemma_painted_shows(g, m, d, n - 1, i);
    }
}

/// After a redraw every cell of the falling piece is drawn in the piece's
/// color, as the piece or as its shadow.
pub proof fn law_repaint_shows_piece(g: Grid, m: Mino, k: int)
    requires
        in_board(m),
        0 <= k < 4,
    ensures
        repaint(g, m)(cell_x(m, k), cell_y(m, k)).shade() == color_list(m.shape),
        repaint(g, m)(cell_x(m, k), cell_y(m, k)).kind() == State::Falling
            || repaint(g, m)(cell_x(m, k), cell_y(m, k)).kind() == State::Phantom,
{
    let d = drop_dist(g, m);
    assert(on_board(cell_x(m, k), cell_y(m, k)));
    assert(paint_x(m, 2 * k + 1) == cell_x(m, k) && paint_y(m, d, 2 * k + 1) == cell_y(m, k)) by {
        assert((2 * k + 1) / 2 == k && (2 * k + 1) % 2 == 1);
    }
    lemma_painted_shows(clear_transient(g), m, d, 8, 2 * k + 1);
}

/// After the first `n` writes of a repaint, a cell that some write hit holds
/// what the last of them wrote, and any other cell is as it was.
proof fn lemma_painted_last(g: Grid, m: Mino, d: int, n: int, x: int, y: int)
    requires
        0 <= n,
        on_board(x, y),
    ensures
        painted_at(m, d, x, y, n) ==> exists|i: int|
            #![trigger paint_x(m, i)]
            0 <= i < n && paint_x(m, i) == x && paint_y(m, d, i) == y && (forall|i2: int|
                #![trigger paint_x(m, i2)]
                i < i2 < n ==> !(paint_x(m, i2) == x && paint_y(m, d, i2) == y)) && painted(g, m, d, n)(x, y)
                == block_of(paint_kind(i), color_list(m.shape)),
        !painted_at(m, d, x, y, n) ==> painted(g, m, d, n)(x, y) == g(x, y),
    decreases n,
{
    if n > 0 {
        lemma_painted_last(g, m, d, n - 1, x, y);
        if paint_x(m, n - 1) == x && paint_y(m, d, n - 1) == y {
            assert(painted(g, m, d, n)(x, y) == block_of(paint_kind(n - 1), color_list(m.shape)));
            assert(painted_at(m, d, x, y, n));
        } else {
            assert(painted(g, m, d, n)(x, y) == painted(g, m, d, n - 1)(x, y));
            if painted_at(m, d, x, y, n) {
                let i0 = choose|i: int| 0 <= i < n && #[trigger] paint_x(m, i) == x && paint_y(m, d, i) == y;
                assert(i0 != n - 1);
                assert(painted_at(m, d, x, y, n - 1));
                let i = choose|i: int|
                    #![trigger paint_x(m, i)]
                    0 <= i < n - 1 && paint_x(m, i) == x && paint_y(m, d, i) == y && (forall|i2: int|
                        #![trigger paint_x(m, i2)]
                        i < i2 < n - 1 ==> !(paint_x(m, i2) == x && paint_y(m, d, i2) == y)) && painted(
                        g,
                        m,
                        d,
                        n - 1,
                    )(x, y) == block_of(paint_kind(i), color_list(m.shape));
                assert(0 <= i < n && paint_x(m, i) == x && paint_y(m, d, i) == y);
            } else if painted_at(m, d, x, y, n - 1) {
                let i0 = choose|i: int| 0 <= i < n - 1 && #[trigger] paint_x(m, i) == x && paint_y(m, d, i) == y;
                assert(0 <= i0 < n && paint_x(m, i0) == x && paint_y(m, d, i0) == y);
            }
        }
    }
}

/// Cell `k` of the piece stands at `(x, y)`.
pub open spec fn cell_at(m: Mino, k: int, x: int, y: int) -> bool {
    cell_x(m, k) == x && cell_y(m, k) == y
}

/// The shadow of cell `k` of the piece, `d` rows below it, stands at `(x, y)`.
pub open spec fn shadow_at(m: Mino, d: int, k: int, x: int, y: int) -> bool {
    cell_x(m, k) == x && cell_y(m, k) - d == y
}

/// A redraw cell by cell: a cell of the piece shows it falling, in the
/// piece's color, unless the shadow of a later cell lands on it; a shadow
/// cell shows the shadow, in the piece's color, unless the same or a later
/// cell of the piece stands on it; every other cell of the board keeps its
/// resting piece or turns empty and black.
pub proof fn law_repaint_cells(g: Grid, m: Mino, x: int, y: int)
    requires
        on_board(x, y),
    ensures
        (exists|k: int|
            0 <= k < 4 && #[trigger] cell_at(m, k, x, y) && forall|j: int|
                k < j < 4 ==> !#[trigger] shadow_at(m, drop_dist(g, m), j, x, y)) ==> repaint(g, m)(x, y)
            == block_of(State::Falling, color_list(m.shape)),
        (exists|j: int|
            0 <= j < 4 && #[trigger] shadow_at(m, drop_dist(g, m), j, x, y) && forall|k: int|
                j <= k < 4 ==> !#[trigger] cell_at(m, k, x, y)) ==> repaint(g, m)(x, y) == block_of(
            State::Phantom,
            color_list(m.shape),
        ),
        (forall|k: int| 0 <= k < 4 ==> !#[trigger] cell_at(m, k, x, y) && !shadow_at(m, drop_dist(g, m), k, x, y))
            ==> repaint(g, m)(x, y) == clear_transient(g)(x, y),
{
    let d = drop_dist(g, m);
    let g0 = clear_transient(g);
    lemma_painted_last(g0, m, d, 8, x, y);
    assert forall|i: int| 0 <= i < 8 implies (#[trigger] paint_x(m, i) == x && paint_y(m, d, i) == y) == if i % 2
        == 0 {
        shadow_at(m, d, i / 2, x, y)
    } else {
        cell_at(m, i / 2, x, y)
    } by {}
    if exists|k: int|
        0 <= k < 4 && #[trigger] cell_at(m, k, x, y) && forall|j: int| k < j < 4 ==> !#[trigger] shadow_at(m, d, j, x, y) {
        let k = choose|k: int|
            0 <= k < 4 && #[trigger] cell_at(m, k, x, y) && forall|j: int| k < j < 4 ==> !#[trigger] shadow_at(m, d, j, x, y);
        assert((2 * k + 1) / 2 == k && (2 * k + 1) % 2 == 1);
        assert(paint_x(m, 2 * k + 1) == x && paint_y(m, d, 2 * k + 1) == y);
        assert(painted_at(m, d, x, y, 8));
        let i = choose|i: int|
            #![trigger paint_x(m, i)]
            0 <= i < 8 && paint_x(m, i) == x && paint_y(m, d, i) == y && (forall|i2: int|
                #![trigger paint_x(m, i2)]
                i < i2 < 8 ==> !(paint_x(m, i2) == x && paint_y(m, d, i2) == y)) && painted(g0, m, d, 8)(x, y)
                == block_of(paint_kind(i), color_list(m.shape));
        assert(i >= 2 * k + 1);
        if i % 2 == 0 {
            assert(shadow_at(m, d, i / 2, x, y));
            assert(k < i / 2 < 4);
        }
    }
    if exists|j: int|
        0 <= j < 4 && #[trigger] shadow_at(m, d, j, x, y) && forall|k: int| j <= k < 4 ==> !#[trigger] cell_at(m, k, x, y) {
        let j = choose|j: int|
            0 <= j < 4 && #[trigger] shadow_at(m, d, j, x, y) && forall|k: int| j <= k < 4 ==> !#[trigger] cell_at(m, k, x, y);
        assert((2 * j) / 2 == j && (2 * j) % 2 == 0);
        assert(paint_x(m, 2 * j) == x && paint_y(m, d, 2 * j) == y);
        assert(painted_at(m, d, x, y, 8));
        let i = choose|i: int|
            #![trigger paint_x(m, i)]
            0 <= i < 8 && paint_x(m, i) == x && paint_y(m, d, i) == y && (forall|i2: int|
                #![trigger paint_x(m, i2)]
                i < i2 < 8 ==> !(paint_x(m, i2) == x && paint_y(m, d, i2) == y)) && painted(g0, m, d, 8)(x, y)
                == block_of(paint_kind(i), color_list(m.shape));
        assert(i >= 2 * j);
        if i % 2 == 1 {
            assert(cell_at(m, i / 2, x, y));
            assert(j <= i / 2 < 4);
        }
    }
    if forall|k: int| 0 <= k < 4 ==> !#[trigger] cell_at(m, k, x, y) && !shadow_at(m, d, k, x, y) {
        if painted_at(m, d, x, y, 8) {
            let i = choose|i: int| 0 <= i < 8 && #[trigger] paint_x(m, i) == x && paint_y(m, d, i) == y;
            let k = i / 2;
            assert(!cell_at(m, k, x, y));
        }
    }
}

/// After a redraw no cell of the falling piece holds a resting piece.
proof fn lemma_repaint_clears_piece(g: Grid, m: Mino)
    requires
        in_board(m),
    ensures
        piece_clear(repaint(g, m), m),
{
    assert forall|k: int| 0 <= k < 4 implies !placed(repaint(g, m), #[trigger] cell_x(m, k), cell_y(m, k)) by {
        law_repaint_shows_piece(g, m, k);
    }
}

proof fn lemma_gap_meaning(g: Grid, x: int, y: int, j: int)
    requires
        -1 <= j < y,
    ensures
        gap_below(g, x, y, j) == y || (0 <= y - gap_below(g, x, y, j) - 1 <= j && placed(
            g,
            x,
            y - gap_below(g, x, y, j) - 1,
        )),
        forall|r: int| y - gap_below(g, x, y, j) <= r <= j ==> !#[trigger] placed(g, x, r),
    decreases j + 1,
{
    if j >= 0 && !placed(g, x, j) {
        lemma_gap_meaning(g, x, y, j - 1);
    }
}

proof fn lemma_gap_at_most(g: Grid, x: int, y: int, j: int, p: int)
    requires
        0 <= p <= j < y,
        placed(g, x, p),
    ensures
        gap_below(g, x, y, j) <= y - (p + 1),
    decreases j + 1,
{
    if j > p && !placed(g, x, j) {
        lemma_gap_at_most(g, x, y, j - 1, p);
    }
}

proof fn lemma_drop_attained(g: Grid, m: Mino, n: int)
    requires
        1 <= n <= 4,
    ensures
        exists|k: int|
            0 <= k < n && counts_for_drop(m, k) && drop_upto(g, m, n) == #[trigger] col_drop(
                g,
                cell_x(m, k),
                cell_y(m, k),
            ),
    decreases n,
{
    if n == 1 {
        assert(counts_for_drop(m, 0) && drop_upto(g, m, 1) == col_drop(g, cell_x(m, 0), cell_y(m, 0)));
    } else {
        lemma_drop_attained(g, m, n - 1);
        let k = choose|k: int|
            0 <= k < n - 1 && counts_for_drop(m, k) && drop_upto(g, m, n - 1) == #[trigger] col_drop(
                g,
                cell_x(m, k),
                cell_y(m, k),
            );
        let e = col_drop(g, cell_x(m, n - 1), cell_y(m, n - 1));
        if counts_for_drop(m, n - 1) && e < drop_upto(g, m, n - 1) {
            assert(drop_upto(g, m, n) == col_drop(g, cell_x(m, n - 1), cell_y(m, n - 1)));
        } else {
            assert(drop_upto(g, m, n) == col_drop(g, cell_x(m, k), cell_y(m, k)));
        }
    }
}

/// A move one column right (`dir`) or left is allowed exactly when every cell
/// of the piece, moved one column that way, lies on the board, columns 0 to 9
/// and rows 0 to 21, and holds no resting piece.
pub proof fn law_shift_allowed_when_free(g: Grid, m: Mino, dir: bool)
    ensures
        shift_allowed(g, m, dir) <==> forall|k: int|
            #![trigger cell_x(m, k)]
            0 <= k < 4 ==> {
                let x = cell_x(m, k) + if dir { 1int } else { -1int };
                let y = cell_y(m, k);
                &&& 0 <= x < 10
                &&& 0 <= y < 22
                &&& g(x, y).state != State::Placed
            },
{
    let e = forall|k: int|
        #![trigger cell_x(m, k)]
        0 <= k < 4 ==> {
            let x = cell_x(m, k) + if dir { 1int } else { -1int };
            let y = cell_y(m, k);
            &&& 0 <= x < 10
            &&& 0 <= y < 22
            &&& g(x, y).state != State::Placed
        };
    if shift_allowed(g, m, dir) {
        assert forall|k: int| #![trigger cell_x(m, k)] 0 <= k < 4 implies {
            let x = cell_x(m, k) + if dir { 1int } else { -1int };
            let y = cell_y(m, k);
            &&& 0 <= x < 10
            &&& 0 <= y < 22
            &&& g(x, y).state != State::Placed
        } by {
            assert(step_ok(g, m, dir, k));
        }
    }
    if e {
        assert forall|k: int| 0 <= k < 4 implies #[trigger] step_ok(g, m, dir, k) by {
            assert(cell_x(m, k) == cell_x(m, k));
        }
    }
}

/// The piece may fall one row exactly when every cell either stands in the
/// center's column above the center or has below it a cell of row 0 or higher
/// that holds no resting piece.
pub proof fn law_fall_allowed_when_free(g: Grid, m: Mino)
    ensures
        fall_allowed(g, m) <==> forall|k: int|
            #![trigger cell_x(m, k)]
            0 <= k < 4 ==> (cell_x(m, k) == m.center[0] && cell_y(m, k) > m.center[1]) || (cell_y(m, k) - 1 >= 0
                && g(cell_x(m, k), cell_y(m, k) - 1).state != State::Placed),
{
    assert(cell_x(m, 0) == m.center[0] && cell_y(m, 0) == m.center[1]);
    if fall_allowed(g, m) {
        assert forall|k: int| #![trigger cell_x(m, k)] 0 <= k < 4 implies (cell_x(m, k) == m.center[0] && cell_y(m, k)
            > m.center[1]) || (cell_y(m, k) - 1 >= 0 && g(cell_x(m, k), cell_y(m, k) - 1).state != State::Placed) by {
            assert(fall_ok(g, m, k));
        }
    }
    if forall|k: int|
        #![trigger cell_x(m, k)]
        0 <= k < 4 ==> (cell_x(m, k) == m.center[0] && cell_y(m, k) > m.center[1]) || (cell_y(m, k) - 1 >= 0 && g(
            cell_x(m, k),
            cell_y(m, k) - 1,
        ).state != State::Placed) {
        assert forall|k: int| 0 <= k < 4 implies #[trigger] fall_ok(g, m, k) by {
            assert(cell_x(m, 0) == m.center[0] && cell_y(m, 0) == m.center[1]);
            assert((cell_x(m, k) == m.center[0] && cell_y(m, k) > m.center[1]) || (cell_y(m, k) - 1 >= 0 && g(
                cell_x(m, k),
                cell_y(m, k) - 1,
            ).state != State::Placed));
        }
    }
}

/// A quarter turn is allowed exactly when the piece is not an O and each of
/// its three cells around the center `(cx, cy)`, a cell `(x, y)` going to
/// `(cx + (y - cy), cy - (x - cx))`, lands in columns 0 to 9 and rows 0 to 21
/// on a cell that holds no resting piece.
pub proof fn law_rotation_allowed_when_free(g: Grid, m: Mino)
    ensures
        rotation_allowed(g, m) <==> !(m.shape is ShapeO) && forall|c: int|
            #![trigger m.cords[c]]
            0 <= c < 3 ==> {
                let x = m.center[0] + (m.cords[c][1] - m.center[1]);
                let y = m.center[1] - (m.cords[c][0] - m.center[0]);
                &&& 0 <= x < 10
                &&& 0 <= y < 22
                &&& g(x, y).state != State::Placed
            },
{
    let e = forall|c: int|
        #![trigger m.cords[c]]
        0 <= c < 3 ==> {
            let x = m.center[0] + (m.cords[c][1] - m.center[1]);
            let y = m.center[1] - (m.cords[c][0] - m.center[0]);
            &&& 0 <= x < 10
            &&& 0 <= y < 22
            &&& g(x, y).state != State::Placed
        };
    if rotation_allowed(g, m) {
        assert forall|c: int| #![trigger m.cords[c]] 0 <= c < 3 implies {
            let x = m.center[0] + (m.cords[c][1] - m.center[1]);
            let y = m.center[1] - (m.cords[c][0] - m.center[0]);
            &&& 0 <= x < 10
            &&& 0 <= y < 22
            &&& g(x, y).state != State::Placed
        } by {
            assert(rot_ok(g, m, c));
        }
    }
    if !(m.shape is ShapeO) && e {
        assert forall|c: int| 0 <= c < 3 implies #[trigger] rot_ok(g, m, c) by {
            assert(m.cords[c] == m.cords[c]);
        }
    }
}

/// With the cells of a whole piece free of resting pieces, each cell lowered
/// by any number of rows up to the drop distance is free too.
proof fn lemma_fall_free(g: Grid, m: Mino, k: int, e: int)
    requires
        in_board(m),
        well_shaped(m),
        piece_clear(g, m),
        0 <= k < 4,
        0 <= e <= drop_dist(g, m),
    ensures
        !placed(g, cell_x(m, k), cell_y(m, k) - e),
{
    let d = drop_dist(g, m);
    let x = cell_x(m, k);
    let y = cell_y(m, k);
    let cx = cell_x(m, 0);
    let cy = cell_y(m, 0);
    lemma_drop_dist_bounds(g, m);
    assert(on_board(x, y));
    assert(on_board(cx, cy));
    assert(!placed(g, cell_x(m, k), cell_y(m, k)));
    assert(!placed(g, cell_x(m, 0), cell_y(m, 0)));
    if e > 0 {
        if counts_for_drop(m, k) {
            lemma_gap_meaning(g, x, y, y - 1);
            assert(e <= col_drop(g, x, y));
        } else {
            lemma_gap_meaning(g, cx, cy, cy - 1);
            assert(e <= col_drop(g, cx, cy));
            let r = y - e;
            if r < cy {
                assert(cy - col_drop(g, cx, cy) <= r);
            } else if r > cy {
                lemma_column_joined(m, k, r);
                let q = choose|q: int| 0 <= q < 4 && #[trigger] cell_x(m, q) == cell_x(m, 0) && cell_y(m, q) == r;
                assert(!placed(g, cell_x(m, q), cell_y(m, q)));
            }
        }
    }
}

/// With the cells of a whole piece free of resting pieces, each cell's shadow,
/// where it lands when the piece is dropped, is free too.
proof fn lemma_shadow_free(g: Grid, m: Mino, k: int)
    requires
        in_board(m),
        well_shaped(m),
        piece_clear(g, m),
        0 <= k < 4,
    ensures
        !placed(g, cell_x(m, k), cell_y(m, k) - drop_dist(g, m)),
{
    lemma_drop_dist_bounds(g, m);
    lemma_fall_free(g, m, k, drop_dist(g, m));
}

/// The drop distance of a whole piece on free cells is the largest fall that
/// stays free: lowered by any number of rows up to it, the piece lies on the
/// board on free cells, and lowered by one row more, some cell would stand
/// below row 0 or on a resting piece.
pub proof fn law_drop_is_largest_free_fall(g: Grid, m: Mino)
    requires
        in_board(m),
        well_shaped(m),
        piece_clear(g, m),
    ensures
        forall|e: int|
            0 <= e <= drop_dist(g, m) ==> in_board(#[trigger] lowered(m, e)) && piece_clear(g, lowered(m, e)),
        exists|k: int|
            0 <= k < 4 && (cell_y(m, k) - drop_dist(g, m) - 1 < 0 || placed(
                g,
                #[trigger] cell_x(m, k),
                cell_y(m, k) - drop_dist(g, m) - 1,
            )),
{
    let d = drop_dist(g, m);
    lemma_drop_dist_bounds(g, m);
    assert forall|e: int| 0 <= e <= d implies in_board(#[trigger] lowered(m, e)) && piece_clear(g, lowered(m, e)) by {
        lemma_lowered_in_board(m, e);
        let r = lowered(m, e);
        assert forall|k: int| 0 <= k < 4 implies !placed(g, #[trigger] cell_x(r, k), cell_y(r, k)) by {
            assert(e <= cell_y(m, k));
            assert(cell_x(r, k) == cell_x(m, k) && cell_y(r, k) == cell_y(m, k) - e);
            lemma_fall_free(g, m, k, e);
        }
    }
    lemma_drop_attained(g, m, 4);
    let ks = choose|k: int|
        0 <= k < 4 && counts_for_drop(m, k) && drop_upto(g, m, 4) == #[trigger] col_drop(
            g,
            cell_x(m, k),
            cell_y(m, k),
        );
    assert(on_board(cell_x(m, ks), cell_y(m, ks)));
    lemma_gap_meaning(g, cell_x(m, ks), cell_y(m, ks), cell_y(m, ks) - 1);
    assert(cell_y(m, ks) - d - 1 < 0 || placed(g, cell_x(m, ks), cell_y(m, ks) - d - 1));
}

/// A redraw around a whole piece none of whose cells holds a resting piece
/// keeps every resting cell of the board, and makes none.
pub proof fn law_repaint_keeps_all(g: Grid, m: Mino, x: int, y: int)
    requires
        in_board(m),
        well_shaped(m),
        piece_clear(g, m),
    ensures
        placed(repaint(g, m), x, y) == placed(g, x, y),
{
    let d = drop_dist(g, m);
    law_repaint_keeps_rest(g, m, x, y);
    if painted_at(m, d, x, y, 8) {
        let i = choose|i: int| 0 <= i < 8 && #[trigger] paint_x(m, i) == x && paint_y(m, d, i) == y;
        let k = i / 2;
        assert(0 <= k < 4);
        if i % 2 == 0 {
            lemma_shadow_free(g, m, k);
        } else {
            assert(!placed(g, cell_x(m, k), cell_y(m, k)));
        }
    }
}

proof fn lemma_gap_congruent(g1: Grid, g2: Grid, x: int, y: int, j: int)
    requires
        forall|r: int| #[trigger] placed(g1, x, r) == placed(g2, x, r),
    ensures
        gap_below(g1, x, y, j) == gap_below(g2, x, y, j),
    decreases j + 1,
{
    if j >= 0 {
        assert(placed(g1, x, j) == placed(g2, x, j));
        lemma_gap_congruent(g1, g2, x, y, j - 1);
    }
}

proof fn lemma_drop_upto_congruent(g1: Grid, g2: Grid, m: Mino, n: int)
    requires
        forall|x: int, r: int| #[trigger] placed(g1, x, r) == placed(g2, x, r),
    ensures
        drop_upto(g1, m, n) == drop_upto(g2, m, n),
    decreases n,
{
    lemma_gap_congruent(g1, g2, cell_x(m, 0), cell_y(m, 0), cell_y(m, 0) - 1);
    if n > 1 {
        lemma_drop_upto_congruent(g1, g2, m, n - 1);
        lemma_gap_congruent(g1, g2, cell_x(m, n - 1), cell_y(m, n - 1), cell_y(m, n - 1) - 1);
    }
}

proof fn lemma_painted_outside(g: Grid, m: Mino, d: int, n: int, x: int, y: int)
    requires
        0 <= n,
        !painted_at(m, d, x, y, n),
    ensures
        painted(g, m, d, n)(x, y) == g(x, y),
    decreases n,
{
    if n > 0 {
        if painted_at(m, d, x, y, n - 1) {
            let i = choose|i: int| 0 <= i < n - 1 && #[trigger] paint_x(m, i) == x && paint_y(m, d, i) == y;
            assert(0 <= i < n && paint_x(m, i) == x && paint_y(m, d, i) == y);
        }
        lemma_painted_outside(g, m, d, n - 1, x, y);
    }
}

proof fn lemma_painted_targets(g1: Grid, g2: Grid, m: Mino, d: int, n: int, x: int, y: int)
    requires
        0 <= n,
        painted_at(m, d, x, y, n),
    ensures
        painted(g1, m, d, n)(x, y) == painted(g2, m, d, n)(x, y),
    decreases n,
{
    if n > 0 {
        if !(paint_x(m, n - 1) == x && paint_y(m, d, n - 1) == y) {
            let i = choose|i: int| 0 <= i < n && #[trigger] paint_x(m, i) == x && paint_y(m, d, i) == y;
            assert(0 <= i < n - 1 && paint_x(m, i) == x && paint_y(m, d, i) == y);
            lemma_painted_targets(g1, g2, m, d, n - 1, x, y);
        }
    }
}

/// Redrawing a whole piece none of whose cells holds a resting piece a second
/// time changes nothing.
pub proof fn law_repaint_twice(g: Grid, m: Mino)
    requires
        in_board(m),
        well_shaped(m),
        piece_clear(g, m),
    ensures
        repaint(repaint(g, m), m) == repaint(g, m),
{
    let r = repaint(g, m);
    let d = drop_dist(g, m);
    assert forall|x: int, y: int| #[trigger] placed(r, x, y) == placed(g, x, y) by {
        law_repaint_keeps_all(g, m, x, y);
    }
    lemma_drop_upto_congruent(r, g, m, 4);
    assert(drop_dist(r, m) == d);
    assert forall|x: int, y: int| #[trigger] repaint(r, m)(x, y) == repaint(g, m)(x, y) by {
        if painted_at(m, d, x, y, 8) {
            lemma_painted_targets(clear_transient(r), clear_transient(g), m, d, 8, x, y);
        } else {
            lemma_painted_outside(clear_transient(r), m, d, 8, x, y);
            lemma_painted_outside(clear_transient(g), m, d, 8, x, y);
        }
    }
    assert(repaint(r, m) =~= repaint(g, m));
}

/// Once dropped, a piece would drop no further.
proof fn lemma_dropped_dist_zero(g: Grid, m: Mino)
    requires
        in_board(m),
    ensures
        drop_dist(g, lowered(m, drop_dist(g, m))) == 0,
{
    let d = drop_dist(g, m);
    let m1 = lowered(m, d);
    lemma_drop_dist_bounds(g, m);
    lemma_drop_attained(g, m, 4);
    let ks = choose|k: int|
        0 <= k < 4 && counts_for_drop(m, k) && drop_upto(g, m, 4) == #[trigger] col_drop(
            g,
            cell_x(m, k),
            cell_y(m, k),
        );
    let xs = cell_x(m, ks);
    let ys = cell_y(m, ks);
    assert(on_board(cell_x(m, 0), cell_y(m, 0)));
    assert(on_board(cell_x(m, ks), cell_y(m, ks)));
    assert forall|k: int| 0 <= k < 4 implies #[trigger] cell_x(m1, k) == cell_x(m, k) && cell_y(m1, k) == cell_y(m, k) - d by {
        assert(d <= cell_y(m, k));
    }
    lemma_gap_meaning(g, xs, ys, ys - 1);
    assert(counts_for_drop(m1, ks));
    assert(col_drop(g, xs, ys - d) == 0);
    lemma_drop_dist_bounds(g, m1);
}

/// Every empty cell of the grid is black.
pub open spec fn tidy(g: Grid) -> bool {
    forall|x: int, y: int| on_board(x, y) && #[trigger] g(x, y).state == State::Empty ==> g(x, y).color == black()
}

proof fn lemma_tidy_painted(g: Grid, m: Mino, d: int, n: int)
    requires
        tidy(g),
    ensures
        tidy(painted(g, m, d, n)),
    decreases n,
{
    if n > 0 {
        lemma_tidy_painted(g, m, d, n - 1);
    }
}

proof fn lemma_tidy_repaint(g: Grid, m: Mino)
    requires
        tidy(g),
    ensures
        tidy(repaint(g, m)),
{
    let c = clear_transient(g);
    assert(tidy(c));
    lemma_tidy_painted(c, m, drop_dist(g, m), 8);
}

proof fn lemma_tidy_cleared(g: Grid, j: int, n: int)
    requires
        tidy(g),
    ensures
        tidy(cleared_from(g, j, n).0),
    decreases 4 - n, 22 - j,
{
    if j < 0 || j >= 22 || n >= 4 {
    } else if row_full(g, j) {
        let h = shift_down(g, j);
        assert forall|x: int, y: int| on_board(x, y) && #[trigger] h(x, y).state == State::Empty implies h(x, y).color
            == black() by {
            if j <= y < 21 {
                assert(on_board(x, y + 1));
                assert(g(x, y + 1).state == State::Empty);
            }
        }
        lemma_tidy_cleared(h, j, n + 1);
    } else {
        lemma_tidy_cleared(g, j + 1, n);
    }
}

/// With the board's empty cells black, a redraw around one whole piece whose
/// cells hold no resting piece, followed by a redraw around another, leaves
/// the board as the second redraw alone would.
pub proof fn law_repaint_over(g: Grid, m1: Mino, m: Mino)
    requires
        tidy(g),
        in_board(m1),
        well_shaped(m1),
        piece_clear(g, m1),
    ensures
        repaint(repaint(g, m1), m) == repaint(g, m),
{
    let r = repaint(g, m1);
    let d = drop_dist(g, m);
    let d1 = drop_dist(g, m1);
    assert forall|x: int, y: int| #[trigger] placed(r, x, y) == placed(g, x, y) by {
        law_repaint_keeps_all(g, m1, x, y);
    }
    lemma_drop_upto_congruent(r, g, m, 4);
    assert(drop_dist(r, m) == d);
    assert forall|x: int, y: int| #[trigger] repaint(r, m)(x, y) == repaint(g, m)(x, y) by {
        if painted_at(m, d, x, y, 8) {
            lemma_painted_targets(clear_transient(r), clear_transient(g), m, d, 8, x, y);
        } else {
            lemma_painted_outside(clear_transient(r), m, d, 8, x, y);
            lemma_painted_outside(clear_transient(g), m, d, 8, x, y);
            if painted_at(m1, d1, x, y, 8) {
                let i = choose|i: int| 0 <= i < 8 && #[trigger] paint_x(m1, i) == x && paint_y(m1, d1, i) == y;
                lemma_painted_shows(clear_transient(g), m1, d1, 8, i);
                law_repaint_keeps_all(g, m1, x, y);
                law_repaint_keeps_rest(g, m1, x, y);
                assert(!placed(g, x, y));
            } else {
                lemma_painted_outside(clear_transient(g), m1, d1, 8, x, y);
            }
        }
    }
    assert(repaint(r, m) =~= repaint(g, m));
}

/// The piece may fall one row exactly when it would drop at least one row.
pub proof fn law_fall_iff_drop(g: Grid, m: Mino)
    requires
        in_board(m),
    ensures
        fall_allowed(g, m) <==> drop_dist(g, m) > 0,
{
    let d = drop_dist(g, m);
    lemma_drop_dist_bounds(g, m);
    let cx = cell_x(m, 0);
    let cy = cell_y(m, 0);
    if d > 0 {
        assert forall|k: int| 0 <= k < 4 implies #[trigger] fall_ok(g, m, k) by {
            let x = cell_x(m, k);
            let y = cell_y(m, k);
            if counts_for_drop(m, k) {
                assert(d <= col_drop(g, x, y));
                lemma_col_drop_bounds(g, x, y);
                lemma_gap_meaning(g, x, y, y - 1);
                assert(!placed(g, x, y - 1));
            } else if y == cy {
                assert(counts_for_drop(m, 0));
                assert(d <= col_drop(g, cx, cy));
                lemma_col_drop_bounds(g, cx, cy);
                lemma_gap_meaning(g, cx, cy, cy - 1);
                assert(!placed(g, cx, cy - 1));
            }
        }
    } else {
        lemma_drop_attained(g, m, 4);
        let ks = choose|k: int|
            0 <= k < 4 && counts_for_drop(m, k) && drop_upto(g, m, 4) == #[trigger] col_drop(
                g,
                cell_x(m, k),
                cell_y(m, k),
            );
        lemma_gap_meaning(g, cell_x(m, ks), cell_y(m, ks), cell_y(m, ks) - 1);
        assert(!fall_ok(g, m, ks));
    }
}

proof fn lemma_cleared_no_full(g: Grid, j: int, n: int)
    requires
        0 <= j <= 22,
        0 <= n <= 4,
        forall|r: int| 0 <= r < j ==> !row_full(g, r),
    ensures
        cleared_from(g, j, n).1 < 4 ==> forall|r: int| 0 <= r < 22 ==> !row_full(#[trigger] cleared_from(g, j, n).0, r),
    decreases 4 - n, 22 - j,
{
    if j >= 22 || n >= 4 {
        assert(cleared_from(g, j, n) == (g, n));
    } else if row_full(g, j) {
        let h = shift_down(g, j);
        assert(cleared_from(g, j, n) == cleared_from(h, j, n + 1));
        assert forall|r: int| 0 <= r < j implies !row_full(h, r) by {
            assert(!row_full(g, r));
            assert(exists|x: int| 0 <= x < 10 && !placed(g, x, r));
            let x = choose|x: int| 0 <= x < 10 && !placed(g, x, r);
            assert(h(x, r) == g(x, r));
            assert(!placed(h, x, r));
        }
        lemma_cleared_no_full(h, j, n + 1);
    } else {
        assert(cleared_from(g, j, n) == cleared_from(g, j + 1, n));
        lemma_cleared_no_full(g, j + 1, n);
    }
}

/// Clearing lines leaves no full row behind, unless it stopped at four rows.
pub proof fn law_clearing_leaves_no_full_row(g: Grid)
    ensures
        cleared(g).1 < 4 ==> forall|r: int| 0 <= r < 22 ==> !row_full(#[trigger] cleared(g).0, r),
        0 <= cleared(g).1 <= 4,
{
    lemma_cleared_no_full(g, 0, 0);
    lemma_cleared_count(g, 0, 0);
}

/// The lowest full row at or above row `j`, or 22 when there is none.
pub open spec fn lowest_full(g: Grid, j: int) -> int
    decreases 22 - j,
{
    if j >= 22 {
        22
    } else if row_full(g, j) {
        j
    } else {
        lowest_full(g, j + 1)
    }
}

/// With `n` rows counted so far, the lowest full rows of `g` at or above row
/// `j`, as many as make four in all, each removed by moving the rows above it
/// down one, the highest first so that the lower ones keep their places; gives
/// the grid and the count in all.
pub open spec fn without_full_rows(g: Grid, j: int, n: int) -> (Grid, int)
    decreases 4 - n, 22 - j,
{
    if n >= 4 || j >= 22 || lowest_full(g, j) >= 22 {
        (g, n)
    } else {
        let r = lowest_full(g, j);
        let rest = without_full_rows(g, r + 1, n + 1);
        (shift_down(rest.0, r), rest.1)
    }
}

proof fn lemma_lowest_full_shifted(g: Grid, b: int, i: int)
    requires
        0 <= b <= i <= 21,
        !row_full(g, 21),
    ensures
        lowest_full(g, i + 1) >= 22 ==> lowest_full(shift_down(g, b), i) == 22,
        lowest_full(g, i + 1) < 22 ==> lowest_full(shift_down(g, b), i) == lowest_full(g, i + 1) - 1,
    decreases 22 - i,
{
    let s = shift_down(g, b);
    if i == 21 {
        assert(exists|x: int| 0 <= x < 10 && !placed(g, x, 21));
        let x = choose|x: int| 0 <= x < 10 && !placed(g, x, 21);
        assert(!placed(s, x, 21));
        assert(!row_full(s, 21));
        assert(lowest_full(s, 21) == lowest_full(s, 22));
    } else {
        assert(row_full(s, i) == row_full(g, i + 1)) by {
            if row_full(g, i + 1) {
                assert forall|x: int| 0 <= x < 10 implies placed(s, x, i) by {
                    assert(placed(g, x, i + 1));
                }
            } else {
                assert(exists|x: int| 0 <= x < 10 && !#[trigger] placed(g, x, i + 1));
                let x = choose|x: int| 0 <= x < 10 && !#[trigger] placed(g, x, i + 1);
                assert(!placed(s, x, i));
            }
        }
        if !row_full(g, i + 1) {
            lemma_lowest_full_shifted(g, b, i + 1);
        }
    }
}

proof fn lemma_shift_swap(h: Grid, j: int, r: int)
    requires
        0 <= j < r,
    ensures
        shift_down(shift_down(h, j), r - 1) == shift_down(shift_down(h, r), j),
{
    assert(shift_down(shift_down(h, j), r - 1) =~= shift_down(shift_down(h, r), j));
}

proof fn lemma_without_after_shift(g: Grid, j: int, i: int, n: int)
    requires
        0 <= j <= i <= 22,
        0 <= n <= 4,
        !row_full(g, 21),
    ensures
        without_full_rows(shift_down(g, j), i, n) == (
            shift_down(without_full_rows(g, i + 1, n).0, j),
            without_full_rows(g, i + 1, n).1,
        ),
    decreases 4 - n, 22 - i,
{
    let s = shift_down(g, j);
    if n >= 4 || i >= 22 {
    } else {
        lemma_lowest_full_shifted(g, j, i);
        if lowest_full(g, i + 1) < 22 {
            let r = lowest_full(g, i + 1);
            lemma_lowest_full_bounds(g, i + 1);
            lemma_without_after_shift(g, j, r, n + 1);
            lemma_shift_swap(without_full_rows(g, r + 1, n + 1).0, j, r);
        }
    }
}

proof fn lemma_lowest_full_bounds(g: Grid, j: int)
    requires
        0 <= j <= 22,
    ensures
        j <= lowest_full(g, j) <= 22,
    decreases 22 - j,
{
    if j < 22 && !row_full(g, j) {
        lemma_lowest_full_bounds(g, j + 1);
    }
}

proof fn lemma_cleared_is_removal(g: Grid, j: int, n: int)
    requires
        0 <= j <= 22,
        0 <= n <= 4,
        !row_full(g, 21),
    ensures
        cleared_from(g, j, n) == without_full_rows(g, j, n),
    decreases 4 - n, 22 - j,
{
    if j >= 22 || n >= 4 {
    } else if row_full(g, j) {
        let s = shift_down(g, j);
        assert(!row_full(s, 21)) by {
            assert(exists|x: int| 0 <= x < 10 && !placed(g, x, 21));
            let x = choose|x: int| 0 <= x < 10 && !placed(g, x, 21);
            assert(!placed(s, x, 21));
        }
        lemma_cleared_is_removal(s, j, n + 1);
        lemma_without_after_shift(g, j, j, n + 1);
    } else {
        lemma_cleared_is_removal(g, j + 1, n);
    }
}

/// How many rows at or above row `j` are full.
pub open spec fn full_count(g: Grid, j: int) -> int
    decreases 22 - j,
{
    if j >= 22 {
        0
    } else {
        (if row_full(g, j) { 1int } else { 0int }) + full_count(g, j + 1)
    }
}

proof fn lemma_full_count_lowest(g: Grid, j: int)
    requires
        0 <= j <= 22,
    ensures
        lowest_full(g, j) >= 22 ==> full_count(g, j) == 0,
        lowest_full(g, j) < 22 ==> full_count(g, j) == 1 + full_count(g, lowest_full(g, j) + 1),
    decreases 22 - j,
{
    if j < 22 && !row_full(g, j) {
        lemma_full_count_lowest(g, j + 1);
    }
}

proof fn lemma_without_count(g: Grid, j: int, n: int)
    requires
        0 <= j <= 22,
        0 <= n <= 4,
    ensures
        without_full_rows(g, j, n).1 == if n + full_count(g, j) < 4 { n + full_count(g, j) } else { 4 },
    decreases 4 - n, 22 - j,
{
    lemma_full_count_lowest(g, j);
    lemma_full_count_nonneg(g, j);
    if n >= 4 || j >= 22 || lowest_full(g, j) >= 22 {
    } else {
        let r = lowest_full(g, j);
        lemma_lowest_full_bounds(g, j);
        lemma_without_count(g, r + 1, n + 1);
    }
}

proof fn lemma_full_count_nonneg(g: Grid, j: int)
    ensures
        0 <= full_count(g, j),
    decreases 22 - j,
{
    if j < 22 {
        lemma_full_count_nonneg(g, j + 1);
    }
}

/// With the top row not full, clearing lines removes the lowest full rows of
/// the board, as many as there are but at most four, each by moving the rows
/// above it down one, and counts them.
pub proof fn law_clearing_removes_lowest_full_rows(g: Grid)
    requires
        !row_full(g, 21),
    ensures
        cleared(g) == without_full_rows(g, 0, 0),
        cleared(g).1 == if full_count(g, 0) < 4 { full_count(g, 0) } else { 4 },
{
    lemma_cleared_is_removal(g, 0, 0);
    lemma_without_count(g, 0, 0);
}

/// How far a cell at row `y` of column `x` can fall.
fn calc_drop(board: &Board, x: usize, y: usize) -> (d: usize)
    requires
        x < 10,
        y < 22,
    ensures
        d == col_drop(grid(*board), x as int, y as int),
{
    let ghost g = grid(*board);
    let mut j: usize = y;
    while j > 0
        invariant
            j <= y < 22,
            x < 10,
            g == grid(*board),
            col_drop(g, x as int, y as int) == gap_below(g, x as int, y as int, j - 1),
        decreases j,
    {
        j -= 1;
        if board[x][j].state == State::Placed {
            return y - (j + 1);
        }
    }
    y
}

/// The whole state of a game.
pub struct Game {
    /// The board, indexed by column then row.
    pub board: [[Block; 22]; 10],
    /// The panel that shows the next three pieces, indexed by column then row.
    pub next_board: [[[u8; 3]; 10]; 4],
    /// The panel that shows the held piece, indexed by column then row.
    pub held_board: [[[u8; 3]; 4]; 4],
    /// The falling piece.
    pub curr_mino: Mino,
    /// The next three pieces, the first entering next.
    pub next_minos: [Mino; 3],
    /// The piece put aside.
    pub held_mino: Mino,
    /// Whether a piece has been put aside.
    pub has_held: bool,
    /// The level, which sets how fast pieces fall.
    pub level: usize,
    /// Ticks left before the piece falls one row.
    pub drop_ticks: u16,
    /// Lines cleared so far.
    pub lines: u16,
    /// Seconds played.
    pub time: u16,
    /// Points scored.
    pub score: u32,
}

impl Game {
    /// The falling piece.
    pub open spec fn piece(self) -> Mino {
        self.curr_mino
    }

    /// The `i`-th of the pieces that come next.
    pub open spec fn upcoming(self, i: int) -> Mino {
        self.next_minos[i]
    }

    /// The piece put aside.
    pub open spec fn held(self) -> Mino {
        self.held_mino
    }

    /// Whether a piece has been put aside.
    pub open spec fn holding(self) -> bool {
        self.has_held
    }

    /// The level, which sets how fast pieces fall.
    pub open spec fn current_level(self) -> int {
        self.level as int
    }

    /// The board as a grid.
    pub open spec fn cells(self) -> Grid {
        grid(self.board)
    }

    /// The invariant that every operation keeps: every piece lies on the board
    /// and is whole, no cell of the falling piece holds a resting piece, a held
    /// piece waits at the entry position, and the level is at most the highest.
    pub open spec fn wf(self) -> bool {
        &&& self.pieces_on_board()
        &&& self.pieces_whole()
        &&& piece_clear(grid(self.board), self.curr_mino)
        &&& self.has_held ==> self.held_mino == spawned(self.held_mino.shape, self.held_mino.ori)
        &&& self.level <= MAX_LEVEL
    }

    /// A game under way: the invariant holds, the tick count lies between 1
    /// and the level's number of ticks, and the coming pieces wait at the entry
    /// position, pointing down.
    pub open spec fn in_play(self) -> bool {
        &&& self.wf()
        &&& 1 <= self.drop_ticks <= drop_ticks_for(self.level as int)
        &&& forall|i: int|
            0 <= i < 3 ==> #[trigger] self.next_minos[i] == spawned(self.next_minos[i].shape, Orientation::OriD)
    }

    /// The falling piece lies on the board, is whole, and no cell of it holds
    /// a resting piece.
    pub open spec fn piece_ok(self) -> bool {
        &&& in_board(self.curr_mino)
        &&& well_shaped(self.curr_mino)
        &&& piece_clear(grid(self.board), self.curr_mino)
    }

    /// Every empty cell of the board is black.
    pub open spec fn board_tidy(self) -> bool {
        tidy(grid(self.board))
    }

    /// The falling, coming and held pieces are all whole.
    pub open spec fn pieces_whole(self) -> bool {
        &&& well_shaped(self.curr_mino)
        &&& forall|i: int| 0 <= i < 3 ==> well_shaped(#[trigger] self.next_minos[i])
        &&& well_shaped(self.held_mino)
    }

    /// The falling, coming and held pieces all lie on the board.
    pub open spec fn pieces_on_board(self) -> bool {
        &&& in_board(self.curr_mino)
        &&& forall|i: int| 0 <= i < 3 ==> in_board(#[trigger] self.next_minos[i])
        &&& in_board(self.held_mino)
    }

    /// `self` and `other` differ at most in their boards.
    pub open spec fn same_but_board(self, other: Game) -> bool {
        &&& self.next_board == other.next_board
        &&& self.held_board == other.held_board
        &&& self.same_but_screens(other)
    }

    /// `self` and `other` differ at most in their boards and preview panels.
    pub open spec fn same_but_screens(self, other: Game) -> bool {
        &&& self.curr_mino == other.curr_mino
        &&& self.next_minos == other.next_minos
        &&& self.held_mino == other.held_mino
        &&& self.has_held == other.has_held
        &&& self.level == other.level
        &&& self.drop_ticks == other.drop_ticks
        &&& self.lines == other.lines
        &&& self.time == other.time
        &&& self.score == other.score
    }

    /// Redraws the falling piece and its shadow on the board.
    pub fn update_pos(&mut self)
        requires
            in_board(old(self).piece()),
        ensures
            final(self).cells() == repaint(old(self).cells(), old(self).piece()),
            final(self).same_but_board(*old(self)),
            piece_clear(final(self).cells(), final(self).piece()),
            old(self).board_tidy() ==> final(self).board_tidy(),
            old(self).wf() ==> final(self).wf(),
            old(self).in_play() ==> final(self).in_play(),
    {
        let drop = self.drop_distance();
        let piece = self.curr_mino;
        let ghost g0 = grid(self.board);
        let ghost s0 = *self;
        proof {
            lemma_drop_dist_bounds(g0, piece);
        }
        let dark = black_color();
        let mut i: usize = 0;
        while i < B_LEN
            invariant
                0 <= i <= 10,
                dark == black(),
                self.same_but_board(s0),
                forall|x: int, y: int|
                    on_board(x, y) ==> #[trigger] self.board[x][y] == if x < i {
                        clear_transient(g0)(x, y)
                    } else {
                        g0(x, y)
                    },
            decreases 10 - i,
        {
            let mut j: usize = 0;
            while j < B_HEI
                invariant
                    0 <= i < 10,
                    0 <= j <= 22,
                    dark == black(),
                    self.same_but_board(s0),
                    forall|x: int, y: int|
                        on_board(x, y) ==> #[trigger] self.board[x][y] == if x < i || (x == i && y
                            < j) {
                            clear_transient(g0)(x, y)
                        } else {
                            g0(x, y)
                        },
                decreases 22 - j,
            {
                match self.board[i][j].state {
                    State::Falling | State::Phantom => {
                        self.board[i][j] = Block { state: State::Empty, color: dark };
                    },
                    _ => {},
                }
                j += 1;
            }
            i += 1;
        }
        assert(grid(self.board) =~= clear_transient(g0));
        let color = shape_color(piece.shape);
        assert(on_board(cell_x(piece, 0), cell_y(piece, 0)));
        let x = piece.center[0] as usize;
        let y = piece.center[1] as usize;
        set_cell(&mut self.board, x, y - drop, Block { state: State::Phantom, color });
        set_cell(&mut self.board, x, y, Block { state: State::Falling, color });
        proof {
            let c = clear_transient(g0);
            assert(painted(c, piece, drop as int, 0) == c);
            assert(paint_y(piece, drop as int, 0) == y - drop);
            assert(painted(c, piece, drop as int, 1) == with_block(c, x as int, y - drop, block_of(State::Phantom, color)));
            assert(painted(c, piece, drop as int, 2) == with_block(painted(c, piece, drop as int, 1), x as int, y as int, block_of(State::Falling, color)));
        }
        let mut i: usize = 0;
        while i < CORD_NUM
            invariant
                0 <= i <= 3,
                piece == s0.curr_mino,
                in_board(piece),
                color == color_list(piece.shape),
                drop == drop_dist(g0, piece),
                forall|k: int| 0 <= k < 4 ==> drop <= #[trigger] cell_y(piece, k),
                self.same_but_board(s0),
                grid(self.board) == painted(clear_transient(g0), piece, drop as int, 2 * (i + 1)),
            decreases 3 - i,
        {
            assert(on_board(cell_x(piece, i + 1), cell_y(piece, i + 1)));
            assert(drop <= cell_y(piece, i + 1));
            let x = piece.cords[i][0] as usize;
            let y = piece.cords[i][1] as usize;
            set_cell(&mut self.board, x, y - drop, Block { state: State::Phantom, color });
            set_cell(&mut self.board, x, y, Block { state: State::Falling, color });
            proof {
                let c = clear_transient(g0);
                let n = 2 * (i + 1);
                assert(n / 2 == i + 1 && n % 2 == 0);
                assert((n + 1) / 2 == i + 1 && (n + 1) % 2 == 1);
                assert(painted(c, piece, drop as int, n + 1) == with_block(painted(c, piece, drop as int, n), x as int, y - drop, block_of(State::Phantom, color)));
                assert(painted(c, piece, drop as int, n + 2) == with_block(painted(c, piece, drop as int, n + 1), x as int, y as int, block_of(State::Falling, color)));
            }
            i += 1;
        }
        proof {
            lemma_repaint_clears_piece(g0, piece);
            if tidy(g0) {
                lemma_tidy_repaint(g0, piece);
            }
        }
    }

    /// Whether the falling piece may turn a quarter clockwise.
    fn can_rotate(&self) -> (r: bool)
        requires
            in_board(self.curr_mino),
            !rotation_faults(grid(self.board), self.curr_mino),
        ensures
            r == rotation_allowed(grid(self.board), self.curr_mino),
    {
        let ghost g = grid(self.board);
        let piece = self.curr_mino;
        match piece.shape {
            Shape::ShapeO => {
                return false;
            },
            _ => {},
        }
        let cent_x = piece.center[0] as i16;
        let cent_y = piece.center[1] as i16;
        let mut i: usize = 0;
        while i < CORD_NUM
            invariant
                0 <= i <= 3,
                g == grid(self.board),
                piece == self.curr_mino,
                !(piece.shape is ShapeO),
                !rotation_faults(g, piece),
                cent_x == piece.center[0],
                cent_y == piece.center[1],
                forall|j: int| 0 <= j < i ==> rot_ok(g, piece, j),
            decreases 3 - i,
        {
            let curr_x = piece.cords[i][0] as i16;
            let curr_y = piece.cords[i][1] as i16;
            let new_x = cent_x + (curr_y - cent_y);
            let new_y = cent_y - (curr_x - cent_x);
            assert(new_x == rot_x(piece, i as int) && new_y == rot_y(piece, i as int));
            proof {
                if 0 <= new_x < 10 && new_y >= 22 {
                    assert(rot_above(piece, i as int));
                    assert(rotation_faults(g, piece));
                }
            }
            if new_x >= B_LEN as i16 || new_x < 0 || new_y < 0
                || self.board[new_x as usize][new_y as usize].state == State::Placed {
                assert(!rot_ok(g, piece, i as int));
                return false;
            }
            i += 1;
        }
        true
    }

    /// Whether testing if the falling piece may turn would read a cell above
    /// the board's top row (then `rotate` is not to be called).
    pub fn rotation_leaves_board(&self) -> (r: bool)
        requires
            in_board(self.piece()),
        ensures
            r == rotation_faults(self.cells(), self.piece()),
    {
        let ghost g = grid(self.board);
        let piece = self.curr_mino;
        match piece.shape {
            Shape::ShapeO => {
                return false;
            },
            _ => {},
        }
        let cent_x = piece.center[0] as i16;
        let cent_y = piece.center[1] as i16;
        let mut i: usize = 0;
        while i < CORD_NUM
            invariant
                0 <= i <= 3,
                g == grid(self.board),
                piece == self.curr_mino,
                !(piece.shape is ShapeO),
                cent_x == piece.center[0],
                cent_y == piece.center[1],
                forall|j: int| 0 <= j < i ==> rot_ok(g, piece, j),
            decreases 3 - i,
        {
            let curr_x = piece.cords[i][0] as i16;
            let curr_y = piece.cords[i][1] as i16;
            let new_x = cent_x + (curr_y - cent_y);
            let new_y = cent_y - (curr_x - cent_x);
            assert(new_x == rot_x(piece, i as int) && new_y == rot_y(piece, i as int));
            if new_x >= B_LEN as i16 || new_x < 0 || new_y < 0 {
                proof {
                    assert forall|c: int| 0 <= c < 3 && #[trigger] rot_above(piece, c) implies !(forall|j: int|
                        0 <= j < c ==> rot_ok(g, piece, j)) by {
                        if c < i {
                            assert(rot_ok(g, piece, c));
                        } else if c > i {
                            assert(!rot_ok(g, piece, i as int));
                        }
                    }
                }
                return false;
            }
            if new_y >= 22 {
                assert(rot_above(piece, i as int));
                return true;
            }
            if self.board[new_x as usize][new_y as usize].state == State::Placed {
                proof {
                    assert forall|c: int| 0 <= c < 3 && #[trigger] rot_above(piece, c) implies !(forall|j: int|
                        0 <= j < c ==> rot_ok(g, piece, j)) by {
                        if c < i {
                            assert(rot_ok(g, piece, c));
                        } else if c > i {
                            assert(!rot_ok(g, piece, i as int));
                        }
                    }
                }
                return false;
            }
            i += 1;
        }
        proof {
            assert forall|c: int| 0 <= c < 3 && #[trigger] rot_above(piece, c) implies !(forall|j: int|
                0 <= j < c ==> rot_ok(g, piece, j)) by {
                assert(rot_ok(g, piece, c));
            }
        }
        false
    }

    /// Whether the falling piece may move one column right (`dir`) or left.
    fn can_shift(&self, dir: bool) -> (r: bool)
        requires
            in_board(self.curr_mino),
        ensures
            r == shift_allowed(grid(self.board), self.curr_mino, dir),
    {
        let ghost g = grid(self.board);
        let mov: i8 = if dir { 1 } else { -1 };
        let piece = self.curr_mino;
        assert(on_board(cell_x(piece, 0), cell_y(piece, 0)));
        let mut x = piece.center[0] as i8;
        let mut y = piece.center[1] as usize;
        let mut next_x = x + mov;
        if next_x >= B_LEN as i8 || next_x < 0 || self.board[next_x as usize][y].state == State::Placed {
            assert(!step_ok(g, piece, dir, 0));
            return false;
        }
        let mut i: usize = 0;
        while i < CORD_NUM
            invariant
                0 <= i <= 3,
                g == grid(self.board),
                piece == self.curr_mino,
                in_board(piece),
                mov == step(dir),
                forall|k: int| 0 <= k <= i ==> step_ok(g, piece, dir, k),
            decreases 3 - i,
        {
            assert(on_board(cell_x(piece, i + 1), cell_y(piece, i + 1)));
            x = piece.cords[i][0] as i8;
            y = piece.cords[i][1] as usize;
            next_x = x + mov;
            if next_x >= B_LEN as i8 || next_x < 0 || self.board[next_x as usize][y].state == State::Placed {
                assert(!step_ok(g, piece, dir, i + 1));
                return false;
            }
            i += 1;
        }
        true
    }

    /// Whether the falling piece may fall one row.
    fn can_fall_one(&self) -> (r: bool)
        requires
            in_board(self.curr_mino),
        ensures
            r == fall_allowed(grid(self.board), self.curr_mino),
    {
        let ghost g = grid(self.board);
        let piece = self.curr_mino;
        assert(on_board(cell_x(piece, 0), cell_y(piece, 0)));
        let cx = piece.center[0] as usize;
        let cy = piece.center[1] as usize;
        if cy <= 0 || self.board[cx][cy - 1].state == State::Placed {
            assert(!fall_ok(g, piece, 0));
            return false;
        }
        let mut i: usize = 0;
        while i < CORD_NUM
            invariant
                0 <= i <= 3,
                g == grid(self.board),
                piece == self.curr_mino,
                in_board(piece),
                cx == cell_x(piece, 0),
                cy == cell_y(piece, 0),
                forall|k: int| 0 <= k <= i ==> fall_ok(g, piece, k),
            decreases 3 - i,
        {
            assert(on_board(cell_x(piece, i + 1), cell_y(piece, i + 1)));
            let x = piece.cords[i][0] as usize;
            let y = piece.cords[i][1] as usize;
            if x == cx && y > cy {
            } else if y <= 0 || self.board[x][y - 1].state == State::Placed {
                assert(!fall_ok(g, piece, i + 1));
                return false;
            }
            i += 1;
        }
        true
    }

    /// The falling piece comes to rest where it is.
    fn place(&mut self)
        requires
            in_board(old(self).piece()),
        ensures
            final(self).cells() == place_cells(old(self).cells(), old(self).piece()),
            final(self).same_but_board(*old(self)),
    {
        let m = self.curr_mino;
        place_piece(&mut self.board, m);
    }

    /// Clears full rows, counts them among the cleared lines, and raises the
    /// level when the count reaches four times the level plus one.
    fn line_up(&mut self)
        requires
            old(self).level <= MAX_LEVEL,
            old(self).lines + cleared(old(self).cells()).1 <= u16::MAX,
        ensures
            final(self).cells() == cleared(old(self).cells()).0,
            final(self).lines == old(self).lines + cleared(old(self).cells()).1,
            final(self).level == next_level(old(self).level as int, final(self).lines as int),
            final(self).level <= MAX_LEVEL,
            final(self).same_but_board(Game { lines: final(self).lines, level: final(self).level, ..*old(self) }),
    {
        let n = clear_full_rows(&mut self.board);
        self.lines = self.lines + n as u16;
        if self.lines / ((4 * (self.level + 1)) as u16) != 0 {
            self.level = if self.level + 1 < MAX_LEVEL { self.level + 1 } else { MAX_LEVEL };
        }
    }

    /// The two panels show the coming pieces and the held piece.
    pub open spec fn preview_shown(self) -> bool {
        &&& forall|x: int, y: int|
            0 <= x < 4 && 0 <= y < 10 ==> #[trigger] self.next_board[x][y] == next_panel(
                self.next_minos,
                3,
                x,
                y,
            )
        &&& forall|x: int, y: int|
            0 <= x < 4 && 0 <= y < 4 ==> #[trigger] self.held_board[x][y] == held_panel(
                self.has_held,
                self.held_mino,
                x,
                y,
            )
    }

    /// Redraws the panels of the coming pieces and of the held piece.
    fn update_preview(&mut self)
        ensures
            final(self).preview_shown(),
            final(self).board == old(self).board,
            final(self).same_but_screens(*old(self)),
    {
        let dark = black_color();
        self.next_board = [[dark; 10]; 4];
        self.held_board = [[dark; 4]; 4];
        let ghost s0 = *self;
        if self.has_held {
            let cent_x: usize = 1;
            let cent_y: usize = 1;
            let shape = self.held_mino.shape;
            let color = shape_color(shape);
            let offs = cord_offsets(shape);
            self.held_board[cent_x][cent_y] = color;
            assert forall|x: int, y: int| 0 <= x < 4 && 0 <= y < 4 implies #[trigger] self.held_board[x][y]
                == if in_shape(shape, 1, 1, x, y, 1) { color } else { black() } by {
                if in_shape(shape, 1, 1, x, y, 1) {
                    let k = choose|k: int| 0 <= k < 1 && #[trigger] shape_cell(shape, 1, 1, x, y, k);
                    assert(k == 0);
                } else {
                    assert(!shape_cell(shape, 1, 1, x, y, 0));
                }
            }
            let mut i: usize = 0;
            while i < CORD_NUM
                invariant
                    0 <= i <= 3,
                    cent_x == 1,
                    cent_y == 1,
                    shape == self.held_mino.shape,
                    color == color_list(shape),
                    offs == cord_list(shape),
                    self.has_held,
                    self.next_board == s0.next_board,
                    self.board == s0.board,
                    self.same_but_screens(s0),
                    forall|x: int, y: int|
                        0 <= x < 4 && 0 <= y < 4 ==> #[trigger] self.held_board[x][y] == if in_shape(
                            shape,
                            1,
                            1,
                            x,
                            y,
                            i + 1,
                        ) {
                            color
                        } else {
                            black()
                        },
                decreases 3 - i,
            {
                proof {
                    lemma_offsets_small(shape);
                    assert(-1 <= cord_list(shape)[i as int][0] <= 2);
                    assert(0 <= cord_list(shape)[i as int][1] <= 1);
                }
                let x = (cent_x as i8 + offs[i][0]) as usize;
                let y = (cent_y as i8 + offs[i][1]) as usize;
                let ghost prev = self.held_board;
                self.held_board[x][y] = color;
                assert forall|a: int, b: int| 0 <= a < 4 && 0 <= b < 4 implies #[trigger] self.held_board[a][b]
                    == if in_shape(shape, 1, 1, a, b, i + 2) { color } else { black() } by {
                    if a == x && b == y {
                        assert(shape_cell(shape, 1, 1, a, b, i + 1));
                    } else {
                        assert(self.held_board[a][b] == prev[a][b]);
                        if in_shape(shape, 1, 1, a, b, i + 2) {
                            let k = choose|k: int| 0 <= k < i + 2 && #[trigger] shape_cell(shape, 1, 1, a, b, k);
                            assert(k != i + 1);
                            assert(in_shape(shape, 1, 1, a, b, i + 1));
                        } else {
                            assert forall|k: int| 0 <= k < i + 1 implies !#[trigger] shape_cell(shape, 1, 1, a, b, k) by {
                                assert(!(0 <= k < i + 2 && shape_cell(shape, 1, 1, a, b, k)));
                            }
                        }
                    }
                }
                i += 1;
            }
        }
        assert forall|x: int, y: int| 0 <= x < 4 && 0 <= y < 4 implies #[trigger] self.held_board[x][y]
            == held_panel(self.has_held, self.held_mino, x, y) by {}
        let ghost s1 = *self;
        let cent_x: usize = 1;
        let mut cent_y: isize = 7;
        let mut j: usize = 0;
        while j < NUM_MINOS
            invariant
                0 <= j <= 3,
                cent_y == 7 - 3 * j,
                cent_x == 1,
                self.held_board == s1.held_board,
                self.board == s1.board,
                self.same_but_screens(s1),
                forall|x: int, y: int|
                    0 <= x < 4 && 0 <= y < 10 ==> #[trigger] self.next_board[x][y] == next_panel(
                        self.next_minos,
                        j as int,
                        x,
                        y,
                    ),
            decreases 3 - j,
        {
            let ghost ms = self.next_minos;
            let shape = self.next_minos[j].shape;
            let color = shape_color(shape);
            let offs = cord_offsets(shape);
            let ghost prev0 = self.next_board;
            self.next_board[cent_x][cent_y as usize] = color;
            assert forall|x: int, y: int| 0 <= x < 4 && 0 <= y < 10 implies #[trigger] self.next_board[x][y]
                == if in_shape(shape, 1, cent_y as int, x, y, 1) { color } else { next_panel(ms, j as int, x, y) } by {
                if in_shape(shape, 1, cent_y as int, x, y, 1) {
                    let k = choose|k: int| 0 <= k < 1 && #[trigger] shape_cell(shape, 1, cent_y as int, x, y, k);
                    assert(k == 0);
                } else {
                    assert(!shape_cell(shape, 1, cent_y as int, x, y, 0));
                    assert(self.next_board[x][y] == prev0[x][y]);
                }
            }
            let mut i: usize = 0;
            while i < CORD_NUM
                invariant
                    0 <= i <= 3,
                    0 <= j < 3,
                    cent_x == 1,
                    cent_y == 7 - 3 * j,
                    ms == self.next_minos,
                    shape == ms[j as int].shape,
                    color == color_list(shape),
                    offs == cord_list(shape),
                    self.held_board == s1.held_board,
                    self.board == s1.board,
                    self.same_but_screens(s1),
                    forall|x: int, y: int|
                        0 <= x < 4 && 0 <= y < 10 ==> #[trigger] self.next_board[x][y] == if in_shape(
                            shape,
                            1,
                            cent_y as int,
                            x,
                            y,
                            i + 1,
                        ) {
                            color
                        } else {
                            next_panel(ms, j as int, x, y)
                        },
                decreases 3 - i,
            {
                proof {
                    lemma_offsets_small(shape);
                    assert(-1 <= cord_list(shape)[i as int][0] <= 2);
                    assert(0 <= cord_list(shape)[i as int][1] <= 1);
                }
                let x = (cent_x as i8 + offs[i][0]) as usize;
                let y = (cent_y as i8 + offs[i][1]) as usize;
                let ghost prev = self.next_board;
                self.next_board[x][y] = color;
                assert forall|a: int, b: int| 0 <= a < 4 && 0 <= b < 10 implies #[trigger] self.next_board[a][b]
                    == if in_shape(shape, 1, cent_y as int, a, b, i + 2) { color } else { next_panel(ms, j as int, a, b) } by {
                    if a == x && b == y {
                        assert(shape_cell(shape, 1, cent_y as int, a, b, i + 1));
                    } else {
                        assert(self.next_board[a][b] == prev[a][b]);
                        if in_shape(shape, 1, cent_y as int, a, b, i + 2) {
                            let k = choose|k: int| 0 <= k < i + 2 && #[trigger] shape_cell(shape, 1, cent_y as int, a, b, k);
                            assert(k != i + 1);
                            assert(in_shape(shape, 1, cent_y as int, a, b, i + 1));
                        } else {
                            assert forall|k: int| 0 <= k < i + 1 implies !#[trigger] shape_cell(shape, 1, cent_y as int, a, b, k) by {
                                assert(!(0 <= k < i + 2 && shape_cell(shape, 1, cent_y as int, a, b, k)));
                            }
                        }
                    }
                }
                i += 1;
            }
            cent_y -= 3;
            j += 1;
        }
    }

    /// Brings the next piece into play at the entry position, in the hidden
    /// rows of the board, and deals a new one with the word `w`.
    fn release_next(&mut self, w: u32)
        ensures
            final(self).preview_shown(),
            final(self).board == old(self).board,
            final(self).same_but_screens(
                Game {
                    curr_mino: old(self).next_minos[0],
                    next_minos: [old(self).next_minos[1], old(self).next_minos[2], dealt(w)],
                    ..*old(self)
                },
            ),
    {
        self.curr_mino = self.next_minos[0];
        self.next_minos[0] = self.next_minos[1];
        self.next_minos[1] = self.next_minos[2];
        self.next_minos[2] = Mino::from_word(w);
        proof {
            lemma_spawned_in_board(shape_of_word(w), Orientation::OriD);
        }
        self.update_preview();
        assert(self.next_minos =~= [old(self).next_minos[1], old(self).next_minos[2], dealt(w)]);
    }

    /// Every field holds its default: an empty black board and black panels,
    /// blank pieces, nothing held, and every count 0.
    pub open spec fn is_blank(self) -> bool {
        &&& grid(self.board) == empty_grid()
        &&& forall|x: int, y: int| 0 <= x < 4 && 0 <= y < 10 ==> #[trigger] self.next_board[x][y] == black()
        &&& forall|x: int, y: int| 0 <= x < 4 && 0 <= y < 4 ==> #[trigger] self.held_board[x][y] == black()
        &&& self.curr_mino == blank_mino()
        &&& self.next_minos == [blank_mino(), blank_mino(), blank_mino()]
        &&& self.held_mino == blank_mino()
        &&& !self.has_held
        &&& self.level == 0
        &&& self.drop_ticks == 0
        &&& self.lines == 0
        &&& self.time == 0
        &&& self.score == 0
    }

    /// Lines cleared so far.
    pub open spec fn lines_count(self) -> int {
        self.lines as int
    }

    /// The game with another falling piece.
    pub open spec fn with_piece(self, m: Mino) -> Game {
        Game { curr_mino: m, ..self }
    }

    /// The grid, and the number of rows cleared, once the falling piece comes
    /// to rest where it is and full rows are cleared.
    pub open spec fn settled(self) -> (Grid, int) {
        cleared(place_cells(grid(self.board), self.curr_mino))
    }

    /// The next tick finds the piece unable to fall, and it comes to rest.
    pub open spec fn tick_places(self) -> bool {
        self.drop_ticks <= 1 && !fall_allowed(grid(self.board), self.curr_mino)
    }

    /// The count of cleared lines fits in sixteen bits after the next tick.
    pub open spec fn tick_fits(self) -> bool {
        self.tick_places() ==> self.lines + self.settled().1 <= u16::MAX
    }

    /// The state after the next tick, boards and panels aside, when the word
    /// `w` of the random generator deals the piece that enters: the count of
    /// ticks goes down by one; when it reaches zero the piece falls a row if it
    /// may, or else comes to rest, full rows are cleared and counted, the level
    /// may go up, the next piece enters and a new one is dealt; then the count
    /// starts again from the level's number of ticks.
    pub open spec fn ticked(self, w: u32) -> Game {
        if self.drop_ticks > 1 {
            Game { drop_ticks: (self.drop_ticks - 1) as u16, ..self }
        } else if fall_allowed(grid(self.board), self.curr_mino) {
            Game {
                curr_mino: lowered(self.curr_mino, 1),
                drop_ticks: drop_ticks_for(self.level as int) as u16,
                ..self
            }
        } else {
            let lines = self.lines + self.settled().1;
            let level = next_level(self.level as int, lines);
            Game {
                curr_mino: self.next_minos[0],
                next_minos: [self.next_minos[1], self.next_minos[2], dealt(w)],
                lines: lines as u16,
                level: level as usize,
                drop_ticks: drop_ticks_for(level) as u16,
                ..self
            }
        }
    }

    /// The board after the next tick.
    pub open spec fn ticked_cells(self) -> Grid {
        if self.drop_ticks > 1 {
            grid(self.board)
        } else if fall_allowed(grid(self.board), self.curr_mino) {
            repaint(grid(self.board), lowered(self.curr_mino, 1))
        } else {
            repaint(self.settled().0, self.next_minos[0])
        }
    }

    /// `t` is the game after the next tick, with `w` dealing any new piece.
    pub open spec fn ticked_to(self, t: Game, w: u32) -> bool {
        &&& grid(t.board) == self.ticked_cells()
        &&& t.same_but_screens(self.ticked(w))
        &&& if self.tick_places() {
            t.preview_shown()
        } else {
            t.next_board == self.next_board && t.held_board == self.held_board
        }
    }

    /// The state after the falling piece is put aside, boards and panels
    /// aside: it goes back to the entry position, keeping its orientation; the
    /// piece held before comes into play, or, if there was none, the next piece
    /// enters and `w` deals a new one.
    pub open spec fn held_state(self, w: u32) -> Game {
        let stored = spawned(self.curr_mino.shape, self.curr_mino.ori);
        if !self.has_held {
            Game {
                held_mino: stored,
                curr_mino: self.next_minos[0],
                next_minos: [self.next_minos[1], self.next_minos[2], dealt(w)],
                has_held: true,
                ..self
            }
        } else {
            Game { curr_mino: self.held_mino, held_mino: stored, ..self }
        }
    }

    /// `t` is the game after the falling piece is put aside, with `w` dealing
    /// any new piece.
    pub open spec fn held_to(self, t: Game, w: u32) -> bool {
        &&& t.same_but_screens(self.held_state(w))
        &&& t.preview_shown()
        &&& grid(t.board) == repaint(grid(self.board), self.held_state(w).curr_mino)
    }

    /// `g` is a game just begun with words `a` to `d` of the random generator
    /// dealing its first four pieces.
    pub open spec fn fresh(g: Game, a: u32, b: u32, c: u32, d: u32) -> bool {
        &&& g.in_play()
        &&& g.board_tidy()
        &&& g.curr_mino == dealt(a)
        &&& g.next_minos == [dealt(b), dealt(c), dealt(d)]
        &&& g.held_mino == blank_mino()
        &&& !g.has_held
        &&& g.level == 0
        &&& g.drop_ticks == 30
        &&& g.lines == 0
        &&& g.time == 0
        &&& g.score == 0
        &&& grid(g.board) == repaint(empty_grid(), dealt(a))
        &&& g.preview_shown()
    }

    /// How many rows the falling piece would fall if dropped.
    fn drop_distance(&self) -> (d: usize)
        requires
            in_board(self.curr_mino),
        ensures
            d == drop_dist(grid(self.board), self.curr_mino),
    {
        let ghost g = grid(self.board);
        let piece = self.curr_mino;
        assert(on_board(cell_x(piece, 0), cell_y(piece, 0)));
        let cx = piece.center[0] as usize;
        let cy = piece.center[1] as usize;
        let mut drop = calc_drop(&self.board, cx, cy);
        let mut i: usize = 0;
        while i < CORD_NUM
            invariant
                0 <= i <= 3,
                g == grid(self.board),
                piece == self.curr_mino,
                in_board(piece),
                cx == cell_x(piece, 0),
                cy == cell_y(piece, 0),
                drop == drop_upto(g, piece, i + 1),
            decreases 3 - i,
        {
            assert(on_board(cell_x(piece, i + 1), cell_y(piece, i + 1)));
            let x = piece.cords[i][0] as usize;
            let y = piece.cords[i][1] as usize;
            if x != cx || y < cy {
                let temp = calc_drop(&self.board, x, y);
                if temp < drop {
                    drop = temp;
                }
            }
            i += 1;
        }
        drop
    }
}

impl Game {
    /// A game whose first four pieces are dealt by the words `a` to `d` of the
    /// random generator: the first falls from the entry position, the others
    /// come next; the level is 0 and a fall takes 30 ticks.
    pub fn from_words(a: u32, b: u32, c: u32, d: u32) -> (g: Game)
        ensures
            Game::fresh(g, a, b, c, d),
    {
        let empty = Block { state: State::Empty, color: black_color() };
        let dark = black_color();
        let mut tetris = Game {
            board: [[empty; 22]; 10],
            next_board: [[dark; 10]; 4],
            held_board: [[dark; 4]; 4],
            curr_mino: Mino::from_word(a),
            next_minos: [Mino::from_word(b), Mino::from_word(c), Mino::from_word(d)],
            held_mino: Mino::default(),
            has_held: false,
            level: 0,
            drop_ticks: level_ticks(0),
            lines: 0,
            time: 0,
            score: 0,
        };
        proof {
            lemma_spawned_in_board(shape_of_word(a), Orientation::OriD);
            lemma_spawned_in_board(shape_of_word(b), Orientation::OriD);
            lemma_spawned_in_board(shape_of_word(c), Orientation::OriD);
            lemma_spawned_in_board(shape_of_word(d), Orientation::OriD);
            assert(in_board(blank_mino())) by {
                let m = blank_mino();
                assert forall|k: int| 0 <= k < 4 implies on_board(#[trigger] cell_x(m, k), cell_y(m, k)) by {}
            }
            assert(grid(tetris.board) =~= empty_grid());
            lemma_spawned_shaped(shape_of_word(a), Orientation::OriD);
            lemma_spawned_shaped(shape_of_word(b), Orientation::OriD);
            lemma_spawned_shaped(shape_of_word(c), Orientation::OriD);
            lemma_spawned_shaped(shape_of_word(d), Orientation::OriD);
            let z = blank_mino();
            assert forall|k: int| 0 <= k < 4 implies -1 <= #[trigger] cell_x(z, k) - cell_x(z, 0) <= 1
                && -1 <= cell_y(z, k) - cell_y(z, 0) <= 1 by {}
        }
        tetris.update_pos();
        tetris.update_preview();
        tetris
    }

    /// A game whose first four pieces are drawn at random.
    pub fn new() -> (g: Game)
        ensures
            exists|a: u32, b: u32, c: u32, d: u32| Game::fresh(g, a, b, c, d),
    {
        let a = random_word();
        let b = random_word();
        let c = random_word();
        let d = random_word();
        Game::from_words(a, b, c, d)
    }

    /// Turns the falling piece a quarter clockwise, if every turned cell lies
    /// on the board and is free, and redraws it.
    pub fn rotate(&mut self)
        requires
            in_board(old(self).piece()),
            !rotation_faults(old(self).cells(), old(self).piece()),
        ensures
            rotation_allowed(old(self).cells(), old(self).piece()) ==> {
                &&& final(self).same_but_board(old(self).with_piece(rotated(old(self).piece())))
                &&& final(self).cells() == repaint(old(self).cells(), rotated(old(self).piece()))
            },
            !rotation_allowed(old(self).cells(), old(self).piece()) ==> *final(self) == *old(self),
            old(self).wf() ==> final(self).wf(),
            old(self).in_play() ==> final(self).in_play(),
            old(self).board_tidy() ==> final(self).board_tidy(),
    {
        if self.can_rotate() {
            let ghost g0 = grid(self.board);
            let ghost m = self.curr_mino;
            proof {
                lemma_rotated_in_board(g0, m);
                assert(rot_ok(g0, m, 0) && rot_ok(g0, m, 1) && rot_ok(g0, m, 2));
                assert(turn_exact(m));
                if well_shaped(m) {
                    lemma_rotated_shaped(m);
                }
            }
            self.curr_mino.rotate();
            self.update_pos();
        }
    }

    /// Moves the falling piece one column right (`dir`) or left, if every
    /// moved cell lies on the board and is free, and redraws it.
    pub fn shift(&mut self, dir: bool)
        requires
            in_board(old(self).piece()),
        ensures
            shift_allowed(old(self).cells(), old(self).piece(), dir) ==> {
                &&& final(self).same_but_board(old(self).with_piece(shifted(old(self).piece(), dir)))
                &&& final(self).cells() == repaint(old(self).cells(), shifted(old(self).piece(), dir))
            },
            !shift_allowed(old(self).cells(), old(self).piece(), dir) ==> *final(self) == *old(self),
            old(self).wf() ==> final(self).wf(),
            old(self).in_play() ==> final(self).in_play(),
            old(self).board_tidy() ==> final(self).board_tidy(),
    {
        if self.can_shift(dir) {
            let ghost g0 = grid(self.board);
            let ghost m = self.curr_mino;
            proof {
                lemma_shifted_in_board(g0, m, dir);
                if well_shaped(m) {
                    lemma_shifted_shaped(m, dir);
                }
            }
            self.curr_mino.shift(dir);
            self.update_pos();
        }
    }

    /// What a tick needs to run without fault: the falling piece on the
    /// board, a positive tick count, a level within the table of tick counts
    /// when the count runs out, and the next piece on the board when the
    /// falling one comes to rest.
    pub open spec fn tick_ready(self) -> bool {
        &&& in_board(self.curr_mino)
        &&& self.drop_ticks >= 1
        &&& self.drop_ticks <= 1 ==> self.level <= MAX_LEVEL
        &&& self.tick_places() ==> in_board(self.next_minos[0])
    }

    /// One tick, with `w` the word of the random generator that deals a new
    /// piece if one enters.
    pub fn fall_or_place_with(&mut self, w: u32)
        requires
            old(self).tick_ready(),
            old(self).tick_fits(),
        ensures
            old(self).ticked_to(*final(self), w),
            old(self).wf() ==> final(self).wf(),
            old(self).in_play() ==> final(self).in_play(),
            old(self).board_tidy() ==> final(self).board_tidy(),
    {
        let ghost s0 = *self;
        self.drop_ticks -= 1;
        if self.drop_ticks <= 0 {
            if self.can_fall_one() {
                proof {
                    lemma_fallen_in_board(grid(self.board), self.curr_mino);
                    if well_shaped(self.curr_mino) {
                        lemma_lowered_shaped(self.curr_mino, 1);
                    }
                }
                self.curr_mino.fall();
            } else {
                let ghost gp = grid(self.board);
                self.place();
                proof {
                    let gq = place_cells(gp, self.curr_mino);
                    if tidy(gp) {
                        assert forall|x: int, y: int| on_board(x, y) && #[trigger] gq(x, y).state == State::Empty implies gq(x, y).color == black() by {
                            assert(gp(x, y).state == State::Empty);
                        }
                        lemma_tidy_cleared(gq, 0, 0);
                    }
                }
                self.line_up();
                proof {
                    lemma_spawned_shaped(shape_of_word(w), Orientation::OriD);
                    lemma_spawned_in_board(shape_of_word(w), Orientation::OriD);
                }
                self.release_next(w);
            }
            self.drop_ticks = level_ticks(self.level);
            self.update_pos();
        }
        assert(self.same_but_screens(s0.ticked(w)));
    }

    /// One tick, a new piece being drawn at random if one enters (a word is
    /// drawn from the generator at every tick and used only then).
    pub fn fall_or_place(&mut self)
        requires
            old(self).tick_ready(),
            old(self).tick_fits(),
        ensures
            exists|w: u32| old(self).ticked_to(*final(self), w),
            old(self).wf() ==> final(self).wf(),
            old(self).in_play() ==> final(self).in_play(),
            old(self).board_tidy() ==> final(self).board_tidy(),
    {
        let w = random_word();
        self.fall_or_place_with(w);
    }

    /// Drops the falling piece as far as it goes and redraws it.
    pub fn drop(&mut self)
        requires
            in_board(old(self).piece()),
        ensures
            final(self).same_but_board(
                old(self).with_piece(lowered(old(self).piece(), drop_dist(old(self).cells(), old(self).piece()))),
            ),
            final(self).cells() == repaint(old(self).cells(), final(self).piece()),
            old(self).wf() ==> final(self).wf(),
            old(self).in_play() ==> final(self).in_play(),
            old(self).board_tidy() ==> final(self).board_tidy(),
    {
        let ghost m = self.curr_mino;
        let ghost d = drop_dist(grid(self.board), m);
        proof {
            lemma_drop_dist_bounds(grid(self.board), m);
            lemma_lowered_in_board(m, d);
            if well_shaped(m) {
                lemma_lowered_shaped(m, d);
            }
        }
        let dist = self.drop_distance() as u8;
        assert(cell_y(m, 0) == m.center[1]);
        self.curr_mino.center[1] -= dist;
        let mut i: usize = 0;
        while i < CORD_NUM
            invariant
                0 <= i <= 3,
                dist == d,
                forall|k: int| 0 <= k < 4 ==> d <= #[trigger] cell_y(m, k),
                self.same_but_board(old(self).with_piece(self.curr_mino)),
                self.board == old(self).board,
                self.curr_mino.shape == m.shape,
                self.curr_mino.ori == m.ori,
                self.curr_mino.center == lowered(m, d).center,
                forall|c: int| 0 <= c < i ==> self.curr_mino.cords[c] == lowered(m, d).cords[c],
                forall|c: int| i <= c < 3 ==> self.curr_mino.cords[c] == m.cords[c],
            decreases 3 - i,
        {
            assert(d <= cell_y(m, i + 1));
            self.curr_mino.cords[i][1] -= dist;
            assert(self.curr_mino.cords[i as int] =~= lowered(m, d).cords[i as int]);
            i += 1;
        }
        assert(self.curr_mino.cords =~= lowered(m, d).cords);
        self.update_pos();
    }

    /// What putting the falling piece aside needs: the piece that comes into
    /// play lies on the board.
    pub open spec fn hold_ready(self) -> bool {
        if self.has_held {
            in_board(self.held_mino)
        } else {
            in_board(self.next_minos[0])
        }
    }

    /// Puts the falling piece aside, with `w` the word of the random generator
    /// that deals a new piece if one enters.
    pub fn hold_with(&mut self, w: u32)
        requires
            old(self).hold_ready(),
        ensures
            old(self).held_to(*final(self), w),
            old(self).wf() ==> final(self).wf(),
            old(self).in_play() ==> final(self).in_play(),
            old(self).board_tidy() ==> final(self).board_tidy(),
    {
        let ghost s0 = *self;
        let cent_x: i8 = 5;
        let cent_y: i8 = 20;
        proof {
            lemma_spawned_shaped(shape_of_word(w), Orientation::OriD);
            lemma_spawned_in_board(shape_of_word(w), Orientation::OriD);
        }
        if !self.has_held {
            self.held_mino = self.curr_mino;
            self.release_next(w);
            self.has_held = true;
        } else {
            let temp = self.curr_mino;
            self.curr_mino = self.held_mino;
            self.held_mino = temp;
        }
        let ghost mid = *self;
        let shape = self.held_mino.shape;
        let offs = cord_offsets(shape);
        self.held_mino.center[0] = cent_x as u8;
        self.held_mino.center[1] = cent_y as u8;
        let mut i: usize = 0;
        while i < CORD_NUM
            invariant
                0 <= i <= 3,
                cent_x == 5,
                cent_y == 20,
                shape == mid.held_mino.shape,
                offs == cord_list(shape),
                self.same_but_screens(Game { held_mino: self.held_mino, ..mid }),
                self.board == mid.board,
                self.held_mino.shape == mid.held_mino.shape,
                self.held_mino.ori == mid.held_mino.ori,
                self.held_mino.center == [5u8, 20u8],
                forall|c: int| 0 <= c < i ==> self.held_mino.cords[c] == spawn_cell(shape, c),
            decreases 3 - i,
        {
            proof {
                lemma_offsets_small(shape);
                assert(-1 <= cord_list(shape)[i as int][0] <= 2);
                assert(0 <= cord_list(shape)[i as int][1] <= 1);
            }
            self.held_mino.cords[i][0] = (cent_x + offs[i][0]) as u8;
            self.held_mino.cords[i][1] = (cent_y + offs[i][1]) as u8;
            i += 1;
        }
        assert(self.held_mino.cords =~= spawned(shape, mid.held_mino.ori).cords);
        assert(self.held_mino == spawned(shape, mid.held_mino.ori));
        proof {
            lemma_spawned_in_board(shape, mid.held_mino.ori);
            lemma_spawned_shaped(shape, mid.held_mino.ori);
        }
        self.update_pos();
        self.update_preview();
    }

    /// Puts the falling piece aside, a new piece being drawn at random if one
    /// enters (a word is drawn from the generator every time and used only
    /// then).
    pub fn hold(&mut self)
        requires
            old(self).hold_ready(),
        ensures
            exists|w: u32| old(self).held_to(*final(self), w),
            old(self).wf() ==> final(self).wf(),
            old(self).in_play() ==> final(self).in_play(),
            old(self).board_tidy() ==> final(self).board_tidy(),
    {
        let w = random_word();
        self.hold_with(w);
    }
}

impl Game {
    /// The falling piece.
    pub fn current_piece(&self) -> (m: Mino)
        ensures
            m == self.piece(),
    {
        self.curr_mino
    }

    /// The `i`-th of the pieces that come next.
    pub fn next_piece(&self, i: usize) -> (m: Mino)
        requires
            i < 3,
        ensures
            m == self.upcoming(i as int),
    {
        self.next_minos[i]
    }

    /// The piece put aside.
    pub fn held_piece(&self) -> (m: Mino)
        ensures
            m == self.held(),
    {
        self.held_mino
    }

    /// Whether a piece has been put aside.
    pub fn is_holding(&self) -> (b: bool)
        ensures
            b == self.holding(),
    {
        self.has_held
    }

    /// The level.
    pub fn level(&self) -> (l: usize)
        ensures
            l == self.current_level(),
    {
        self.level
    }

    /// Whether the count of cleared lines would go past sixteen bits at the
    /// next tick (then `fall_or_place` is not to be called).
    pub fn tick_overflows(&self) -> (r: bool)
        requires
            in_board(self.piece()),
        ensures
            r == !self.tick_fits(),
    {
        if self.drop_ticks > 1 {
            return false;
        }
        if self.can_fall_one() {
            return false;
        }
        let mut b = self.board;
        let m = self.curr_mino;
        place_piece(&mut b, m);
        let n = clear_full_rows(&mut b);
        self.lines as usize + n > 65535
    }
}

impl Default for Game {
    fn default() -> (g: Self)
        ensures
            g.is_blank(),
            g.wf(),
            g.board_tidy(),
    {
        let empty = Block::default();
        let dark = black_color();
        let g = Game {
            board: [[empty; 22]; 10],
            next_board: [[dark; 10]; 4],
            held_board: [[dark; 4]; 4],
            curr_mino: Mino::default(),
            next_minos: [Mino::default(), Mino::default(), Mino::default()],
            held_mino: Mino::default(),
            has_held: false,
            level: 0,
            drop_ticks: 0,
            lines: 0,
            time: 0,
            score: 0,
        };
        assert(grid(g.board) =~= empty_grid());
        assert(g.next_minos =~= [blank_mino(), blank_mino(), blank_mino()]);
        g
    }
}

impl Game {
    /// Putting the falling piece aside twice in a row, while a piece is held,
    /// brings it back to the entry position and leaves the held piece, the
    /// coming pieces and every count as they were; when no cell of the held
    /// piece holds a resting piece and the board's empty cells are black, the
    /// board ends as a redraw of the piece at the entry position would leave
    /// it.
    pub proof fn law_hold_twice(s: Game, t1: Game, t2: Game, w1: u32, w2: u32)
        requires
            s.holding(),
            s.held() == spawned(s.held().shape, s.held().ori),
            s.held_to(t1, w1),
            t1.held_to(t2, w2),
        ensures
            t2.same_but_screens(s.with_piece(spawned(s.piece().shape, s.piece().ori))),
            piece_clear(s.cells(), s.held()) && s.board_tidy() ==> t2.cells() == repaint(
                s.cells(),
                spawned(s.piece().shape, s.piece().ori),
            ),
    {
        if piece_clear(s.cells(), s.held()) && s.board_tidy() {
            lemma_spawned_in_board(s.held().shape, s.held().ori);
            lemma_spawned_shaped(s.held().shape, s.held().ori);
            law_repaint_over(s.cells(), s.held(), spawned(s.piece().shape, s.piece().ori));
        }
    }

    /// A move one column over and back, when the first is allowed, is allowed
    /// both ways; it leaves the piece where it was and every resting cell of
    /// the board as it was and, when the board's empty cells are black, the
    /// board as a redraw of the piece in place would.
    pub proof fn law_shift_there_and_back(s: Game, t: Game, u: Game, dir: bool)
        requires
            s.piece_ok(),
            shift_allowed(s.cells(), s.piece(), dir),
            t.same_but_board(s.with_piece(shifted(s.piece(), dir))),
            t.cells() == repaint(s.cells(), shifted(s.piece(), dir)),
            shift_allowed(t.cells(), t.piece(), !dir) ==> {
                &&& u.same_but_board(t.with_piece(shifted(t.piece(), !dir)))
                &&& u.cells() == repaint(t.cells(), shifted(t.piece(), !dir))
            },
            !shift_allowed(t.cells(), t.piece(), !dir) ==> u == t,
        ensures
            shift_allowed(t.cells(), t.piece(), !dir),
            u.same_but_board(s),
            forall|x: int, y: int| #[trigger] placed(u.cells(), x, y) == placed(s.cells(), x, y),
            s.board_tidy() ==> u.cells() == repaint(s.cells(), s.piece()),
    {
        let g = s.cells();
        let m = s.piece();
        let m1 = shifted(m, dir);
        let back = !dir;
        lemma_shifted_in_board(g, m, dir);
        lemma_shifted_shaped(m, dir);
        law_shift_back(m, dir);
        assert forall|k: int| 0 <= k < 4 implies #[trigger] step_ok(t.cells(), m1, back, k) by {
            assert(cell_x(m1, k) + step(back) == cell_x(m, k)) by {
                assert(step_ok(g, m, dir, k));
                assert(cell_x(m1, 0) == m1.center[0]);
            }
            assert(cell_y(m1, k) == cell_y(m, k));
            assert(on_board(cell_x(m, k), cell_y(m, k)));
            assert(!placed(g, cell_x(m, k), cell_y(m, k)));
            law_repaint_keeps_rest(g, m1, cell_x(m, k), cell_y(m, k));
        }
        assert forall|k: int| 0 <= k < 4 implies !placed(g, #[trigger] cell_x(m1, k), cell_y(m1, k)) by {
            assert(step_ok(g, m, dir, k));
            assert(if dir { cell_x(m, k) < 255 } else { cell_x(m, k) >= 1 });
            assert(cell_x(m1, 0) == m1.center[0]);
            assert(cell_x(m1, k) == cell_x(m, k) + step(dir) && cell_y(m1, k) == cell_y(m, k));
        }
        assert forall|k: int| 0 <= k < 4 implies !placed(t.cells(), #[trigger] cell_x(m, k), cell_y(m, k)) by {
            assert(on_board(cell_x(m, k), cell_y(m, k)));
            assert(!placed(g, cell_x(m, k), cell_y(m, k)));
            law_repaint_keeps_all(g, m1, cell_x(m, k), cell_y(m, k));
        }
        assert forall|x: int, y: int| #[trigger] placed(u.cells(), x, y) == placed(s.cells(), x, y) by {
            law_repaint_keeps_all(g, m1, x, y);
            law_repaint_keeps_all(t.cells(), m, x, y);
        }
        if s.board_tidy() {
            law_repaint_over(g, m1, m);
        }
    }

    /// A dropped piece rests on what lies below it: it may not fall one more
    /// row.
    pub proof fn law_drop_rests(s: Game, t: Game)
        requires
            s.piece_ok(),
            t.same_but_board(s.with_piece(lowered(s.piece(), drop_dist(s.cells(), s.piece())))),
            t.cells() == repaint(s.cells(), t.piece()),
        ensures
            !fall_allowed(t.cells(), t.piece()),
    {
        let g = s.cells();
        let m = s.piece();
        let d = drop_dist(g, m);
        let m1 = lowered(m, d);
        lemma_drop_dist_bounds(g, m);
        lemma_drop_attained(g, m, 4);
        let ks = choose|k: int|
            0 <= k < 4 && counts_for_drop(m, k) && drop_upto(g, m, 4) == #[trigger] col_drop(
                g,
                cell_x(m, k),
                cell_y(m, k),
            );
        let xs = cell_x(m, ks);
        let ys = cell_y(m, ks);
        let cx = cell_x(m, 0);
        let cy = cell_y(m, 0);
        assert(on_board(cell_x(m, 0), cell_y(m, 0)));
        assert(on_board(cell_x(m, ks), cell_y(m, ks)));
        assert(forall|k: int| 0 <= k < 4 ==> #[trigger] cell_x(m1, k) == cell_x(m, k) && cell_y(m1, k) == cell_y(m, k) - d) by {
            assert forall|k: int| 0 <= k < 4 implies #[trigger] cell_x(m1, k) == cell_x(m, k) && cell_y(m1, k) == cell_y(m, k) - d by {
                assert(d <= cell_y(m, k));
            }
        }
        assert(cell_x(m1, ks) == xs && cell_y(m1, ks) == ys - d);
        assert(cell_x(m1, 0) == cx && cell_y(m1, 0) == cy - d);
        lemma_gap_meaning(g, xs, ys, ys - 1);
        if d == ys {
            assert(!fall_ok(t.cells(), m1, ks));
        } else {
            let p = ys - d - 1;
            assert(placed(g, xs, p));
            // the piece lowered by `d` may not be dropped further
            let d1 = drop_dist(g, m1);
            lemma_drop_dist_bounds(g, m1);
            assert(counts_for_drop(m1, ks));
            assert(col_drop(g, xs, ys - d) == 0);
            assert(d1 == 0);
            law_repaint_keeps_rest(g, m1, xs, p);
            if painted_at(m1, d1, xs, p, 8) {
                let i = choose|i: int| 0 <= i < 8 && #[trigger] paint_x(m1, i) == xs && paint_y(m1, d1, i) == p;
                let j = i / 2;
                assert(0 <= j < 4);
                assert(cell_x(m1, j) == xs && cell_y(m1, j) == p);
                assert(cell_x(m, j) == xs && cell_y(m, j) == ys - 1);
                assert(!placed(g, cell_x(m, j), cell_y(m, j)));
                if d >= 1 {
                    if counts_for_drop(m, j) {
                        lemma_gap_at_most(g, xs, ys - 1, ys - 2, p);
                        assert(col_drop(g, xs, ys - 1) <= d - 1);
                        assert(false);
                    } else {
                        assert(xs == cx && ys - 1 > cy);
                        if p < cy {
                            lemma_gap_at_most(g, cx, cy, cy - 1, p);
                            assert(col_drop(g, cx, cy) < d);
                            assert(false);
                        } else if p == cy {
                            assert(!placed(g, cell_x(m, 0), cell_y(m, 0)));
                            assert(false);
                        } else {
                            lemma_column_joined(m, j, p);
                            let q = choose|q: int| 0 <= q < 4 && #[trigger] cell_x(m, q) == cell_x(m, 0) && cell_y(m, q) == p;
                            assert(!placed(g, cell_x(m, q), cell_y(m, q)));
                            assert(false);
                        }
                    }
                } else {
                    assert(false);
                }
            }
            assert(placed(t.cells(), xs, p));
            assert(!fall_ok(t.cells(), m1, ks));
        }
    }

    /// Moving the falling piece a column over keeps every resting cell of the
    /// board as it was.
    pub proof fn law_shift_keeps_rest(s: Game, t: Game, dir: bool, x: int, y: int)
        requires
            s.piece_ok(),
            shift_allowed(s.cells(), s.piece(), dir),
            t.cells() == repaint(s.cells(), shifted(s.piece(), dir)),
        ensures
            placed(t.cells(), x, y) == placed(s.cells(), x, y),
    {
        let g = s.cells();
        let m = s.piece();
        let m1 = shifted(m, dir);
        lemma_shifted_in_board(g, m, dir);
        lemma_shifted_shaped(m, dir);
        assert forall|k: int| 0 <= k < 4 implies !placed(g, #[trigger] cell_x(m1, k), cell_y(m1, k)) by {
            assert(step_ok(g, m, dir, k));
            assert(if dir { cell_x(m, k) < 255 } else { cell_x(m, k) >= 1 });
            assert(cell_x(m1, 0) == m1.center[0]);
            assert(cell_x(m1, k) == cell_x(m, k) + step(dir) && cell_y(m1, k) == cell_y(m, k));
        }
        law_repaint_keeps_all(g, m1, x, y);
    }

    /// Dropping the falling piece keeps every resting cell of the board as it
    /// was.
    pub proof fn law_drop_keeps_rest(s: Game, t: Game, x: int, y: int)
        requires
            s.piece_ok(),
            t.cells() == repaint(s.cells(), lowered(s.piece(), drop_dist(s.cells(), s.piece()))),
        ensures
            placed(t.cells(), x, y) == placed(s.cells(), x, y),
    {
        let g = s.cells();
        let m = s.piece();
        let d = drop_dist(g, m);
        let m1 = lowered(m, d);
        lemma_drop_dist_bounds(g, m);
        lemma_lowered_in_board(m, d);
        lemma_lowered_shaped(m, d);
        assert forall|k: int| 0 <= k < 4 implies !placed(g, #[trigger] cell_x(m1, k), cell_y(m1, k)) by {
            lemma_shadow_free(g, m, k);
            assert(d <= cell_y(m, k));
            assert(cell_x(m1, k) == cell_x(m, k) && cell_y(m1, k) == cell_y(m, k) - d);
        }
        law_repaint_keeps_all(g, m1, x, y);
    }

    /// A fall of the piece by one row keeps every resting cell of the board as
    /// it was.
    pub proof fn law_fall_keeps_rest(s: Game, t: Game, x: int, y: int)
        requires
            s.piece_ok(),
            fall_allowed(s.cells(), s.piece()),
            t.cells() == repaint(s.cells(), lowered(s.piece(), 1)),
        ensures
            placed(t.cells(), x, y) == placed(s.cells(), x, y),
    {
        let g = s.cells();
        let m = s.piece();
        let m1 = lowered(m, 1);
        lemma_fallen_in_board(g, m);
        lemma_lowered_shaped(m, 1);
        assert forall|k: int| 0 <= k < 4 implies !placed(g, #[trigger] cell_x(m1, k), cell_y(m1, k)) by {
            assert(fall_ok(g, m, k));
            assert(fall_ok(g, m, 0));
            assert(cell_y(m, k) >= 1);
            assert(cell_x(m1, k) == cell_x(m, k) && cell_y(m1, k) == cell_y(m, k) - 1);
            if cell_x(m, k) == cell_x(m, 0) && cell_y(m, k) > cell_y(m, 0) {
                if cell_y(m, k) - 1 == cell_y(m, 0) {
                    assert(!placed(g, cell_x(m, 0), cell_y(m, 0)));
                } else {
                    lemma_column_joined(m, k, cell_y(m, k) - 1);
                    let q = choose|q: int| 0 <= q < 4 && #[trigger] cell_x(m, q) == cell_x(m, 0) && cell_y(m, q) == cell_y(m, k) - 1;
                    assert(!placed(g, cell_x(m, q), cell_y(m, q)));
                }
            }
        }
        law_repaint_keeps_all(g, m1, x, y);
    }

    /// A quarter turn of the falling piece keeps every resting cell of the
    /// board as it was.
    pub proof fn law_rotate_keeps_rest(s: Game, t: Game, x: int, y: int)
        requires
            s.piece_ok(),
            rotation_allowed(s.cells(), s.piece()),
            t.cells() == repaint(s.cells(), rotated(s.piece())),
        ensures
            placed(t.cells(), x, y) == placed(s.cells(), x, y),
    {
        let g = s.cells();
        let m = s.piece();
        let m1 = rotated(m);
        lemma_rotated_in_board(g, m);
        assert(rot_ok(g, m, 0) && rot_ok(g, m, 1) && rot_ok(g, m, 2));
        assert(turn_exact(m));
        lemma_rotated_shaped(m);
        let cx = cell_x(m, 0);
        let cy = cell_y(m, 0);
        assert(!placed(g, cell_x(m, 0), cell_y(m, 0)));
        assert(rot_cell(m, 0)[0] == rot_x(m, 0) && rot_cell(m, 0)[1] == rot_y(m, 0));
        assert(rot_cell(m, 1)[0] == rot_x(m, 1) && rot_cell(m, 1)[1] == rot_y(m, 1));
        assert(rot_cell(m, 2)[0] == rot_x(m, 2) && rot_cell(m, 2)[1] == rot_y(m, 2));
        if m.shape is ShapeI && ori_even(next_ori(m.ori)) {
            if forall|k: int| 0 <= k < 4 ==> #[trigger] cell_x(m, k) == cell_x(m, 0) {
                assert(cell_x(m, 2) == cx);
                assert(rot_y(m, 1) == cy);
            } else {
                assert(forall|k: int| 0 <= k < 4 ==> #[trigger] cell_y(m, k) == cell_y(m, 0));
                assert(cell_y(m, 2) == cy);
                assert(rot_x(m, 1) == cx);
            }
        }
        assert forall|k: int| 0 <= k < 4 implies !placed(g, #[trigger] cell_x(m1, k), cell_y(m1, k)) by {
            if k > 0 {
                assert(rot_ok(g, m, k - 1));
            }
        }
        law_repaint_keeps_all(g, m1, x, y);
    }

    /// A quarter turn of a whole piece on free cells, when allowed, leaves a
    /// whole piece on free cells, and no turn takes a coordinate out of eight
    /// bits.
    proof fn lemma_turn_keeps_piece_ok(s: Game, t: Game)
        requires
            s.piece_ok(),
            rotation_allowed(s.cells(), s.piece()),
            t.piece() == rotated(s.piece()),
            t.cells() == repaint(s.cells(), rotated(s.piece())),
        ensures
            t.piece_ok(),
            turn_exact(s.piece()),
    {
        let g = s.cells();
        let m = s.piece();
        lemma_rotated_in_board(g, m);
        assert(rot_ok(g, m, 0) && rot_ok(g, m, 1) && rot_ok(g, m, 2));
        assert(turn_exact(m));
        lemma_rotated_shaped(m);
        lemma_repaint_clears_piece(g, rotated(m));
    }

    /// Four quarter turns in a row, each allowed, of a whole piece on free
    /// cells bring the piece back to where it was and keep every resting cell
    /// of the board, unless it is an I piece that does not point up or down
    /// with its second cell in the row of its center.
    pub proof fn law_four_rotations(s: Game, t1: Game, t2: Game, t3: Game, t4: Game)
        requires
            s.piece_ok(),
            !(s.piece().shape is ShapeI) || (ori_even(s.piece().ori) && s.piece().cords[1][1] == s.piece().center[1]),
            rotation_allowed(s.cells(), s.piece()),
            t1.piece() == rotated(s.piece()),
            t1.cells() == repaint(s.cells(), rotated(s.piece())),
            rotation_allowed(t1.cells(), t1.piece()),
            t2.piece() == rotated(t1.piece()),
            t2.cells() == repaint(t1.cells(), rotated(t1.piece())),
            rotation_allowed(t2.cells(), t2.piece()),
            t3.piece() == rotated(t2.piece()),
            t3.cells() == repaint(t2.cells(), rotated(t2.piece())),
            rotation_allowed(t3.cells(), t3.piece()),
            t4.piece() == rotated(t3.piece()),
            t4.cells() == repaint(t3.cells(), rotated(t3.piece())),
        ensures
            t4.piece() == s.piece(),
            forall|x: int, y: int| #[trigger] placed(t4.cells(), x, y) == placed(s.cells(), x, y),
    {
        Game::lemma_turn_keeps_piece_ok(s, t1);
        Game::lemma_turn_keeps_piece_ok(t1, t2);
        Game::lemma_turn_keeps_piece_ok(t2, t3);
        Game::lemma_turn_keeps_piece_ok(t3, t4);
        law_four_turns(s.piece());
        assert forall|x: int, y: int| #[trigger] placed(t4.cells(), x, y) == placed(s.cells(), x, y) by {
            Game::law_rotate_keeps_rest(s, t1, x, y);
            Game::law_rotate_keeps_rest(t1, t2, x, y);
            Game::law_rotate_keeps_rest(t2, t3, x, y);
            Game::law_rotate_keeps_rest(t3, t4, x, y);
        }
    }

    /// Dropping the falling piece a second time changes nothing.
    pub proof fn law_drop_twice(s: Game, t1: Game, t2: Game)
        requires
            s.piece_ok(),
            t1.same_but_board(s.with_piece(lowered(s.piece(), drop_dist(s.cells(), s.piece())))),
            t1.cells() == repaint(s.cells(), t1.piece()),
            t2.same_but_board(t1.with_piece(lowered(t1.piece(), drop_dist(t1.cells(), t1.piece())))),
            t2.cells() == repaint(t1.cells(), t2.piece()),
        ensures
            t2.same_but_board(t1),
            t2.cells() == t1.cells(),
    {
        let g = s.cells();
        let m = s.piece();
        let d = drop_dist(g, m);
        let m1 = lowered(m, d);
        lemma_drop_dist_bounds(g, m);
        lemma_lowered_in_board(m, d);
        lemma_lowered_shaped(m, d);
        assert forall|k: int| 0 <= k < 4 implies !placed(g, #[trigger] cell_x(m1, k), cell_y(m1, k)) by {
            lemma_shadow_free(g, m, k);
            assert(d <= cell_y(m, k));
            assert(cell_x(m1, k) == cell_x(m, k) && cell_y(m1, k) == cell_y(m, k) - d);
        }
        assert forall|x: int, y: int| #[trigger] placed(t1.cells(), x, y) == placed(g, x, y) by {
            law_repaint_keeps_all(g, m1, x, y);
        }
        lemma_drop_upto_congruent(t1.cells(), g, m1, 4);
        lemma_dropped_dist_zero(g, m);
        assert(drop_dist(t1.cells(), m1) == 0);
        let m2 = lowered(m1, 0);
        assert(m2.center =~= m1.center);
        assert(m2.cords[0] =~= m1.cords[0]);
        assert(m2.cords[1] =~= m1.cords[1]);
        assert(m2.cords[2] =~= m1.cords[2]);
        assert(m2.cords =~= m1.cords);
        assert(m2 == m1);
        law_repaint_twice(g, m1);
    }

    /// A game whose ticks keep it in order: the level is at most the highest,
    /// the tick count lies between 1 and the level's number of ticks, the
    /// falling piece lies on the board, is whole and on free cells, and every
    /// coming piece waits at the entry position.
    pub open spec fn ticking(self) -> bool {
        &&& self.level <= MAX_LEVEL
        &&& 1 <= self.drop_ticks <= drop_ticks_for(self.level as int)
        &&& self.piece_ok()
        &&& forall|i: int|
            0 <= i < 3 ==> #[trigger] self.next_minos[i] == spawned(self.next_minos[i].shape, self.next_minos[i].ori)
    }

    /// A tick keeps a game in order: the level stays at most the highest, the
    /// tick count between 1 and the level's number of ticks, the falling piece
    /// on the board, whole and on free cells, and the coming pieces at the
    /// entry position.
    pub proof fn law_tick_keeps_play(s: Game, t: Game, w: u32)
        requires
            s.ticking(),
            s.tick_fits(),
            s.ticked_to(t, w),
        ensures
            t.ticking(),
    {
        let g = grid(s.board);
        let m = s.curr_mino;
        lemma_spawned_in_board(shape_of_word(w), Orientation::OriD);
        lemma_spawned_shaped(shape_of_word(w), Orientation::OriD);
        if s.drop_ticks > 1 {
        } else if fall_allowed(g, m) {
            lemma_fallen_in_board(g, m);
            lemma_lowered_shaped(m, 1);
            lemma_repaint_clears_piece(g, lowered(m, 1));
        } else {
            let n0 = s.next_minos[0];
            assert(n0 == spawned(n0.shape, n0.ori));
            lemma_spawned_in_board(n0.shape, n0.ori);
            lemma_spawned_shaped(n0.shape, n0.ori);
            law_clearing_leaves_no_full_row(place_cells(g, m));
            lemma_repaint_clears_piece(s.settled().0, n0);
            assert(t.next_minos == [s.next_minos[1], s.next_minos[2], dealt(w)]);
        }
    }

    /// On a tick, the piece coming to rest adds the rows it clears to the
    /// count of lines, and the level goes up by one, to at most 19, exactly
    /// when the new count reaches four times the old level plus four; on any
    /// other tick the count and the level stay. When the tick count runs out
    /// it starts again at 30 less twice the level below level 10, and at 20
    /// less the level from there; otherwise it goes down by one.
    pub proof fn law_tick_level(s: Game, t: Game, w: u32)
        requires
            s.current_level() <= MAX_LEVEL,
            s.tick_fits(),
            s.ticked_to(t, w),
        ensures
            !s.tick_places() ==> t.level == s.level && t.lines == s.lines,
            s.tick_places() ==> t.lines == s.lines + s.settled().1,
            s.tick_places() ==> t.level == if t.lines >= 4 * (s.level + 1) {
                if s.level + 1 < 19 {
                    s.level + 1
                } else {
                    19
                }
            } else {
                s.level as int
            },
            s.drop_ticks > 1 ==> t.drop_ticks == s.drop_ticks - 1,
            s.drop_ticks <= 1 ==> t.drop_ticks == if t.level < 10 {
                30 - 2 * t.level
            } else {
                20 - t.level
            },
    {
        law_clearing_leaves_no_full_row(place_cells(grid(s.board), s.curr_mino));
        if s.tick_places() {
            let lines = s.lines + s.settled().1;
            lemma_quotient_nonzero(lines, s.level as int);
        }
    }

    /// A tick keeps the level or raises it by one, never past the highest,
    /// and adds at most four to the count of cleared lines.
    pub proof fn law_tick_bounds(s: Game, t: Game, w: u32)
        requires
            s.current_level() <= MAX_LEVEL,
            s.tick_fits(),
            s.ticked_to(t, w),
        ensures
            t.current_level() == s.current_level() || t.current_level() == s.current_level() + 1,
            t.current_level() <= MAX_LEVEL,
            s.lines_count() <= t.lines_count() <= s.lines_count() + 4,
    {
        law_clearing_leaves_no_full_row(place_cells(grid(s.board), s.curr_mino));
    }
}

} // verus!
