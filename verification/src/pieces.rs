//! The seven pieces, their orientations, and how a piece moves.
use rand::Rng;
use vstd::prelude::*;

verus! {

/// Number of cells of a piece besides its center.
pub const CORD_NUM: usize = 3;

/// The seven shapes a piece can have.
#[derive(Clone, Copy, Debug)]
pub enum Shape {
    ShapeO,
    ShapeI,
    ShapeS,
    ShapeZ,
    ShapeL,
    ShapeJ,
    ShapeT,
}

impl Default for Shape {
    fn default() -> (r: Self)
        ensures
            r == Shape::ShapeO,
    {
        Shape::ShapeO
    }
}

/// The four orientations: up, right, down and left.
#[derive(Clone, Copy, Debug)]
pub enum Orientation {
    OriU,
    OriR,
    OriD,
    OriL,
}

impl Default for Orientation {
    fn default() -> (r: Self)
        ensures
            r == Orientation::OriU,
    {
        Orientation::OriU
    }
}

/// A piece: its shape, its orientation, the center cell it turns around and
/// the coordinates of its three other cells.
#[derive(Clone, Copy, Debug)]
pub struct Mino {
    pub shape: Shape,
    pub ori: Orientation,
    pub center: [u8; 2],
    pub cords: [[u8; 2]; 3],
}

/// The piece a game starts with as its held piece before any is held.
pub open spec fn blank_mino() -> Mino {
    Mino { shape: Shape::ShapeO, ori: Orientation::OriU, center: [0, 0], cords: [[0, 0], [0, 0], [0, 0]] }
}

impl Default for Mino {
    fn default() -> (r: Self)
        ensures
            r == blank_mino(),
    {
        Mino { shape: Shape::ShapeO, ori: Orientation::OriU, center: [0, 0], cords: [[0, 0], [0, 0], [0, 0]] }
    }
}

/// Offsets from the center of the three other cells of each shape, as a piece
/// enters the board.
pub open spec fn cord_list(s: Shape) -> [[i8; 2]; 3] {
    match s {
        Shape::ShapeO => [[1, 0], [0, 1], [1, 1]],
        Shape::ShapeI => [[-1i8, 0], [1, 0], [2, 0]],
        Shape::ShapeS => [[-1i8, 0], [0, 1], [1, 1]],
        Shape::ShapeZ => [[1, 0], [0, 1], [-1i8, 1]],
        Shape::ShapeL => [[-1i8, 0], [1, 0], [1, 1]],
        Shape::ShapeJ => [[1, 0], [-1i8, 0], [-1i8, 1]],
        Shape::ShapeT => [[-1i8, 0], [0, 1], [1, 0]],
    }
}

/// Every column offset of `cord_list` lies between -1 and 2, every row offset
/// is 0 or 1.
pub proof fn lemma_offsets_small(s: Shape)
    ensures
        forall|c: int| 0 <= c < 3 ==> -1 <= #[trigger] cord_list(s)[c][0] <= 2,
        forall|c: int| 0 <= c < 3 ==> 0 <= #[trigger] cord_list(s)[c][1] <= 1,
{
    match s {
        Shape::ShapeO => {},
        Shape::ShapeI => {},
        Shape::ShapeS => {},
        Shape::ShapeZ => {},
        Shape::ShapeL => {},
        Shape::ShapeJ => {},
        Shape::ShapeT => {},
    }
}

/// The offsets of `cord_list`.
pub fn cord_offsets(s: Shape) -> (r: [[i8; 2]; 3])
    ensures
        r == cord_list(s),
{
    match s {
        Shape::ShapeO => [[1, 0], [0, 1], [1, 1]],
        Shape::ShapeI => [[-1, 0], [1, 0], [2, 0]],
        Shape::ShapeS => [[-1, 0], [0, 1], [1, 1]],
        Shape::ShapeZ => [[1, 0], [0, 1], [-1, 1]],
        Shape::ShapeL => [[-1, 0], [1, 0], [1, 1]],
        Shape::ShapeJ => [[1, 0], [-1, 0], [-1, 1]],
        Shape::ShapeT => [[-1, 0], [0, 1], [1, 0]],
    }
}

/// The color in which each shape is drawn.
pub open spec fn color_list(s: Shape) -> [u8; 3] {
    match s {
        Shape::ShapeO => [236, 217, 50],
        Shape::ShapeI => [235, 128, 32],
        Shape::ShapeS => [82, 224, 82],
        Shape::ShapeZ => [229, 68, 46],
        Shape::ShapeL => [42, 255, 223],
        Shape::ShapeJ => [34, 142, 255],
        Shape::ShapeT => [186, 35, 230],
    }
}

/// The color of an empty cell.
pub open spec fn black() -> [u8; 3] {
    [0, 0, 0]
}

/// The colors of `color_list`.
pub fn shape_color(s: Shape) -> (r: [u8; 3])
    ensures
        r == color_list(s),
{
    match s {
        Shape::ShapeO => [236, 217, 50],
        Shape::ShapeI => [235, 128, 32],
        Shape::ShapeS => [82, 224, 82],
        Shape::ShapeZ => [229, 68, 46],
        Shape::ShapeL => [42, 255, 223],
        Shape::ShapeJ => [34, 142, 255],
        Shape::ShapeT => [186, 35, 230],
    }
}

/// The color of an empty cell.
pub fn black_color() -> (r: [u8; 3])
    ensures
        r == black(),
{
    [0, 0, 0]
}

/// The shape that a word drawn from the random generator selects.
pub open spec fn shape_of_word(w: u32) -> Shape {
    let r = w % 7;
    if r == 1 {
        Shape::ShapeI
    } else if r == 2 {
        Shape::ShapeS
    } else if r == 3 {
        Shape::ShapeZ
    } else if r == 4 {
        Shape::ShapeL
    } else if r == 5 {
        Shape::ShapeJ
    } else if r == 6 {
        Shape::ShapeT
    } else {
        Shape::ShapeO
    }
}

/// Cell `c` (0, 1 or 2) of a piece of shape `s` whose center is at `(5, 20)`.
pub open spec fn spawn_cell(s: Shape, c: int) -> [u8; 2] {
    [(5 + cord_list(s)[c][0]) as u8, (20 + cord_list(s)[c][1]) as u8]
}

/// A piece of shape `s` and orientation `ori` at the entry position, its
/// center at column 5 and row 20.
pub open spec fn spawned(s: Shape, ori: Orientation) -> Mino {
    Mino {
        shape: s,
        ori,
        center: [5, 20],
        cords: [spawn_cell(s, 0), spawn_cell(s, 1), spawn_cell(s, 2)],
    }
}

/// The piece that a word drawn from the random generator deals.
pub open spec fn dealt(w: u32) -> Mino {
    spawned(shape_of_word(w), Orientation::OriD)
}

/// Cell `k` of a piece: 0 is the center, 1 to 3 the others.
pub open spec fn cell(m: Mino, k: int) -> [u8; 2] {
    if k == 0 {
        m.center
    } else {
        m.cords[k - 1]
    }
}

/// Column of cell `k`.
pub open spec fn cell_x(m: Mino, k: int) -> int {
    cell(m, k)[0] as int
}

/// Row of cell `k`.
pub open spec fn cell_y(m: Mino, k: int) -> int {
    cell(m, k)[1] as int
}

/// Column of cell `c + 1` once turned a quarter clockwise around the center.
pub open spec fn rot_x(m: Mino, c: int) -> int {
    m.center[0] + (m.cords[c][1] - m.center[1])
}

/// Row of cell `c + 1` once turned a quarter clockwise around the center.
pub open spec fn rot_y(m: Mino, c: int) -> int {
    m.center[1] - (m.cords[c][0] - m.center[0])
}

/// The orientation after a quarter turn clockwise.
pub open spec fn next_ori(o: Orientation) -> Orientation {
    match o {
        Orientation::OriU => Orientation::OriR,
        Orientation::OriR => Orientation::OriD,
        Orientation::OriD => Orientation::OriL,
        Orientation::OriL => Orientation::OriU,
    }
}

/// Up and down, the orientations of even rank.
pub open spec fn ori_even(o: Orientation) -> bool {
    o is OriU || o is OriD
}

/// Cell `c + 1` turned, its coordinates kept to eight bits.
pub open spec fn rot_cell(m: Mino, c: int) -> [u8; 2] {
    [rot_x(m, c) as u8, rot_y(m, c) as u8]
}

/// A piece turned a quarter clockwise around its center. An I piece that
/// comes to an even orientation trades the row of its center with that of its
/// second cell.
pub open spec fn rotated(m: Mino) -> Mino {
    let ori = next_ori(m.ori);
    let c0 = rot_cell(m, 0);
    let c1 = rot_cell(m, 1);
    let c2 = rot_cell(m, 2);
    if m.shape is ShapeI && ori_even(ori) {
        Mino { shape: m.shape, ori, center: [m.center[0], c1[1]], cords: [c0, [c1[0], m.center[1]], c2] }
    } else {
        Mino { shape: m.shape, ori, center: m.center, cords: [c0, c1, c2] }
    }
}

/// A piece moved one column right (`dir`) or left.
pub open spec fn shifted(m: Mino, dir: bool) -> Mino {
    let d: int = if dir { 1 } else { -1 };
    Mino {
        shape: m.shape,
        ori: m.ori,
        center: [(m.center[0] + d) as u8, m.center[1]],
        cords: [
            [(m.cords[0][0] + d) as u8, m.cords[0][1]],
            [(m.cords[1][0] + d) as u8, m.cords[1][1]],
            [(m.cords[2][0] + d) as u8, m.cords[2][1]],
        ],
    }
}

/// A piece moved `d` rows down.
pub open spec fn lowered(m: Mino, d: int) -> Mino {
    Mino {
        shape: m.shape,
        ori: m.ori,
        center: [m.center[0], (m.center[1] - d) as u8],
        cords: [
            [m.cords[0][0], (m.cords[0][1] - d) as u8],
            [m.cords[1][0], (m.cords[1][1] - d) as u8],
            [m.cords[2][0], (m.cords[2][1] - d) as u8],
        ],
    }
}

/// No cell of the piece stands in column 255 (`dir`) or column 0.
pub open spec fn can_step(m: Mino, dir: bool) -> bool {
    forall|k: int| 0 <= k < 4 ==> if dir { cell_x(m, k) < 255 } else { cell_x(m, k) >= 1 }
}

/// No cell of the piece stands below row `d`.
pub open spec fn can_lower(m: Mino, d: int) -> bool {
    forall|k: int| 0 <= k < 4 ==> cell_y(m, k) >= d
}

/// Turning the piece keeps every coordinate within eight bits.
pub open spec fn turn_exact(m: Mino) -> bool {
    forall|c: int| 0 <= c < 3 ==> 0 <= #[trigger] rot_x(m, c) < 256 && 0 <= rot_y(m, c) < 256
}

/// A move one column over and one column back leaves a piece where it was.
pub proof fn law_shift_back(m: Mino, dir: bool)
    requires
        can_step(m, dir),
    ensures
        shifted(shifted(m, dir), !dir) == m,
{
    assert(cell_x(m, 0) == m.center[0]);
    assert(cell_x(m, 1) == m.cords[0][0]);
    assert(cell_x(m, 2) == m.cords[1][0]);
    assert(cell_x(m, 3) == m.cords[2][0]);
    let r = shifted(shifted(m, dir), !dir);
    assert(r.center =~= m.center);
    assert(r.cords[0] =~= m.cords[0]);
    assert(r.cords[1] =~= m.cords[1]);
    assert(r.cords[2] =~= m.cords[2]);
    assert(r.cords =~= m.cords);
}

/// A quarter turn clockwise takes each of the three other cells `(x, y)` to
/// `(cx + (y - cy), cy - (x - cx))` around the center `(cx, cy)`, keeps the
/// shape, and turns up to right, right to down, down to left and left to up;
/// the center stays, except for an I piece turning from right or left, whose
/// center takes the row of its second cell once turned while the second cell
/// takes the center's old row.
pub proof fn law_turned_cells(m: Mino)
    requires
        turn_exact(m),
    ensures
        rotated(m).shape == m.shape,
        m.ori is OriU ==> rotated(m).ori is OriR,
        m.ori is OriR ==> rotated(m).ori is OriD,
        m.ori is OriD ==> rotated(m).ori is OriL,
        m.ori is OriL ==> rotated(m).ori is OriU,
        rotated(m).cords[0][0] == m.center[0] + (m.cords[0][1] - m.center[1]),
        rotated(m).cords[0][1] == m.center[1] - (m.cords[0][0] - m.center[0]),
        rotated(m).cords[1][0] == m.center[0] + (m.cords[1][1] - m.center[1]),
        rotated(m).cords[2][0] == m.center[0] + (m.cords[2][1] - m.center[1]),
        rotated(m).cords[2][1] == m.center[1] - (m.cords[2][0] - m.center[0]),
        rotated(m).center[0] == m.center[0],
        !(m.shape is ShapeI && (m.ori is OriR || m.ori is OriL)) ==> {
            &&& rotated(m).center[1] == m.center[1]
            &&& rotated(m).cords[1][1] == m.center[1] - (m.cords[1][0] - m.center[0])
        },
        (m.shape is ShapeI && (m.ori is OriR || m.ori is OriL)) ==> {
            &&& rotated(m).center[1] == m.center[1] - (m.cords[1][0] - m.center[0])
            &&& rotated(m).cords[1][1] == m.center[1]
        },
{
    assert(0 <= rot_x(m, 0) < 256 && 0 <= rot_y(m, 0) < 256);
    assert(0 <= rot_x(m, 1) < 256 && 0 <= rot_y(m, 1) < 256);
    assert(0 <= rot_x(m, 2) < 256 && 0 <= rot_y(m, 2) < 256);
}

/// A move one column right (`dir`) or left, with no cell in column 255
/// (`dir`) or 0, moves every cell one column that way and keeps its row, the
/// shape and the orientation.
pub proof fn law_moved_cells(m: Mino, dir: bool)
    requires
        can_step(m, dir),
    ensures
        shifted(m, dir).shape == m.shape,
        shifted(m, dir).ori == m.ori,
        forall|k: int|
            0 <= k < 4 ==> #[trigger] cell_x(shifted(m, dir), k) == cell_x(m, k) + if dir { 1int } else { -1int }
                && cell_y(shifted(m, dir), k) == cell_y(m, k),
{
    assert forall|k: int| 0 <= k < 4 implies #[trigger] cell_x(shifted(m, dir), k) == cell_x(m, k) + if dir {
        1int
    } else {
        -1int
    } && cell_y(shifted(m, dir), k) == cell_y(m, k) by {
        assert(if dir { cell_x(m, k) < 255 } else { cell_x(m, k) >= 1 });
        assert(if dir { cell_x(m, 0) < 255 } else { cell_x(m, 0) >= 1 });
    }
}

/// A piece lowered by `d` rows, none of its cells below row `d`, keeps every
/// cell's column and takes every cell `d` rows down.
pub proof fn law_lowered_cells(m: Mino, d: int)
    requires
        0 <= d,
        can_lower(m, d),
    ensures
        lowered(m, d).shape == m.shape,
        lowered(m, d).ori == m.ori,
        forall|k: int|
            0 <= k < 4 ==> #[trigger] cell_x(lowered(m, d), k) == cell_x(m, k) && cell_y(lowered(m, d), k) == cell_y(
                m,
                k,
            ) - d,
{
    assert forall|k: int| 0 <= k < 4 implies #[trigger] cell_x(lowered(m, d), k) == cell_x(m, k) && cell_y(
        lowered(m, d),
        k,
    ) == cell_y(m, k) - d by {
        assert(cell_y(m, k) >= d);
    }
}

/// The word `w` deals, pointing down, an O when `w % 7` is 0, an I for 1, an
/// S for 2, a Z for 3, an L for 4, a J for 5 and a T for 6; so every shape is
/// dealt, by the words 0 to 6.
pub proof fn law_word_shapes(w: u32)
    ensures
        dealt(w).ori is OriD,
        w % 7 == 0 ==> dealt(w).shape is ShapeO,
        w % 7 == 1 ==> dealt(w).shape is ShapeI,
        w % 7 == 2 ==> dealt(w).shape is ShapeS,
        w % 7 == 3 ==> dealt(w).shape is ShapeZ,
        w % 7 == 4 ==> dealt(w).shape is ShapeL,
        w % 7 == 5 ==> dealt(w).shape is ShapeJ,
        w % 7 == 6 ==> dealt(w).shape is ShapeT,
{
}

/// Each of the seven shapes enters with its center at column 5, row 20, and
/// its other three cells at these places: O (6,20) (5,21) (6,21); I (4,20)
/// (6,20) (7,20); S (4,20) (5,21) (6,21); Z (6,20) (5,21) (4,21); L (4,20)
/// (6,20) (6,21); J (6,20) (4,20) (4,21); T (4,20) (5,21) (6,20).
pub proof fn law_entry_cells(ori: Orientation)
    ensures
        spawned(Shape::ShapeO, ori).center == [5u8, 20u8],
        spawned(Shape::ShapeI, ori).center == [5u8, 20u8],
        spawned(Shape::ShapeS, ori).center == [5u8, 20u8],
        spawned(Shape::ShapeZ, ori).center == [5u8, 20u8],
        spawned(Shape::ShapeL, ori).center == [5u8, 20u8],
        spawned(Shape::ShapeJ, ori).center == [5u8, 20u8],
        spawned(Shape::ShapeT, ori).center == [5u8, 20u8],
        spawned(Shape::ShapeO, ori).cords == [[6u8, 20u8], [5u8, 21u8], [6u8, 21u8]],
        spawned(Shape::ShapeI, ori).cords == [[4u8, 20u8], [6u8, 20u8], [7u8, 20u8]],
        spawned(Shape::ShapeS, ori).cords == [[4u8, 20u8], [5u8, 21u8], [6u8, 21u8]],
        spawned(Shape::ShapeZ, ori).cords == [[6u8, 20u8], [5u8, 21u8], [4u8, 21u8]],
        spawned(Shape::ShapeL, ori).cords == [[4u8, 20u8], [6u8, 20u8], [6u8, 21u8]],
        spawned(Shape::ShapeJ, ori).cords == [[6u8, 20u8], [4u8, 20u8], [4u8, 21u8]],
        spawned(Shape::ShapeT, ori).cords == [[4u8, 20u8], [5u8, 21u8], [6u8, 20u8]],
{
    assert(spawned(Shape::ShapeO, ori).cords =~= [[6u8, 20u8], [5u8, 21u8], [6u8, 21u8]]);
    assert(spawned(Shape::ShapeI, ori).cords =~= [[4u8, 20u8], [6u8, 20u8], [7u8, 20u8]]);
    assert(spawned(Shape::ShapeS, ori).cords =~= [[4u8, 20u8], [5u8, 21u8], [6u8, 21u8]]);
    assert(spawned(Shape::ShapeZ, ori).cords =~= [[6u8, 20u8], [5u8, 21u8], [4u8, 21u8]]);
    assert(spawned(Shape::ShapeL, ori).cords =~= [[4u8, 20u8], [6u8, 20u8], [6u8, 21u8]]);
    assert(spawned(Shape::ShapeJ, ori).cords =~= [[6u8, 20u8], [4u8, 20u8], [4u8, 21u8]]);
    assert(spawned(Shape::ShapeT, ori).cords =~= [[4u8, 20u8], [5u8, 21u8], [6u8, 20u8]]);
}

/// The seven shapes are drawn in seven different colors: O yellow
/// (236,217,50), I orange (235,128,32), S green (82,224,82), Z red
/// (229,68,46), L cyan (42,255,223), J blue (34,142,255), T purple
/// (186,35,230); and no color is black.
pub proof fn law_shape_colors()
    ensures
        color_list(Shape::ShapeO) == [236u8, 217u8, 50u8],
        color_list(Shape::ShapeI) == [235u8, 128u8, 32u8],
        color_list(Shape::ShapeS) == [82u8, 224u8, 82u8],
        color_list(Shape::ShapeZ) == [229u8, 68u8, 46u8],
        color_list(Shape::ShapeL) == [42u8, 255u8, 223u8],
        color_list(Shape::ShapeJ) == [34u8, 142u8, 255u8],
        color_list(Shape::ShapeT) == [186u8, 35u8, 230u8],
        forall|a: Shape, b: Shape| #[trigger] color_list(a) == #[trigger] color_list(b) ==> a == b,
        forall|a: Shape| #[trigger] color_list(a) != black(),
{
    assert forall|a: Shape, b: Shape| #[trigger] color_list(a) == #[trigger] color_list(b) implies a == b by {
        assert(color_list(a)[0] == color_list(b)[0]);
        match a {
            Shape::ShapeO => {},
            Shape::ShapeI => {},
            Shape::ShapeS => {},
            Shape::ShapeZ => {},
            Shape::ShapeL => {},
            Shape::ShapeJ => {},
            Shape::ShapeT => {},
        }
    }
    assert forall|a: Shape| #[trigger] color_list(a) != black() by {
        assert(color_list(a)[0] != black()[0]);
    }
}

/// Four quarter turns bring a piece back to where it was, when no turn takes
/// a coordinate out of eight bits, unless it is an I piece that does not
/// point up or down with its second cell in the row of its center.
pub proof fn law_four_turns(m: Mino)
    requires
        !(m.shape is ShapeI) || (ori_even(m.ori) && m.cords[1][1] == m.center[1]),
        turn_exact(m),
        turn_exact(rotated(m)),
        turn_exact(rotated(rotated(m))),
        turn_exact(rotated(rotated(rotated(m)))),
    ensures
        rotated(rotated(rotated(rotated(m)))) == m,
{
    let m1 = rotated(m);
    let m2 = rotated(m1);
    let m3 = rotated(m2);
    let m4 = rotated(m3);
    assert(0 <= rot_x(m, 0) < 256 && 0 <= rot_y(m, 0) < 256);
    assert(0 <= rot_x(m, 1) < 256 && 0 <= rot_y(m, 1) < 256);
    assert(0 <= rot_x(m, 2) < 256 && 0 <= rot_y(m, 2) < 256);
    assert(0 <= rot_x(m1, 0) < 256 && 0 <= rot_y(m1, 0) < 256);
    assert(0 <= rot_x(m1, 1) < 256 && 0 <= rot_y(m1, 1) < 256);
    assert(0 <= rot_x(m1, 2) < 256 && 0 <= rot_y(m1, 2) < 256);
    assert(0 <= rot_x(m2, 0) < 256 && 0 <= rot_y(m2, 0) < 256);
    assert(0 <= rot_x(m2, 1) < 256 && 0 <= rot_y(m2, 1) < 256);
    assert(0 <= rot_x(m2, 2) < 256 && 0 <= rot_y(m2, 2) < 256);
    assert(0 <= rot_x(m3, 0) < 256 && 0 <= rot_y(m3, 0) < 256);
    assert(0 <= rot_x(m3, 1) < 256 && 0 <= rot_y(m3, 1) < 256);
    assert(0 <= rot_x(m3, 2) < 256 && 0 <= rot_y(m3, 2) < 256);
    assert(m4.center =~= m.center);
    assert(m4.cords[0] =~= m.cords[0]);
    assert(m4.cords[1] =~= m.cords[1]);
    assert(m4.cords[2] =~= m.cords[2]);
    assert(m4.cords =~= m.cords);
}

/// `a`, `b`, `c`, `d` are four distinct values from `lo` to `lo + 3`.
pub open spec fn consecutive(lo: int, a: int, b: int, c: int, d: int) -> bool {
    &&& lo <= a <= lo + 3
    &&& lo <= b <= lo + 3
    &&& lo <= c <= lo + 3
    &&& lo <= d <= lo + 3
    &&& a != b && a != c && a != d && b != c && b != d && c != d
}

/// The four cells of the piece form an unbroken column or row.
pub open spec fn in_line(m: Mino) -> bool {
    ||| {
        &&& forall|k: int| 0 <= k < 4 ==> #[trigger] cell_x(m, k) == cell_x(m, 0)
        &&& exists|lo: int| consecutive(lo, cell_y(m, 0), cell_y(m, 1), cell_y(m, 2), cell_y(m, 3))
    }
    ||| {
        &&& forall|k: int| 0 <= k < 4 ==> #[trigger] cell_y(m, k) == cell_y(m, 0)
        &&& exists|lo: int| consecutive(lo, cell_x(m, 0), cell_x(m, 1), cell_x(m, 2), cell_x(m, 3))
    }
}

/// Every cell of the piece lies within one column and one row of its center.
pub open spec fn near_center(m: Mino) -> bool {
    forall|k: int| 0 <= k < 4 ==> -1 <= #[trigger] cell_x(m, k) - cell_x(m, 0) <= 1 && -1 <= cell_y(m, k) - cell_y(m, 0) <= 1
}

/// The shape of the piece is whole: an I piece is an unbroken line of four
/// cells, any other piece keeps its cells next to its center.
pub open spec fn well_shaped(m: Mino) -> bool {
    if m.shape is ShapeI {
        in_line(m)
    } else {
        near_center(m)
    }
}

/// A piece at the entry position is whole.
pub proof fn lemma_spawned_shaped(s: Shape, ori: Orientation)
    ensures
        well_shaped(spawned(s, ori)),
{
    let m = spawned(s, ori);
    lemma_offsets_small(s);
    let t = cord_list(s);
    assert(t[0][0] == t@[0]@[0]);
    assert(cell_x(m, 1) == 5 + t[0][0] && cell_y(m, 1) == 20 + t[0][1]);
    assert(cell_x(m, 2) == 5 + t[1][0] && cell_y(m, 2) == 20 + t[1][1]);
    assert(cell_x(m, 3) == 5 + t[2][0] && cell_y(m, 3) == 20 + t[2][1]);
    match s {
        Shape::ShapeI => {
            assert(consecutive(4, cell_x(m, 0), cell_x(m, 1), cell_x(m, 2), cell_x(m, 3)));
            assert forall|k: int| 0 <= k < 4 implies #[trigger] cell_y(m, k) == cell_y(m, 0) by {}
        },
        _ => {
            assert forall|k: int| 0 <= k < 4 implies -1 <= #[trigger] cell_x(m, k) - cell_x(m, 0) <= 1
                && -1 <= cell_y(m, k) - cell_y(m, 0) <= 1 by {}
        },
    }
}

/// A turn that keeps every coordinate within eight bits keeps the piece
/// whole.
pub proof fn lemma_rotated_shaped(m: Mino)
    requires
        well_shaped(m),
        turn_exact(m),
    ensures
        well_shaped(rotated(m)),
{
    let r = rotated(m);
    assert(0 <= rot_x(m, 0) < 256 && 0 <= rot_y(m, 0) < 256);
    assert(0 <= rot_x(m, 1) < 256 && 0 <= rot_y(m, 1) < 256);
    assert(0 <= rot_x(m, 2) < 256 && 0 <= rot_y(m, 2) < 256);
    let cx = cell_x(m, 0);
    let cy = cell_y(m, 0);
    if m.shape is ShapeI {
        if forall|k: int| 0 <= k < 4 ==> #[trigger] cell_x(m, k) == cell_x(m, 0) {
            let lo = choose|lo: int| consecutive(lo, cell_y(m, 0), cell_y(m, 1), cell_y(m, 2), cell_y(m, 3));
            assert(cell_x(m, 1) == cx && cell_x(m, 2) == cx && cell_x(m, 3) == cx);
            assert(cell_y(r, 0) == cy);
            assert(cell_y(r, 1) == cy && cell_y(r, 2) == cy && cell_y(r, 3) == cy);
            assert(consecutive(cx + lo - cy, cell_x(r, 0), cell_x(r, 1), cell_x(r, 2), cell_x(r, 3)));
            assert forall|k: int| 0 <= k < 4 implies #[trigger] cell_y(r, k) == cell_y(r, 0) by {}
        } else {
            let k0 = choose|k: int| 0 <= k < 4 && #[trigger] cell_x(m, k) != cell_x(m, 0);
            assert(forall|k: int| 0 <= k < 4 ==> #[trigger] cell_y(m, k) == cell_y(m, 0));
            let lo = choose|lo: int| consecutive(lo, cell_x(m, 0), cell_x(m, 1), cell_x(m, 2), cell_x(m, 3));
            assert(cell_y(m, 1) == cy && cell_y(m, 2) == cy && cell_y(m, 3) == cy);
            assert(cell_x(r, 0) == cx);
            assert(cell_x(r, 1) == cx && cell_x(r, 2) == cx && cell_x(r, 3) == cx);
            assert(consecutive(cy + cx - lo - 3, cell_y(r, 0), cell_y(r, 1), cell_y(r, 2), cell_y(r, 3)));
            assert forall|k: int| 0 <= k < 4 implies #[trigger] cell_x(r, k) == cell_x(r, 0) by {}
        }
    } else {
        assert(-1 <= cell_x(m, 1) - cx <= 1 && -1 <= cell_y(m, 1) - cy <= 1);
        assert(-1 <= cell_x(m, 2) - cx <= 1 && -1 <= cell_y(m, 2) - cy <= 1);
        assert(-1 <= cell_x(m, 3) - cx <= 1 && -1 <= cell_y(m, 3) - cy <= 1);
        assert forall|k: int| 0 <= k < 4 implies -1 <= #[trigger] cell_x(r, k) - cell_x(r, 0) <= 1
            && -1 <= cell_y(r, k) - cell_y(r, 0) <= 1 by {}
    }
}

/// A move one column over keeps the piece whole.
pub proof fn lemma_shifted_shaped(m: Mino, dir: bool)
    requires
        well_shaped(m),
        can_step(m, dir),
    ensures
        well_shaped(shifted(m, dir)),
{
    let r = shifted(m, dir);
    let e: int = if dir { 1 } else { -1 };
    assert forall|k: int| 0 <= k < 4 implies #[trigger] cell_x(r, k) == cell_x(m, k) + e && cell_y(r, k) == cell_y(m, k) by {
        assert(if dir { cell_x(m, k) < 255 } else { cell_x(m, k) >= 1 });
    }
    assert(cell_x(r, 0) == cell_x(m, 0) + e && cell_x(r, 1) == cell_x(m, 1) + e);
    assert(cell_x(r, 2) == cell_x(m, 2) + e && cell_x(r, 3) == cell_x(m, 3) + e);
    assert(cell_y(r, 0) == cell_y(m, 0) && cell_y(r, 1) == cell_y(m, 1));
    assert(cell_y(r, 2) == cell_y(m, 2) && cell_y(r, 3) == cell_y(m, 3));
    if m.shape is ShapeI {
        if forall|k: int| 0 <= k < 4 ==> #[trigger] cell_x(m, k) == cell_x(m, 0) {
            let lo = choose|lo: int| consecutive(lo, cell_y(m, 0), cell_y(m, 1), cell_y(m, 2), cell_y(m, 3));
            assert(consecutive(lo, cell_y(r, 0), cell_y(r, 1), cell_y(r, 2), cell_y(r, 3)));
        } else {
            let lo = choose|lo: int| consecutive(lo, cell_x(m, 0), cell_x(m, 1), cell_x(m, 2), cell_x(m, 3));
            assert(consecutive(lo + e, cell_x(r, 0), cell_x(r, 1), cell_x(r, 2), cell_x(r, 3)));
        }
    }
}

/// A move some rows down keeps the piece whole.
pub proof fn lemma_lowered_shaped(m: Mino, d: int)
    requires
        well_shaped(m),
        can_lower(m, d),
        0 <= d,
    ensures
        well_shaped(lowered(m, d)),
{
    let r = lowered(m, d);
    assert forall|k: int| 0 <= k < 4 implies #[trigger] cell_y(r, k) == cell_y(m, k) - d && cell_x(r, k) == cell_x(m, k) by {
        assert(cell_y(m, k) >= d);
    }
    assert(cell_y(r, 0) == cell_y(m, 0) - d && cell_y(r, 1) == cell_y(m, 1) - d);
    assert(cell_y(r, 2) == cell_y(m, 2) - d && cell_y(r, 3) == cell_y(m, 3) - d);
    assert(cell_x(r, 0) == cell_x(m, 0) && cell_x(r, 1) == cell_x(m, 1));
    assert(cell_x(r, 2) == cell_x(m, 2) && cell_x(r, 3) == cell_x(m, 3));
    if m.shape is ShapeI {
        if forall|k: int| 0 <= k < 4 ==> #[trigger] cell_x(m, k) == cell_x(m, 0) {
            let lo = choose|lo: int| consecutive(lo, cell_y(m, 0), cell_y(m, 1), cell_y(m, 2), cell_y(m, 3));
            assert(consecutive(lo - d, cell_y(r, 0), cell_y(r, 1), cell_y(r, 2), cell_y(r, 3)));
        } else {
            let lo = choose|lo: int| consecutive(lo, cell_x(m, 0), cell_x(m, 1), cell_x(m, 2), cell_x(m, 3));
            assert(consecutive(lo, cell_x(r, 0), cell_x(r, 1), cell_x(r, 2), cell_x(r, 3)));
        }
    }
}

/// In a whole piece, the cells in the center's column above the center join
/// it: every row between the center and such a cell holds a cell.
pub proof fn lemma_column_joined(m: Mino, k: int, row: int)
    requires
        well_shaped(m),
        0 <= k < 4,
        cell_x(m, k) == cell_x(m, 0),
        cell_y(m, 0) < row < cell_y(m, k),
    ensures
        exists|j: int| 0 <= j < 4 && #[trigger] cell_x(m, j) == cell_x(m, 0) && cell_y(m, j) == row,
{
    let cx = cell_x(m, 0);
    if m.shape is ShapeI {
        if forall|i: int| 0 <= i < 4 ==> #[trigger] cell_x(m, i) == cell_x(m, 0) {
            let lo = choose|lo: int| consecutive(lo, cell_y(m, 0), cell_y(m, 1), cell_y(m, 2), cell_y(m, 3));
            assert(cell_x(m, 1) == cx && cell_x(m, 2) == cx && cell_x(m, 3) == cx);
            if cell_y(m, 1) == row {
                assert(cell_x(m, 1) == cx && cell_y(m, 1) == row);
            } else if cell_y(m, 2) == row {
                assert(cell_x(m, 2) == cx && cell_y(m, 2) == row);
            } else if cell_y(m, 3) == row {
                assert(cell_x(m, 3) == cx && cell_y(m, 3) == row);
            } else {
                assert(false);
            }
        } else {
            assert(forall|i: int| 0 <= i < 4 ==> #[trigger] cell_y(m, i) == cell_y(m, 0));
            assert(cell_y(m, k) == cell_y(m, 0));
        }
    } else {
        assert(-1 <= cell_y(m, k) - cell_y(m, 0) <= 1);
    }
}

/// Draws one `u32` from `rand::thread_rng()` through `Rng::gen`. Nothing is
/// stated of the value: any `u32` may come back, and two calls may differ.
/// The generator panics when the system's entropy source cannot seed it,
/// which depends on the machine and is not stated either.
#[verifier::external_body]
pub(crate) fn random_word() -> u32 {
    rand::thread_rng().gen::<u32>()
}

impl Mino {
    /// The piece that the word `w` of the random generator deals: its shape is
    /// picked by `w % 7`, it points down and stands at the entry position.
    pub fn from_word(w: u32) -> (piece: Mino)
        ensures
            piece == dealt(w),
    {
        let cent_x: i8 = 5;
        let cent_y: i8 = 20;
        let r: u32 = w % 7;
        let shape = match r {
            1 => Shape::ShapeI,
            2 => Shape::ShapeS,
            3 => Shape::ShapeZ,
            4 => Shape::ShapeL,
            5 => Shape::ShapeJ,
            6 => Shape::ShapeT,
            _ => Shape::ShapeO,
        };
        let offs = cord_offsets(shape);
        proof {
            lemma_offsets_small(shape);
        }
        let mut piece = Mino { shape, ori: Orientation::OriD, center: [cent_x as u8, cent_y as u8], cords: [[0, 0]; 3] };
        let mut i: usize = 0;
        while i < CORD_NUM
            invariant
                0 <= i <= 3,
                cent_x == 5,
                cent_y == 20,
                offs == cord_list(shape),
                shape == shape_of_word(w),
                piece.shape == shape,
                piece.ori == Orientation::OriD,
                piece.center == [5u8, 20u8],
                forall|c: int| 0 <= c < i ==> piece.cords[c] == spawn_cell(shape, c),
            decreases 3 - i,
        {
            proof {
                lemma_offsets_small(shape);
                assert(-1 <= cord_list(shape)[i as int][0] <= 2);
                assert(0 <= cord_list(shape)[i as int][1] <= 1);
            }
            piece.cords[i][0] = (cent_x + offs[i][0]) as u8;
            piece.cords[i][1] = (cent_y + offs[i][1]) as u8;
            i += 1;
        }
        assert(piece.cords =~= spawned(shape, Orientation::OriD).cords);
        piece
    }

    /// A new piece of a shape drawn at random, pointing down, at the entry
    /// position.
    pub fn new() -> (piece: Mino)
        ensures
            exists|w: u32| piece == dealt(w),
    {
        let w = random_word();
        Mino::from_word(w)
    }

    /// Turns the piece a quarter clockwise around its center; an I piece that
    /// comes to an even orientation then trades the row of its center with
    /// that of its second cell.
    pub fn rotate(&mut self)
        ensures
            *final(self) == rotated(*old(self)),
    {
        let ghost m = *self;
        let cent_x = self.center[0] as i16;
        let cent_y = self.center[1] as i16;
        let mut i: usize = 0;
        while i < CORD_NUM
            invariant
                0 <= i <= 3,
                cent_x == m.center[0],
                cent_y == m.center[1],
                self.shape == m.shape,
                self.ori == m.ori,
                self.center == m.center,
                forall|c: int| 0 <= c < i ==> self.cords[c] == rot_cell(m, c),
                forall|c: int| i <= c < 3 ==> self.cords[c] == m.cords[c],
            decreases 3 - i,
        {
            let curr_x = self.cords[i][0] as i16;
            let curr_y = self.cords[i][1] as i16;
            self.cords[i][0] = (cent_x + (curr_y - cent_y)) as u8;
            self.cords[i][1] = (cent_y - (curr_x - cent_x)) as u8;
            assert(self.cords[i as int] =~= rot_cell(m, i as int));
            i += 1;
        }
        self.ori = match self.ori {
            Orientation::OriU => Orientation::OriR,
            Orientation::OriR => Orientation::OriD,
            Orientation::OriD => Orientation::OriL,
            Orientation::OriL => Orientation::OriU,
        };
        let even = match self.ori {
            Orientation::OriU | Orientation::OriD => true,
            _ => false,
        };
        match self.shape {
            Shape::ShapeI => {
                if even {
                    let temp_y = self.center[1];
                    self.center[1] = self.cords[1][1];
                    self.cords[1][1] = temp_y;
                }
            },
            _ => {},
        }
        assert(self.center =~= rotated(m).center);
        assert(self.cords[1] =~= rotated(m).cords[1]);
        assert(self.cords =~= rotated(m).cords);
    }

    /// Moves the piece one column right (`dir`) or left.
    pub fn shift(&mut self, dir: bool)
        requires
            can_step(*old(self), dir),
        ensures
            *final(self) == shifted(*old(self), dir),
    {
        let ghost m = *self;
        assert(cell_x(m, 0) == m.center[0]);
        if dir {
            self.center[0] += 1;
        } else {
            self.center[0] -= 1;
        }
        let mut i: usize = 0;
        while i < CORD_NUM
            invariant
                0 <= i <= 3,
                can_step(m, dir),
                self.shape == m.shape,
                self.ori == m.ori,
                self.center == shifted(m, dir).center,
                forall|c: int| 0 <= c < i ==> self.cords[c] == shifted(m, dir).cords[c],
                forall|c: int| i <= c < 3 ==> self.cords[c] == m.cords[c],
            decreases 3 - i,
        {
            assert(cell_x(m, i + 1) == m.cords[i as int][0]);
            if dir {
                self.cords[i][0] += 1;
            } else {
                self.cords[i][0] -= 1;
            }
            assert(self.cords[i as int] =~= shifted(m, dir).cords[i as int]);
            i += 1;
        }
        assert(self.cords =~= shifted(m, dir).cords);
    }

    /// Moves the piece one row down.
    pub fn fall(&mut self)
        requires
            can_lower(*old(self), 1),
        ensures
            *final(self) == lowered(*old(self), 1),
    {
        let ghost m = *self;
        assert(cell_y(m, 0) == m.center[1]);
        self.center[1] -= 1;
        let mut i: usize = 0;
        while i < CORD_NUM
            invariant
                0 <= i <= 3,
                can_lower(m, 1),
                self.shape == m.shape,
                self.ori == m.ori,
                self.center == lowered(m, 1).center,
                forall|c: int| 0 <= c < i ==> self.cords[c] == lowered(m, 1).cords[c],
                forall|c: int| i <= c < 3 ==> self.cords[c] == m.cords[c],
            decreases 3 - i,
        {
            assert(cell_y(m, i + 1) == m.cords[i as int][1]);
            self.cords[i][1] -= 1;
            assert(self.cords[i as int] =~= lowered(m, 1).cords[i as int]);
            i += 1;
        }
        assert(self.cords =~= lowered(m, 1).cords);
    }
}

} // verus!
