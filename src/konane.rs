//! Kōnane positions over two bitboards, and the geometry of the board.
use vstd::prelude::*;
use crate::bitarray::{shl_spec, shr_spec, BitArray};

verus! {

/// Bits per block of the bitboards of a position.
pub const BOARD_BLOCK_BITS: u32 = 64;

#[derive(Debug, Clone, Copy, PartialEq, Eq, Structural, Hash)]
pub enum Direction {
    Up,
    Down,
    Left,
    Right,
}

impl Direction {
    /// The four directions in the order in which moves are enumerated.
    pub fn all() -> (r: [Direction; 4])
        ensures
            r@ == seq![Direction::Up, Direction::Down, Direction::Left, Direction::Right],
    {
        let r = [Direction::Up, Direction::Down, Direction::Left, Direction::Right];
        proof {
            assert(r@ =~= seq![Direction::Up, Direction::Down, Direction::Left, Direction::Right]);
        }
        r
    }

    /// Column offset of one step in this direction.
    pub fn x(&self) -> (r: isize)
        ensures
            r == match *self {
                Direction::Left => -1isize,
                Direction::Right => 1isize,
                _ => 0isize,
            },
    {
        match self {
            Direction::Up => 0,
            Direction::Down => 0,
            Direction::Left => -1,
            Direction::Right => 1,
        }
    }

    /// Row offset of one step in this direction (rows grow downwards).
    pub fn y(&self) -> (r: isize)
        ensures
            r == match *self {
                Direction::Up => -1isize,
                Direction::Down => 1isize,
                _ => 0isize,
            },
    {
        match self {
            Direction::Up => -1,
            Direction::Down => 1,
            Direction::Left => 0,
            Direction::Right => 0,
        }
    }
}

/// A direction fixed by a type.
pub trait ConstDirection {
    fn value() -> Direction;
}

#[derive(Debug, Clone, Copy, PartialEq, Eq, Hash)]
pub struct Up;

#[derive(Debug, Clone, Copy, PartialEq, Eq, Hash)]
pub struct Down;

#[derive(Debug, Clone, Copy, PartialEq, Eq, Hash)]
pub struct Left;

#[derive(Debug, Clone, Copy, PartialEq, Eq, Hash)]
pub struct Right;

impl ConstDirection for Up {
    fn value() -> Direction {
        Direction::Up
    }
}

impl ConstDirection for Down {
    fn value() -> Direction {
        Direction::Down
    }
}

impl ConstDirection for Left {
    fn value() -> Direction {
        Direction::Left
    }
}

impl ConstDirection for Right {
    fn value() -> Direction {
        Direction::Right
    }
}

/// The size of a board.
pub trait BoardGeometry {
    fn width(&self) -> usize;

    fn height(&self) -> usize;
}

/// A board size fixed by the type.
#[derive(Debug, Clone, Copy, PartialEq, Eq, Hash, Default)]
pub struct StaticBoard<const W: usize, const H: usize>;

impl<const W: usize, const H: usize> BoardGeometry for StaticBoard<W, H> {
    fn width(&self) -> usize {
        W
    }

    fn height(&self) -> usize {
        H
    }
}

impl BoardGeometry for Konane {
    fn width(&self) -> usize {
        self.width
    }

    fn height(&self) -> usize {
        self.height
    }
}

/// One term of the bulk move-mask query: a mover, a direction and a hop count on a board
/// of the given width.
#[derive(Debug, Clone, Copy)]
pub struct GetMoveMaskSql {
    pub dir: Direction,
    pub is_black: bool,
    pub width: usize,
    pub hops: usize,
}

impl GetMoveMaskSql {
    /// The letter naming the direction: `u`, `d`, `l` or `r`.
    pub fn dir_char(&self) -> (r: char)
        ensures
            r == match self.dir {
                Direction::Up => 'u',
                Direction::Down => 'd',
                Direction::Left => 'l',
                Direction::Right => 'r',
            },
    {
        match self.dir {
            Direction::Up => 'u',
            Direction::Down => 'd',
            Direction::Left => 'l',
            Direction::Right => 'r',
        }
    }

    /// The letter naming the mover: `b` or `w`.
    pub fn next_player_char(&self) -> (r: char)
        ensures
            r == if self.is_black {
                'b'
            } else {
                'w'
            },
    {
        if self.is_black {
            'b'
        } else {
            'w'
        }
    }

    /// The letter naming the mover's opponent.
    pub fn prev_player_char(&self) -> (r: char)
        ensures
            r == if self.is_black {
                'w'
            } else {
                'b'
            },
    {
        if self.is_black {
            'w'
        } else {
            'b'
        }
    }
}

/// Whether a step in direction `d` raises the bit index.
pub open spec fn forward(d: Direction) -> bool {
    d == Direction::Right || d == Direction::Down
}

/// Size of one step in direction `d`, in bit indices, on a board `w` cells wide.
pub open spec fn step_len(d: Direction, w: nat) -> nat {
    match d {
        Direction::Left | Direction::Right => 1,
        Direction::Up | Direction::Down => w,
    }
}

/// The bitboard moved one cell in direction `d`.
pub open spec fn shift_dir(v: Seq<bool>, d: Direction, w: nat) -> Seq<bool> {
    if forward(d) {
        shl_spec(v, step_len(d, w) as int)
    } else {
        shr_spec(v, step_len(d, w) as int)
    }
}

/// The cells on the edge of a `w` by `h` board that faces direction `d`, as a bitboard
/// of `len` bits: top row, bottom row, left column or right column.
pub open spec fn border_spec(len: nat, w: nat, h: nat, d: Direction) -> Seq<bool> {
    Seq::new(
        len,
        |i: int|
            0 <= i < w * h && match d {
                Direction::Up => i < w,
                Direction::Down => i >= w * (h - 1),
                Direction::Left => i % (w as int) == 0,
                Direction::Right => i % (w as int) == w - 1,
            },
    )
}

#[derive(Debug, Clone, Copy, PartialEq, Eq, Structural, Hash)]
pub enum TileState {
    White,
    Black,
    Empty,
}

/// What a position holds: its size and the two bitboards.
pub struct BoardView {
    pub width: nat,
    pub height: nat,
    pub black: Seq<bool>,
    pub white: Seq<bool>,
}

/// A Kōnane position: `black` and `white` bitboards over a `width` by `height` board.
/// Cell `(x, y)` is bit `y * width + x`.
#[derive(Debug, Hash)]
pub struct Konane {
    pub width: usize,
    pub height: usize,
    pub white: BitArray,
    pub black: BitArray,
}

impl View for Konane {
    type V = BoardView;

    open spec fn view(&self) -> BoardView {
        BoardView {
            width: self.width as nat,
            height: self.height as nat,
            black: self.black@,
            white: self.white@,
        }
    }
}

/// Number of cells of the board.
pub open spec fn cells(v: BoardView) -> nat {
    v.width * v.height
}

/// Number of bits of each bitboard.
pub open spec fn cap(v: BoardView) -> nat {
    v.black.len()
}

/// A view of a valid position: disjoint bitboards of equal length, no bit past the board.
pub open spec fn view_wf(v: BoardView) -> bool {
    &&& v.width >= 1
    &&& v.height >= 1
    &&& v.white.len() == v.black.len()
    &&& cells(v) <= cap(v)
    &&& forall|i: int| 0 <= i < cap(v) ==> !(#[trigger] v.black[i] && v.white[i])
    &&& forall|i: int| cells(v) <= i < cap(v) ==> !(#[trigger] v.black[i])
    &&& forall|i: int| cells(v) <= i < cap(v) ==> !(#[trigger] v.white[i])
}

/// The bitboard of the stones of the mover.
pub open spec fn mover_bits(v: BoardView, white: bool) -> Seq<bool> {
    if white {
        v.white
    } else {
        v.black
    }
}

/// The bitboard of the stones of the mover's opponent.
pub open spec fn opponent_bits(v: BoardView, white: bool) -> Seq<bool> {
    if white {
        v.black
    } else {
        v.white
    }
}

/// The empty cells of the board; bits past the board are clear.
pub open spec fn empty_spec(v: BoardView) -> Seq<bool> {
    Seq::new(cap(v), |i: int| i < cells(v) && !v.black[i] && !v.white[i])
}

/// The tile of cell `i`.
pub open spec fn tile_spec(v: BoardView, i: int) -> TileState {
    if v.black[i] {
        TileState::Black
    } else if v.white[i] {
        TileState::White
    } else {
        TileState::Empty
    }
}

/// The view with the cell `i` holding `t`.
pub open spec fn put_tile_spec(v: BoardView, i: int, t: TileState) -> BoardView {
    BoardView {
        width: v.width,
        height: v.height,
        black: v.black.update(i, t == TileState::Black),
        white: v.white.update(i, t == TileState::White),
    }
}

/// The position with the colours of all stones exchanged.
pub open spec fn flip(v: BoardView) -> BoardView {
    BoardView { width: v.width, height: v.height, black: v.white, white: v.black }
}

impl Konane {
    pub open spec fn wf(&self) -> bool {
        &&& self.black.wf()
        &&& self.white.wf()
        &&& self.black.same_shape(&self.white)
        &&& self.black.len() < usize::MAX
        &&& view_wf(self@)
    }

    /// An empty `width` by `height` board with the fewest 64-bit blocks that hold it.
    pub fn empty(width: usize, height: usize) -> (r: Konane)
        requires
            width >= 1,
            height >= 1,
            width * height <= usize::MAX - 64,
        ensures
            r.wf(),
            r.width == width,
            r.height == height,
            forall|i: int| 0 <= i < cap(r@) ==> !r@.black[i] && !r@.white[i],
    {
        let n = width * height;
        let blocks = if n == 0 {
            1
        } else {
            (n + 63) / 64
        };
        assert(n <= blocks * 64 && blocks * 64 <= n + 64) by (nonlinear_arith)
            requires
                blocks == (n + 63) / 64 || (n == 0 && blocks == 1),
        ;
        let black = BitArray::new(blocks, BOARD_BLOCK_BITS);
        let white = BitArray::new(blocks, BOARD_BLOCK_BITS);
        Konane { width, height, white, black }
    }

    pub fn width(&self) -> (r: usize)
        ensures
            r == self.width,
    {
        self.width
    }

    pub fn height(&self) -> (r: usize)
        ensures
            r == self.height,
    {
        self.height
    }

    /// Bit index of cell `(x, y)`.
    pub fn xy_to_idx(&self, x: usize, y: usize) -> (r: usize)
        requires
            self.wf(),
            x < self.width,
            y < self.height,
        ensures
            r == y * self.width + x,
            r < cells(self@),
    {
        assert(y * self.width + x < self.width * self.height) by (nonlinear_arith)
            requires
                x < self.width,
                y < self.height,
        ;
        y * self.width + x
    }

    /// Writes tile `state` at cell `(x, y)`; a stone of one colour clears the other.
    pub fn set_tile(&mut self, x: usize, y: usize, state: TileState)
        requires
            old(self).wf(),
            x < old(self).width,
            y < old(self).height,
        ensures
            final(self).wf(),
            final(self).black.same_shape(&old(self).black),
            final(self)@ == put_tile_spec(old(self)@, y * old(self).width + x, state),
    {
        let i = self.xy_to_idx(x, y);
        match state {
            TileState::White => {
                self.white.set(i);
                self.black.clear(i);
            },
            TileState::Black => {
                self.black.set(i);
                self.white.clear(i);
            },
            TileState::Empty => {
                self.white.clear(i);
                self.black.clear(i);
            },
        }
        proof {
            assert(self@.black =~= put_tile_spec(old(self)@, i as int, state).black);
            assert(self@.white =~= put_tile_spec(old(self)@, i as int, state).white);
        }
    }

    /// The tile at cell `(x, y)`.
    pub fn get_tile(&self, x: usize, y: usize) -> (r: TileState)
        requires
            self.wf(),
            x < self.width,
            y < self.height,
        ensures
            r == tile_spec(self@, y * self.width + x),
    {
        let i = self.xy_to_idx(x, y);
        if self.black.get(i) {
            TileState::Black
        } else if self.white.get(i) {
            TileState::White
        } else {
            TileState::Empty
        }
    }

    /// The empty cells of the board, with the bits past the board clear.
    pub fn empty_spaces(&self) -> (r: BitArray)
        requires
            self.wf(),
        ensures
            r.wf(),
            r.same_shape(&self.black),
            r@ == empty_spec(self@),
    {
        let n = self.width * self.height;
        let cap = self.black.bits();
        let mut outside = BitArray::new(self.black.block_count(), self.black.block_bits());
        outside.set_range(n, cap);
        let taken = self.black.or(&self.white).or(&outside);
        let r = taken.not();
        proof {
            assert(r@ =~= empty_spec(self@));
        }
        r
    }

    /// A board in which every cell holds a stone, black where `x + y` is even.
    pub fn checkerboard(width: usize, height: usize) -> (r: Konane)
        requires
            width >= 1,
            height >= 1,
            width * height <= usize::MAX - 64,
        ensures
            r.wf(),
            r.width == width,
            r.height == height,
            forall|x: int, y: int|
                0 <= x < width && 0 <= y < height ==> #[trigger] tile_spec(r@, y * width + x) == if (x
                    + y) % 2 == 0 {
                    TileState::Black
                } else {
                    TileState::White
                },
    {
        let mut board = Konane::empty(width, height);
        let mut x: usize = 0;
        while x < width
            invariant
                board.wf(),
                board.width == width,
                board.height == height,
                x <= width,
                forall|px: int, py: int|
                    0 <= px < x && 0 <= py < height ==> #[trigger] tile_spec(board@, py * width + px)
                        == if (px + py) % 2 == 0 {
                        TileState::Black
                    } else {
                        TileState::White
                    },
            decreases width - x,
        {
            let mut y: usize = 0;
            while y < height
                invariant
                    board.wf(),
                    board.width == width,
                    board.height == height,
                    x < width,
                    y <= height,
                    forall|px: int, py: int|
                        ((0 <= px < x && 0 <= py < height) || (px == x && 0 <= py < y))
                            ==> #[trigger] tile_spec(board@, py * width + px) == if (px + py) % 2
                            == 0 {
                            TileState::Black
                        } else {
                            TileState::White
                        },
                decreases height - y,
            {
                let tile = if x % 2 == y % 2 {
                    TileState::Black
                } else {
                    TileState::White
                };
                let ghost before = board@;
                board.set_tile(x, y, tile);
                proof {
                    assert forall|px: int, py: int|
                        ((0 <= px < x && 0 <= py < height) || (px == x && 0 <= py < y + 1))
                            implies #[trigger] tile_spec(board@, py * width + px) == if (px + py) % 2
                            == 0 {
                            TileState::Black
                        } else {
                            TileState::White
                        } by {
                        let j = py * width + px;
                        let i = y * width + x;
                        lemma_cell_index_bound(width as int, height as int, px, py);
                        lemma_cell_index_bound(width as int, height as int, x as int, y as int);
                        if px != x || py != y {
                            lemma_cell_index_distinct(width as int, height as int, px, py, x as int, y as int);
                            assert(board@.black[j] == before.black[j]);
                            assert(board@.white[j] == before.white[j]);
                            assert(tile_spec(board@, j) == tile_spec(before, j));
                        } else {
                            assert((px + py) % 2 == 0 <==> x % 2 == y % 2);
                            assert(board@.black[i] == (tile == TileState::Black));
                            assert(board@.white[i] == (tile == TileState::White));
                            assert(tile_spec(board@, j) == tile);
                        }
                    }
                }
                y = y + 1;
            }
            x = x + 1;
        }
        board
    }
}

impl Clone for Konane {
    fn clone(&self) -> (r: Self)
        ensures
            r@ == self@,
            r.black.same_shape(&self.black),
            r.white.same_shape(&self.white),
            self.wf() ==> r.wf(),
    {
        Konane {
            width: self.width,
            height: self.height,
            white: self.white.clone(),
            black: self.black.clone(),
        }
    }
}

impl PartialEq for Konane {
    fn eq(&self, other: &Konane) -> (r: bool) {
        self.width == other.width && self.height == other.height && self.white == other.white
            && self.black == other.black
    }
}

impl vstd::std_specs::cmp::PartialEqSpecImpl for Konane {
    open spec fn obeys_eq_spec() -> bool {
        true
    }

    open spec fn eq_spec(&self, other: &Konane) -> bool {
        &&& self.width == other.width
        &&& self.height == other.height
        &&& self.white.block_seq() == other.white.block_seq()
        &&& self.white.width() == other.white.width()
        &&& self.black.block_seq() == other.black.block_seq()
        &&& self.black.width() == other.black.width()
    }
}

impl Eq for Konane {

}

/// Cells lie inside the board's bit range.
pub proof fn lemma_cell_index_bound(w: int, h: int, x: int, y: int)
    requires
        0 <= x < w,
        0 <= y < h,
    ensures
        0 <= y * w + x < w * h,
{
    assert(0 <= y * w + x < w * h) by (nonlinear_arith)
        requires
            0 <= x < w,
            0 <= y < h,
    ;
}

/// Distinct cells have distinct bit indices.
pub proof fn lemma_cell_index_distinct(w: int, h: int, x1: int, y1: int, x2: int, y2: int)
    requires
        0 <= x1 < w,
        0 <= x2 < w,
        0 <= y1 < h,
        0 <= y2 < h,
        x1 != x2 || y1 != y2,
    ensures
        y1 * w + x1 != y2 * w + x2,
{
    if y1 == y2 {
    } else if y1 < y2 {
        assert(y1 * w + x1 < y2 * w + x2) by (nonlinear_arith)
            requires
                y1 < y2,
                0 <= x1 < w,
                0 <= x2,
        ;
    } else {
        assert(y2 * w + x2 < y1 * w + x1) by (nonlinear_arith)
            requires
                y2 < y1,
                0 <= x2 < w,
                0 <= x1,
        ;
    }
}

} // verus!
