//! Numeric summaries of a position, for the analysis of game values.
use vstd::prelude::*;
use crate::bitarray::{count_spec, BitArray};
use crate::konane::{cap, Konane};
use crate::moves::{capture_total, move_total};

verus! {

/// A game whose position splits into one bitboard per player.
pub trait TwoPlayerGame {
    /// The stones of the left player (black).
    fn left(&self) -> &BitArray;

    /// The stones of the right player (white).
    fn right(&self) -> &BitArray;
}

impl TwoPlayerGame for Konane {
    fn left(&self) -> &BitArray {
        &self.black
    }

    fn right(&self) -> &BitArray {
        &self.white
    }
}

/// Row `i / w` of cell `i` holds a stone and no stone lies outside rows `[a, b]`.
pub open spec fn rows_span(v: Seq<bool>, w: nat, a: int, b: int) -> bool {
    &&& exists|i: int| 0 <= i < v.len() && v[i] && i / (w as int) == a
    &&& exists|i: int| 0 <= i < v.len() && v[i] && i / (w as int) == b
    &&& forall|i: int| 0 <= i < v.len() && v[i] ==> a <= #[trigger] (i / (w as int)) <= b
}

/// Number of stones.
pub struct PieceCount;

impl PieceCount {
    pub fn compute(&self, board: &BitArray) -> (r: usize)
        requires
            board.wf(),
        ensures
            r == count_spec(board@),
    {
        board.count_set()
    }
}

/// Number of rows from the highest to the lowest stone, both included.
pub struct PieceHeight;

impl PieceHeight {
    pub fn compute(&self, width: usize, board: &BitArray) -> (r: usize)
        requires
            board.wf(),
            width >= 1,
        ensures
            r == 0 <==> forall|i: int| 0 <= i < board.len() ==> !board@[i],
            r > 0 ==> exists|a: int, b: int| rows_span(board@, width as nat, a, b) && r == b - a + 1,
    {
        match board.first_set() {
            None => 0,
            Some(first) => {
                let last = match board.last_set() {
                    Some(l) => l,
                    None => first,
                };
                let a = first / width;
                let b = last / width;
                proof {
                    vstd::arithmetic::div_mod::lemma_div_is_ordered(first as int, last as int, width as int);
                    assert forall|i: int| 0 <= i < board.len() && board@[i] implies a <= #[trigger] (i / (width as int)) <= b by {
                        vstd::arithmetic::div_mod::lemma_div_is_ordered(first as int, i, width as int);
                        vstd::arithmetic::div_mod::lemma_div_is_ordered(i, last as int, width as int);
                    }
                    assert(rows_span(board@, width as nat, a as int, b as int));
                }
                b - a + 1
            },
        }
    }
}

/// Whether column `x` of a `w`-wide board of `h` rows holds a stone.
pub open spec fn column_has(v: Seq<bool>, w: nat, h: nat, x: int) -> bool {
    exists|y: int| 0 <= y < h && #[trigger] v[y * w + x]
}

/// Number of columns from the leftmost to the rightmost stone, both included.
pub struct PieceWidth;

impl PieceWidth {
    fn column_occupied(board: &BitArray, width: usize, height: usize, x: usize) -> (r: bool)
        requires
            board.wf(),
            x < width,
            width * height <= board.len(),
        ensures
            r == column_has(board@, width as nat, height as nat, x as int),
    {
        let mut y: usize = 0;
        while y < height
            invariant
                board.wf(),
                x < width,
                y <= height,
                width * height <= board.len(),
                forall|py: int| 0 <= py < y ==> !#[trigger] board@[py * width + x],
            decreases height - y,
        {
            proof {
                assert(y * width + x < width * height) by (nonlinear_arith)
                    requires
                        x < width,
                        y < height,
                ;
            }
            if board.get(y * width + x) {
                return true;
            }
            y = y + 1;
        }
        false
    }

    pub fn compute(&self, width: usize, height: usize, board: &BitArray) -> (r: usize)
        requires
            board.wf(),
            width * height <= board.len(),
        ensures
            r == 0 <==> forall|x: int| 0 <= x < width ==> !column_has(board@, width as nat, height as nat, x),
            r > 0 ==> exists|a: int, b: int|
                0 <= a <= b < width && column_has(board@, width as nat, height as nat, a) && column_has(
                    board@,
                    width as nat,
                    height as nat,
                    b,
                ) && (forall|x: int| 0 <= x < a ==> !column_has(board@, width as nat, height as nat, x))
                    && (forall|x: int| b < x < width ==> !column_has(board@, width as nat, height as nat, x))
                    && r == b - a + 1,
    {
        let mut first: Option<usize> = None;
        let mut last: usize = 0;
        let mut x: usize = 0;
        while x < width
            invariant
                board.wf(),
                width * height <= board.len(),
                x <= width,
                match first {
                    None => forall|c: int| 0 <= c < x ==> !column_has(board@, width as nat, height as nat, c),
                    Some(a) => a <= last < x && column_has(board@, width as nat, height as nat, a as int)
                        && column_has(board@, width as nat, height as nat, last as int) && (forall|c: int|
                        0 <= c < a ==> !column_has(board@, width as nat, height as nat, c)) && (forall|c: int|
                        last < c < x ==> !column_has(board@, width as nat, height as nat, c)),
                },
            decreases width - x,
        {
            if PieceWidth::column_occupied(board, width, height, x) {
                if first.is_none() {
                    first = Some(x);
                }
                last = x;
            }
            x = x + 1;
        }
        match first {
            None => 0,
            Some(a) => last - a + 1,
        }
    }
}

/// Distance of cell `i` of a `w` by `h` board to the nearest edge: per axis the
/// coordinate, or its distance to the size once past the middle, and the smaller of the two.
pub open spec fn border_distance(i: int, w: int, h: int) -> int {
    let x = i % w;
    let y = i / w;
    let dx = if x > w / 2 {
        w - x
    } else {
        x
    };
    let dy = if y > h / 2 {
        h - y
    } else {
        y
    };
    if dx <= dy {
        dx
    } else {
        dy
    }
}

/// Sum of the border distances of the stones among the first `n` cells.
pub open spec fn border_distance_sum(v: Seq<bool>, w: int, h: int, n: int) -> int
    decreases n,
{
    if n <= 0 {
        0
    } else {
        border_distance_sum(v, w, h, n - 1) + if v[n - 1] {
            border_distance(n - 1, w, h)
        } else {
            0
        }
    }
}

/// Average distance of the stones to the nearest edge, as a sum and a count.
pub struct NearestBorder;

impl NearestBorder {
    /// The sum of the stones' distances to the nearest edge, and the number of stones.
    pub fn compute(&self, width: usize, height: usize, board: &BitArray) -> (r: (u64, u64))
        requires
            board.wf(),
            width >= 1,
            height >= 1,
            width * height <= board.len(),
            board.len() <= 0x1000_0000,
        ensures
            r.0 == border_distance_sum(board@, width as int, height as int, (width * height) as int),
            r.1 == count_spec(board@.take((width * height) as int)),
    {
        let n = width * height;
        let mut sum: u64 = 0;
        let mut count: u64 = 0;
        let mut i: usize = 0;
        while i < n
            invariant
                board.wf(),
                n == width * height,
                n <= board.len(),
                board.len() <= 0x1000_0000,
                width >= 1,
                height >= 1,
                i <= n,
                sum == border_distance_sum(board@, width as int, height as int, i as int),
                sum <= i * (width + height),
                count == count_spec(board@.take(i as int)),
                count <= i,
            decreases n - i,
        {
            proof {
                crate::bitarray::lemma_count_step(board@, i as int);
            }
            if board.get(i) {
                let x = i % width;
                let y = i / width;
                proof {
                    vstd::arithmetic::div_mod::lemma_div_is_ordered(i as int, n as int, width as int);
                    vstd::arithmetic::div_mod::lemma_div_multiples_vanish(height as int, width as int);
                    assert(x <= width);
                    assert((i * (width + height) + (width + height)) as int == (i + 1) * (width + height)) by (nonlinear_arith);
                    assert(width <= n && height <= n) by (nonlinear_arith)
                        requires
                            n == width * height,
                            width >= 1,
                            height >= 1,
                    ;
                    assert((i + 1) * (width + height) <= 0x1000_0000 * 0x2000_0000) by (nonlinear_arith)
                        requires
                            i + 1 <= 0x1000_0000,
                            width + height <= 0x2000_0000,
                    ;
                }
                let dx = if x > width / 2 {
                    width - x
                } else {
                    x
                };
                let dy = if y > height / 2 {
                    height - y
                } else {
                    y
                };
                let d = if dx <= dy {
                    dx
                } else {
                    dy
                };
                sum = sum + d as u64;
                count = count + 1;
            } else {
                proof {
                    assert((i * (width + height)) as int <= (i + 1) * (width + height)) by (nonlinear_arith);
                }
            }
            i = i + 1;
        }
        (sum, count)
    }
}

/// Number of moves of one player.
pub struct MoveCount {
    pub white: bool,
}

impl MoveCount {
    /// Counts the moves of black.
    pub fn left() -> (r: MoveCount)
        ensures
            !r.white,
    {
        MoveCount { white: false }
    }

    /// Counts the moves of white.
    pub fn right() -> (r: MoveCount)
        ensures
            r.white,
    {
        MoveCount { white: true }
    }

    pub fn compute(&self, game: &Konane) -> (r: u64)
        requires
            game.wf(),
            cap(game@) <= 0x4000_0000,
        ensures
            r == move_total(game@, self.white),
    {
        game.move_count(self.white)
    }
}

/// Number of opponent stones one player's jumps would take, all applied at once.
pub struct CaptureCount {
    pub white: bool,
}

impl CaptureCount {
    /// Counts the captures of black.
    pub fn left() -> (r: CaptureCount)
        ensures
            !r.white,
    {
        CaptureCount { white: false }
    }

    /// Counts the captures of white.
    pub fn right() -> (r: CaptureCount)
        ensures
            r.white,
    {
        CaptureCount { white: true }
    }

    pub fn compute(&self, game: &Konane) -> (r: usize)
        requires
            game.wf(),
        ensures
            r == capture_total(game@, self.white),
    {
        game.captures(self.white)
    }
}

} // verus!
