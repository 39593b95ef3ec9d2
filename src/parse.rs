//! Reading positions from text diagrams.
//!
//! The text is trimmed, split into rows at `'\n'`, and each row trimmed again; in a row,
//! `x` is a white stone, `o` a black stone and `_` an empty cell.
use vstd::prelude::*;
use vstd::string::StringSliceAdditionalSpecFns;
use crate::konane::{cells, lemma_cell_index_bound, lemma_cell_index_distinct, tile_spec, Konane, TileState};

verus! {

#[derive(Debug, Clone, Copy, PartialEq, Eq, Structural)]
pub enum KonaneParseError {
    /// A character other than `x`, `o` or `_` inside a row.
    UnexpectedCharacter { c: u8 },
    /// A character at a cell outside the board.
    OutOfBounds { c: u8, x: usize, y: usize, w: usize, h: usize },
}

pub open spec fn is_space(b: u8) -> bool {
    b == 32u8 || b == 9u8 || b == 13u8 || b == 10u8 || b == 11u8 || b == 12u8
}

/// A character at a cell of the diagram: column, row and byte.
pub type Cell = (usize, usize, u8);

/// Cell `a` comes before cell `b` in reading order.
pub open spec fn reads_before(a: Cell, b: Cell) -> bool {
    a.1 < b.1 || (a.1 == b.1 && a.0 < b.0)
}

/// The cells are in strict reading order, so no two share a position.
pub open spec fn cells_ordered(cs: Seq<Cell>) -> bool {
    forall|a: int, b: int| 0 <= a < b < cs.len() ==> reads_before(#[trigger] cs[a], #[trigger] cs[b])
}

/// The tile a diagram character stands for.
pub open spec fn tile_byte(b: u8) -> Option<TileState> {
    if b == 120u8 {
        Some(TileState::White)
    } else if b == 111u8 {
        Some(TileState::Black)
    } else if b == 95u8 {
        Some(TileState::Empty)
    } else {
        None
    }
}

/// The cell lies on a `w` by `h` board and holds a known character.
pub open spec fn cell_ok(c: Cell, w: nat, h: nat) -> bool {
    c.0 < w && c.1 < h && tile_byte(c.2) is Some
}

/// The tile that the first `k` cells of a diagram put on bit `i` of a board `w` wide.
pub open spec fn diagram_tile(cs: Seq<Cell>, k: int, w: nat, i: int) -> TileState {
    if exists|t: int| 0 <= t < k && #[trigger] cs[t].1 * w + cs[t].0 == i {
        let t = choose|t: int| 0 <= t < k && #[trigger] cs[t].1 * w + cs[t].0 == i;
        match tile_byte(cs[t].2) {
            Some(tile) => tile,
            None => TileState::Empty,
        }
    } else {
        TileState::Empty
    }
}

/// What writing the cells onto an empty `w` by `h` board yields: the first cell off the
/// board or with an unknown character is reported; otherwise each cell gets its tile.
pub open spec fn fill_result(cs: Seq<Cell>, w: nat, h: nat, r: Result<(), KonaneParseError>) -> bool {
    match r {
        Ok(()) => forall|t: int| 0 <= t < cs.len() ==> cell_ok(#[trigger] cs[t], w, h),
        Err(KonaneParseError::OutOfBounds { c, x, y, w: ew, h: eh }) => ew == w && eh == h && exists|
            t: int,
        |
            0 <= t < cs.len() && #[trigger] cs[t] == (x, y, c) && (x >= w || y >= h) && forall|u: int|
                0 <= u < t ==> cell_ok(#[trigger] cs[u], w, h),
        Err(KonaneParseError::UnexpectedCharacter { c }) => exists|t: int|
            0 <= t < cs.len() && #[trigger] cs[t].2 == c && cs[t].0 < w && cs[t].1 < h && tile_byte(c)
                is None && forall|u: int| 0 <= u < t ==> cell_ok(#[trigger] cs[u], w, h),
    }
}

/// The layout of a diagram: its cells in reading order, its row count, its widest row.
pub struct Layout {
    pub cells: Vec<Cell>,
    pub rows: usize,
    pub width: usize,
}

fn is_space_byte(b: u8) -> (r: bool)
    ensures
        r == is_space(b),
{
    b == 32u8 || b == 9u8 || b == 13u8 || b == 10u8 || b == 11u8 || b == 12u8
}

/// The first index of `[i, e)` not holding whitespace, or `e`.
pub open spec fn skip_space(b: Seq<u8>, i: int, e: int) -> int
    decreases e - i,
{
    if i >= e {
        e
    } else if is_space(b[i]) {
        skip_space(b, i + 1, e)
    } else {
        i
    }
}

/// The end of `[s, e)` once trailing whitespace is dropped.
pub open spec fn trim_end(b: Seq<u8>, s: int, e: int) -> int
    decreases e - s,
{
    if e <= s {
        s
    } else if is_space(b[e - 1]) {
        trim_end(b, s, e - 1)
    } else {
        e
    }
}

/// The index of the first newline of `[i, e)`, or `e`.
pub open spec fn line_end(b: Seq<u8>, i: int, e: int) -> int
    decreases e - i,
{
    if i >= e {
        e
    } else if b[i] == 10u8 {
        i
    } else {
        line_end(b, i + 1, e)
    }
}

/// The cells of row `y`, the trimmed text of `[s, e)`.
pub open spec fn row_cells(b: Seq<u8>, s: int, e: int, y: nat) -> Seq<Cell> {
    let ts = skip_space(b, s, e);
    let te = trim_end(b, ts, e);
    Seq::new((te - ts) as nat, |x: int| (x as usize, y as usize, b[ts + x]))
}

/// The cells of the rows of `[i, e)`, the first of them numbered `y`.
pub open spec fn rows_cells(b: Seq<u8>, i: int, e: int, y: nat) -> Seq<Cell>
    decreases e - i,
{
    let le = line_end(b, i, e);
    if i < 0 || le >= e || le < i {
        row_cells(b, i, e, y)
    } else {
        row_cells(b, i, le, y) + rows_cells(b, le + 1, e, y + 1)
    }
}

/// The number of rows of `[i, e)`.
pub open spec fn row_count(b: Seq<u8>, i: int, e: int) -> nat
    decreases e - i,
{
    let le = line_end(b, i, e);
    if i < 0 || le >= e || le < i {
        1
    } else {
        1 + row_count(b, le + 1, e)
    }
}

/// The length of the longest trimmed row of `[i, e)`.
pub open spec fn row_width(b: Seq<u8>, i: int, e: int) -> nat
    decreases e - i,
{
    let le = line_end(b, i, e);
    let here = row_cells(b, i, if i < 0 || le >= e || le < i {
        e
    } else {
        le
    }, 0).len();
    if i < 0 || le >= e || le < i {
        here
    } else {
        let rest = row_width(b, le + 1, e);
        if here >= rest {
            here
        } else {
            rest
        }
    }
}

/// The bounds of a diagram's text once surrounding whitespace is trimmed.
pub open spec fn text_start(b: Seq<u8>) -> int {
    skip_space(b, 0, b.len() as int)
}

pub open spec fn text_end(b: Seq<u8>) -> int {
    trim_end(b, text_start(b), b.len() as int)
}

/// The cells of a diagram: the text is trimmed and split at newlines, each row is trimmed,
/// and character `x` of row `y` is cell `(x, y)`.
pub open spec fn diagram_cells(b: Seq<u8>) -> Seq<Cell> {
    rows_cells(b, text_start(b), text_end(b), 0)
}

/// The number of rows of a diagram.
pub open spec fn diagram_rows(b: Seq<u8>) -> nat {
    row_count(b, text_start(b), text_end(b))
}

/// The length of the longest row of a diagram.
pub open spec fn diagram_width(b: Seq<u8>) -> nat {
    row_width(b, text_start(b), text_end(b))
}

fn skip_space_exec(bytes: &[u8], i: usize, e: usize) -> (r: usize)
    requires
        i <= e <= bytes@.len(),
    ensures
        r == skip_space(bytes@, i as int, e as int),
        i <= r <= e,
{
    let mut j = i;
    while j < e && is_space_byte(bytes[j])
        invariant
            i <= j <= e,
            e <= bytes@.len(),
            skip_space(bytes@, j as int, e as int) == skip_space(bytes@, i as int, e as int),
        decreases e - j,
    {
        j = j + 1;
    }
    j
}

fn trim_end_exec(bytes: &[u8], s: usize, e: usize) -> (r: usize)
    requires
        s <= e <= bytes@.len(),
    ensures
        r == trim_end(bytes@, s as int, e as int),
        s <= r <= e,
{
    let mut j = e;
    while j > s && is_space_byte(bytes[j - 1])
        invariant
            s <= j <= e,
            e <= bytes@.len(),
            trim_end(bytes@, s as int, j as int) == trim_end(bytes@, s as int, e as int),
        decreases j,
    {
        j = j - 1;
    }
    j
}

fn line_end_exec(bytes: &[u8], i: usize, e: usize) -> (r: usize)
    requires
        i <= e <= bytes@.len(),
    ensures
        r == line_end(bytes@, i as int, e as int),
        i <= r <= e,
{
    let mut j = i;
    while j < e && bytes[j] != 10u8
        invariant
            i <= j <= e,
            e <= bytes@.len(),
            line_end(bytes@, j as int, e as int) == line_end(bytes@, i as int, e as int),
        decreases e - j,
    {
        j = j + 1;
    }
    j
}

/// Splits a diagram into its cells, in reading order.
pub fn layout(bytes: &[u8]) -> (r: Layout)
    requires
        bytes@.len() < usize::MAX,
    ensures
        r.cells@ == diagram_cells(bytes@),
        r.rows == diagram_rows(bytes@),
        r.width == diagram_width(bytes@),
        r.rows >= 1,
        r.rows <= bytes@.len() + 1,
        r.width <= bytes@.len(),
        forall|k: int|
            0 <= k < r.cells@.len() ==> (#[trigger] r.cells@[k]).0 < r.width && r.cells@[k].1
                < r.rows,
        cells_ordered(r.cells@),
{
    let ghost b = bytes@;
    let n = bytes.len();
    let start = skip_space_exec(bytes, 0, n);
    let end = trim_end_exec(bytes, start, n);
    let mut cells: Vec<Cell> = Vec::new();
    let mut i = start;
    let mut y: usize = 0;
    let mut width: usize = 0;
    let ghost mut widths: Seq<nat> = Seq::empty();
    loop
        invariant_except_break
            cells@ + rows_cells(b, i as int, end as int, y as nat) == diagram_cells(b),
            y + row_count(b, i as int, end as int) == diagram_rows(b),
            (if width >= row_width(b, i as int, end as int) {
                width as nat
            } else {
                row_width(b, i as int, end as int)
            }) == diagram_width(b),
            forall|k: int|
                0 <= k < cells@.len() ==> (#[trigger] cells@[k]).0 < width && cells@[k].1 < y,
        invariant
            start <= i <= end <= n,
            n == b.len(),
            n < usize::MAX,
            b == bytes@,
            start == text_start(b),
            end == text_end(b),
            y <= i - start,
            width <= n,
            cells_ordered(cells@),
        ensures
            cells@ == diagram_cells(b),
            y + 1 == diagram_rows(b),
            width == diagram_width(b),
            y <= n,
            width <= n,
            forall|k: int|
                0 <= k < cells@.len() ==> (#[trigger] cells@[k]).0 < width && cells@[k].1 <= y,
            cells_ordered(cells@),
        decreases end - i,
    {
        let le = line_end_exec(bytes, i, end);
        let row_stop = le;
        let ts = skip_space_exec(bytes, i, row_stop);
        let te = trim_end_exec(bytes, ts, row_stop);
        let ghost row = row_cells(b, i as int, row_stop as int, y as nat);
        let ghost before = cells@;
        let mut x: usize = 0;
        while x < te - ts
            invariant
                i <= ts <= te <= row_stop <= end <= n,
                n == b.len(),
                b == bytes@,
                row == row_cells(b, i as int, row_stop as int, y as nat),
                ts == skip_space(b, i as int, row_stop as int),
                te == trim_end(b, ts as int, row_stop as int),
                x <= te - ts,
                cells@ == before + row.take(x as int),
                cells_ordered(before),
                forall|k: int| 0 <= k < before.len() ==> (#[trigger] before[k]).1 < y,
            decreases te - ts - x,
        {
            let ghost prev = cells@;
            cells.push((x, y, bytes[ts + x]));
            proof {
                assert(row.take(x as int + 1) =~= row.take(x as int).push((x, y, b[ts + x])));
            }
            x = x + 1;
        }
        proof {
            assert(row.take(row.len() as int) =~= row);
            assert forall|a: int, c: int| 0 <= a < c < cells@.len() implies reads_before(
                #[trigger] cells@[a],
                #[trigger] cells@[c],
            ) by {
                if c >= before.len() && a >= before.len() {
                    assert(cells@[a] == row[a - before.len()]);
                    assert(cells@[c] == row[c - before.len()]);
                } else if c >= before.len() {
                    assert(cells@[a] == before[a]);
                    assert(cells@[c] == row[c - before.len()]);
                } else {
                    assert(cells@[a] == before[a]);
                    assert(cells@[c] == before[c]);
                }
            }
        }
        let row_len = te - ts;
        let ghost old_width = width;
        if row_len > width {
            width = row_len;
        }
        if le >= end {
            proof {
                assert(rows_cells(b, i as int, end as int, y as nat) == row);
                assert(row_count(b, i as int, end as int) == 1);
                assert(row_width(b, i as int, end as int) == row_cells(b, i as int, end as int, 0).len());
                assert(cells@ =~= diagram_cells(b));
                assert forall|k: int| 0 <= k < cells@.len() implies (#[trigger] cells@[k]).0 < width
                    && cells@[k].1 <= y by {
                    if k >= before.len() {
                        assert(cells@[k] == row[k - before.len()]);
                    } else {
                        assert(cells@[k] == before[k]);
                    }
                }
            }
            break;
        }
        proof {
            assert(rows_cells(b, i as int, end as int, y as nat) == row + rows_cells(
                b,
                le + 1,
                end as int,
                y as nat + 1,
            ));
            assert(cells@ + rows_cells(b, le + 1, end as int, y as nat + 1) =~= before + rows_cells(
                b,
                i as int,
                end as int,
                y as nat,
            ));
            assert(row_count(b, i as int, end as int) == 1 + row_count(b, le + 1, end as int));
            assert forall|k: int| 0 <= k < cells@.len() implies (#[trigger] cells@[k]).0 < width
                && cells@[k].1 < y + 1 by {
                if k >= before.len() {
                    assert(cells@[k] == row[k - before.len()]);
                } else {
                    assert(cells@[k] == before[k]);
                }
            }
        }
        i = le + 1;
        y = y + 1;
    }
    proof {
        assert(end <= n);
    }
    Layout { cells, rows: y + 1, width }
}

fn tile_of(b: u8) -> (r: Option<TileState>)
    ensures
        r == if b == 120u8 {
            Some(TileState::White)
        } else if b == 111u8 {
            Some(TileState::Black)
        } else if b == 95u8 {
            Some(TileState::Empty)
        } else {
            None::<TileState>
        },
{
    if b == 120u8 {
        Some(TileState::White)
    } else if b == 111u8 {
        Some(TileState::Black)
    } else if b == 95u8 {
        Some(TileState::Empty)
    } else {
        None
    }
}

proof fn lemma_diagram_tile_step(cs: Seq<Cell>, k: int, w: nat, h: nat, i: int)
    requires
        cells_ordered(cs),
        0 <= k < cs.len(),
        forall|t: int| 0 <= t <= k ==> cell_ok(#[trigger] cs[t], w, h),
    ensures
        i == cs[k].1 * w + cs[k].0 ==> diagram_tile(cs, k + 1, w, i) == tile_byte(cs[k].2)->Some_0,
        i != cs[k].1 * w + cs[k].0 ==> diagram_tile(cs, k + 1, w, i) == diagram_tile(cs, k, w, i),
{
    if i == cs[k].1 * w + cs[k].0 {
        assert(cs[k].1 * w + cs[k].0 == i);
        let u = choose|u: int| 0 <= u < k + 1 && #[trigger] cs[u].1 * w + cs[u].0 == i;
        if u != k {
            assert(reads_before(cs[u], cs[k]));
            assert(cell_ok(cs[u], w, h));
            lemma_cell_index_distinct(w as int, h as int, cs[u].0 as int, cs[u].1 as int, cs[k].0 as int, cs[k].1 as int);
        }
    } else {
        if exists|u: int| 0 <= u < k + 1 && #[trigger] cs[u].1 * w + cs[u].0 == i {
            let u = choose|u: int| 0 <= u < k + 1 && #[trigger] cs[u].1 * w + cs[u].0 == i;
            assert(u != k);
            assert(exists|v: int| 0 <= v < k && #[trigger] cs[v].1 * w + cs[v].0 == i);
            let v = choose|v: int| 0 <= v < k && #[trigger] cs[v].1 * w + cs[v].0 == i;
            if u != v {
                assert(cell_ok(cs[u], w, h));
                assert(cell_ok(cs[v], w, h));
                lemma_cell_index_distinct(w as int, h as int, cs[u].0 as int, cs[u].1 as int, cs[v].0 as int, cs[v].1 as int);
            }
        } else {
            assert(!exists|v: int| 0 <= v < k && #[trigger] cs[v].1 * w + cs[v].0 == i);
        }
    }
}

/// Writes the cells of a diagram onto the empty `game`, stopping at the first cell off
/// the board or holding an unknown character.
fn fill(game: &mut Konane, cs: &Vec<Cell>) -> (r: Result<(), KonaneParseError>)
    requires
        old(game).wf(),
        forall|i: int| 0 <= i < cells(old(game)@) ==> tile_spec(old(game)@, i) == TileState::Empty,
        cells_ordered(cs@),
    ensures
        final(game).wf(),
        final(game).width == old(game).width,
        final(game).height == old(game).height,
        final(game).black.same_shape(&old(game).black),
        fill_result(cs@, old(game).width as nat, old(game).height as nat, r),
        r is Ok ==> forall|i: int|
            0 <= i < cells(final(game)@) ==> tile_spec(final(game)@, i) == diagram_tile(
                cs@,
                cs@.len() as int,
                old(game).width as nat,
                i,
            ),
{
    let w = game.width;
    let h = game.height;
    let mut k: usize = 0;
    while k < cs.len()
        invariant
            game.wf(),
            game.width == w,
            game.height == h,
            w == old(game).width,
            h == old(game).height,
            game.black.same_shape(&old(game).black),
            cells_ordered(cs@),
            k <= cs@.len(),
            forall|t: int| 0 <= t < k ==> cell_ok(#[trigger] cs@[t], w as nat, h as nat),
            forall|i: int|
                0 <= i < cells(game@) ==> tile_spec(game@, i) == diagram_tile(cs@, k as int, w as nat, i),
        decreases cs@.len() - k,
    {
        let (x, y, b) = cs[k];
        if x >= w || y >= h {
            return Err(KonaneParseError::OutOfBounds { c: b, x, y, w, h });
        }
        match tile_of(b) {
            Some(t) => {
                let ghost before = game@;
                game.set_tile(x, y, t);
                proof {
                    let idx = y * w + x;
                    lemma_cell_index_bound(w as int, h as int, x as int, y as int);
                    assert forall|i: int| 0 <= i < cells(game@) implies tile_spec(game@, i) == diagram_tile(
                        cs@,
                        k + 1,
                        w as nat,
                        i,
                    ) by {
                        lemma_diagram_tile_step(cs@, k as int, w as nat, h as nat, i);
                        assert(cs@[k as int] == (x, y, b));
                        if i == idx {
                            assert(game@.black[i] == (t == TileState::Black));
                            assert(game@.white[i] == (t == TileState::White));
                            assert(tile_byte(b) == Some(t));
                            assert(diagram_tile(cs@, k + 1, w as nat, i) == t);
                            assert(tile_spec(game@, i) == t);
                        } else {
                            assert(game@.black[i] == before.black[i]);
                            assert(game@.white[i] == before.white[i]);
                            assert(tile_spec(game@, i) == tile_spec(before, i));
                            assert(i != cs@[k as int].1 * (w as nat) + cs@[k as int].0);
                            assert(diagram_tile(cs@, k + 1, w as nat, i) == diagram_tile(cs@, k as int, w as nat, i));
                        }
                    }
                }
            },
            None => {
                return Err(KonaneParseError::UnexpectedCharacter { c: b });
            },
        }
        k = k + 1;
    }
    Ok(())
}

impl Konane {
    /// Reads a diagram onto a `width` by `height` board.
    pub fn parse_sized(text: &str, width: usize, height: usize) -> (r: Result<
        Konane,
        KonaneParseError,
    >)
        requires
            width >= 1,
            height >= 1,
            width * height <= usize::MAX - 64,
            text.spec_bytes().len() < usize::MAX,
        ensures
            fill_result(
                diagram_cells(text.spec_bytes()),
                width as nat,
                height as nat,
                match r {
                    Ok(_) => Ok(()),
                    Err(e) => Err(e),
                },
            ),
            r is Ok ==> r->Ok_0.wf() && r->Ok_0.width == width && r->Ok_0.height == height
                && forall|i: int|
                0 <= i < cells(r->Ok_0@) ==> tile_spec(r->Ok_0@, i) == diagram_tile(
                    diagram_cells(text.spec_bytes()),
                    diagram_cells(text.spec_bytes()).len() as int,
                    width as nat,
                    i,
                ),
    {
        let l = layout(text.as_bytes());
        Konane::from_cells(&l.cells, width, height)
    }

    /// Writes the cells of a diagram, in reading order, onto an empty `width` by `height`
    /// board; the first cell off the board or holding an unknown character is reported.
    pub fn from_cells(cs: &Vec<Cell>, width: usize, height: usize) -> (r: Result<
        Konane,
        KonaneParseError,
    >)
        requires
            width >= 1,
            height >= 1,
            width * height <= usize::MAX - 64,
            cells_ordered(cs@),
        ensures
            fill_result(
                cs@,
                width as nat,
                height as nat,
                match r {
                    Ok(_) => Ok(()),
                    Err(e) => Err(e),
                },
            ),
            r is Ok ==> r->Ok_0.wf() && r->Ok_0.width == width && r->Ok_0.height == height
                && forall|i: int|
                0 <= i < cells(r->Ok_0@) ==> tile_spec(r->Ok_0@, i) == diagram_tile(
                    cs@,
                    cs@.len() as int,
                    width as nat,
                    i,
                ),
    {
        let mut game = Konane::empty(width, height);
        match fill(&mut game, cs) {
            Ok(()) => Ok(game),
            Err(e) => Err(e),
        }
    }

    /// Reads a diagram onto a board as wide as its widest row (at least one cell) and as
    /// tall as its rows.
    pub fn parse(text: &str) -> (r: Result<Konane, KonaneParseError>)
        requires
            text.spec_bytes().len() < 0x8000,
        ensures
            ({
                let cs = diagram_cells(text.spec_bytes());
                let w: nat = if diagram_width(text.spec_bytes()) == 0 {
                    1
                } else {
                    diagram_width(text.spec_bytes())
                };
                let h = diagram_rows(text.spec_bytes());
                &&& fill_result(
                    cs,
                    w,
                    h,
                    match r {
                        Ok(_) => Ok(()),
                        Err(e) => Err(e),
                    },
                )
                &&& r is Ok ==> r->Ok_0.wf() && r->Ok_0.width == w && r->Ok_0.height == h
                    && forall|i: int|
                    0 <= i < cells(r->Ok_0@) ==> tile_spec(r->Ok_0@, i) == diagram_tile(
                        cs,
                        cs.len() as int,
                        w,
                        i,
                    )
            }),
    {
        let bytes = text.as_bytes();
        let l = layout(bytes);
        let w = if l.width == 0 {
            1
        } else {
            l.width
        };
        let h = l.rows;
        proof {
            assert(w * h <= 0x8000 * 0x8001) by (nonlinear_arith)
                requires
                    w <= 0x8000,
                    h <= 0x8001,
            ;
        }
        Konane::from_cells(&l.cells, w, h)
    }
}

} // verus!
