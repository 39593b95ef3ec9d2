//! Bit-parallel generation of Kōnane jumps.
//!
//! For a direction `d` and a mover, the candidate mask starts as the mover's stones off
//! the border facing `d`. Each hop moves the mask one cell along `d`, keeps the cells
//! holding an opponent stone that is itself off that border, moves one more cell and keeps
//! the empty cells. After `h` hops every set bit is the landing cell of a jump of `h`
//! hops. Clearing the border before each single-cell step keeps a jump on its row.
use vstd::prelude::*;
use crate::bitarray::{
    count_spec, lemma_count_concat, lemma_count_zeros, seq_and, seq_not, set_index_seq, BitArray,
};
use crate::konane::{
    border_spec, cap, cells, empty_spec, flip, forward, mover_bits, opponent_bits, shift_dir,
    step_len, view_wf, BoardView, Direction, Konane,
};

verus! {

/// The border of the board of `v` that faces `d`.
pub open spec fn board_border(v: BoardView, d: Direction) -> Seq<bool> {
    border_spec(cap(v), v.width, v.height, d)
}

/// The candidate mask before any hop: the mover's stones off the border facing `d`.
pub open spec fn initial_mask(v: BoardView, white: bool, d: Direction) -> Seq<bool> {
    seq_and(mover_bits(v, white), seq_not(board_border(v, d)))
}

/// One hop of the candidate mask `c`.
pub open spec fn hop_spec(v: BoardView, white: bool, d: Direction, c: Seq<bool>) -> Seq<bool> {
    let off = seq_not(board_border(v, d));
    seq_and(
        shift_dir(
            seq_and(shift_dir(seq_and(c, off), d, v.width), seq_and(opponent_bits(v, white), off)),
            d,
            v.width,
        ),
        empty_spec(v),
    )
}

/// The candidate mask after `h` hops: for `h >= 1`, the landing cells of the jumps of
/// exactly `h` hops in direction `d`.
pub open spec fn jump_mask(v: BoardView, white: bool, d: Direction, h: nat) -> Seq<bool>
    decreases h,
{
    if h == 0 {
        initial_mask(v, white, d)
    } else {
        hop_spec(v, white, d, jump_mask(v, white, d, (h - 1) as nat))
    }
}

/// The starting cell of the jump of `h` hops in direction `d` that lands on `l`.
pub open spec fn origin_spec(v: BoardView, d: Direction, h: nat, l: int) -> int {
    if forward(d) {
        l - 2 * h * step_len(d, v.width)
    } else {
        l + 2 * h * step_len(d, v.width)
    }
}

/// Whether cell `i` lies on the line of that jump, both ends included.
pub open spec fn on_line(v: BoardView, d: Direction, h: nat, l: int, i: int) -> bool {
    let o = origin_spec(v, d, h, l);
    let lo = if o <= l {
        o
    } else {
        l
    };
    let hi = if o <= l {
        l
    } else {
        o
    };
    lo <= i <= hi && (i - lo) % (step_len(d, v.width) as int) == 0
}

/// The position after the jump of `h` hops in direction `d` landing on `l`: the line is
/// cleared in both colours and the landing cell holds the mover.
pub open spec fn apply_view(v: BoardView, white: bool, d: Direction, h: nat, l: int) -> BoardView {
    let mover = Seq::new(
        cap(v),
        |i: int| i == l || (mover_bits(v, white)[i] && !on_line(v, d, h, l, i)),
    );
    let opp = Seq::new(cap(v), |i: int| opponent_bits(v, white)[i] && !on_line(v, d, h, l, i));
    if white {
        BoardView { width: v.width, height: v.height, black: opp, white: mover }
    } else {
        BoardView { width: v.width, height: v.height, black: mover, white: opp }
    }
}

pub proof fn lemma_jump_mask_len(v: BoardView, white: bool, d: Direction, h: nat)
    requires
        view_wf(v),
    ensures
        jump_mask(v, white, d, h).len() == cap(v),
    decreases h,
{
    if h > 0 {
        lemma_jump_mask_len(v, white, d, (h - 1) as nat);
    }
}

/// A set bit of the candidate mask after `h` hops sits `2 * h` steps from a stone of the
/// mover, inside the board; after at least one hop it is an empty cell.
pub proof fn lemma_jump_origin(v: BoardView, white: bool, d: Direction, h: nat, l: int)
    requires
        view_wf(v),
        0 <= l < cap(v),
        jump_mask(v, white, d, h)[l],
    ensures
        forward(d) ==> l >= 2 * h * step_len(d, v.width),
        !forward(d) ==> l + 2 * h * step_len(d, v.width) < cap(v),
        0 <= origin_spec(v, d, h, l) < cells(v),
        mover_bits(v, white)[origin_spec(v, d, h, l)],
        h >= 1 ==> l < cells(v) && empty_spec(v)[l],
    decreases h,
{
    let st = step_len(d, v.width) as int;
    lemma_jump_mask_len(v, white, d, h);
    if h == 0 {
        assert(2 * h * st == 0) by (nonlinear_arith)
            requires
                h == 0,
        ;
        assert(origin_spec(v, d, h, l) == l);
        if l >= cells(v) {
            assert(!v.black[l] && !v.white[l]);
        }
    } else {
        let c = jump_mask(v, white, d, (h - 1) as nat);
        lemma_jump_mask_len(v, white, d, (h - 1) as nat);
        let off = seq_not(board_border(v, d));
        let z = seq_and(c, off);
        let y = seq_and(shift_dir(z, d, v.width), seq_and(opponent_bits(v, white), off));
        assert(jump_mask(v, white, d, h) == hop_spec(v, white, d, c));
        if forward(d) {
            assert(shift_dir(y, d, v.width)[l]);
            assert(l >= st && y[l - st]);
            assert(shift_dir(z, d, v.width)[l - st]);
            assert(l - st >= st && z[l - 2 * st]);
            lemma_jump_origin(v, white, d, (h - 1) as nat, l - 2 * st);
            assert(2 * h * st == 2 * (h - 1) * st + 2 * st) by (nonlinear_arith);
            assert(origin_spec(v, d, h, l) == origin_spec(v, d, (h - 1) as nat, l - 2 * st));
        } else {
            assert(shift_dir(y, d, v.width)[l]);
            assert(l + st < cap(v) && y[l + st]);
            assert(shift_dir(z, d, v.width)[l + st]);
            assert(l + 2 * st < cap(v) && z[l + 2 * st]);
            lemma_jump_origin(v, white, d, (h - 1) as nat, l + 2 * st);
            assert(2 * h * st == 2 * (h - 1) * st + 2 * st) by (nonlinear_arith);
            assert(origin_spec(v, d, h, l) == origin_spec(v, d, (h - 1) as nat, l + 2 * st));
        }
    }
}

/// Cell `i` is on the board and has a neighbour in direction `d` on the same row or
/// column.
pub open spec fn step_ok(v: BoardView, d: Direction, i: int) -> bool {
    let w = v.width as int;
    0 <= i < cells(v) && match d {
        Direction::Up => i >= w,
        Direction::Down => i + w < cells(v),
        Direction::Left => i % w != 0,
        Direction::Right => i % w != w - 1,
    }
}

/// The rule of the game: a jump of `h` hops along `d` can end on cell `l`. After no hop
/// the jump stands on a stone of the mover; each further hop starts from the landing cell
/// `p` of the shorter jump, passes its neighbour `m`, which holds an opponent stone, and
/// ends on the next neighbour `l`, which is empty; every step stays on the board and on its
/// row or column.
pub open spec fn legal_jump(v: BoardView, white: bool, d: Direction, h: nat, l: int) -> bool
    decreases h,
{
    let st = step_len(d, v.width) as int;
    if h == 0 {
        0 <= l < cells(v) && mover_bits(v, white)[l]
    } else {
        let m = if forward(d) {
            l - st
        } else {
            l + st
        };
        let p = if forward(d) {
            l - 2 * st
        } else {
            l + 2 * st
        };
        &&& step_ok(v, d, p)
        &&& step_ok(v, d, m)
        &&& opponent_bits(v, white)[m]
        &&& 0 <= l < cells(v)
        &&& !v.black[l] && !v.white[l]
        &&& legal_jump(v, white, d, (h - 1) as nat, p)
    }
}

proof fn lemma_border_is_edge(v: BoardView, d: Direction, i: int)
    requires
        view_wf(v),
        0 <= i < cells(v),
    ensures
        !board_border(v, d)[i] <==> step_ok(v, d, i),
{
    let w = v.width as int;
    let h = v.height as int;
    assert(w * (h - 1) + w == w * h) by (nonlinear_arith);
}

/// The masks compute the rule: after at least one hop, bit `l` of the mask is set exactly
/// when a jump of that many hops along `d` can end on `l`.
pub proof fn lemma_mask_is_rule(v: BoardView, white: bool, d: Direction, h: nat, l: int)
    requires
        view_wf(v),
        0 <= l < cap(v),
    ensures
        (jump_mask(v, white, d, h)[l] && !board_border(v, d)[l]) <==> (legal_jump(v, white, d, h, l)
            && step_ok(v, d, l)),
        h >= 1 ==> (jump_mask(v, white, d, h)[l] <==> legal_jump(v, white, d, h, l)),
    decreases h,
{
    let st = step_len(d, v.width) as int;
    lemma_jump_mask_len(v, white, d, h);
    if l < cells(v) {
        lemma_border_is_edge(v, d, l);
    }
    if h > 0 {
        let c = jump_mask(v, white, d, (h - 1) as nat);
        lemma_jump_mask_len(v, white, d, (h - 1) as nat);
        assert(jump_mask(v, white, d, h) == hop_spec(v, white, d, c));
        let m = if forward(d) {
            l - st
        } else {
            l + st
        };
        let p = if forward(d) {
            l - 2 * st
        } else {
            l + 2 * st
        };
        if 0 <= p < cap(v) {
            lemma_mask_is_rule(v, white, d, (h - 1) as nat, p);
        }
        if 0 <= m < cells(v) {
            lemma_border_is_edge(v, d, m);
        }
        if 0 <= m < cap(v) && m >= cells(v) {
            assert(!v.black[m] && !v.white[m]);
        }
        if 0 <= p < cap(v) && p >= cells(v) {
            assert(!step_ok(v, d, p));
            if jump_mask(v, white, d, (h - 1) as nat)[p] {
                lemma_jump_origin(v, white, d, (h - 1) as nat, p);
                if h - 1 == 0 {
                    assert(!v.black[p] && !v.white[p]);
                }
            }
        }
    } else {
        if l >= cells(v) {
            assert(!v.black[l] && !v.white[l]);
        }
    }
}

proof fn lemma_mod_offset(i: int, w: int)
    requires
        w >= 1,
        i >= 0,
    ensures
        (i >= w - 1 && (i - (w - 1)) % w == 0) <==> i % w == w - 1,
{
    if i < w - 1 {
        vstd::arithmetic::div_mod::lemma_fundamental_div_mod_converse(i, w, 0, i);
    } else {
        let a = i - (w - 1);
        vstd::arithmetic::div_mod::lemma_fundamental_div_mod(a, w);
        let q = a / w;
        let r = a % w;
        if r == 0 {
            vstd::arithmetic::div_mod::lemma_fundamental_div_mod_converse(i, w, q, w - 1);
        } else {
            assert(i == (q + 1) * w + (r - 1)) by (nonlinear_arith)
                requires
                    a == w * q + r,
                    i == a + w - 1,
            ;
            vstd::arithmetic::div_mod::lemma_fundamental_div_mod_converse(i, w, q + 1, r - 1);
        }
    }
}

/// The bitboard of the edge of `game`'s board that faces `dir`.
pub fn border_mask(game: &Konane, dir: Direction) -> (r: BitArray)
    requires
        game.wf(),
    ensures
        r.wf(),
        r.same_shape(&game.black),
        r@ == board_border(game@, dir),
{
    let w = game.width;
    let h = game.height;
    assert(w <= w * h && w * (h - 1) <= w * h) by (nonlinear_arith)
        requires
            h >= 1,
    ;
    let n = w * h;
    let mut r = BitArray::new(game.black.block_count(), game.black.block_bits());
    match dir {
        Direction::Up => r.set_range(0, w),
        Direction::Down => r.set_range(w * (h - 1), n),
        Direction::Left => r.set_range_step(0, n, w),
        Direction::Right => r.set_range_step(w - 1, n, w),
    }
    proof {
        if dir == Direction::Right {
            assert forall|i: int| 0 <= i < r.len() implies r@[i] == board_border(game@, dir)[i] by {
                lemma_mod_offset(i, w as int);
            }
        }
        assert(r@ =~= board_border(game@, dir));
    }
    r
}

/// Size of one step along `dir`, in bit indices.
pub fn bit_offset_of_direction_abs(width: usize, dir: Direction) -> (r: usize)
    ensures
        r == step_len(dir, width as nat),
{
    match dir {
        Direction::Right | Direction::Left => 1,
        Direction::Up | Direction::Down => width,
    }
}

/// The bitboard moved one cell along `dir` on a board `width` cells wide.
pub fn shift_in_direction(width: usize, board: &BitArray, dir: Direction) -> (r: BitArray)
    requires
        board.wf(),
        1 <= width <= board.len(),
    ensures
        r.wf(),
        r.same_shape(board),
        r@ == shift_dir(board@, dir, width as nat),
{
    match dir {
        Direction::Right => board.shift_left(1),
        Direction::Left => board.shift_right(1),
        Direction::Up => board.shift_right(width),
        Direction::Down => board.shift_left(width),
    }
}

/// The candidate mask of one direction, after `offset` hops.
#[derive(Debug)]
pub struct MoveBitmap {
    pub moves: BitArray,
    pub offset: usize,
}

impl MoveBitmap {
    /// The mask is the one of `game` for this mover and direction after `offset` hops.
    pub open spec fn tracks(&self, game: &Konane, white: bool, dir: Direction) -> bool {
        &&& game.wf()
        &&& self.moves.wf()
        &&& self.moves.same_shape(&game.black)
        &&& self.moves@ == jump_mask(game@, white, dir, self.offset as nat)
    }

    /// The mask before any hop: the mover's stones off the border facing `dir`.
    pub fn new_from_game_in_dir(game: &Konane, white: bool, dir: Direction) -> (r: MoveBitmap)
        requires
            game.wf(),
        ensures
            r.tracks(game, white, dir),
            r.offset == 0,
    {
        let border = border_mask(game, dir);
        let moves = if white {
            game.white.and_not(&border)
        } else {
            game.black.and_not(&border)
        };
        MoveBitmap { moves, offset: 0 }
    }

    /// Whether no candidate is left.
    pub fn is_complete(&self) -> (r: bool)
        requires
            self.moves.wf(),
        ensures
            r <==> forall|i: int| 0 <= i < self.moves.len() ==> !self.moves@[i],
    {
        self.moves.is_empty()
    }

    /// One more hop against the opponent of the mover.
    pub fn advance_against(&mut self, game: &Konane, white: bool, dir: Direction)
        requires
            old(self).tracks(game, white, dir),
            old(self).offset < usize::MAX,
        ensures
            final(self).tracks(game, white, dir),
            final(self).offset == old(self).offset + 1,
    {
        let ghost v = game@;
        let border = border_mask(game, dir);
        let off = border.not();
        proof {
            assert(game.width * 1 <= game.width * game.height) by (nonlinear_arith)
                requires
                    game.height >= 1,
            ;
        }
        let c = self.moves.and(&off);
        let c = shift_in_direction(game.width, &c, dir);
        let opp = if white {
            game.black.and(&off)
        } else {
            game.white.and(&off)
        };
        let c = c.and(&opp);
        let c = shift_in_direction(game.width, &c, dir);
        let empty = game.empty_spaces();
        let c = c.and(&empty);
        proof {
            let h = (self.offset + 1) as nat;
            assert(jump_mask(v, white, dir, h) == hop_spec(
                v,
                white,
                dir,
                jump_mask(v, white, dir, (h - 1) as nat),
            ));
            assert(c@ =~= jump_mask(v, white, dir, h));
        }
        self.moves = c;
        self.offset = self.offset + 1;
    }

    /// The starting cell of the jump that lands on `ind`.
    pub fn get_origin_of(&self, game: &Konane, white: bool, dir: Direction, ind: usize) -> (r: usize)
        requires
            self.tracks(game, white, dir),
            ind < self.moves.len(),
            self.moves@[ind as int],
        ensures
            r == origin_spec(game@, dir, self.offset as nat, ind as int),
            r < cells(game@),
    {
        proof {
            lemma_jump_origin(game@, white, dir, self.offset as nat, ind as int);
        }
        let st = bit_offset_of_direction_abs(game.width, dir);
        proof {
            assert(2 * self.offset <= 2 * self.offset * st) by (nonlinear_arith)
                requires
                    st >= 1,
            ;
        }
        let span = 2 * self.offset * st;
        if dir == Direction::Right || dir == Direction::Down {
            ind - span
        } else {
            ind + span
        }
    }

    /// Applies, to `g`, the jump found by this mask that lands on `ind`.
    pub fn apply_move_to_mut(
        &self,
        game: &Konane,
        g: &mut Konane,
        white: bool,
        dir: Direction,
        ind: usize,
    )
        requires
            self.tracks(game, white, dir),
            self.offset >= 1,
            ind < self.moves.len(),
            self.moves@[ind as int],
            old(g).wf(),
            old(g).width == game.width,
            old(g).height == game.height,
            old(g).black.same_shape(&game.black),
        ensures
            final(g).wf(),
            final(g).black.same_shape(&game.black),
            final(g)@ == apply_view(old(g)@, white, dir, self.offset as nat, ind as int),
    {
        proof {
            lemma_jump_origin(game@, white, dir, self.offset as nat, ind as int);
        }
        let origin = self.get_origin_of(game, white, dir, ind);
        let st = bit_offset_of_direction_abs(game.width, dir);
        let lo = if origin <= ind {
            origin
        } else {
            ind
        };
        let hi = if origin <= ind {
            ind
        } else {
            origin
        };
        let ghost before = g@;
        g.black.clear_range_step(lo, hi + 1, st);
        g.white.clear_range_step(lo, hi + 1, st);
        if white {
            g.white.set(ind);
        } else {
            g.black.set(ind);
        }
        proof {
            let h = self.offset as nat;
            let sti = st as int;
            assert((2 * h * sti) % sti == 0) by (nonlinear_arith)
                requires
                    sti >= 1,
            ;
            assert((hi - lo) % sti == 0);
            assert(0int % sti == 0);
            assert(on_line(before, dir, h, ind as int, ind as int));
            let expect = apply_view(before, white, dir, h, ind as int);
            assert(g@.black =~= expect.black);
            assert(g@.white =~= expect.white);
            assert forall|i: int| 0 <= i < cap(g@) implies !(#[trigger] g@.black[i] && g@.white[i]) by {
                if i != ind {
                    assert(!(before.black[i] && before.white[i]));
                }
            }
        }
    }

    /// The position after the jump found by this mask that lands on `ind`.
    pub fn apply_move_to(&self, game: &Konane, white: bool, dir: Direction, ind: usize) -> (r: Konane)
        requires
            self.tracks(game, white, dir),
            self.offset >= 1,
            ind < self.moves.len(),
            self.moves@[ind as int],
        ensures
            r.wf(),
            r.black.same_shape(&game.black),
            r@ == apply_view(game@, white, dir, self.offset as nat, ind as int),
    {
        let mut g = game.clone();
        self.apply_move_to_mut(game, &mut g, white, dir, ind);
        g
    }
}

/// The positions reached by the jumps of exactly `h` hops along `d`, by ascending landing
/// cell.
pub open spec fn hop_successors(v: BoardView, white: bool, d: Direction, h: nat) -> Seq<BoardView> {
    set_index_seq(jump_mask(v, white, d, h)).map_values(|l: int| apply_view(v, white, d, h, l))
}

/// The positions reached by the jumps along `d` of `h` hops or more, fewest hops first.
pub open spec fn dir_successors(v: BoardView, white: bool, d: Direction, h: nat) -> Seq<BoardView>
    decreases cap(v) + 1 - h,
{
    if h == 0 || h > cap(v) {
        Seq::empty()
    } else {
        hop_successors(v, white, d, h) + dir_successors(v, white, d, h + 1)
    }
}

/// Every position the mover can reach in one move, in the order of enumeration: up, down,
/// left, right, fewest hops first, ascending landing cell.
pub open spec fn successors(v: BoardView, white: bool) -> Seq<BoardView> {
    dir_successors(v, white, Direction::Up, 1) + dir_successors(v, white, Direction::Down, 1)
        + dir_successors(v, white, Direction::Left, 1) + dir_successors(v, white, Direction::Right, 1)
}

/// The number of jumps along `d` of `h` hops or more.
pub open spec fn dir_count(v: BoardView, white: bool, d: Direction, h: nat) -> nat
    decreases cap(v) + 1 - h,
{
    if h == 0 || h > cap(v) {
        0
    } else {
        count_spec(jump_mask(v, white, d, h)) + dir_count(v, white, d, h + 1)
    }
}

/// The number of moves of the mover: the sum of the population counts of all masks.
pub open spec fn move_total(v: BoardView, white: bool) -> nat {
    dir_count(v, white, Direction::Up, 1) + dir_count(v, white, Direction::Down, 1) + dir_count(
        v,
        white,
        Direction::Left,
        1,
    ) + dir_count(v, white, Direction::Right, 1)
}

/// The mover has no jump of a single hop, hence no jump at all.
pub open spec fn terminal(v: BoardView, white: bool) -> bool {
    forall|d: Direction, i: int| 0 <= i < cap(v) ==> !#[trigger] legal_jump(v, white, d, 1, i)
}

pub proof fn lemma_index_seq_len(v: Seq<bool>)
    ensures
        set_index_seq(v).len() == count_spec(v),
        count_spec(v) <= v.len(),
    decreases v.len(),
{
    if v.len() > 0 {
        lemma_index_seq_len(v.drop_last());
    }
}

pub proof fn lemma_index_seq_clear(v: Seq<bool>)
    requires
        forall|i: int| 0 <= i < v.len() ==> !v[i],
    ensures
        set_index_seq(v) == Seq::<int>::empty(),
        count_spec(v) == 0,
    decreases v.len(),
{
    if v.len() > 0 {
        lemma_index_seq_clear(v.drop_last());
        assert(set_index_seq(v) =~= Seq::<int>::empty());
    }
}

pub proof fn lemma_count_positive(v: Seq<bool>, i: int)
    requires
        0 <= i < v.len(),
        v[i],
    ensures
        count_spec(v) > 0,
    decreases v.len(),
{
    if i < v.len() - 1 {
        lemma_count_positive(v.drop_last(), i);
    }
}

/// Once a mask is clear, no jump with more hops remains.
pub proof fn lemma_clear_mask_ends(v: BoardView, white: bool, d: Direction, h: nat)
    requires
        view_wf(v),
        forall|i: int| 0 <= i < cap(v) ==> !#[trigger] jump_mask(v, white, d, h)[i],
    ensures
        h >= 1 ==> dir_successors(v, white, d, h) == Seq::<BoardView>::empty(),
        h >= 1 ==> dir_count(v, white, d, h) == 0,
    decreases cap(v) + 1 - h,
{
    lemma_jump_mask_len(v, white, d, h);
    lemma_jump_mask_len(v, white, d, h + 1);
    if h >= 1 && h <= cap(v) {
        lemma_index_seq_clear(jump_mask(v, white, d, h));
        assert forall|i: int| 0 <= i < cap(v) implies !#[trigger] jump_mask(v, white, d, h + 1)[i] by {
            assert(jump_mask(v, white, d, h + 1) == hop_spec(v, white, d, jump_mask(v, white, d, h)));
        }
        lemma_clear_mask_ends(v, white, d, h + 1);
        assert(hop_successors(v, white, d, h) =~= Seq::<BoardView>::empty());
        assert(dir_successors(v, white, d, h) =~= Seq::<BoardView>::empty());
    }
}

proof fn lemma_dir_len(v: BoardView, white: bool, d: Direction, h: nat)
    requires
        view_wf(v),
    ensures
        dir_successors(v, white, d, h).len() == dir_count(v, white, d, h),
        h <= cap(v) + 1 ==> dir_count(v, white, d, h) <= (cap(v) + 1 - h) * cap(v),
    decreases cap(v) + 1 - h,
{
    if h >= 1 && h <= cap(v) {
        lemma_dir_len(v, white, d, h + 1);
        lemma_index_seq_len(jump_mask(v, white, d, h));
        lemma_jump_mask_len(v, white, d, h);
        assert((cap(v) + 1 - (h + 1)) * cap(v) + cap(v) == (cap(v) + 1 - h) * cap(v))
            by (nonlinear_arith);
    } else if h <= cap(v) + 1 {
        assert(0 <= (cap(v) + 1 - h) * cap(v)) by (nonlinear_arith)
            requires
                h <= cap(v) + 1,
        ;
    }
}

/// The number of moves counted from the masks is the number of successors enumerated.
pub proof fn lemma_move_count_matches(v: BoardView, white: bool)
    requires
        view_wf(v),
    ensures
        successors(v, white).len() == move_total(v, white),
{
    lemma_dir_len(v, white, Direction::Up, 1);
    lemma_dir_len(v, white, Direction::Down, 1);
    lemma_dir_len(v, white, Direction::Left, 1);
    lemma_dir_len(v, white, Direction::Right, 1);
}

/// The mover has no successor exactly when it has no single-hop jump.
pub proof fn lemma_no_successors_iff_terminal(v: BoardView, white: bool)
    requires
        view_wf(v),
    ensures
        successors(v, white).len() == 0 <==> terminal(v, white),
{
    lemma_move_count_matches(v, white);
    assert forall|d: Direction, i: int| 0 <= i < cap(v) implies (#[trigger] jump_mask(v, white, d, 1)[i]
        <==> legal_jump(v, white, d, 1, i)) by {
        lemma_mask_is_rule(v, white, d, 1, i);
    }
    if terminal(v, white) {
        lemma_clear_mask_ends(v, white, Direction::Up, 1);
        lemma_clear_mask_ends(v, white, Direction::Down, 1);
        lemma_clear_mask_ends(v, white, Direction::Left, 1);
        lemma_clear_mask_ends(v, white, Direction::Right, 1);
    } else {
        let (d, i) = choose|d: Direction, i: int|
            0 <= i < cap(v) && #[trigger] legal_jump(v, white, d, 1, i);
        lemma_jump_mask_len(v, white, d, 1);
        lemma_count_positive(jump_mask(v, white, d, 1), i);
        lemma_dir_len(v, white, Direction::Up, 1);
        lemma_dir_len(v, white, Direction::Down, 1);
        lemma_dir_len(v, white, Direction::Left, 1);
        lemma_dir_len(v, white, Direction::Right, 1);
        assert(dir_count(v, white, d, 1) > 0);
    }
}

/// A board without an empty cell offers no move to either player.
pub proof fn lemma_full_board_no_moves(v: BoardView, white: bool)
    requires
        view_wf(v),
        forall|i: int| 0 <= i < cells(v) ==> #[trigger] v.black[i] || v.white[i],
    ensures
        successors(v, white).len() == 0,
{
    assert forall|d: Direction, i: int| 0 <= i < cap(v) implies !#[trigger] legal_jump(v, white, d, 1, i) by {
        lemma_jump_mask_len(v, white, d, 1);
        lemma_mask_is_rule(v, white, d, 1, i);
        if jump_mask(v, white, d, 1)[i] {
            lemma_jump_origin(v, white, d, 1, i);
        }
    }
    lemma_no_successors_iff_terminal(v, white);
}

proof fn lemma_flip_masks(v: BoardView, white: bool, d: Direction, h: nat)
    requires
        view_wf(v),
    ensures
        jump_mask(flip(v), white, d, h) == jump_mask(v, !white, d, h),
    decreases h,
{
    let f = flip(v);
    assert(cap(f) == cap(v));
    assert(empty_spec(f) =~= empty_spec(v));
    assert(board_border(f, d) == board_border(v, d));
    if h == 0 {
        assert(mover_bits(f, white) == mover_bits(v, !white));
    } else {
        lemma_flip_masks(v, white, d, (h - 1) as nat);
        assert(opponent_bits(f, white) == opponent_bits(v, !white));
    }
}

proof fn lemma_flip_dir(v: BoardView, white: bool, d: Direction, h: nat)
    requires
        view_wf(v),
    ensures
        dir_successors(flip(v), white, d, h) == dir_successors(v, !white, d, h).map_values(
            |s: BoardView| flip(s),
        ),
    decreases cap(v) + 1 - h,
{
    let f = flip(v);
    assert(cap(f) == cap(v));
    if h == 0 || h > cap(v) {
        assert(dir_successors(v, !white, d, h).map_values(|s: BoardView| flip(s)) =~= Seq::<
            BoardView,
        >::empty());
    } else {
        lemma_flip_dir(v, white, d, h + 1);
        lemma_flip_masks(v, white, d, h);
        let idx = set_index_seq(jump_mask(v, !white, d, h));
        assert forall|l: int| true implies apply_view(f, white, d, h, l) == flip(
            apply_view(v, !white, d, h, l),
        ) by {
            assert(mover_bits(f, white) == mover_bits(v, !white));
            assert(opponent_bits(f, white) == opponent_bits(v, !white));
            let a = apply_view(f, white, d, h, l);
            let b = flip(apply_view(v, !white, d, h, l));
            assert(a.black =~= b.black);
            assert(a.white =~= b.white);
        }
        assert(hop_successors(f, white, d, h) =~= hop_successors(v, !white, d, h).map_values(
            |s: BoardView| flip(s),
        ));
        assert(dir_successors(v, !white, d, h).map_values(|s: BoardView| flip(s)) =~= hop_successors(
            v,
            !white,
            d,
            h,
        ).map_values(|s: BoardView| flip(s)) + dir_successors(v, !white, d, h + 1).map_values(
            |s: BoardView| flip(s),
        ));
    }
}

/// Exchanging the colours of all stones exchanges the players: the moves of one colour
/// in the exchanged position are the exchanged moves of the other colour.
pub proof fn lemma_flip_symmetry(v: BoardView, white: bool)
    requires
        view_wf(v),
    ensures
        successors(flip(v), white) == successors(v, !white).map_values(|s: BoardView| flip(s)),
{
    lemma_flip_dir(v, white, Direction::Up, 1);
    lemma_flip_dir(v, white, Direction::Down, 1);
    lemma_flip_dir(v, white, Direction::Left, 1);
    lemma_flip_dir(v, white, Direction::Right, 1);
    let up = dir_successors(v, !white, Direction::Up, 1);
    let down = dir_successors(v, !white, Direction::Down, 1);
    let left = dir_successors(v, !white, Direction::Left, 1);
    let right = dir_successors(v, !white, Direction::Right, 1);
    assert(successors(v, !white).map_values(|s: BoardView| flip(s)) =~= up.map_values(
        |s: BoardView| flip(s),
    ) + down.map_values(|s: BoardView| flip(s)) + left.map_values(|s: BoardView| flip(s))
        + right.map_values(|s: BoardView| flip(s)));
}

/// `s` is the result of the jump of `h` hops along `d` landing on `l`: a stone of the
/// mover leaves its origin for the empty landing cell `2 * h` steps away, every other cell
/// of the line is emptied, and no cell off the line changes.
pub open spec fn jump_step(v: BoardView, white: bool, d: Direction, h: nat, l: int, s: BoardView) -> bool {
    let o = origin_spec(v, d, h, l);
    &&& h >= 1
    &&& 0 <= l < cells(v)
    &&& 0 <= o < cells(v)
    &&& legal_jump(v, white, d, h, l)
    &&& jump_mask(v, white, d, h)[l]
    &&& s == apply_view(v, white, d, h, l)
    &&& s.width == v.width && s.height == v.height
    &&& mover_bits(v, white)[o] && empty_spec(v)[l]
    &&& mover_bits(s, white)[l] && !opponent_bits(s, white)[l]
    &&& !mover_bits(s, white)[o] && !opponent_bits(s, white)[o]
    &&& forall|i: int|
        0 <= i < cap(v) && i != l && on_line(v, d, h, l, i) ==> !#[trigger] s.black[i] && !s.white[i]
    &&& forall|i: int|
        0 <= i < cap(v) && !on_line(v, d, h, l, i) ==> #[trigger] s.black[i] == v.black[i] && s.white[i]
            == v.white[i]
}

proof fn lemma_index_seq_members(v: Seq<bool>)
    ensures
        forall|k: int|
            0 <= k < set_index_seq(v).len() ==> 0 <= #[trigger] set_index_seq(v)[k] < v.len() && v[set_index_seq(
                v,
            )[k]],
    decreases v.len(),
{
    if v.len() > 0 {
        let p = v.drop_last();
        lemma_index_seq_members(p);
        let tail = if v.last() {
            seq![v.len() - 1]
        } else {
            Seq::<int>::empty()
        };
        assert(set_index_seq(v) == set_index_seq(p) + tail);
        assert forall|k: int| 0 <= k < set_index_seq(v).len() implies 0 <= #[trigger] set_index_seq(v)[k]
            < v.len() && v[set_index_seq(v)[k]] by {
            if k < set_index_seq(p).len() {
                assert(set_index_seq(v)[k] == set_index_seq(p)[k]);
                assert(p[set_index_seq(p)[k]] == v[set_index_seq(p)[k]]);
            } else {
                assert(set_index_seq(v)[k] == tail[k - set_index_seq(p).len()]);
            }
        }
    }
}

proof fn lemma_apply_is_jump_step(v: BoardView, white: bool, d: Direction, h: nat, l: int)
    requires
        view_wf(v),
        h >= 1,
        0 <= l < cap(v),
        jump_mask(v, white, d, h)[l],
    ensures
        jump_step(v, white, d, h, l, apply_view(v, white, d, h, l)),
{
    lemma_jump_mask_len(v, white, d, h);
    lemma_jump_origin(v, white, d, h, l);
    lemma_mask_is_rule(v, white, d, h, l);
    let st = step_len(d, v.width) as int;
    let o = origin_spec(v, d, h, l);
    assert(st >= 1);
    assert((2 * h * st) % st == 0) by (nonlinear_arith)
        requires
            st >= 1,
    ;
    assert(0int % st == 0);
    assert(2 * h * st >= 2) by (nonlinear_arith)
        requires
            st >= 1,
            h >= 1,
    ;
    assert(on_line(v, d, h, l, o));
    assert(on_line(v, d, h, l, l));
}

proof fn lemma_dir_member(v: BoardView, white: bool, d: Direction, h: nat, k: int)
    requires
        view_wf(v),
        0 <= k < dir_successors(v, white, d, h).len(),
    ensures
        exists|g: nat, l: int| #[trigger] jump_step(v, white, d, g, l, dir_successors(v, white, d, h)[k]),
    decreases cap(v) + 1 - h,
{
    let hs = hop_successors(v, white, d, h);
    if k < hs.len() {
        let mask = jump_mask(v, white, d, h);
        lemma_jump_mask_len(v, white, d, h);
        lemma_index_seq_members(mask);
        let l = set_index_seq(mask)[k];
        lemma_apply_is_jump_step(v, white, d, h, l);
        assert(dir_successors(v, white, d, h)[k] == hs[k]);
        assert(jump_step(v, white, d, h, l, dir_successors(v, white, d, h)[k]));
    } else {
        lemma_dir_member(v, white, d, h + 1, k - hs.len());
        assert(dir_successors(v, white, d, h)[k] == dir_successors(v, white, d, h + 1)[k - hs.len()]);
    }
}

/// Every successor is the result of one jump of the mover (see `jump_step`).
pub proof fn lemma_successor_shape(v: BoardView, white: bool, k: int)
    requires
        view_wf(v),
        0 <= k < successors(v, white).len(),
    ensures
        exists|d: Direction, h: nat, l: int| #[trigger] jump_step(v, white, d, h, l, successors(v, white)[k]),
{
    let up = dir_successors(v, white, Direction::Up, 1);
    let down = dir_successors(v, white, Direction::Down, 1);
    let left = dir_successors(v, white, Direction::Left, 1);
    let right = dir_successors(v, white, Direction::Right, 1);
    let s = successors(v, white);
    if k < up.len() {
        lemma_dir_member(v, white, Direction::Up, 1, k);
        assert(s[k] == up[k]);
    } else if k < up.len() + down.len() {
        lemma_dir_member(v, white, Direction::Down, 1, k - up.len());
        assert(s[k] == down[k - up.len()]);
    } else if k < up.len() + down.len() + left.len() {
        lemma_dir_member(v, white, Direction::Left, 1, k - up.len() - down.len());
        assert(s[k] == left[k - up.len() - down.len()]);
    } else {
        lemma_dir_member(v, white, Direction::Right, 1, k - up.len() - down.len() - left.len());
        assert(s[k] == right[k - up.len() - down.len() - left.len()]);
    }
}

proof fn lemma_count_range(n: nat, lo: int, hi: int)
    requires
        0 <= lo <= hi <= n,
    ensures
        count_spec(Seq::new(n, |i: int| lo <= i < hi)) == hi - lo,
    decreases n,
{
    if n > 0 {
        let m = (n - 1) as nat;
        if hi == n {
            if lo == n {
                lemma_count_zeros(n);
                assert(Seq::new(n, |i: int| lo <= i < hi) =~= Seq::new(n, |i: int| false));
            } else {
                lemma_count_range(m, lo, hi - 1);
                assert(Seq::new(n, |i: int| lo <= i < hi).drop_last() =~= Seq::new(m, |i: int| lo <= i < hi - 1));
            }
        } else {
            lemma_count_range(m, lo, hi);
            assert(Seq::new(n, |i: int| lo <= i < hi).drop_last() =~= Seq::new(m, |i: int| lo <= i < hi));
        }
    }
}

proof fn lemma_count_stride(w: int, c: int, k: nat)
    requires
        0 <= c < w,
    ensures
        count_spec(Seq::new((w * k) as nat, |i: int| i % w == c)) == k,
    decreases k,
{
    if k == 0 {
        assert(Seq::new((w * k) as nat, |i: int| i % w == c) =~= Seq::<bool>::empty());
    } else {
        let km = (k - 1) as nat;
        lemma_count_stride(w, c, km);
        assert(w * k == w * km + w) by (nonlinear_arith)
            requires
                km == k - 1,
        ;
        assert(w * km >= 0) by (nonlinear_arith)
            requires
                w >= 1,
        ;
        let seg = Seq::new(w as nat, |j: int| (w * km + j) % w == c);
        assert forall|j: int| 0 <= j < w implies seg[j] == (c <= j < c + 1) by {
            assert(w * km == km * w) by (nonlinear_arith);
            vstd::arithmetic::div_mod::lemma_fundamental_div_mod_converse(w * km + j, w, km as int, j);
        }
        assert(seg =~= Seq::new(w as nat, |j: int| c <= j < c + 1));
        lemma_count_range(w as nat, c, c + 1);
        assert(Seq::new((w * k) as nat, |i: int| i % w == c) =~= Seq::new((w * km) as nat, |i: int| i % w == c)
            + seg);
        lemma_count_concat(Seq::new((w * km) as nat, |i: int| i % w == c), seg);
    }
}

/// The top and bottom borders hold exactly `width` cells, all in the top or bottom row;
/// the left and right borders hold exactly `height` cells, all in the first or last
/// column.
pub proof fn lemma_border_counts(v: BoardView)
    requires
        view_wf(v),
    ensures
        count_spec(board_border(v, Direction::Up)) == v.width,
        count_spec(board_border(v, Direction::Down)) == v.width,
        count_spec(board_border(v, Direction::Left)) == v.height,
        count_spec(board_border(v, Direction::Right)) == v.height,
        forall|i: int| 0 <= i < cap(v) && #[trigger] board_border(v, Direction::Up)[i] ==> i / (v.width as int) == 0,
        forall|i: int|
            0 <= i < cap(v) && #[trigger] board_border(v, Direction::Down)[i] ==> i / (v.width as int) == v.height - 1,
        forall|i: int| 0 <= i < cap(v) && #[trigger] board_border(v, Direction::Left)[i] ==> i % (v.width as int) == 0,
        forall|i: int|
            0 <= i < cap(v) && #[trigger] board_border(v, Direction::Right)[i] ==> i % (v.width as int) == v.width - 1,
{
    let w = v.width as int;
    let h = v.height as int;
    let n = cap(v);
    assert(w <= w * h && w * (h - 1) <= w * h && w * (h - 1) + w == w * h) by (nonlinear_arith)
        requires
            h >= 1,
            w >= 1,
    ;
    assert(board_border(v, Direction::Up) =~= Seq::new(n, |i: int| 0 <= i < w));
    lemma_count_range(n, 0, w);
    assert(board_border(v, Direction::Down) =~= Seq::new(n, |i: int| w * (h - 1) <= i < w * h));
    lemma_count_range(n, w * (h - 1), w * h);
    let z = Seq::new((n - w * h) as nat, |i: int| false);
    lemma_count_zeros((n - w * h) as nat);
    assert(board_border(v, Direction::Left) =~= Seq::new((w * h) as nat, |i: int| i % w == 0) + z);
    lemma_count_stride(w, 0, h as nat);
    lemma_count_concat(Seq::new((w * h) as nat, |i: int| i % w == 0), z);
    assert(board_border(v, Direction::Right) =~= Seq::new((w * h) as nat, |i: int| i % w == w - 1) + z);
    lemma_count_stride(w, w - 1, h as nat);
    lemma_count_concat(Seq::new((w * h) as nat, |i: int| i % w == w - 1), z);
    assert forall|i: int| 0 <= i < cap(v) && #[trigger] board_border(v, Direction::Up)[i] implies i / w == 0 by {
        vstd::arithmetic::div_mod::lemma_fundamental_div_mod_converse(i, w, 0, i);
    }
    assert forall|i: int| 0 <= i < cap(v) && #[trigger] board_border(v, Direction::Down)[i] implies i / w == h - 1 by {
        vstd::arithmetic::div_mod::lemma_fundamental_div_mod_converse(i, w, h - 1, i - w * (h - 1));
    }
}

proof fn lemma_index_seq_contains(v: Seq<bool>, l: int)
    requires
        0 <= l < v.len(),
        v[l],
    ensures
        set_index_seq(v).contains(l),
    decreases v.len(),
{
    let p = v.drop_last();
    let tail = if v.last() {
        seq![v.len() - 1]
    } else {
        Seq::<int>::empty()
    };
    assert(set_index_seq(v) == set_index_seq(p) + tail);
    if l < v.len() - 1 {
        lemma_index_seq_contains(p, l);
        let sp = set_index_seq(p);
        let k = choose|k: int| 0 <= k < sp.len() && #[trigger] sp[k] == l;
        assert(set_index_seq(v)[k] == l);
    } else {
        assert(set_index_seq(v)[set_index_seq(p).len() as int] == l);
    }
}

proof fn lemma_dir_contains(v: BoardView, white: bool, d: Direction, g: nat, h: nat, l: int)
    requires
        view_wf(v),
        1 <= g <= h <= cap(v),
        0 <= l < cap(v),
        jump_mask(v, white, d, h)[l],
    ensures
        dir_successors(v, white, d, g).contains(apply_view(v, white, d, h, l)),
    decreases h - g,
{
    let target = apply_view(v, white, d, h, l);
    let hs = hop_successors(v, white, d, g);
    assert(dir_successors(v, white, d, g) == hs + dir_successors(v, white, d, g + 1));
    if g == h {
        lemma_jump_mask_len(v, white, d, h);
        lemma_index_seq_contains(jump_mask(v, white, d, h), l);
        let idx = set_index_seq(jump_mask(v, white, d, h));
        let k = choose|k: int| 0 <= k < idx.len() && #[trigger] idx[k] == l;
        assert(hs[k] == target);
        assert(dir_successors(v, white, d, g)[k] == target);
    } else {
        lemma_dir_contains(v, white, d, g + 1, h, l);
        let rest = dir_successors(v, white, d, g + 1);
        let k = choose|k: int| 0 <= k < rest.len() && #[trigger] rest[k] == target;
        assert(dir_successors(v, white, d, g)[hs.len() + k] == target);
    }
}

/// Every jump that the rule allows leads to one of the enumerated successors.
pub proof fn lemma_legal_jump_listed(v: BoardView, white: bool, d: Direction, h: nat, l: int)
    requires
        view_wf(v),
        h >= 1,
        0 <= l < cap(v),
        legal_jump(v, white, d, h, l),
    ensures
        successors(v, white).contains(apply_view(v, white, d, h, l)),
{
    lemma_mask_is_rule(v, white, d, h, l);
    lemma_jump_origin(v, white, d, h, l);
    let st = step_len(d, v.width) as int;
    assert(h <= 2 * h * st) by (nonlinear_arith)
        requires
            st >= 1,
    ;
    lemma_dir_contains(v, white, d, 1, h, l);
    let target = apply_view(v, white, d, h, l);
    let up = dir_successors(v, white, Direction::Up, 1);
    let down = dir_successors(v, white, Direction::Down, 1);
    let left = dir_successors(v, white, Direction::Left, 1);
    let right = dir_successors(v, white, Direction::Right, 1);
    let ds = dir_successors(v, white, d, 1);
    let k = choose|k: int| 0 <= k < ds.len() && #[trigger] ds[k] == target;
    let off = match d {
        Direction::Up => 0,
        Direction::Down => up.len() as int,
        Direction::Left => (up.len() + down.len()) as int,
        Direction::Right => (up.len() + down.len() + left.len()) as int,
    };
    assert(successors(v, white)[off + k] == target);
}

/// Pushes, in order, the positions reached by the jumps along `dir`.
fn push_direction_moves(game: &Konane, white: bool, dir: Direction, out: &mut Vec<Konane>)
    requires
        game.wf(),
    ensures
        final(out)@.map_values(|q: Konane| q@) == old(out)@.map_values(|q: Konane| q@)
            + dir_successors(game@, white, dir, 1),
        forall|k: int|
            0 <= k < final(out)@.len() ==> (old(out)@.len() <= k ==> #[trigger] final(out)@[k].wf()
                && final(out)@[k].black.same_shape(&game.black)),
        forall|k: int| 0 <= k < old(out)@.len() ==> #[trigger] final(out)@[k] == old(out)@[k],
{
    let ghost v = game@;
    let ghost base = old(out)@;
    let nbits = game.black.bits();
    let mut mb = MoveBitmap::new_from_game_in_dir(game, white, dir);
    proof {
        assert(nbits < usize::MAX);
    }
    mb.advance_against(game, white, dir);
    proof {
        assert(out@.map_values(|q: Konane| q@) + dir_successors(v, white, dir, mb.offset as nat)
            =~= base.map_values(|q: Konane| q@) + dir_successors(v, white, dir, 1));
    }
    while mb.offset <= nbits && !mb.is_complete()
        invariant
            game.wf(),
            v == game@,
            nbits == cap(v),
            mb.tracks(game, white, dir),
            1 <= mb.offset <= nbits + 1,
            out@.len() >= base.len(),
            out@.map_values(|q: Konane| q@) + dir_successors(v, white, dir, mb.offset as nat)
                == base.map_values(|q: Konane| q@) + dir_successors(v, white, dir, 1),
            forall|k: int|
                base.len() <= k < out@.len() ==> #[trigger] out@[k].wf() && out@[k].black.same_shape(
                    &game.black,
                ),
            forall|k: int| 0 <= k < base.len() ==> #[trigger] out@[k] == base[k],
        decreases nbits + 1 - mb.offset,
    {
        let idx = mb.moves.set_indices();
        let ghost h = mb.offset as nat;
        let ghost start = out@;
        let mut k: usize = 0;
        proof {
            assert(out@.map_values(|q: Konane| q@) =~= start.map_values(|q: Konane| q@) + Seq::new(
                0,
                |t: int| apply_view(v, white, dir, h, idx@[t] as int),
            ));
        }
        while k < idx.len()
            invariant
                game.wf(),
                v == game@,
                mb.tracks(game, white, dir),
                h == mb.offset,
                1 <= h <= nbits,
                nbits == cap(v),
                idx@.map_values(|x: usize| x as int) == set_index_seq(mb.moves@),
                forall|a: int| 0 <= a < idx@.len() ==> idx@[a] < mb.moves.len(),
                forall|x: int| 0 <= x < mb.moves.len() ==> (mb.moves@[x] <==> idx@.contains(x as usize)),
                k <= idx@.len(),
                out@.len() == start.len() + k,
                out@.map_values(|q: Konane| q@) == start.map_values(|q: Konane| q@) + Seq::new(
                    k as nat,
                    |t: int| apply_view(v, white, dir, h, idx@[t] as int),
                ),
                start.len() >= base.len(),
                forall|j: int|
                    base.len() <= j < out@.len() ==> #[trigger] out@[j].wf() && out@[j].black.same_shape(
                        &game.black,
                    ),
                forall|j: int| 0 <= j < base.len() ==> #[trigger] out@[j] == base[j],
                forall|j: int| 0 <= j < start.len() ==> #[trigger] out@[j] == start[j],
            decreases idx@.len() - k,
        {
            let l = idx[k];
            proof {
                assert(idx@.contains(l));
            }
            let q = mb.apply_move_to(game, white, dir, l);
            let ghost prev = out@;
            out.push(q);
            k = k + 1;
            proof {
                assert(out@ == prev.push(q));
                assert(out@.map_values(|q: Konane| q@) =~= prev.map_values(|q: Konane| q@).push(q@));
                assert(Seq::new(k as nat, |t: int| apply_view(v, white, dir, h, idx@[t] as int))
                    =~= Seq::new((k - 1) as nat, |t: int| apply_view(v, white, dir, h, idx@[t] as int)).push(
                    apply_view(v, white, dir, h, l as int)));
                assert(out@.map_values(|q: Konane| q@) =~= start.map_values(|q: Konane| q@) + Seq::new(
                    k as nat,
                    |t: int| apply_view(v, white, dir, h, idx@[t] as int),
                ));
            }
        }
        proof {
            let hs = hop_successors(v, white, dir, h);
            assert(Seq::new(idx@.len(), |t: int| apply_view(v, white, dir, h, idx@[t] as int)) =~= hs) by {
                assert forall|t: int| 0 <= t < idx@.len() implies set_index_seq(mb.moves@)[t] == idx@[t] as int by {
                    assert(idx@.map_values(|x: usize| x as int)[t] == idx@[t] as int);
                }
            }
            assert(dir_successors(v, white, dir, h) == hs + dir_successors(v, white, dir, h + 1));
            assert(out@.map_values(|q: Konane| q@) + dir_successors(v, white, dir, h + 1)
                =~= start.map_values(|q: Konane| q@) + dir_successors(v, white, dir, h));
        }
        mb.advance_against(game, white, dir);
    }
    proof {
        if mb.offset <= nbits {
            lemma_clear_mask_ends(v, white, dir, mb.offset as nat);
        }
        assert(dir_successors(v, white, dir, mb.offset as nat) == Seq::<BoardView>::empty());
        assert(out@.map_values(|q: Konane| q@) =~= out@.map_values(|q: Konane| q@) + Seq::<BoardView>::empty());
    }
}

/// Counts the jumps along `dir` from the population counts of the masks.
fn count_direction(game: &Konane, white: bool, dir: Direction) -> (r: u64)
    requires
        game.wf(),
        cap(game@) <= 0x4000_0000,
    ensures
        r == dir_count(game@, white, dir, 1),
        r <= cap(game@) * cap(game@),
{
    let ghost v = game@;
    let nbits = game.black.bits();
    let mut mb = MoveBitmap::new_from_game_in_dir(game, white, dir);
    mb.advance_against(game, white, dir);
    let mut total: u64 = 0;
    proof {
        lemma_dir_len(v, white, dir, 1);
    }
    while mb.offset <= nbits && !mb.is_complete()
        invariant
            game.wf(),
            v == game@,
            nbits == cap(v),
            nbits <= 0x4000_0000,
            mb.tracks(game, white, dir),
            1 <= mb.offset <= nbits + 1,
            total + dir_count(v, white, dir, mb.offset as nat) == dir_count(v, white, dir, 1),
            total <= (mb.offset - 1) * nbits,
        decreases nbits + 1 - mb.offset,
    {
        let c = mb.moves.count_set();
        proof {
            lemma_index_seq_len(mb.moves@);
            assert((mb.offset - 1) * nbits + nbits == mb.offset * nbits) by (nonlinear_arith);
            assert(mb.offset * nbits <= (nbits + 1) * nbits) by (nonlinear_arith)
                requires
                    mb.offset <= nbits + 1,
            ;
            assert((nbits + 1) * nbits <= 0x4000_0001 * 0x4000_0000) by (nonlinear_arith)
                requires
                    nbits <= 0x4000_0000,
            ;
        }
        total = total + c as u64;
        mb.advance_against(game, white, dir);
    }
    proof {
        if mb.offset <= nbits {
            lemma_clear_mask_ends(v, white, dir, mb.offset as nat);
        }
        lemma_dir_len(v, white, dir, 1);
    }
    total
}

impl Konane {
    /// The number of moves of the mover, summed from the masks without building the
    /// successors.
    pub fn move_count(&self, white: bool) -> (r: u64)
        requires
            self.wf(),
            cap(self@) <= 0x4000_0000,
        ensures
            r == move_total(self@, white),
    {
        let up = count_direction(self, white, Direction::Up);
        let down = count_direction(self, white, Direction::Down);
        let left = count_direction(self, white, Direction::Left);
        let right = count_direction(self, white, Direction::Right);
        proof {
            let c = cap(self@);
            assert(c * c <= 0x4000_0000 * 0x4000_0000) by (nonlinear_arith)
                requires
                    c <= 0x4000_0000,
            ;
        }
        up + down + left + right
    }
}

/// Cell `i` lies on the line of some jump of `h` hops along `d`.
pub open spec fn covered_by(v: BoardView, white: bool, d: Direction, h: nat, i: int) -> bool {
    exists|l: int| 0 <= l < cap(v) && #[trigger] jump_mask(v, white, d, h)[l] && on_line(v, d, h, l, i)
}

/// Cell `i` lies on the line of some jump along `d` of fewer than `n` hops.
pub open spec fn covered_below(v: BoardView, white: bool, d: Direction, n: nat, i: int) -> bool {
    exists|h: nat| 1 <= h < n && #[trigger] covered_by(v, white, d, h, i)
}

/// Cell `i` lies on the line of some jump along `d`.
pub open spec fn covered_dir(v: BoardView, white: bool, d: Direction, i: int) -> bool {
    covered_below(v, white, d, cap(v) + 1, i)
}

/// The opponent stone on cell `i` would be taken by one of the mover's jumps.
pub open spec fn captured(v: BoardView, white: bool, i: int) -> bool {
    opponent_bits(v, white)[i] && (covered_dir(v, white, Direction::Up, i) || covered_dir(
        v,
        white,
        Direction::Down,
        i,
    ) || covered_dir(v, white, Direction::Left, i) || covered_dir(v, white, Direction::Right, i))
}

/// The number of opponent stones that the mover's jumps, all applied at once, would take.
pub open spec fn capture_total(v: BoardView, white: bool) -> nat {
    count_spec(Seq::new(cap(v), |i: int| captured(v, white, i)))
}

pub proof fn lemma_count_split(a: Seq<bool>, c: Seq<bool>)
    requires
        a.len() == c.len(),
    ensures
        count_spec(a) == count_spec(Seq::new(a.len(), |i: int| a[i] && c[i])) + count_spec(
            Seq::new(a.len(), |i: int| a[i] && !c[i]),
        ),
    decreases a.len(),
{
    if a.len() > 0 {
        let n = (a.len() - 1) as nat;
        lemma_count_split(a.drop_last(), c.drop_last());
        assert(Seq::new(a.len(), |i: int| a[i] && c[i]).drop_last() =~= Seq::new(
            n,
            |i: int| a.drop_last()[i] && c.drop_last()[i],
        ));
        assert(Seq::new(a.len(), |i: int| a[i] && !c[i]).drop_last() =~= Seq::new(
            n,
            |i: int| a.drop_last()[i] && !c.drop_last()[i],
        ));
    }
}

proof fn lemma_clear_mask_stays(v: BoardView, white: bool, d: Direction, h0: nat, h: nat)
    requires
        view_wf(v),
        h0 <= h,
        forall|i: int| 0 <= i < cap(v) ==> !#[trigger] jump_mask(v, white, d, h0)[i],
    ensures
        forall|i: int| 0 <= i < cap(v) ==> !#[trigger] jump_mask(v, white, d, h)[i],
    decreases h - h0,
{
    if h > h0 {
        lemma_clear_mask_stays(v, white, d, h0, (h - 1) as nat);
        lemma_jump_mask_len(v, white, d, (h - 1) as nat);
        assert forall|i: int| 0 <= i < cap(v) implies !#[trigger] jump_mask(v, white, d, h)[i] by {
            assert(jump_mask(v, white, d, h) == hop_spec(v, white, d, jump_mask(v, white, d, (h - 1) as nat)));
        }
    }
}

/// Clears from `rest` every cell on the line of a jump along `dir`.
fn clear_direction_lines(game: &Konane, white: bool, dir: Direction, rest: &mut BitArray)
    requires
        game.wf(),
        old(rest).wf(),
        old(rest).same_shape(&game.black),
    ensures
        final(rest).wf(),
        final(rest).same_shape(&game.black),
        final(rest)@ == Seq::new(
            cap(game@),
            |i: int| old(rest)@[i] && !covered_dir(game@, white, dir, i),
        ),
{
    let ghost v = game@;
    let ghost start = rest@;
    let nbits = game.black.bits();
    let mut mb = MoveBitmap::new_from_game_in_dir(game, white, dir);
    mb.advance_against(game, white, dir);
    proof {
        assert(rest@ =~= Seq::new(
            cap(v),
            |i: int| start[i] && !covered_below(v, white, dir, mb.offset as nat, i),
        ));
    }
    while mb.offset <= nbits && !mb.is_complete()
        invariant
            game.wf(),
            v == game@,
            nbits == cap(v),
            mb.tracks(game, white, dir),
            1 <= mb.offset <= nbits + 1,
            rest.wf(),
            rest.same_shape(&game.black),
            start.len() == cap(v),
            rest@ == Seq::new(
                cap(v),
                |i: int| start[i] && !covered_below(v, white, dir, mb.offset as nat, i),
            ),
        decreases nbits + 1 - mb.offset,
    {
        let idx = mb.moves.set_indices();
        let ghost h = mb.offset as nat;
        let ghost before = rest@;
        let st = bit_offset_of_direction_abs(game.width, dir);
        let mut k: usize = 0;
        proof {
            assert(rest@ =~= Seq::new(
                cap(v),
                |i: int|
                    before[i] && !(exists|t: int| 0 <= t < k && on_line(v, dir, h, #[trigger] idx@[t] as int, i)),
            ));
        }
        while k < idx.len()
            invariant
                game.wf(),
                v == game@,
                mb.tracks(game, white, dir),
                h == mb.offset,
                1 <= h <= nbits,
                nbits == cap(v),
                forall|a: int| 0 <= a < idx@.len() ==> idx@[a] < mb.moves.len(),
                forall|x: int| 0 <= x < mb.moves.len() ==> (mb.moves@[x] <==> idx@.contains(x as usize)),
                k <= idx@.len(),
                st == step_len(dir, v.width),
                rest.wf(),
                rest.same_shape(&game.black),
                before.len() == cap(v),
                rest@ == Seq::new(
                    cap(v),
                    |i: int|
                        before[i] && !(exists|t: int| 0 <= t < k && on_line(v, dir, h, #[trigger] idx@[t] as int, i)),
                ),
            decreases idx@.len() - k,
        {
            let l = idx[k];
            proof {
                assert(idx@.contains(l));
            }
            let origin = mb.get_origin_of(game, white, dir, l);
            let lo = if origin <= l {
                origin
            } else {
                l
            };
            let hi = if origin <= l {
                l
            } else {
                origin
            };
            proof {
                lemma_jump_origin(v, white, dir, h, l as int);
            }
            rest.clear_range_step(lo, hi + 1, st);
            k = k + 1;
            proof {
                assert forall|i: int| 0 <= i < cap(v) implies rest@[i] == (before[i] && !(exists|t: int|
                    0 <= t < k && on_line(v, dir, h, #[trigger] idx@[t] as int, i))) by {
                    if on_line(v, dir, h, l as int, i) {
                        assert(idx@[k - 1] == l);
                    }
                    if exists|t: int| 0 <= t < k && on_line(v, dir, h, #[trigger] idx@[t] as int, i) {
                        let t = choose|t: int| 0 <= t < k && on_line(v, dir, h, #[trigger] idx@[t] as int, i);
                        if t == k - 1 {
                            assert(on_line(v, dir, h, l as int, i));
                        } else {
                            assert(exists|t: int| 0 <= t < k - 1 && on_line(v, dir, h, #[trigger] idx@[t] as int, i));
                        }
                    }
                }
                assert(rest@ =~= Seq::new(
                    cap(v),
                    |i: int|
                        before[i] && !(exists|t: int| 0 <= t < k && on_line(v, dir, h, #[trigger] idx@[t] as int, i)),
                ));
            }
        }
        proof {
            assert forall|i: int| 0 <= i < cap(v) implies rest@[i] == (start[i] && !covered_below(
                v,
                white,
                dir,
                h + 1,
                i,
            )) by {
                let lines = exists|t: int| 0 <= t < idx@.len() && on_line(v, dir, h, #[trigger] idx@[t] as int, i);
                if lines {
                    let t = choose|t: int| 0 <= t < idx@.len() && on_line(v, dir, h, #[trigger] idx@[t] as int, i);
                    assert(idx@.contains(idx@[t]));
                    assert(mb.moves@[idx@[t] as int]);
                    assert(covered_by(v, white, dir, h, i));
                }
                if covered_by(v, white, dir, h, i) {
                    let l = choose|l: int| 0 <= l < cap(v) && #[trigger] jump_mask(v, white, dir, h)[l] && on_line(v, dir, h, l, i);
                    assert(idx@.contains(l as usize));
                    let t = choose|t: int| 0 <= t < idx@.len() && idx@[t] == l as usize;
                    assert(on_line(v, dir, h, idx@[t] as int, i));
                }
                if covered_below(v, white, dir, h + 1, i) {
                    let g = choose|g: nat| 1 <= g < h + 1 && #[trigger] covered_by(v, white, dir, g, i);
                    if g < h {
                        assert(covered_below(v, white, dir, h, i));
                    }
                }
                if covered_below(v, white, dir, h, i) {
                    let g = choose|g: nat| 1 <= g < h && #[trigger] covered_by(v, white, dir, g, i);
                    assert(covered_below(v, white, dir, h + 1, i));
                }
            }
            assert(rest@ =~= Seq::new(
                cap(v),
                |i: int| start[i] && !covered_below(v, white, dir, h + 1, i),
            ));
        }
        mb.advance_against(game, white, dir);
    }
    proof {
        let n = mb.offset as nat;
        if n <= nbits {
            assert forall|g: nat, i: int| n <= g && 0 <= i < cap(v) implies !#[trigger] covered_by(v, white, dir, g, i) by {
                lemma_clear_mask_stays(v, white, dir, n, g);
            }
        }
        assert forall|i: int| 0 <= i < cap(v) implies rest@[i] == (old(rest)@[i] && !covered_dir(v, white, dir, i)) by {
            if covered_dir(v, white, dir, i) {
                let g = choose|g: nat| 1 <= g < cap(v) + 1 && #[trigger] covered_by(v, white, dir, g, i);
                if g >= n {
                    assert(n <= nbits);
                } else {
                    assert(covered_below(v, white, dir, n, i));
                }
            }
            if covered_below(v, white, dir, n, i) {
                let g = choose|g: nat| 1 <= g < n && #[trigger] covered_by(v, white, dir, g, i);
                assert(covered_dir(v, white, dir, i));
            }
        }
        assert(final(rest)@ =~= Seq::new(
            cap(v),
            |i: int| old(rest)@[i] && !covered_dir(v, white, dir, i),
        ));
    }
}

impl Konane {
    /// The number of opponent stones that disappear when every jump of the mover is
    /// applied at once to this position.
    pub fn captures(&self, white: bool) -> (r: usize)
        requires
            self.wf(),
        ensures
            r == capture_total(self@, white),
    {
        let ghost v = self@;
        let opp = if white {
            self.black.duplicate()
        } else {
            self.white.duplicate()
        };
        let mut rest = opp.duplicate();
        clear_direction_lines(self, white, Direction::Up, &mut rest);
        clear_direction_lines(self, white, Direction::Down, &mut rest);
        clear_direction_lines(self, white, Direction::Left, &mut rest);
        clear_direction_lines(self, white, Direction::Right, &mut rest);
        let before = opp.count_set();
        let after = rest.count_set();
        proof {
            let c = Seq::new(
                cap(v),
                |i: int|
                    covered_dir(v, white, Direction::Up, i) || covered_dir(v, white, Direction::Down, i)
                        || covered_dir(v, white, Direction::Left, i) || covered_dir(
                        v,
                        white,
                        Direction::Right,
                        i,
                    ),
            );
            lemma_count_split(opp@, c);
            assert(rest@ =~= Seq::new(opp@.len(), |i: int| opp@[i] && !c[i]));
            assert(Seq::new(cap(v), |i: int| captured(v, white, i)) =~= Seq::new(
                opp@.len(),
                |i: int| opp@[i] && c[i],
            ));
        }
        before - after
    }
}

/// The `k`-th direction of the enumeration order.
pub open spec fn dir_at(k: nat) -> Direction {
    if k == 0 {
        Direction::Up
    } else if k == 1 {
        Direction::Down
    } else if k == 2 {
        Direction::Left
    } else {
        Direction::Right
    }
}

fn dir_at_exec(k: usize) -> (r: Direction)
    ensures
        r == dir_at(k as nat),
{
    if k == 0 {
        Direction::Up
    } else if k == 1 {
        Direction::Down
    } else if k == 2 {
        Direction::Left
    } else {
        Direction::Right
    }
}

/// The successors reached along the directions from the `k`-th on.
pub open spec fn dirs_from(v: BoardView, white: bool, k: nat) -> Seq<BoardView>
    decreases 4 - k,
{
    if k >= 4 {
        Seq::empty()
    } else {
        dir_successors(v, white, dir_at(k), 1) + dirs_from(v, white, k + 1)
    }
}

proof fn lemma_dirs_from_all(v: BoardView, white: bool)
    ensures
        dirs_from(v, white, 0) == successors(v, white),
{
    let up = dir_successors(v, white, Direction::Up, 1);
    let down = dir_successors(v, white, Direction::Down, 1);
    let left = dir_successors(v, white, Direction::Left, 1);
    let right = dir_successors(v, white, Direction::Right, 1);
    assert(dirs_from(v, white, 4) == Seq::<BoardView>::empty());
    assert(dirs_from(v, white, 3) =~= right);
    assert(dirs_from(v, white, 2) == left + dirs_from(v, white, 3));
    assert(dirs_from(v, white, 1) == down + dirs_from(v, white, 2));
    assert(dirs_from(v, white, 0) == up + dirs_from(v, white, 1));
    assert(dirs_from(v, white, 0) =~= successors(v, white));
}

/// The successors of the landing cells `landings[from..]`.
pub open spec fn pending(
    v: BoardView,
    white: bool,
    d: Direction,
    h: nat,
    landings: Seq<usize>,
    from: int,
) -> Seq<BoardView> {
    Seq::new(
        (landings.len() - from) as nat,
        |t: int| apply_view(v, white, d, h, landings[from + t] as int),
    )
}

proof fn lemma_pending_step(
    v: BoardView,
    white: bool,
    d: Direction,
    h: nat,
    landings: Seq<usize>,
    from: int,
    tail: Seq<BoardView>,
)
    requires
        0 <= from < landings.len(),
    ensures
        (pending(v, white, d, h, landings, from) + tail).len() > 0,
        (pending(v, white, d, h, landings, from) + tail)[0] == apply_view(
            v,
            white,
            d,
            h,
            landings[from] as int,
        ),
        (pending(v, white, d, h, landings, from) + tail).drop_first() == pending(
            v,
            white,
            d,
            h,
            landings,
            from + 1,
        ) + tail,
{
    assert((pending(v, white, d, h, landings, from) + tail).drop_first() =~= pending(
        v,
        white,
        d,
        h,
        landings,
        from + 1,
    ) + tail);
}

proof fn lemma_pending_done(
    v: BoardView,
    white: bool,
    d: Direction,
    h: nat,
    landings: Seq<usize>,
    tail: Seq<BoardView>,
)
    ensures
        pending(v, white, d, h, landings, landings.len() as int) + tail == tail,
{
    assert(pending(v, white, d, h, landings, landings.len() as int) + tail =~= tail);
}

proof fn lemma_pending_start(
    v: BoardView,
    white: bool,
    d: Direction,
    h: nat,
    landings: Seq<usize>,
)
    requires
        landings.map_values(|x: usize| x as int) == set_index_seq(jump_mask(v, white, d, h)),
    ensures
        pending(v, white, d, h, landings, 0) == hop_successors(v, white, d, h),
{
    assert forall|t: int| 0 <= t < landings.len() implies set_index_seq(jump_mask(v, white, d, h))[t]
        == landings[t] as int by {
        assert(landings.map_values(|x: usize| x as int)[t] == landings[t] as int);
    }
    assert(pending(v, white, d, h, landings, 0) =~= hop_successors(v, white, d, h));
}

/// The move generator as a state machine: a direction, a hop count, the landing cells of
/// the current mask and the next of them to hand out.
pub struct MoveIter {
    game: Konane,
    white: bool,
    dir_index: usize,
    gen: MoveBitmap,
    landings: Vec<usize>,
    next_landing: usize,
}

impl MoveIter {
    pub closed spec fn source(&self) -> BoardView {
        self.game@
    }

    /// The successors still to be handed out, in order.
    pub closed spec fn remaining(&self) -> Seq<BoardView> {
        let v = self.game@;
        let d = dir_at(self.dir_index as nat);
        let h = self.gen.offset as nat;
        pending(v, self.white, d, h, self.landings@, self.next_landing as int) + (dir_successors(
            v,
            self.white,
            d,
            h + 1,
        ) + dirs_from(v, self.white, self.dir_index as nat + 1))
    }

    pub closed spec fn wf(&self) -> bool {
        let v = self.game@;
        let d = dir_at(self.dir_index as nat);
        &&& self.game.wf()
        &&& self.dir_index < 4
        &&& self.gen.tracks(&self.game, self.white, d)
        &&& 1 <= self.gen.offset <= cap(v)
        &&& self.landings@.map_values(|x: usize| x as int) == set_index_seq(self.gen.moves@)
        &&& forall|a: int| 0 <= a < self.landings@.len() ==> self.landings@[a] < self.gen.moves.len()
        &&& forall|x: int|
            0 <= x < self.gen.moves.len() ==> (self.gen.moves@[x] <==> self.landings@.contains(
                x as usize,
            ))
        &&& self.next_landing <= self.landings@.len()
    }

    /// The mask of the `k`-th direction after one hop.
    fn start_direction(game: &Konane, white: bool, k: usize) -> (r: (MoveBitmap, Vec<usize>))
        requires
            game.wf(),
            k < 4,
        ensures
            r.0.tracks(game, white, dir_at(k as nat)),
            r.0.offset == 1,
            r.1@.map_values(|x: usize| x as int) == set_index_seq(r.0.moves@),
            forall|a: int| 0 <= a < r.1@.len() ==> r.1@[a] < r.0.moves.len(),
            forall|x: int| 0 <= x < r.0.moves.len() ==> (r.0.moves@[x] <==> r.1@.contains(x as usize)),
    {
        let d = dir_at_exec(k);
        let mut gen = MoveBitmap::new_from_game_in_dir(game, white, d);
        gen.advance_against(game, white, d);
        let landings = gen.moves.set_indices();
        (gen, landings)
    }

    /// The next successor, or `None` once every move has been handed out.
    #[verifier::rlimit(100)]
    #[verifier::spinoff_prover]
    pub fn next(&mut self) -> (r: Option<Konane>)
        requires
            old(self).wf(),
        ensures
            final(self).wf(),
            final(self).source() == old(self).source(),
            match r {
                Some(q) => old(self).remaining().len() > 0 && q@ == old(self).remaining()[0] && q.wf()
                    && final(self).remaining() == old(self).remaining().drop_first(),
                None => old(self).remaining().len() == 0 && final(self).remaining().len() == 0,
            },
    {
        let ghost start = self.remaining();
        let nbits = self.game.black.bits();
        loop
            invariant
                self.wf(),
                self.source() == old(self).source(),
                self.remaining() == start,
                start == old(self).remaining(),
                nbits == cap(self.game@),
            decreases 4 - self.dir_index, nbits + 1 - self.gen.offset, self.landings@.len() - self.next_landing,
        {
            let ghost v = self.game@;
            let ghost d = dir_at(self.dir_index as nat);
            let ghost h = self.gen.offset as nat;
            let ghost tail = dir_successors(v, self.white, d, h + 1) + dirs_from(
                v,
                self.white,
                self.dir_index as nat + 1,
            );
            if self.next_landing < self.landings.len() {
                let l = self.landings[self.next_landing];
                proof {
                    assert(self.landings@.contains(l));
                    lemma_pending_step(v, self.white, d, h, self.landings@, self.next_landing as int, tail);
                }
                let q = self.gen.apply_move_to(&self.game, self.white, dir_at_exec(self.dir_index), l);
                self.next_landing = self.next_landing + 1;
                return Some(q);
            }
            proof {
                lemma_pending_done(v, self.white, d, h, self.landings@, tail);
            }
            if self.gen.offset < nbits && !self.gen.is_complete() {
                let d_exec = dir_at_exec(self.dir_index);
                self.gen.advance_against(&self.game, self.white, d_exec);
                self.landings = self.gen.moves.set_indices();
                self.next_landing = 0;
                proof {
                    lemma_pending_start(v, self.white, d, h + 1, self.landings@);
                    assert(dir_successors(v, self.white, d, h + 1) == hop_successors(v, self.white, d, h + 1)
                        + dir_successors(v, self.white, d, h + 2));
                    assert(self.remaining() =~= start);
                }
            } else {
                proof {
                    if h < cap(v) {
                        lemma_clear_mask_stays(v, self.white, d, h, h + 1);
                        lemma_clear_mask_ends(v, self.white, d, h + 1);
                    }
                    assert(dir_successors(v, self.white, d, h + 1) == Seq::<BoardView>::empty());
                }
                if self.dir_index >= 3 {
                    proof {
                        assert(dirs_from(v, self.white, self.dir_index as nat + 1) == Seq::<BoardView>::empty());
                        assert(start =~= Seq::<BoardView>::empty());
                    }
                    return None;
                }
                let k = self.dir_index + 1;
                let (gen, landings) = MoveIter::start_direction(&self.game, self.white, k);
                self.dir_index = k;
                self.gen = gen;
                self.landings = landings;
                self.next_landing = 0;
                proof {
                    let nd = dir_at(k as nat);
                    lemma_cap_positive(v);
                    lemma_pending_start(v, self.white, nd, 1, self.landings@);
                    assert(dir_successors(v, self.white, nd, 1) == hop_successors(v, self.white, nd, 1)
                        + dir_successors(v, self.white, nd, 2));
                    assert(dirs_from(v, self.white, k as nat) == dir_successors(v, self.white, nd, 1)
                        + dirs_from(v, self.white, k as nat + 1));
                    assert(self.remaining() =~= start);
                }
            }
        }
    }
}

proof fn lemma_cap_positive(v: BoardView)
    requires
        view_wf(v),
    ensures
        cap(v) >= 1,
{
    assert(cells(v) >= 1) by (nonlinear_arith)
        requires
            v.width >= 1,
            v.height >= 1,
    ;
}

impl Konane {
    /// The moves of the mover, handed out one at a time in the order of enumeration.
    pub fn move_iter(&self, white: bool) -> (r: MoveIter)
        requires
            self.wf(),
        ensures
            r.wf(),
            r.source() == self@,
            r.remaining() == successors(self@, white),
    {
        let game = self.clone();
        let (gen, landings) = MoveIter::start_direction(&game, white, 0);
        let r = MoveIter { game, white, dir_index: 0, gen, landings, next_landing: 0 };
        proof {
            let v = self@;
            lemma_dirs_from_all(v, white);
            lemma_cap_positive(v);
            lemma_pending_start(v, white, Direction::Up, 1, r.landings@);
            assert(dir_successors(v, white, Direction::Up, 1) == hop_successors(v, white, Direction::Up, 1)
                + dir_successors(v, white, Direction::Up, 2));
            assert(dirs_from(v, white, 0) == dir_successors(v, white, Direction::Up, 1) + dirs_from(v, white, 1));
            assert(r.remaining() =~= successors(v, white));
        }
        r
    }
}

impl Konane {
    /// The candidate mask of the mover for `dir`, before any hop.
    pub fn move_bitmap(&self, white: bool, dir: Direction) -> (r: MoveBitmap)
        requires
            self.wf(),
        ensures
            r.tracks(self, white, dir),
            r.offset == 0,
    {
        MoveBitmap::new_from_game_in_dir(self, white, dir)
    }

    /// Every position reachable by one move of the mover (`white` or black), in the
    /// order of enumeration.
    pub fn all_moves(&self, white: bool) -> (r: Vec<Konane>)
        requires
            self.wf(),
        ensures
            r@.map_values(|q: Konane| q@) == successors(self@, white),
            forall|k: int| 0 <= k < r@.len() ==> (#[trigger] r@[k]).wf(),
            forall|k: int| 0 <= k < r@.len() ==> (#[trigger] r@[k]).black.same_shape(&self.black),
    {
        let mut out: Vec<Konane> = Vec::new();
        push_direction_moves(self, white, Direction::Up, &mut out);
        let ghost s1 = out@;
        push_direction_moves(self, white, Direction::Down, &mut out);
        let ghost s2 = out@;
        push_direction_moves(self, white, Direction::Left, &mut out);
        let ghost s3 = out@;
        push_direction_moves(self, white, Direction::Right, &mut out);
        proof {
            assert forall|k: int| 0 <= k < out@.len() implies (#[trigger] out@[k]).wf() && out@[k].black.same_shape(&self.black) by {
                if k < s3.len() {
                    assert(out@[k] == s3[k]);
                    if k < s2.len() {
                        assert(s3[k] == s2[k]);
                        if k < s1.len() {
                            assert(s2[k] == s1[k]);
                        }
                    }
                }
            }
            assert(Seq::<Konane>::empty().map_values(|q: Konane| q@) =~= Seq::<BoardView>::empty());
            assert(out@.map_values(|q: Konane| q@) =~= successors(self@, white));
        }
        out
    }

    pub fn all_moves_black(&self) -> (r: Vec<Konane>)
        requires
            self.wf(),
        ensures
            r@.map_values(|q: Konane| q@) == successors(self@, false),
            forall|k: int| 0 <= k < r@.len() ==> (#[trigger] r@[k]).wf(),
    {
        self.all_moves(false)
    }

    pub fn all_moves_white(&self) -> (r: Vec<Konane>)
        requires
            self.wf(),
        ensures
            r@.map_values(|q: Konane| q@) == successors(self@, true),
            forall|k: int| 0 <= k < r@.len() ==> (#[trigger] r@[k]).wf(),
    {
        self.all_moves(true)
    }
}

} // verus!
