use konane::bitarray::{BitArray, BitIter};
use konane::konane::{BoardGeometry, Direction, GetMoveMaskSql, Konane, StaticBoard, TileState};
use konane::measures::{
    CaptureCount, MoveCount, NearestBorder, PieceCount, PieceHeight, PieceWidth, TwoPlayerGame,
};
use konane::moves::{border_mask, bit_offset_of_direction_abs, shift_in_direction, MoveBitmap};

fn board(text: &str) -> Konane {
    Konane::parse_sized(text, 16, 16).unwrap()
}

fn union(game: &Konane) -> BitArray {
    game.left().or(game.right())
}

#[test]
fn mod_partizan_size() {
    let game = board(
        r#"
            __x_o__
            ____xo_
        "#,
    );
    let both = union(&game);
    let h = PieceHeight.compute(game.width(), &both);
    let w = PieceWidth.compute(game.width(), game.height(), &both);
    assert_eq!(h as f64, 2f64);
    assert_eq!(w as f64, 4f64);
}

#[test]
fn capture_count() {
    let game = board(
        r#"
            __x_o__
            ____xo_
        "#,
    );
    let l = CaptureCount::left().compute(&game);
    let r = CaptureCount::right().compute(&game);
    assert_eq!(r as f64, 1f64);
    assert_eq!(l as f64, 1f64);

    let game = board(
        r#"
            __xo__
            ___xo_
        "#,
    );
    let l = CaptureCount::left().compute(&game);
    let r = CaptureCount::right().compute(&game);
    assert_eq!(r as f64, 2f64);
    assert_eq!(l as f64, 2f64);
}

fn average_distance(game: &Konane) -> f64 {
    let (sum, count) = NearestBorder.compute(game.width(), game.height(), &union(game));
    if count == 0 {
        0.0
    } else {
        sum as f64 / count as f64
    }
}

#[test]
fn nearest_border_partizan_size() {
    let game = board(
        r#"
            _______
            __x___
            ______
        "#,
    );
    assert_eq!(average_distance(&game), 1.0f64);

    let game = board(
        r#"
            _____
            _______
            _x______o
            ______
        "#,
    );
    assert_eq!(average_distance(&game), 1.5f64);
}

#[test]
fn move_count_matches_enumeration() {
    let boards = [
        board("xo"),
        board("_oxo_\n_x___"),
        board("xo_o_o_\no_x_x_\n_xox__"),
        Konane::checkerboard(6, 6),
        Konane::parse("_oxoxoxox_").unwrap(),
    ];
    for b in boards.iter() {
        for white in [false, true] {
            assert_eq!(b.move_count(white) as usize, b.all_moves(white).len());
            assert_eq!(MoveCount { white }.compute(b), b.move_count(white));
        }
    }
    assert_eq!(MoveCount::left().compute(&board("ox")), 1);
    assert_eq!(MoveCount::right().compute(&board("ox")), 0);
}

#[test]
fn piece_count_and_empty_measures() {
    let game = board("xo_\n_ox");
    assert_eq!(PieceCount.compute(game.left()), 2);
    assert_eq!(PieceCount.compute(game.right()), 2);
    let empty = Konane::empty(5, 5);
    assert_eq!(PieceHeight.compute(5, &union(&empty)), 0);
    assert_eq!(PieceWidth.compute(5, 5, &union(&empty)), 0);
    assert_eq!(NearestBorder.compute(5, 5, &union(&empty)), (0, 0));
}

#[test]
fn move_iterator_yields_all_moves_in_order() {
    let game = board("xo_o_\n_o___\n_x___\n_____");
    for white in [false, true] {
        let mut it = game.move_iter(white);
        let mut seen = Vec::new();
        while let Some(q) = it.next() {
            seen.push(q);
        }
        assert_eq!(seen, game.all_moves(white));
        assert_eq!(it.next(), None);
    }
}

#[test]
fn flipping_colours_swaps_the_players() {
    let game = board("xo_o_\n_o___\n_xx__\n_o___");
    let mut flipped = Konane::empty(16, 16);
    for y in 0..16 {
        for x in 0..16 {
            let t = match game.get_tile(x, y) {
                TileState::White => TileState::Black,
                TileState::Black => TileState::White,
                TileState::Empty => TileState::Empty,
            };
            flipped.set_tile(x, y, t);
        }
    }
    let a = flipped.all_moves(true);
    let b = game.all_moves(false);
    assert_eq!(a.len(), b.len());
    for (p, q) in a.iter().zip(b.iter()) {
        assert_eq!(p.white, q.black);
        assert_eq!(p.black, q.white);
    }
}

#[test]
fn successors_move_one_stone_and_capture_the_line() {
    let game = board("xo_o_");
    let moves = game.all_moves(true);
    assert_eq!(moves.len(), 2);
    assert_eq!(moves[1].get_tile(0, 0), TileState::Empty);
    assert_eq!(moves[1].get_tile(4, 0), TileState::White);
    assert_eq!(PieceCount.compute(moves[1].left()), 0);
}

#[test]
fn border_masks_cover_one_edge() {
    let game = Konane::empty(5, 3);
    let up = border_mask(&game, Direction::Up);
    assert_eq!(up.set_indices(), vec![0, 1, 2, 3, 4]);
    let down = border_mask(&game, Direction::Down);
    assert_eq!(down.set_indices(), vec![10, 11, 12, 13, 14]);
    let left = border_mask(&game, Direction::Left);
    assert_eq!(left.set_indices(), vec![0, 5, 10]);
    let right = border_mask(&game, Direction::Right);
    assert_eq!(right.set_indices(), vec![4, 9, 14]);
    assert_eq!(bit_offset_of_direction_abs(5, Direction::Up), 5);
    assert_eq!(bit_offset_of_direction_abs(5, Direction::Left), 1);
}

#[test]
fn shifting_moves_cells_one_step() {
    let mut b = BitArray::new(1, 64);
    b.set(7);
    assert_eq!(shift_in_direction(5, &b, Direction::Right).set_indices(), vec![8]);
    assert_eq!(shift_in_direction(5, &b, Direction::Left).set_indices(), vec![6]);
    assert_eq!(shift_in_direction(5, &b, Direction::Up).set_indices(), vec![2]);
    assert_eq!(shift_in_direction(5, &b, Direction::Down).set_indices(), vec![12]);
}

#[test]
fn move_bitmap_steps() {
    let game = board("xo_o_");
    let mut m = MoveBitmap::new_from_game_in_dir(&game, true, Direction::Right);
    assert_eq!(m.moves.set_indices(), vec![0]);
    assert_eq!(game.move_bitmap(true, Direction::Right).moves, m.moves);
    m.advance_against(&game, true, Direction::Right);
    assert_eq!(m.moves.set_indices(), vec![2]);
    assert_eq!(m.get_origin_of(&game, true, Direction::Right, 2), 0);
    let after = m.apply_move_to(&game, true, Direction::Right, 2);
    assert_eq!(after, board("__xo_"));
    m.advance_against(&game, true, Direction::Right);
    assert_eq!(m.moves.set_indices(), vec![4]);
    m.advance_against(&game, true, Direction::Right);
    assert!(m.is_complete());
}

#[test]
fn bit_iter_clears_as_it_goes() {
    let v = BitArray::from_blocks(vec![0b1001_0010], 8);
    let mut it = BitIter::new(v);
    assert_eq!(it.next(), Some(1));
    assert_eq!(it.next(), Some(4));
    assert_eq!(it.next(), Some(7));
    assert_eq!(it.next(), None);
}

#[test]
fn geometry_and_query_letters() {
    let g = StaticBoard::<11, 7>;
    assert_eq!(g.width(), 11);
    assert_eq!(g.height(), 7);
    assert_eq!(Direction::all(), [Direction::Up, Direction::Down, Direction::Left, Direction::Right]);
    assert_eq!(Direction::Left.x(), -1);
    assert_eq!(Direction::Up.y(), -1);
    let q = GetMoveMaskSql { dir: Direction::Left, is_black: true, width: 11, hops: 2 };
    assert_eq!(q.dir_char(), 'l');
    assert_eq!(q.next_player_char(), 'b');
    assert_eq!(q.prev_player_char(), 'w');
}
