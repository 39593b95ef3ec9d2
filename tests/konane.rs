use std::collections::HashSet;

use konane::konane::{Konane, TileState};

fn board(text: &str) -> Konane {
    Konane::parse_sized(text, 16, 16).unwrap()
}

#[test]
fn konane_dyn_dim_move_over_block_boundary() {
    let board = Konane::parse(
        r#"_oxoxoxoxoxoxoxoxoxoxoxoxoxoxoxoxoxoxoxoxoxoxoxoxoxoxoxoxoxoxoxox_"#,
    )
    .unwrap();

    let w = Konane::parse(
        r#"x__oxoxoxoxoxoxoxoxoxoxoxoxoxoxoxoxoxoxoxoxoxoxoxoxoxoxoxoxoxoxox_"#,
    )
    .unwrap();
    let b = Konane::parse(
        r#"_oxoxoxoxoxoxoxoxoxoxoxoxoxoxoxoxoxoxoxoxoxoxoxoxoxoxoxoxoxoxox__o"#,
    )
    .unwrap();
    let w_moves = board.all_moves(true);
    let b_moves = board.all_moves(false);
    assert_eq!(w_moves, vec![w]);
    assert_eq!(b_moves, vec![b]);
}

#[test]
fn konane_dyn_dim_moveset_on_full_board_is_empty_16x16() {
    let board = Konane::empty(16, 16);
    assert_eq!(board.all_moves(false), vec![]);
    assert_eq!(board.all_moves(true), vec![]);
}

#[test]
fn moveset_one_piece() {
    let mut board = Konane::empty(16, 16);
    board.set_tile(3, 3, TileState::Black);
    assert_eq!(board.all_moves(false), vec![]);
    assert_eq!(board.all_moves(true), vec![]);
}

fn assert_checkered(board: &Konane, w: usize, h: usize) {
    for x in 0..w {
        for y in 0..h {
            assert_ne!(board.get_tile(x, y), TileState::Empty);
            if x > 0 {
                assert_ne!(board.get_tile(x, y), board.get_tile(x - 1, y));
            }
            if y > 1 {
                assert_ne!(board.get_tile(x, y), board.get_tile(x, y - 1));
            }
        }
    }
}

#[test]
fn checkerboard_16x16() {
    let board = Konane::checkerboard(16, 16);
    assert_checkered(&board, 16, 16);
}

#[test]
fn checkerboard_11x11() {
    let board = Konane::checkerboard(11, 11);
    assert_checkered(&board, 11, 11);
}

#[test]
fn move_near_block_boundary() {
    let board = Konane::parse_sized(
        r#"_oxoxoxoxoxoxoxoxoxoxoxoxoxoxoxoxoxoxoxoxoxoxoxoxoxoxoxoxoxox"#,
        256,
        1,
    )
    .unwrap();

    let w = Konane::parse_sized(
        r#"x__oxoxoxoxoxoxoxoxoxoxoxoxoxoxoxoxoxoxoxoxoxoxoxoxoxoxoxoxox"#,
        256,
        1,
    )
    .unwrap();
    let b = Konane::parse_sized(
        r#"_oxoxoxoxoxoxoxoxoxoxoxoxoxoxoxoxoxoxoxoxoxoxoxoxoxoxoxoxox__o"#,
        256,
        1,
    )
    .unwrap();

    assert_eq!(board.all_moves_white(), vec![w]);
    assert_eq!(board.all_moves_black(), vec![b]);
}

#[test]
fn lib_move_over_block_boundary() {
    let board = Konane::parse_sized(
        r#"_oxoxoxoxoxoxoxoxoxoxoxoxoxoxoxoxoxoxoxoxoxoxoxoxoxoxoxoxoxoxoxox"#,
        256,
        1,
    )
    .unwrap();

    let w = Konane::parse_sized(
        r#"x__oxoxoxoxoxoxoxoxoxoxoxoxoxoxoxoxoxoxoxoxoxoxoxoxoxoxoxoxoxoxox"#,
        256,
        1,
    )
    .unwrap();
    let b = Konane::parse_sized(
        r#"_oxoxoxoxoxoxoxoxoxoxoxoxoxoxoxoxoxoxoxoxoxoxoxoxoxoxoxoxoxoxox__o"#,
        256,
        1,
    )
    .unwrap();

    assert_eq!(board.all_moves_white(), vec![w]);
    assert_eq!(board.all_moves_black(), vec![b]);
}

#[test]
fn lib_moveset_on_full_board_is_empty_16x16() {
    let board = Konane::checkerboard(16, 16);
    assert_eq!(board.all_moves_black(), vec![]);
    assert_eq!(board.all_moves_white(), vec![]);
}

#[test]
fn moveset_on_full_board_is_empty_11x11() {
    let board = Konane::checkerboard(11, 11);
    assert_eq!(board.all_moves_black(), vec![]);
    assert_eq!(board.all_moves_white(), vec![]);
}

#[test]
fn moveset_white_right_jump() {
    let board = board("xo");
    assert_eq!(board.all_moves_white(), vec![self::board("__x")]);
    assert_eq!(board.all_moves_black(), vec![]);

    let small = Konane::parse_sized("xo", 4, 4).unwrap();
    assert_eq!(small.all_moves_white(), vec![Konane::parse_sized("__x", 4, 4).unwrap()]);
    assert_eq!(small.all_moves_black(), vec![]);
}

#[test]
fn moveset_black_right_jump() {
    let board = board("ox");
    assert_eq!(board.all_moves_black(), vec![self::board("__o")]);
    assert_eq!(board.all_moves_white(), vec![]);
}

#[test]
fn moveset_white_left_jump() {
    let board = board("_oxx");
    assert_eq!(board.all_moves_white(), vec![self::board("x__x")]);
    assert_eq!(board.all_moves_black(), vec![]);
}

#[test]
fn moveset_black_left_jump() {
    let board = board("_xoo");
    assert_eq!(board.all_moves_black(), vec![self::board("o__o")]);
    assert_eq!(board.all_moves_white(), vec![]);
}

#[test]
fn moveset_white_up_jump() {
    let board = board("_\no\nx\nx");
    assert_eq!(board.all_moves_white(), vec![self::board("x\n\n\nx")]);
    assert_eq!(board.all_moves_black(), vec![]);
}

#[test]
fn moveset_black_up_jump() {
    let board = board("_\nx\no\no");
    assert_eq!(board.all_moves_black(), vec![self::board("o\n\n\no")]);
    assert_eq!(board.all_moves_white(), vec![]);
}

#[test]
fn moveset_white_down_jump() {
    let board = board("x\no");
    assert_eq!(board.all_moves_white(), vec![self::board("_\n\nx")]);
    assert_eq!(board.all_moves_black(), vec![]);
}

#[test]
fn moveset_black_down_jump() {
    let board = board("o\nx");
    assert_eq!(board.all_moves_black(), vec![self::board("_\n\no")]);
    assert_eq!(board.all_moves_white(), vec![]);
}

#[test]
fn linear_tail_1_with_4_stones() {
    let board = board(
        r#"_____
           _oxo_
           _x___
           _____"#,
    );
    assert_eq!(
        board.all_moves_black(),
        vec![self::board(
            r#"_____
               __xo_
               _____
               _o___"#
        )]
    );
    let expected: HashSet<Konane> = HashSet::from([
        self::board(
            r#"_____
               _o__x
               _x___
               _____"#,
        ),
        self::board(
            r#"_____
               x__o_
               _x___
               _____"#,
        ),
        self::board(
            r#"_x___
               __xo_
               _____
               _____"#,
        ),
    ]);
    assert_eq!(HashSet::from_iter(board.all_moves_white().into_iter()), expected);
}

#[test]
fn solid_alternating_line_has_one_move_each() {
    for n in (2..40usize).step_by(2) {
        let mut line = Konane::empty(n + 2, 1);
        for x in 1..=n {
            let t = if x % 2 == 1 { TileState::Black } else { TileState::White };
            line.set_tile(x, 0, t);
        }
        let white = line.all_moves_white();
        let mut leading = line.clone();
        leading.set_tile(0, 0, TileState::White);
        leading.set_tile(1, 0, TileState::Empty);
        leading.set_tile(2, 0, TileState::Empty);
        assert_eq!(white, vec![leading], "n={n}");
        let black = line.all_moves_black();
        let mut trailing = line.clone();
        trailing.set_tile(n + 1, 0, TileState::Black);
        trailing.set_tile(n, 0, TileState::Empty);
        trailing.set_tile(n - 1, 0, TileState::Empty);
        assert_eq!(black, vec![trailing], "n={n}");
    }
}

#[test]
fn no_jump_wraps_to_the_next_row() {
    let board = Konane::parse_sized("_xo\n___", 3, 2).unwrap();
    assert_eq!(board.all_moves_white(), vec![]);
    let board = Konane::parse_sized("___\nox_", 3, 2).unwrap();
    assert_eq!(board.all_moves_black(), vec![Konane::parse_sized("___\n__o", 3, 2).unwrap()]);
    let board = Konane::parse_sized("__o\nx__", 3, 2).unwrap();
    assert_eq!(board.all_moves_white(), vec![]);
    assert_eq!(board.all_moves_black(), vec![]);
}

#[test]
fn multi_hop_jumps_are_enumerated() {
    let board = board("xo_o_");
    let moves = board.all_moves_white();
    assert_eq!(moves, vec![self::board("__xo_"), self::board("____x")]);
}

#[test]
fn parse_errors() {
    assert!(matches!(
        Konane::parse_sized("x?o", 4, 4),
        Err(konane::parse::KonaneParseError::UnexpectedCharacter { c: b'?' })
    ));
    assert!(matches!(
        Konane::parse_sized("xoxox", 4, 4),
        Err(konane::parse::KonaneParseError::OutOfBounds { c: b'x', x: 4, y: 0, w: 4, h: 4 })
    ));
    assert!(matches!(
        Konane::parse("ab"),
        Err(konane::parse::KonaneParseError::UnexpectedCharacter { c: b'a' })
    ));
    let p = Konane::parse("  x_\n o  \n").unwrap();
    assert_eq!(p.width(), 2);
    assert_eq!(p.height(), 2);
    assert_eq!(p.get_tile(0, 1), TileState::Black);
}

#[test]
fn set_tile_keeps_colours_exclusive() {
    let mut b = Konane::empty(4, 4);
    b.set_tile(1, 2, TileState::White);
    assert_eq!(b.get_tile(1, 2), TileState::White);
    b.set_tile(1, 2, TileState::Black);
    assert_eq!(b.get_tile(1, 2), TileState::Black);
    b.set_tile(1, 2, TileState::Empty);
    assert_eq!(b.get_tile(1, 2), TileState::Empty);
    assert_eq!(b.xy_to_idx(1, 2), 9);
}

#[test]
fn empty_spaces_clears_padding() {
    let b = Konane::parse_sized("xo\n_x", 3, 3).unwrap();
    let e = b.empty_spaces();
    assert_eq!(e.count_set(), 6);
    assert!(!e.get(9));
    assert!(!e.get(63));
    let full = Konane::checkerboard(8, 8);
    assert_eq!(full.empty_spaces().count_set(), 0);
}
