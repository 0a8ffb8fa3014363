use engine::board::{column_mask, compute_winning_position, Board, BOARD_MASK, WIDTH};

fn replay(history: &str) -> Board {
    let mut board = Board::new();
    for ch in history.bytes() {
        board.play((ch - b'1') as usize);
    }
    board
}

#[test]
fn new_board_is_empty() {
    let board = Board::new();
    assert_eq!(board.played_moves(), 0);
    assert_eq!(board.key(), 0);
    for col in 0..WIDTH {
        assert!(board.can_play(col));
        assert!(!board.is_winning(col));
    }
    assert!(!board.can_win_next());
}

#[test]
fn play_swaps_sides_and_stacks() {
    let mut board = Board::new();
    board.play(3);
    // the stone belongs to the side that just moved: current is empty
    assert_eq!(board.key(), 1u64 << 21);
    assert_eq!(board.played_moves(), 1);
    board.play(3);
    // current holds the bottom stone, mask the two stones
    assert_eq!(board.key(), (1u64 << 21) + ((1u64 << 21) | (1u64 << 22)));
}

#[test]
fn column_fills_after_six_moves() {
    let mut board = Board::new();
    for _ in 0..6 {
        assert!(board.can_play(3));
        board.play(3);
    }
    assert!(!board.can_play(3));
}

#[test]
fn column_masks() {
    assert_eq!(column_mask(0), 63);
    assert_eq!(column_mask(6), 63u64 << 42);
}

#[test]
fn parse_empty_history() {
    let board = Board::parse("").ok().unwrap();
    assert_eq!(board.played_moves(), 0);
    assert_eq!(board.key(), 0);
}

#[test]
fn parse_rejects_out_of_range_digits() {
    for text in ["0", "8", "9", "a", "12x"] {
        let err = Board::parse(text).err().unwrap();
        assert_eq!(err.message(), text);
    }
}

#[test]
fn parse_rejects_full_column() {
    assert!(Board::parse("444444").is_ok());
    assert!(Board::parse("4444444").is_err());
}

#[test]
fn parse_accepts_alternating_column() {
    // the stones in column 4 alternate between the players: no line of four
    let board = Board::parse("44444").ok().unwrap();
    assert_eq!(board.played_moves(), 5);
}

#[test]
fn parse_rejects_winning_move() {
    assert!(Board::parse("121212").is_ok());
    let err = Board::parse("1212121").err().unwrap();
    assert_eq!(err.message(), "1212121");
}

#[test]
fn from_str_matches_parse() {
    let board: Board = "4453".parse().ok().unwrap();
    assert_eq!(board.key(), Board::parse("4453").ok().unwrap().key());
    assert!("48".parse::<Board>().is_err());
}

#[test]
fn parse_equals_replay() {
    for history in ["4453", "57234251536772155623166151", "246117513515211552327527243744"] {
        let parsed = Board::parse(history).ok().unwrap();
        let replayed = replay(history);
        assert_eq!(parsed.key(), replayed.key());
        assert_eq!(parsed.played_moves(), replayed.played_moves());
        assert_eq!(parsed.played_moves(), history.len());
    }
}

#[test]
fn keys_of_known_positions() {
    assert_eq!(Board::parse("246117513515211552327527243744").ok().unwrap().key(), 74857025091945);
    assert_eq!(Board::parse("57234251536772155623166151").ok().unwrap().key(), 49234825038885);
    assert_eq!(Board::parse("22122262156344136756744736677733").ok().unwrap().key(), 359747853935630);
}

#[test]
fn keys_differ_for_different_positions() {
    // same stones, different owners
    let a = Board::parse("12").ok().unwrap();
    let b = Board::parse("21").ok().unwrap();
    assert_ne!(a.key(), b.key());
    let c = Board::parse("1").ok().unwrap();
    let d = Board::parse("2").ok().unwrap();
    assert_ne!(c.key(), d.key());
}

#[test]
fn vertical_threat_is_winning() {
    let board = Board::parse("121212").ok().unwrap();
    assert!(board.is_winning(0));
    assert!(!board.is_winning(1));
    assert!(!board.is_winning(2));
    assert!(board.can_win_next());
}

#[test]
fn horizontal_threat_is_winning_on_both_sides() {
    // first player holds columns 2, 3, 4 on the bottom row
    let board = Board::parse("223344").ok().unwrap();
    assert!(board.is_winning(0));
    assert!(board.is_winning(4));
    assert!(!board.is_winning(5));
}

#[test]
fn non_losing_moves_with_two_threats_is_empty() {
    // second player to move; the first player threatens the bottom cells of
    // columns 1 and 5
    let board = Board::parse("22334").ok().unwrap();
    assert_eq!(board.possible_non_losing_moves(), 0);
}

#[test]
fn non_losing_moves_block_single_threat() {
    // the first player has three stones in column 1: the only move blocks
    let board = Board::parse("12121").ok().unwrap();
    assert_eq!(board.possible_non_losing_moves(), 1u64 << 3);
    // the first player has the bottom of columns 1, 2, 3: block column 4
    let board = Board::parse("1122337").ok().unwrap();
    assert_eq!(board.possible_non_losing_moves(), 1u64 << 21);
}

#[test]
fn non_losing_moves_avoid_cell_under_threat() {
    // the first player holds the second row of columns 2, 3, 4, so columns
    // 1 and 5 are threats one row up: the second player must not play there
    let board = Board::parse("7223344").ok().unwrap();
    let non_losing = board.possible_non_losing_moves();
    assert_eq!(non_losing & column_mask(0), 0);
    assert_eq!(non_losing & column_mask(4), 0);
    assert_ne!(non_losing & column_mask(3), 0);
}

#[test]
fn non_losing_moves_are_playable() {
    for history in ["", "4453", "57234251536772155623166151", "1122337", "22334", "7223344"] {
        let board = Board::parse(history).ok().unwrap();
        let non_losing = board.possible_non_losing_moves();
        for col in 0..WIDTH {
            let in_col = non_losing & column_mask(col);
            if in_col != 0 {
                assert!(board.can_play(col));
                assert_eq!(in_col & (in_col - 1), 0);
            }
        }
        assert_eq!(non_losing & !BOARD_MASK, 0);
    }
}

#[test]
fn winning_positions_only_on_empty_cells() {
    // three stones in column 0 (bits 0, 1, 2): the cell above is a threat
    let position = 0b111u64;
    let mask = 0b111u64;
    assert_eq!(compute_winning_position(position, mask), 1u64 << 3);
    // the same cell occupied: no threat
    let mask = 0b1111u64;
    assert_eq!(compute_winning_position(position, mask) & mask, 0);
    assert_eq!(compute_winning_position(position, mask), 0);
    // horizontal: bottom cells of columns 1, 2, 3; threats at columns 0 and 4
    let position = (1u64 << 7) | (1u64 << 14) | (1u64 << 21);
    let mask = position;
    assert_eq!(compute_winning_position(position, mask), 1 | (1u64 << 28));
    // diagonal up-right from column 0 bottom: cells 0, 8, 16 make 24 a threat
    let position = 1 | (1u64 << 8) | (1u64 << 16);
    let w = compute_winning_position(position, position);
    assert_ne!(w & (1u64 << 24), 0);
    assert_eq!(w & position, 0);
}

#[test]
fn score_counts_new_threats() {
    // first player to move with stones on the bottom of columns 1 and 2
    let board = Board::parse("1526").ok().unwrap();
    // adding the bottom of column 3 makes one threat, at column 4
    assert_eq!(board.score(1u64 << 14), 1);
    assert_eq!(board.score(1u64 << 42), 0);
}

#[test]
fn play_move_matches_play() {
    let mut a = Board::parse("4453").ok().unwrap();
    let mut b = a;
    a.play(2);
    b.play_move(1u64 << 15);
    assert_eq!(a.key(), b.key());
    assert_eq!(a.played_moves(), b.played_moves());
}
