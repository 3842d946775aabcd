use rand::prelude::SliceRandom;

use noughts_and_crosses::{
    count_ones, has_won, lowest_bit16, Board, BoardFault, InvalidMove, LINE_MASKS,
};

fn collect_moves(board: &Board) -> Vec<Board> {
    let mut moves = board.moves();
    let mut out = Vec::new();
    while let Some(b) = moves.next() {
        out.push(b);
    }
    out
}

fn fault_of(player: u16, opponent: u16) -> BoardFault {
    Board::from_bits(player, opponent).unwrap_err().fault
}

#[test]
fn test_line_masks() {
    // Some properties of the set of lines of 3.
    let lines_sorted = {
        let mut ls = LINE_MASKS.clone();
        ls.sort_unstable();
        ls
    };

    assert!(
        lines_sorted.windows(2).all(|w| w[0] < w[1]),
        "Valid lines should be distinct."
    );
    assert!(
        lines_sorted.into_iter().all(|x| x.count_ones() == 3),
        "Valid lines should each have exactly 3 bits set."
    );
}

#[test]
fn test_has_won() {
    // Spot check has_won against some obvious cases.
    assert!(!has_won(0u16));
    assert!(has_won(0b111111111));
    assert!(has_won(0b111000000));
    assert!(has_won(0b000000111));
    assert!(!has_won(0b101000101));
    assert!(has_won(0b101010101));
}

#[test]
fn test_lowest_bit16_exhaustive() {
    assert_eq!(lowest_bit16(0), 0);
    for n in 1..=u16::MAX {
        let lo = lowest_bit16(n);
        assert_eq!(lo, 1u16 << n.trailing_zeros());
    }
}

#[test]
fn test_moves_from_empty() {
    let mut boards: Vec<_> = collect_moves(&Board::new())
        .into_iter()
        .map(|b| b.opponent())
        .collect();
    boards.sort_unstable();
    let want: Vec<_> = (0..9).map(|x| 1u16 << x).collect();
    assert_eq!(want.len(), 9);
    assert_eq!(boards, want);
}

#[test]
fn test_moves_from_full() {
    let full = Board::from_bits_unchecked(0b101010101, 0b010101010);
    assert!(full.moves().next().is_none());
}

#[test]
fn test_moves() {
    let bb = |player, opponent| Board::from_bits_unchecked(player, opponent);
    assert_eq!(bb(0b110000000, 0b001001000).moves().count(), 5);
}

#[test]
fn test_find_any_win_sequence() {
    let mut rng = rand::thread_rng();
    let mut stack = vec![Board::new()];
    let mut move_stack = {
        let mut moves: Vec<_> = collect_moves(stack.last().unwrap());
        moves.shuffle(&mut rng);
        vec![moves.into_iter()]
    };
    'outer: while let Some(moves) = move_stack.last_mut() {
        if let Some(bb) = moves.next() {
            let found = bb.has_lost();
            let mut moves: Vec<_> = collect_moves(&bb);
            moves.shuffle(&mut rng);
            move_stack.push(moves.into_iter());
            stack.push(bb);
            if found {
                break 'outer;
            }
        } else {
            // This one's empty; back off.
            move_stack.pop();
            stack.pop();
        }
    }
    for (i, bb) in stack.iter().enumerate() {
        println!("{}:\n{}\n", i, String::from_utf8(bb.render()).unwrap());
    }
}

#[test]
fn test_from_bits() {
    // Things that are not ok:
    let not_ok = |p, o| assert!(Board::from_bits(p, o).is_err());
    not_ok(1, 1); // Both players play cell 0.
    not_ok(1u16 << 6, 1u16 << 6); // Both players play cell 6.
    not_ok(1u16 << 9, 0); // Player plays out-of-range.
    not_ok(0, 1u16 << 9); // Opponent plays out-of-range.
    not_ok(1u16 << 15, 0); // Player plays out-of-range.
    not_ok(0, 1u16 << 15); // Opponent plays out-of-range.
    not_ok(1, 0); // Player has had a turn but opponent has not.
    not_ok(0b001000011, 0b000011000); // Opponent has had 4 turns, player has had 5.

    // Things that are ok:
    let is_ok = |p, o| assert!(Board::from_bits(p, o).is_ok());
    is_ok(0, 1); // Opponent has had a turn but player has not.
    is_ok(0b000011000, 0b001000011); // Opponent has had 3 turns, player has had 2.
    is_ok(0b010011000, 0b001000011); // Opponent has had 3 turns, player has had 3.
    is_ok(0, 0); // Both players have had 0 turns.
    assert_eq!(Board::from_bits(0, 0).unwrap(), Board::new());
}

#[test]
fn from_bits_names_each_fault() {
    assert_eq!(fault_of(1u16 << 9, 0), BoardFault::PlayerExcessBits);
    assert_eq!(fault_of(0, 1u16 << 15), BoardFault::OpponentExcessBits);
    assert_eq!(fault_of(1u16 << 6, 1u16 << 6), BoardFault::SharedCell);
    assert_eq!(fault_of(1, 0), BoardFault::PlayerTooManyTurns);
    assert_eq!(fault_of(0, 0b11), BoardFault::OpponentTooManyTurns);
    assert_eq!(
        fault_of(0b000000111, 0b000111000),
        BoardFault::PlayerAlreadyWon
    );
    // The first broken invariant is the one reported.
    assert_eq!(fault_of(1u16 << 9, 1u16 << 9), BoardFault::PlayerExcessBits);
    assert_eq!(fault_of(0b11, 0b1), BoardFault::SharedCell);
}

#[test]
fn from_bits_keeps_the_sets() {
    let b = Board::from_bits(0b000011000, 0b001000011).unwrap();
    assert_eq!(b.player(), 0b000011000);
    assert_eq!(b.opponent(), 0b001000011);
}

#[test]
fn from_bits_accepts_a_finished_game() {
    // The opponent holds the top row: the game is over, yet the board is valid.
    let b = Board::from_bits(0b000011000, 0b000000111).unwrap();
    assert!(b.has_lost());
}

#[test]
fn invalid_board_reason_text() {
    let e = Board::from_bits(1, 0).unwrap_err();
    assert_eq!(e.reason(), "player has had too many turns");
    let e = Board::from_bits(0b000000111, 0b000111000).unwrap_err();
    assert_eq!(e.reason(), "opponent had a turn after player won");
}

#[test]
fn has_won_over_all_patterns() {
    for places in 0u16..512 {
        let want = [
            0b000000111u16,
            0b000111000,
            0b111000000,
            0b001001001,
            0b010010010,
            0b100100100,
            0b100010001,
            0b001010100,
        ]
        .iter()
        .any(|&line| places & line == line);
        assert_eq!(has_won(places), want, "pattern {:#011b}", places);
        let b = Board::from_bits_unchecked(0, places);
        assert_eq!(b.has_lost(), want);
    }
}

#[test]
fn has_lost_spot_values() {
    let lost = |o| Board::from_bits_unchecked(0, o).has_lost();
    assert!(!lost(0b000000000));
    assert!(lost(0b111111111));
    assert!(lost(0b111000000));
    assert!(!lost(0b101000101));
    assert!(lost(0b101010101));
}

#[test]
fn moves_from_empty_in_cell_order() {
    let boards = collect_moves(&Board::new());
    assert_eq!(boards.len(), 9);
    for (i, b) in boards.iter().enumerate() {
        assert_eq!(b.opponent(), 1u16 << i);
        assert_eq!(b.player(), 0);
    }
}

#[test]
fn moves_swap_roles() {
    let b = Board::from_bits(0b000000001, 0b000010000).unwrap();
    let boards = collect_moves(&b);
    assert_eq!(boards.len(), 7);
    assert_eq!(boards[0].player(), 0b000010000);
    assert_eq!(boards[0].opponent(), 0b000000011);
    assert_eq!(boards[6].opponent(), 0b100000001);
}

#[test]
fn moves_from_valid_full_board() {
    // X O X / X O O / O X X: a drawn, full board, with O to move.
    let b = Board::from_bits(0b001110010, 0b110001101).unwrap();
    assert_eq!(b.moves().count(), 0);
}

#[test]
fn with_move_plays_a_free_cell() {
    let b = Board::new().with_move(4).unwrap();
    assert_eq!(b.player(), 0);
    assert_eq!(b.opponent(), 0b000010000);
    let c = b.with_move(0).unwrap();
    assert_eq!(c.player(), 0b000010000);
    assert_eq!(c.opponent(), 0b000000001);
}

#[test]
fn with_move_rejects_bad_moves() {
    let b = Board::new().with_move(4).unwrap();
    assert_eq!(b.with_move(9), Err(InvalidMove));
    assert_eq!(b.with_move(u16::MAX), Err(InvalidMove));
    assert_eq!(b.with_move(4), Err(InvalidMove));
    let over = Board::from_bits(0b000011000, 0b000000111).unwrap();
    assert_eq!(over.with_move(8), Err(InvalidMove));
}

#[test]
fn with_move_keeps_boards_valid() {
    // Play every legal sequence of moves to the end and check each board.
    let mut stack = vec![Board::new()];
    let mut seen = 0usize;
    while let Some(b) = stack.pop() {
        assert!(Board::from_bits(b.player(), b.opponent()).is_ok());
        seen += 1;
        for cell in 0..9u16 {
            if let Ok(next) = b.with_move(cell) {
                stack.push(next);
            }
        }
    }
    assert_eq!(seen, 549946);
}

#[test]
fn render_shows_crosses_and_noughts() {
    let b = Board::new().with_move(0).unwrap().with_move(4).unwrap();
    let text = String::from_utf8(b.render()).unwrap();
    assert_eq!(text, "X  \n O \n   ");
    let c = b.with_move(8).unwrap();
    let text = String::from_utf8(c.render()).unwrap();
    assert_eq!(text, "X  \n O \n  X");
    let empty = String::from_utf8(Board::new().render()).unwrap();
    assert_eq!(empty, "   \n   \n   ");
}

#[test]
fn count_ones_counts() {
    assert_eq!(count_ones(0), 0);
    assert_eq!(count_ones(0b101010101), 5);
    assert_eq!(count_ones(u16::MAX), 16);
    for x in 0..=u16::MAX {
        assert_eq!(count_ones(x), x.count_ones());
    }
}
