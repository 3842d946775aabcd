//! The exhaustive game-tree search.

use crate::board::{is_win, lemma_free_bound, lemma_successor_free, Board};
use vstd::prelude::*;

verus! {

type StatusInt = i32;

// Internally a signed integer stands for a status, so that negating it gives
// the other player's status.
const LOSS: StatusInt = -1;

const WIN: StatusInt = 1;

const DRAW: StatusInt = 0;

/// Represents the final status of a game
#[derive(Clone, Copy, PartialEq, Eq, Structural, Debug)]
pub enum Status {
    Loss,
    Draw,
    Win,
}

/// The status that an integer stands for: below zero a loss, zero a draw,
/// above zero a win.
pub open spec fn status_of(v: int) -> Status {
    if v < 0 {
        Status::Loss
    } else if v == 0 {
        Status::Draw
    } else {
        Status::Win
    }
}

/// The value of `b` for the side to move under perfect play by both sides:
/// -1 when the side that moved last holds a line, 0 when no cell is free, and
/// otherwise the best over the moves of the negated value of the board it
/// leads to.
pub open spec fn value(b: Board) -> int
    decreases b.free(), 1int, 0int,
{
    if b.lost() {
        -1
    } else if b.successors().len() == 0 {
        0
    } else {
        best_reply(b, 0)
    }
}

/// The best negated value over the successors of `b` from index `i` on, and
/// -1 where there is none.
pub open spec fn best_reply(b: Board, i: int) -> int
    decreases b.free(), 0int, b.successors().len() - i,
{
    if i < 0 || i >= b.successors().len() {
        -1
    } else {
        proof {
            lemma_successor_free(b, i);
        }
        let r = -value(b.successors()[i]);
        let rest = best_reply(b, i + 1);
        if r > rest {
            r
        } else {
            rest
        }
    }
}

/// The outcome of `b` for the side to move under perfect play.
pub open spec fn outcome(b: Board) -> Status {
    status_of(value(b))
}

/// The search as it runs: its verdict and the number of finished games it
/// reaches. A board whose game is over counts as one game. Otherwise the
/// successors are searched in order, their counts summed and their negated
/// verdicts maximised, and the search stops at the first winning reply.
pub open spec fn search(b: Board) -> (int, nat)
    decreases b.free(), 1int, 0int,
{
    if b.lost() {
        (-1, 1)
    } else {
        let (best, n) = scan(b, 0, -1, 0);
        if n == 0 {
            (0, 1)
        } else {
            (best, n)
        }
    }
}

/// The search over the successors of `b` from index `i` on, with the best
/// verdict `best` and the count `n` so far.
pub open spec fn scan(b: Board, i: int, best: int, n: nat) -> (int, nat)
    decreases b.free(), 0int, b.successors().len() - i,
{
    if i < 0 || i >= b.successors().len() || best == 1 {
        (best, n)
    } else {
        proof {
            lemma_successor_free(b, i);
        }
        let (r, m) = search(b.successors()[i]);
        let next = if -r > best {
            -r
        } else {
            best
        };
        scan(b, i + 1, next, n + m)
    }
}

/// The number of finished games that the search of `b` reaches.
pub open spec fn games(b: Board) -> nat {
    search(b).1
}

pub open spec fn factorial(n: nat) -> nat
    decreases n,
{
    if n == 0 {
        1
    } else {
        n * factorial((n - 1) as nat)
    }
}

proof fn lemma_factorial_mono(a: nat, b: nat)
    requires
        a <= b,
    ensures
        1 <= factorial(a) <= factorial(b),
    decreases b,
{
    if b > 0 {
        let below = if a < b {
            a
        } else {
            (b - 1) as nat
        };
        lemma_factorial_mono(below, (b - 1) as nat);
        assert(factorial((b - 1) as nat) <= b * factorial((b - 1) as nat)) by (nonlinear_arith)
            requires
                b >= 1,
        ;
    }
}

/// The search finds the value of the board, and reaches at least one and at
/// most `free!` games.
proof fn lemma_search(b: Board)
    ensures
        search(b).0 == value(b),
        -1 <= value(b) <= 1,
        1 <= search(b).1 <= factorial(b.free()),
    decreases b.free(), 1int, 0int,
{
    lemma_factorial_mono(0, b.free());
    if !b.lost() {
        let len = b.successors().len();
        lemma_scan(b, 0, -1, 0);
        if len > 0 {
            let f = b.free();
            assert(len * factorial((f - 1) as nat) == factorial(f));
        }
    }
}

/// The scan ends with the better of `best` and the best reply from `i` on;
/// it adds at least one game when a successor is left to search, and at most
/// `(free - 1)!` for each successor left.
proof fn lemma_scan(b: Board, i: int, best: int, n: nat)
    requires
        !b.lost(),
        0 <= i <= b.successors().len(),
        -1 <= best <= 1,
    ensures
        scan(b, i, best, n).0 == if best > best_reply(b, i) {
            best
        } else {
            best_reply(b, i)
        },
        -1 <= best_reply(b, i) <= 1,
        n + (if i < b.successors().len() && best != 1 {
            1int
        } else {
            0
        }) <= scan(b, i, best, n).1,
        scan(b, i, best, n).1 <= n + (b.successors().len() - i) * factorial(
            (b.free() - 1) as nat,
        ),
    decreases b.free(), 0int, b.successors().len() - i,
{
    let len = b.successors().len();
    if i < len {
        lemma_successor_free(b, i);
        let c = b.successors()[i];
        lemma_search(c);
        let (r, m) = search(c);
        let next = if -r > best {
            -r
        } else {
            best
        };
        lemma_scan(b, i + 1, next, n + m);
        let f = factorial((b.free() - 1) as nat);
        assert((len - i) * f == (len - i - 1) * f + f) by (nonlinear_arith);
        assert(0 <= (len - i - 1) * f) by (nonlinear_arith)
            requires
                i < len,
        ;
    }
}

/// A board on which the side that moved last holds the top row is a loss
/// for the side to move, found without searching any further board.
pub proof fn lemma_top_row_is_loss(b: Board)
    requires
        b.opponent() & 0b111 == 0b111,
    ensures
        outcome(b) == Status::Loss,
        games(b) == 1,
{
    assert(is_win(b.opponent()));
}

/// Recursive search: the verdict as a signed integer, and the number of
/// finished games reached.
fn solve_inner(board: &Board) -> (r: (StatusInt, usize))
    ensures
        r.0 as int == search(*board).0,
        r.1 as nat == search(*board).1,
    decreases board.free(),
{
    if board.has_lost() {
        return (LOSS, 1);
    }
    let ghost len = board.successors().len();
    proof {
        lemma_search(*board);
        lemma_scan(*board, 0, -1, 0);
        lemma_free_bound(*board);
        lemma_factorial_mono(board.free(), 9);
        reveal_with_fuel(factorial, 10);
        assert(factorial(9) == 362880);
    }
    let mut best_result: StatusInt = -1;
    let mut games: usize = 0;
    let mut moves = board.moves();
    let ghost mut i: int = 0;
    loop
        invariant_except_break
            -1 <= best_result <= 0,
        invariant
            !board.lost(),
            0 <= i <= len,
            len == board.successors().len(),
            moves@ == board.successors().subrange(i, len as int),
            scan(*board, i, best_result as int, games as nat) == scan(*board, 0, -1, 0),
            scan(*board, 0, -1, 0).1 <= 362880,
        ensures
            scan(*board, 0, -1, 0) == (best_result as int, games as nat),
        decreases moves@.len(),
    {
        proof {
            lemma_scan(*board, i, best_result as int, games as nat);
        }
        match moves.next() {
            None => {
                break ;
            },
            Some(opponent_board) => {
                proof {
                    lemma_successor_free(*board, i);
                    lemma_search(opponent_board);
                    let (r, m) = search(opponent_board);
                    let next = if -r > best_result {
                        -r
                    } else {
                        best_result as int
                    };
                    lemma_scan(*board, i + 1, next, games as nat + m);
                }
                let (result, n) = solve_inner(&opponent_board);
                games += n;
                // Negate the opponent's result to get our result.
                if -result > best_result {
                    best_result = -result;
                }
                proof {
                    i = i + 1;
                }
                if best_result == WIN {
                    break ;
                }
            },
        }
    }
    if games == 0 {
        (DRAW, 1)
    } else {
        (best_result, games)
    }
}

/// Returns whether the game is a win, draw, or loss for the current player
/// starting from the specified board position, and the count of finished
/// games examined.
pub fn solve(board: &Board) -> (r: (Status, usize))
    ensures
        r.0 == outcome(*board),
        r.1 == games(*board),
{
    proof {
        lemma_search(*board);
    }
    let (result, n) = solve_inner(board);
    let result = if result == LOSS {
        Status::Loss
    } else if result == DRAW {
        Status::Draw
    } else {
        Status::Win
    };
    (result, n)
}

} // verus!
