//! The board: occupancy sets, win detection and move generation.

use crate::bits::{
    bit_indices, bit_set, bits_from, count_ones, lemma_bits_from_shape, lemma_clear_lowest,
    lemma_first_set, lemma_remove_bit, lemma_skip_clear, low_mask, lowest_bit16, popcount,
};
use vstd::prelude::*;

verus! {

/// All nine cells.
pub const FULL: u16 = 0b111111111;

/// The binary representation of the lines of three on the board.
pub const LINE_MASKS: [u16; 8] = [
    0b000000111,
    0b000111000,
    0b111000000,
    0b001001001,
    0b010010010,
    0b100100100,
    0b100010001,
    0b001010100,
];

/// Whether every cell of `line` is in `places`.
pub open spec fn covers(places: u16, line: u16) -> bool {
    places & line == line
}

/// Whether `places` holds a complete row, column or diagonal.
pub open spec fn is_win(places: u16) -> bool {
    ||| covers(places, 0b000000111)
    ||| covers(places, 0b000111000)
    ||| covers(places, 0b111000000)
    ||| covers(places, 0b001001001)
    ||| covers(places, 0b010010010)
    ||| covers(places, 0b100100100)
    ||| covers(places, 0b100010001)
    ||| covers(places, 0b001010100)
}

/// Returns true if `places` holds a line of three.
pub fn has_won(places: u16) -> (r: bool)
    ensures
        r == is_win(places),
{
    let mut i: usize = 0;
    while i < 8
        invariant
            0 <= i <= 8,
            LINE_MASKS@ == seq![
                0b000000111u16,
                0b000111000u16,
                0b111000000u16,
                0b001001001u16,
                0b010010010u16,
                0b100100100u16,
                0b100010001u16,
                0b001010100u16,
            ],
            forall|j: int| 0 <= j < i ==> !covers(places, #[trigger] LINE_MASKS@[j]),
        decreases 8 - i,
    {
        let line = LINE_MASKS[i];
        if places & line == line {
            return true;
        }
        i += 1;
    }
    false
}

/// Why a pair of occupancy sets is not a board that play can reach.
#[derive(Clone, Copy, PartialEq, Eq, Structural, Debug)]
pub enum BoardFault {
    /// The player's set has a bit beyond the nine cells.
    PlayerExcessBits,
    /// The opponent's set has a bit beyond the nine cells.
    OpponentExcessBits,
    /// Both sides hold the same cell.
    SharedCell,
    /// The player has made more moves than the opponent.
    PlayerTooManyTurns,
    /// The opponent has made more than one move more than the player.
    OpponentTooManyTurns,
    /// The player holds a line, so the opponent moved after the game was over.
    PlayerAlreadyWon,
}

/// The sentence that `InvalidBoard::reason` gives for each fault.
pub open spec fn fault_text(f: BoardFault) -> Seq<char> {
    match f {
        BoardFault::PlayerExcessBits => "player has excess bits set"@,
        BoardFault::OpponentExcessBits => "opponent has excess bits set"@,
        BoardFault::SharedCell => "player and opponent have both played the same cell"@,
        BoardFault::PlayerTooManyTurns => "player has had too many turns"@,
        BoardFault::OpponentTooManyTurns => "opponent has had too many turns"@,
        BoardFault::PlayerAlreadyWon => "opponent had a turn after player won"@,
    }
}

/// The error of `Board::from_bits`: the first invariant that the sets break.
#[derive(Clone, Copy, PartialEq, Eq, Structural, Debug)]
pub struct InvalidBoard {
    pub fault: BoardFault,
}

impl InvalidBoard {
    /// A sentence that says which invariant was broken.
    pub fn reason(&self) -> (r: &'static str)
        ensures
            r@ == fault_text(self.fault),
    {
        match self.fault {
            BoardFault::PlayerExcessBits => "player has excess bits set",
            BoardFault::OpponentExcessBits => "opponent has excess bits set",
            BoardFault::SharedCell => "player and opponent have both played the same cell",
            BoardFault::PlayerTooManyTurns => "player has had too many turns",
            BoardFault::OpponentTooManyTurns => "opponent has had too many turns",
            BoardFault::PlayerAlreadyWon => "opponent had a turn after player won",
        }
    }
}

/// The error of `Board::with_move`: the cell is off the board or taken, or
/// the game is already over.
#[derive(Clone, Copy, PartialEq, Eq, Structural, Debug)]
pub struct InvalidMove;

/// The first invariant, in the order `Board::from_bits` checks them, that the
/// two sets break; `None` when they form a board.
pub open spec fn board_fault(player: u16, opponent: u16) -> Option<BoardFault> {
    if player & FULL != player {
        Some(BoardFault::PlayerExcessBits)
    } else if opponent & FULL != opponent {
        Some(BoardFault::OpponentExcessBits)
    } else if player & opponent != 0 {
        Some(BoardFault::SharedCell)
    } else if popcount(player) > popcount(opponent) {
        Some(BoardFault::PlayerTooManyTurns)
    } else if popcount(opponent) > popcount(player) + 1 {
        Some(BoardFault::OpponentTooManyTurns)
    } else if is_win(player) {
        Some(BoardFault::PlayerAlreadyWon)
    } else {
        None
    }
}

/// The invariants of a board that play can reach: both sets lie within the
/// nine cells, no cell is held twice, the opponent (who moved last) has made
/// as many moves as the player or one more, and the player holds no line.
pub open spec fn valid_bits(player: u16, opponent: u16) -> bool {
    &&& player & FULL == player
    &&& opponent & FULL == opponent
    &&& player & opponent == 0
    &&& (popcount(opponent) == popcount(player) || popcount(opponent) == popcount(player) + 1)
    &&& !is_win(player)
}

/// The ASCII code of `X`.
pub const CROSS: u8 = 88;

/// The ASCII code of `O`.
pub const NOUGHT: u8 = 79;

/// The ASCII code of a space.
pub const BLANK: u8 = 32;

/// The ASCII code of a line feed.
pub const NEWLINE: u8 = 10;

/// The character shown for cell `i`. Crosses move first, so when an odd
/// number of cells is taken the side that moved last holds the crosses.
pub open spec fn cell_glyph(b: Board, i: u16) -> u8 {
    let taken = popcount(b.player() | b.opponent());
    let ex = if taken % 2 == 1 {
        b.opponent()
    } else {
        b.player()
    };
    let oh = if taken % 2 == 1 {
        b.player()
    } else {
        b.opponent()
    };
    if bit_set(ex, i) {
        CROSS
    } else if bit_set(oh, i) {
        NOUGHT
    } else {
        BLANK
    }
}

/// The board as text: three rows of three cells, the rows ended by newlines
/// but the last.
pub open spec fn grid_bytes(b: Board) -> Seq<u8> {
    Seq::new(
        11,
        |j: int|
            if j % 4 == 3 {
                NEWLINE
            } else {
                cell_glyph(b, (3 * (j / 4) + j % 4) as u16)
            },
    )
}

/// Represents the noughts and crosses board.
///
/// `player` holds the cells of the side to move, `opponent` those of the side
/// that moved last.
#[derive(Clone, Copy, PartialEq, Eq, Structural, Debug)]
pub struct Board {
    player: u16,
    opponent: u16,
}

/// An enumeration of the boards that follow a board, one for each free cell,
/// in increasing order of the cell.
pub struct Moves {
    base: Board,
    remain: u16,
}

impl Board {
    pub closed spec fn spec_player(&self) -> u16 {
        self.player
    }

    pub closed spec fn spec_opponent(&self) -> u16 {
        self.opponent
    }

    /// The cells of the side to move.
    #[verifier::when_used_as_spec(spec_player)]
    pub fn player(&self) -> (r: u16)
        ensures
            r == self.spec_player(),
    {
        self.player
    }

    /// The cells of the side that moved last.
    #[verifier::when_used_as_spec(spec_opponent)]
    pub fn opponent(&self) -> (r: u16)
        ensures
            r == self.spec_opponent(),
    {
        self.opponent
    }

    /// The invariants of a board that play can reach.
    pub open spec fn wf(&self) -> bool {
        valid_bits(self.player(), self.opponent())
    }

    /// Whether the side that moved last holds a line.
    pub open spec fn lost(&self) -> bool {
        is_win(self.opponent())
    }

    /// The cells that neither side holds.
    pub open spec fn free_cells(&self) -> u16 {
        FULL & !(self.player() | self.opponent())
    }

    /// The number of free cells.
    pub open spec fn free(&self) -> nat {
        popcount(self.free_cells())
    }

    /// The board after the side to move plays in cell `k`: the roles swap.
    pub closed spec fn after(&self, k: u16) -> Board {
        Board { player: self.opponent, opponent: self.player | (1u16 << k) }
    }

    /// The boards that follow this one, one for each free cell, in
    /// increasing order of the cell.
    pub open spec fn successors(&self) -> Seq<Board> {
        bit_indices(self.free_cells()).map_values(|k: u16| self.after(k))
    }

    /// Whether the side to move may play in `cell`.
    pub open spec fn can_move(&self, cell: u16) -> bool {
        &&& cell < 9
        &&& !bit_set(self.player() | self.opponent(), cell)
        &&& !self.lost()
    }
}

impl Board {
    /// Constructs an empty board.
    pub fn new() -> (r: Self)
        ensures
            r.player() == 0,
            r.opponent() == 0,
            r.wf(),
    {
        proof {
            assert(0u16 & FULL == 0 && 0u16 & 0u16 == 0) by (bit_vector);
            lemma_no_bits(0);
            assert(!is_win(0)) by (bit_vector);
        }
        Board { player: 0, opponent: 0 }
    }

    /// Constructs a board from two sets without checking the invariants: the
    /// board may be one that play never reaches. Every operation of this type
    /// is defined on such boards too.
    pub fn from_bits_unchecked(player: u16, opponent: u16) -> (r: Self)
        ensures
            r.player() == player,
            r.opponent() == opponent,
    {
        Board { player, opponent }
    }

    /// Constructs a new board with the specified play pattern, or says which
    /// invariant the pattern breaks.
    pub fn from_bits(player: u16, opponent: u16) -> (r: Result<Self, InvalidBoard>)
        ensures
            r is Ok <==> valid_bits(player, opponent),
            r matches Ok(b) ==> b.player() == player && b.opponent() == opponent,
            r matches Err(e) ==> board_fault(player, opponent) == Some(e.fault),
    {
        if player & FULL != player {
            return Err(InvalidBoard { fault: BoardFault::PlayerExcessBits });
        }
        if opponent & FULL != opponent {
            return Err(InvalidBoard { fault: BoardFault::OpponentExcessBits });
        }
        proof {
            assert((player ^ opponent) == (player | opponent) <==> player & opponent == 0)
                by (bit_vector);
        }
        if player ^ opponent != player | opponent {
            return Err(InvalidBoard { fault: BoardFault::SharedCell });
        }
        let player_turns = count_ones(player);
        let opponent_turns = count_ones(opponent);
        if player_turns > opponent_turns {
            return Err(InvalidBoard { fault: BoardFault::PlayerTooManyTurns });
        }
        if opponent_turns > player_turns + 1 {
            return Err(InvalidBoard { fault: BoardFault::OpponentTooManyTurns });
        }
        // The opponent always placed the last piece, so only the opponent can
        // have won: once the winning move is played, the game is over.
        if has_won(player) {
            return Err(InvalidBoard { fault: BoardFault::PlayerAlreadyWon });
        }
        Ok(Board { player, opponent })
    }

    /// Returns true if the opponent won (we lost).
    pub fn has_lost(&self) -> (r: bool)
        ensures
            r == self.lost(),
    {
        has_won(self.opponent)
    }

    /// Returns the boards that follow this one. Note that the resulting boards
    /// are "flipped": opponent becomes player, player becomes opponent.
    pub fn moves(&self) -> (r: Moves)
        ensures
            r@ == self.successors(),
    {
        let remain = FULL & !(self.player | self.opponent);
        Moves { base: *self, remain }
    }

    /// Attempts to play the move, specified by the index of the cell to play
    /// in. If the cell is off the board or taken, or the game is already
    /// over, returns `Err(InvalidMove)`; otherwise returns the new board.
    pub fn with_move(&self, cell: u16) -> (r: Result<Self, InvalidMove>)
        ensures
            r is Ok <==> self.can_move(cell),
            r matches Ok(b) ==> b == self.after(cell),
            r matches Ok(b) ==> (self.wf() ==> b.wf()),
    {
        if cell > 8 {
            return Err(InvalidMove);
        }
        let bits = 1u16 << cell;
        proof {
            let occupied = self.player | self.opponent;
            assert(cell < 16 ==> (bits & occupied != 0 <==> (occupied >> cell) & 1 == 1))
                by (bit_vector)
                requires
                    bits == 1u16 << cell,
            ;
        }
        // Can only play on blank cells.
        if bits & (self.player | self.opponent) != 0 {
            return Err(InvalidMove);
        }
        // Can't play at all once someone has won.
        if has_won(self.opponent) {
            return Err(InvalidMove);
        }
        proof {
            if self.wf() {
                lemma_move_keeps_valid(*self, cell);
            }
        }
        Ok(self.with_move_bits(bits))
    }

    /// The board as three lines of three characters: `X` for the side that
    /// moved first, `O` for the other, a space for a free cell.
    pub fn render(&self) -> (r: Vec<u8>)
        ensures
            r@ == grid_bytes(*self),
    {
        let play_count = count_ones(self.player | self.opponent);
        let (ex, oh) = if play_count % 2 == 1 {
            (self.opponent, self.player)
        } else {
            (self.player, self.opponent)
        };
        let mut buf: Vec<u8> = vec![
            BLANK,
            BLANK,
            BLANK,
            NEWLINE,
            BLANK,
            BLANK,
            BLANK,
            NEWLINE,
            BLANK,
            BLANK,
            BLANK,
        ];
        let mut i: u16 = 0;
        while i < 9
            invariant
                i <= 9,
                buf@.len() == 11,
                ex == (if popcount(self.player | self.opponent) % 2 == 1 {
                    self.opponent
                } else {
                    self.player
                }),
                oh == (if popcount(self.player | self.opponent) % 2 == 1 {
                    self.player
                } else {
                    self.opponent
                }),
                forall|j: int|
                    0 <= j < 11 ==> #[trigger] buf@[j] == if j % 4 == 3 {
                        NEWLINE
                    } else if 3 * (j / 4) + j % 4 < i {
                        cell_glyph(*self, (3 * (j / 4) + j % 4) as u16)
                    } else {
                        BLANK
                    },
            decreases 9 - i,
        {
            let row = (i / 3) as usize;
            let col = (i % 3) as usize;
            let b = 1u16 << i;
            proof {
                assert(i < 16 ==> ((ex & b == b) <==> (ex >> i) & 1 == 1)) by (bit_vector)
                    requires
                        b == 1u16 << i,
                ;
                assert(i < 16 ==> ((oh & b == b) <==> (oh >> i) & 1 == 1)) by (bit_vector)
                    requires
                        b == 1u16 << i,
                ;
            }
            if ex & b == b {
                buf.set(4 * row + col, CROSS);
            } else if oh & b == b {
                buf.set(4 * row + col, NOUGHT);
            }
            i += 1;
        }
        proof {
            assert(buf@ =~= grid_bytes(*self));
        }
        buf
    }

    // Private because it relies on only receiving a free cell.
    fn with_move_bits(&self, position: u16) -> (r: Self)
        ensures
            r.player() == self.opponent(),
            r.opponent() == self.player() | position,
    {
        Board { player: self.opponent, opponent: self.player | position }
    }
}

impl View for Moves {
    type V = Seq<Board>;

    /// The boards still to come.
    closed spec fn view(&self) -> Seq<Board> {
        bit_indices(self.remain).map_values(|k: u16| self.base.after(k))
    }
}

impl Moves {
    /// Returns the next board, or `None` once every free cell has been played.
    pub fn next(&mut self) -> (r: Option<Board>)
        ensures
            old(self)@.len() == 0 ==> r is None && final(self)@ == old(self)@,
            old(self)@.len() > 0 ==> r == Some(old(self)@[0]) && final(self)@ == old(
                self,
            )@.drop_first(),
    {
        if self.remain != 0 {
            let b = lowest_bit16(self.remain);
            let ghost remain = self.remain;
            proof {
                assert(remain & low_mask(0) == 0) by (bit_vector);
                let f = lemma_first_set(remain, 0);
                lemma_clear_lowest(remain, f);
            }
            self.remain &= !b;
            proof {
                assert(self@ =~= old(self)@.drop_first());
            }
            Some(self.base.with_move_bits(b))
        } else {
            proof {
                lemma_no_bits(0);
            }
            None
        }
    }

    /// Returns how many boards are still to come, using them up.
    pub fn count(self) -> (r: usize)
        ensures
            r == self@.len(),
    {
        let mut moves = self;
        let mut n: usize = 0;
        proof {
            lemma_bits_from_shape(self.remain, 0);
        }
        while moves.next().is_some()
            invariant
                n + moves@.len() == self@.len(),
                self@.len() <= 16,
            decreases moves@.len(),
        {
            n += 1;
        }
        n
    }
}

/// An empty set has no indices.
proof fn lemma_no_bits(x: u16)
    requires
        x == 0,
    ensures
        bit_indices(x).len() == 0,
{
    assert forall|m: u16| 0 <= m < 16 implies !bit_set(x, m) by {
        assert(x == 0 ==> (x >> m) & 1 == 0) by (bit_vector);
    }
    lemma_skip_clear(x, 0, 16);
}

/// A move in a free cell, on a board that play can reach and whose game is
/// not over, leads to a board that play can reach.
pub proof fn lemma_move_keeps_valid(b: Board, cell: u16)
    requires
        b.wf(),
        b.can_move(cell),
    ensures
        b.after(cell).wf(),
{
    let p = b.player;
    let o = b.opponent;
    let bit = 1u16 << cell;
    let q = p | bit;
    assert(q & FULL == q && o & q == 0 && q & !bit == p && (q >> cell) & 1 == 1) by (bit_vector)
        requires
            cell < 9,
            bit == 1u16 << cell,
            q == p | bit,
            p & FULL == p,
            p & o == 0,
            ((p | o) >> cell) & 1 != 1,
    ;
    lemma_remove_bit(q, cell, 0);
}

/// Each board that follows has one free cell less.
pub proof fn lemma_successor_free(b: Board, i: int)
    requires
        0 <= i < b.successors().len(),
    ensures
        b.successors()[i].free() + 1 == b.free(),
{
    let fc = b.free_cells();
    lemma_bits_from_shape(fc, 0);
    let k = bit_indices(fc)[i];
    let (p, o) = (b.player, b.opponent);
    assert(FULL & !(o | (p | (1u16 << k))) == fc & !(1u16 << k)) by (bit_vector)
        requires
            fc == FULL & !(p | o),
    ;
    lemma_remove_bit(fc, k, 0);
}

/// No board has more than nine free cells.
pub proof fn lemma_free_bound(b: Board)
    ensures
        b.free() <= 9,
{
    let fc = b.free_cells();
    let occupied = b.player | b.opponent;
    assert forall|m: u16| 9 <= m < 16 implies !bit_set(fc, m) by {
        assert(fc == FULL & !occupied && 9 <= m < 16 ==> (fc >> m) & 1 == 0) by (bit_vector);
    }
    lemma_skip_clear(fc, 9, 16);
    lemma_len_through(fc, 0, 9);
}

/// At most one index for each bit between `j` and `k`.
proof fn lemma_len_through(x: u16, j: u16, k: u16)
    requires
        j <= k <= 16,
    ensures
        bits_from(x, j).len() <= (k - j) + bits_from(x, k).len(),
    decreases k - j,
{
    if j < k {
        lemma_len_through(x, (j + 1) as u16, k);
    }
}

/// The indices of the nine cells, from `j` up.
proof fn lemma_full_indices(j: u16)
    requires
        j <= 9,
    ensures
        bits_from(FULL, j) =~= Seq::new((9 - j) as nat, |i: int| (j + i) as u16),
    decreases 9 - j,
{
    if j == 9 {
        assert forall|m: u16| 9 <= m < 16 implies !bit_set(FULL, m) by {
            assert(9 <= m < 16 ==> (FULL >> m) & 1 == 0) by (bit_vector);
        }
        lemma_skip_clear(FULL, 9, 16);
    } else {
        assert((FULL >> j) & 1 == 1) by (bit_vector)
            requires
                j < 9,
        ;
        lemma_full_indices((j + 1) as u16);
    }
}

/// From the empty board there are nine moves, one for each cell, in order;
/// each leaves the board with the moved cell as the opponent's only cell and
/// the player with no cell.
pub proof fn lemma_moves_from_empty(b: Board)
    requires
        b.player() == 0,
        b.opponent() == 0,
    ensures
        b.successors().len() == 9,
        forall|i: int|
            0 <= i < 9 ==> (#[trigger] b.successors()[i]).opponent() == 1u16 << (i as u16)
                && b.successors()[i].player() == 0,
{
    assert(FULL & !(0u16 | 0u16) == FULL) by (bit_vector);
    lemma_full_indices(0);
    assert forall|i: int| 0 <= i < 9 implies (#[trigger] b.successors()[i]).opponent() == 1u16 << (
    i as u16) && b.successors()[i].player() == 0 by {
        let k = i as u16;
        assert(0u16 | (1u16 << k) == 1u16 << k) by (bit_vector);
    }
}

/// A board on which every cell is taken has no moves.
pub proof fn lemma_moves_from_full(b: Board)
    requires
        (b.player() | b.opponent()) & FULL == FULL,
    ensures
        b.successors().len() == 0,
{
    let occupied = b.player | b.opponent;
    assert(occupied & FULL == FULL ==> FULL & !occupied == 0) by (bit_vector);
    lemma_no_bits(0);
}

/// The two sets of the board after a move in `k`.
pub broadcast proof fn lemma_after(b: Board, k: u16)
    ensures
        #[trigger] b.after(k).player() == b.opponent(),
        b.after(k).opponent() == b.player() | (1u16 << k),
{
}

} // verus!
