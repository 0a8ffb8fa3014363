use vstd::prelude::*;
use vstd::string::StringSliceAdditionalSpecFns;

verus! {

/// Number of columns.
pub const WIDTH: usize = 7;

/// Number of playable rows.
pub const HEIGHT: usize = 6;

/// One bit at the bottom of each column.
pub const BOTTOM_MASK: u64 = 0x40810204081;

/// Every playable cell: the six lower bits of each column.
pub const BOARD_MASK: u64 = 0xfdfbf7efdfbf;

/// One bit at the bottom of each of the first `width` columns.
pub open spec fn bottom(width: nat) -> u64
    decreases width,
{
    if width == 0 {
        0
    } else {
        bottom((width - 1) as nat) | (1u64 << (7 * (width - 1)) as u64)
    }
}

/// The mask constants are what their definitions say: one bit per column
/// bottom, and the six lower rows of every column.
pub proof fn lemma_mask_constants()
    ensures
        BOTTOM_MASK == bottom(7),
        BOARD_MASK == BOTTOM_MASK * 63,
{
    reveal_with_fuel(bottom, 8);
    assert(BOTTOM_MASK == 0u64 | (1u64 << 0u64) | (1u64 << 7u64) | (1u64 << 14u64) | (1u64
        << 21u64) | (1u64 << 28u64) | (1u64 << 35u64) | (1u64 << 42u64)) by (bit_vector);
}

/// Bit `i` of `p` is set (false for indices beyond the word).
pub open spec fn bit(p: u64, i: u64) -> bool {
    i < 64 && (p >> i) & 1 == 1
}

/// Cell `i` is one that, added to the stones `p`, completes four in a row:
/// three stones below it in its column, or three more stones on a common
/// horizontal or diagonal line with it (shift 7 is horizontal, 6 and 8 the
/// two diagonals).
pub open spec fn completes_line(p: u64, i: u64) -> bool {
    (i >= 3 && bit(p, (i - 1) as u64) && bit(p, (i - 2) as u64) && bit(p, (i - 3) as u64))
    || completes_line_along(p, i, 7)
    || completes_line_along(p, i, 6)
    || completes_line_along(p, i, 8)
}

/// Cell `i` completes four along shift `s`, with 0, 1, 2 or 3 of the other
/// stones on the higher side of `i`.
pub open spec fn completes_line_along(p: u64, i: u64, s: u64) -> bool {
    (i >= 3 * s && bit(p, (i - s) as u64) && bit(p, (i - 2 * s) as u64) && bit(p, (i - 3 * s) as u64))
    || (i >= 2 * s && bit(p, (i + s) as u64) && bit(p, (i - s) as u64) && bit(p, (i - 2 * s) as u64))
    || (i >= s && bit(p, (i + s) as u64) && bit(p, (i + 2 * s) as u64) && bit(p, (i - s) as u64))
    || (bit(p, (i + s) as u64) && bit(p, (i + 2 * s) as u64) && bit(p, (i + 3 * s) as u64))
}

/// The threats of `p`: the empty playable cells (outside `mask`, inside
/// `BOARD_MASK`) that complete a line of four for `p`.
pub open spec fn is_threat(p: u64, mask: u64, i: u64) -> bool {
    bit(BOARD_MASK, i) && !bit(mask, i) && completes_line(p, i)
}

/// The cells completing a line along shift `s`, as the pattern
/// "pair of stones, then a third stone" on both sides.
pub open spec fn aligned_along(p: u64, s: u64) -> u64 {
    (((p << s) & (p << (2 * s))) & (p << (3 * s)))
    | (((p << s) & (p << (2 * s))) & (p >> s))
    | ((((p << s) & (p << (2 * s))) >> (3 * s)) & (p << s))
    | ((((p << s) & (p << (2 * s))) >> (3 * s)) & (p >> (3 * s)))
}

/// The detector as a word: the cells completing a line for `p` in any of the
/// four directions, restricted to empty playable cells.
pub open spec fn winning_cells(p: u64, mask: u64) -> u64 {
    line_cells(p) & (BOARD_MASK & !mask)
}

/// The cells completing a line for `p` in any of the four directions,
/// occupied or not.
pub open spec fn line_cells(p: u64) -> u64 {
    (p << 1u64) & (p << 2u64) & (p << 3u64) | aligned_along(p, 7) | aligned_along(p, 6)
        | aligned_along(p, 8)
}

proof fn lemma_winning_vertical(p: u64, i: u64)
    by (bit_vector)
    requires
        i < 64,
    ensures
        bit((p << 1u64) & (p << 2u64) & (p << 3u64), i)
            == (i >= 3 && bit(p, (i - 1) as u64) && bit(p, (i - 2) as u64) && bit(p, (i - 3) as u64)),
{
}

proof fn lemma_winning_along(p: u64, i: u64, s: u64)
    by (bit_vector)
    requires
        i < 64,
        s == 6 || s == 7 || s == 8,
        bit(p, (i + 2 * s) as u64) ==> i + 3 * s < 64,
    ensures
        bit(aligned_along(p, s), i) == completes_line_along(p, i, s),
{
}

proof fn lemma_bit_in_board(p: u64, j: u64)
    by (bit_vector)
    requires
        p & !BOARD_MASK == 0,
        bit(p, j),
    ensures
        j <= 47,
{
}

proof fn lemma_masked_bits(w: u64, mask: u64, i: u64)
    by (bit_vector)
    requires
        i < 64,
    ensures
        bit(w & (BOARD_MASK & !mask), i) == (bit(w, i) && bit(BOARD_MASK, i) && !bit(mask, i)),
{
}

proof fn lemma_or_bits(a: u64, b: u64, c: u64, d: u64, i: u64)
    by (bit_vector)
    requires
        i < 64,
    ensures
        bit(a | b | c | d, i) == (bit(a, i) || bit(b, i) || bit(c, i) || bit(d, i)),
{
}

/// Bit `i` of the detector's word says whether cell `i` is a threat.
pub proof fn lemma_winning_cells_bit(p: u64, mask: u64, i: u64)
    requires
        p & !BOARD_MASK == 0,
        i < 64,
    ensures
        bit(winning_cells(p, mask), i) == is_threat(p, mask, i),
{
    let v = (p << 1u64) & (p << 2u64) & (p << 3u64);
    let w = v | aligned_along(p, 7) | aligned_along(p, 6) | aligned_along(p, 8);
    lemma_masked_bits(w, mask, i);
    lemma_or_bits(v, aligned_along(p, 7), aligned_along(p, 6), aligned_along(p, 8), i);
    lemma_winning_vertical(p, i);
    if bit(p, (i + 14) as u64) {
        lemma_bit_in_board(p, (i + 14) as u64);
    }
    if bit(p, (i + 12) as u64) {
        lemma_bit_in_board(p, (i + 12) as u64);
    }
    if bit(p, (i + 16) as u64) {
        lemma_bit_in_board(p, (i + 16) as u64);
    }
    lemma_winning_along(p, i, 7);
    lemma_winning_along(p, i, 6);
    lemma_winning_along(p, i, 8);
}

/// The empty playable cells that would give `position` four in a row.
pub fn compute_winning_position(position: u64, mask: u64) -> (r: u64)
    ensures
        r == winning_cells(position, mask),
        r & mask == 0,
        r & !BOARD_MASK == 0,
        position & !BOARD_MASK == 0 ==> forall|i: u64|
            i < 64 ==> (bit(r, i) <==> is_threat(position, mask, i)),
{
    // vertical: the three cells below
    let vertical: u64 = (position << 1u64) & (position << 2u64) & (position << 3u64);

    // horizontal
    let mut pair: u64 = (position << 7u64) & (position << 14u64);
    let mut horizontal: u64 = pair & (position << 21u64);
    horizontal = horizontal | (pair & (position >> 7u64));
    pair = pair >> 21u64;
    horizontal = horizontal | (pair & (position << 7u64));
    horizontal = horizontal | (pair & (position >> 21u64));

    // diagonal going down to the right
    pair = (position << 6u64) & (position << 12u64);
    let mut down: u64 = pair & (position << 18u64);
    down = down | (pair & (position >> 6u64));
    pair = pair >> 18u64;
    down = down | (pair & (position << 6u64));
    down = down | (pair & (position >> 18u64));

    // diagonal going up to the right
    pair = (position << 8u64) & (position << 16u64);
    let mut up: u64 = pair & (position << 24u64);
    up = up | (pair & (position >> 8u64));
    pair = pair >> 24u64;
    up = up | (pair & (position << 8u64));
    up = up | (pair & (position >> 24u64));

    let winning: u64 = vertical | horizontal | down | up;
    let r = winning & (BOARD_MASK & !mask);
    proof {
        assert(vertical | horizontal | down | up == (position << 1u64) & (position << 2u64) & (
        position << 3u64) | aligned_along(position, 7) | aligned_along(position, 6)
            | aligned_along(position, 8));
        assert(r & mask == 0 && r & !BOARD_MASK == 0) by (bit_vector)
            requires
                r == winning & (BOARD_MASK & !mask),
        ;
        if position & !BOARD_MASK == 0 {
            assert forall|i: u64| i < 64 implies (bit(r, i) <==> is_threat(position, mask, i)) by {
                lemma_winning_cells_bit(position, mask, i);
            }
        }
    }
    r
}

/// Number of set bits of `x`.
pub open spec fn popcount(x: u64) -> nat
    decreases x,
{
    if x == 0 {
        0
    } else {
        (x % 2) as nat + popcount(x / 2)
    }
}

/// Every stone of `mask` lies on a playable cell and sits on the bottom row
/// or on another stone.
pub open spec fn stacked(mask: u64) -> bool {
    mask & !BOARD_MASK == 0 && mask & !((mask << 1u64) | BOTTOM_MASK) == 0
}

/// The bit of the top playable cell of column `c`.
pub open spec fn top_mask(c: u64) -> u64 {
    1u64 << (7 * c + 5)
}

/// The bit of the bottom cell of column `c`.
pub open spec fn bottom_mask(c: u64) -> u64 {
    1u64 << (7 * c)
}

/// The six playable cells of column `c`.
pub open spec fn column_bits(c: u64) -> u64 {
    63u64 << (7 * c)
}

/// The cells where a stone can be dropped now: the lowest empty cell of every
/// column that is not full.
pub open spec fn playable(mask: u64) -> u64 {
    ((mask + BOTTOM_MASK) as u64) & BOARD_MASK
}

proof fn lemma_popcount_unfold(x: u64)
    ensures
        popcount(x) == (x % 2) as nat + popcount(x / 2),
{
}

proof fn lemma_popcount_clear_lowest(x: u64)
    requires
        x != 0,
    ensures
        popcount(x & ((x - 1) as u64)) + 1 == popcount(x),
    decreases x,
{
    let y = x & ((x - 1) as u64);
    assert(x != 0 ==> (x % 2 == 1 ==> y / 2 == x / 2 && y % 2 == 0) && (x % 2 == 0 ==> y % 2 == 0
        && x / 2 != 0 && y / 2 == (x / 2) & ((x / 2 - 1) as u64))) by (bit_vector)
        requires
            y == x & ((x - 1) as u64),
    ;
    lemma_popcount_unfold(x);
    lemma_popcount_unfold(y);
    if x % 2 == 0 {
        lemma_popcount_clear_lowest(x / 2);
    }
}

proof fn lemma_popcount_add_bit(m: u64, b: u64)
    requires
        b != 0,
        b & ((b - 1) as u64) == 0,
        m & b == 0,
    ensures
        popcount(m | b) == popcount(m) + 1,
    decreases b,
{
    assert(b != 0 && b & ((b - 1) as u64) == 0 && m & b == 0 ==> (b == 1 ==> (m | b) % 2 == 1 && m
        % 2 == 0 && (m | b) / 2 == m / 2) && (b != 1 ==> b % 2 == 0 && b / 2 != 0 && (b / 2) & ((b
        / 2 - 1) as u64) == 0 && (m / 2) & (b / 2) == 0 && (m | b) / 2 == (m / 2) | (b / 2) && (m
        | b) % 2 == m % 2)) by (bit_vector);
    lemma_popcount_unfold(m);
    lemma_popcount_unfold(m | b);
    if b != 1 {
        lemma_popcount_add_bit(m / 2, b / 2);
    }
}

proof fn lemma_popcount_subset(x: u64, y: u64)
    requires
        x & !y == 0,
    ensures
        popcount(x) <= popcount(y),
    decreases y,
{
    assert(x & !y == 0 ==> (y == 0 ==> x == 0) && x % 2 <= y % 2 && (x / 2) & !(y / 2) == 0)
        by (bit_vector);
    lemma_popcount_unfold(x);
    lemma_popcount_unfold(y);
    if y != 0 {
        lemma_popcount_subset(x / 2, y / 2);
    }
}

/// A column of six stones stacked under the stones `y`.
proof fn lemma_popcount_full_column(y: u64)
    requires
        y < 0x200_0000_0000_0000,
    ensures
        popcount((y * 128 + 63) as u64) == popcount(y) + 6,
{
    let x = (y * 128 + 63) as u64;
    lemma_popcount_unfold(x);
    lemma_popcount_unfold(x / 2);
    lemma_popcount_unfold(x / 4);
    lemma_popcount_unfold(x / 8);
    lemma_popcount_unfold(x / 16);
    lemma_popcount_unfold(x / 32);
    lemma_popcount_unfold(x / 64);
    assert(x / 2 / 2 == x / 4 && x / 4 / 2 == x / 8 && x / 8 / 2 == x / 16 && x / 16 / 2 == x / 32
        && x / 32 / 2 == x / 64 && (x / 64) / 2 == y && x % 2 == 1 && (x / 2) % 2 == 1 && (x / 4)
        % 2 == 1 && (x / 8) % 2 == 1 && (x / 16) % 2 == 1 && (x / 32) % 2 == 1 && (x / 64) % 2
        == 0) by (nonlinear_arith)
        requires
            x == y * 128 + 63,
    ;
}

/// The playable cells number 42.
pub proof fn lemma_popcount_board()
    ensures
        popcount(BOARD_MASK) == 42,
{
    lemma_popcount_full_column(0x0);
    lemma_popcount_full_column(0x3f);
    lemma_popcount_full_column(0x1fbf);
    lemma_popcount_full_column(0xfdfbf);
    lemma_popcount_full_column(0x7efdfbf);
    lemma_popcount_full_column(0x3f7efdfbf);
    lemma_popcount_full_column(0x1fbf7efdfbf);
    reveal_with_fuel(popcount, 2);
}

/// A set of stones on the board holds at most 42 of them.
pub proof fn lemma_popcount_bound(x: u64)
    requires
        x & !BOARD_MASK == 0,
    ensures
        popcount(x) <= 42,
{
    lemma_popcount_subset(x, BOARD_MASK);
    lemma_popcount_board();
}

/// The non-losing cells among the playable cells `possible`, the opponent
/// threatening the cells `opponent`: the single blocking cell when one
/// threat is playable, none when two are, and never a cell right under a
/// threat.
pub open spec fn non_losing_cells(possible: u64, opponent: u64) -> u64 {
    let forced = possible & opponent;
    if forced != 0 && forced & ((forced - 1) as u64) != 0 {
        0
    } else if forced != 0 {
        forced & !(opponent >> 1u64)
    } else {
        possible & !(opponent >> 1u64)
    }
}

/// A playable cell `d` outside the non-losing cells leaves the opponent a
/// threat on a cell that is playable once `d` is taken.
pub proof fn lemma_losing_cell(p: u64, o: u64, d: u64)
    by (bit_vector)
    requires
        d != 0,
        d & ((d - 1) as u64) == 0,
        d & !p == 0,
        o & !BOARD_MASK == 0,
        d & non_losing_cells(p, o) == 0,
    ensures
        (o & !d) & ((p & !d) | ((d << 1u64) & BOARD_MASK)) != 0,
{
}

/// The playable cells after taking the playable cell `d`.
pub proof fn lemma_playable_after(m: u64, d: u64)
    by (bit_vector)
    requires
        stacked(m),
        d != 0,
        d & ((d - 1) as u64) == 0,
        d & !playable(m) == 0,
    ensures
        playable(m | d) == (playable(m) & !d) | ((d << 1u64) & BOARD_MASK),
{
}

/// Taking cell `d` removes it from the threats and changes nothing else.
pub proof fn lemma_threats_after(x: u64, m: u64, d: u64)
    by (bit_vector)
    ensures
        x & (BOARD_MASK & !(m | d)) == (x & (BOARD_MASK & !m)) & !d,
{
}

/// A nonzero set of playable cells meets some column.
pub proof fn lemma_some_column(x: u64)
    by (bit_vector)
    requires
        x != 0,
        x & !BOARD_MASK == 0,
    ensures
        x & column_bits(0) != 0 || x & column_bits(1) != 0 || x & column_bits(2) != 0 || x
            & column_bits(3) != 0 || x & column_bits(4) != 0 || x & column_bits(5) != 0 || x
            & column_bits(6) != 0,
{
}

/// A column with a playable cell has room.
pub proof fn lemma_playable_open(m: u64, c: u64)
    by (bit_vector)
    requires
        stacked(m),
        c < 7,
        playable(m) & column_bits(c) != 0,
    ensures
        m & top_mask(c) == 0,
{
}

/// The state `(current, mask, played)` after the side to move drops a stone
/// into column `c`: the sides swap and the column grows by one cell.
pub open spec fn drop_stone(st: (u64, u64, nat), c: u64) -> (u64, u64, nat) {
    (st.0 ^ st.1, st.1 | ((st.1 + bottom_mask(c)) as u64), st.2 + 1)
}

/// Column `c` may be played from state `st` in a move history: it has room
/// and the move does not complete four (such a position would end the game).
pub open spec fn legal_in_history(st: (u64, u64, nat), c: u64) -> bool {
    &&& c < 7
    &&& st.1 & top_mask(c) == 0
    &&& winning_cells(st.0, st.1) & playable(st.1) & column_bits(c) == 0
}

/// The state reached by a move history, one ASCII digit `1`..`7` per move,
/// or `None` when some move is out of range, lands in a full column or wins.
pub open spec fn parse_moves(history: Seq<u8>) -> Option<(u64, u64, nat)>
    decreases history.len(),
{
    if history.len() == 0 {
        Some((0u64, 0u64, 0nat))
    } else {
        match parse_moves(history.drop_last()) {
            None => None,
            Some(st) => {
                let b = history.last();
                if 49 <= b && b <= 55 && legal_in_history(st, (b - 49) as u64) {
                    Some(drop_stone(st, (b - 49) as u64))
                } else {
                    None
                }
            },
        }
    }
}

/// The state reached by dropping one stone per digit of `history` on the
/// empty board, with no check of the moves.
pub open spec fn replay(history: Seq<u8>) -> (u64, u64, nat)
    decreases history.len(),
{
    if history.len() == 0 {
        (0u64, 0u64, 0nat)
    } else {
        drop_stone(replay(history.drop_last()), (history.last() - 49) as u64)
    }
}

/// A history whose prefix is rejected is rejected.
proof fn lemma_parse_prefix(history: Seq<u8>, n: nat)
    requires
        n <= history.len(),
        parse_moves(history.take(n as int)) is None,
    ensures
        parse_moves(history) is None,
    decreases history.len() - n,
{
    if n < history.len() {
        let next = history.take(n as int + 1);
        assert(next.drop_last() =~= history.take(n as int));
        lemma_parse_prefix(history, n + 1);
    } else {
        assert(history.take(n as int) =~= history);
    }
}

/// Parsing a move history and then replaying its digits on the empty board
/// give the same position.
pub proof fn lemma_parse_replays(history: Seq<u8>)
    requires
        parse_moves(history) is Some,
    ensures
        parse_moves(history) == Some(replay(history)),
    decreases history.len(),
{
    if history.len() > 0 {
        lemma_parse_replays(history.drop_last());
    }
}

/// Dropping a stone into column `c` adds exactly one cell to `m`: the
/// lowest empty cell of that column.
proof fn lemma_drop(m: u64, c: u64)
    by (bit_vector)
    requires
        c < 7,
        stacked(m),
        m & top_mask(c) == 0,
    ensures
        m | ((m + bottom_mask(c)) as u64) == m | (playable(m) & column_bits(c)),
        (playable(m) & column_bits(c)) != 0,
        (playable(m) & column_bits(c)) & (((playable(m) & column_bits(c)) - 1) as u64) == 0,
        m & (playable(m) & column_bits(c)) == 0,
        stacked(m | (playable(m) & column_bits(c))),
{
}

/// Adding one playable cell keeps the stones stacked.
proof fn lemma_add_playable(m: u64, b: u64)
    by (bit_vector)
    requires
        stacked(m),
        b != 0,
        b & ((b - 1) as u64) == 0,
        b & !playable(m) == 0,
    ensures
        stacked(m | b),
        m & b == 0,
{
}

proof fn lemma_swap_sides(cur: u64, m: u64, d: u64)
    by (bit_vector)
    requires
        cur & !m == 0,
    ensures
        (cur ^ m) & !(m | d) == 0,
{
}

/// A position: the stones of the side to move, all stones, and the number
/// of moves played so far.
#[derive(Clone, Copy)]
pub struct Board {
    current: u64,
    mask: u64,
    played_moves: usize,
}

impl Board {
    /// Stones of the side to move.
    pub closed spec fn spec_current(self) -> u64 {
        self.current
    }

    /// Every stone on the board.
    pub closed spec fn spec_mask(self) -> u64 {
        self.mask
    }

    /// Moves played so far.
    pub closed spec fn spec_played(self) -> nat {
        self.played_moves as nat
    }

    /// Stones of the side that moved last.
    pub open spec fn spec_opponent(self) -> u64 {
        self.spec_current() ^ self.spec_mask()
    }

    /// The board's invariant: the mover's stones are stones of the board,
    /// the stones are stacked from the bottom inside the playable cells, and
    /// their number is the number of moves played.
    pub open spec fn wf(self) -> bool {
        &&& self.spec_current() & !self.spec_mask() == 0
        &&& stacked(self.spec_mask())
        &&& popcount(self.spec_mask()) == self.spec_played()
    }

    /// Column `c` still has an empty cell.
    pub open spec fn spec_can_play(self, c: u64) -> bool {
        self.spec_mask() & top_mask(c) == 0
    }

    /// The board as a triple: mover's stones, all stones, moves played.
    pub open spec fn state(self) -> (u64, u64, nat) {
        (self.spec_current(), self.spec_mask(), self.spec_played())
    }

    /// The key of the position.
    pub open spec fn spec_key(self) -> u64 {
        (self.spec_current() + self.spec_mask()) as u64
    }

    /// The cells where the side to move would complete four.
    pub open spec fn spec_current_winning(self) -> u64 {
        winning_cells(self.spec_current(), self.spec_mask())
    }

    /// The cells where the side that moved last would complete four.
    pub open spec fn spec_opponent_winning(self) -> u64 {
        winning_cells(self.spec_opponent(), self.spec_mask())
    }

    /// Playing column `c` completes four for the side to move.
    pub open spec fn spec_is_winning(self, c: u64) -> bool {
        self.spec_current_winning() & playable(self.spec_mask()) & column_bits(c) != 0
    }

    /// The moves that do not let the opponent win at once: the single
    /// blocking move when the opponent has one playable threat, none when it
    /// has two or more, and in every case no cell right under an opponent
    /// threat.
    pub open spec fn spec_non_losing(self) -> u64 {
        non_losing_cells(playable(self.spec_mask()), self.spec_opponent_winning())
    }

    /// The empty board.
    pub fn new() -> (r: Self)
        ensures
            r.wf(),
            r.spec_current() == 0,
            r.spec_mask() == 0,
            r.spec_played() == 0,
    {
        proof {
            lemma_empty_state();
        }
        Board { current: 0, mask: 0, played_moves: 0 }
    }

    /// A well-formed board has at most 42 stones.
    pub proof fn lemma_played_bound(self)
        requires
            self.wf(),
        ensures
            self.spec_played() <= 42,
            self.spec_current() & !BOARD_MASK == 0,
            self.spec_opponent() & !BOARD_MASK == 0,
    {
        lemma_popcount_bound(self.spec_mask());
        let c = self.spec_current();
        let m = self.spec_mask();
        assert(c & !m == 0 && m & !BOARD_MASK == 0 ==> c & !BOARD_MASK == 0 && (c ^ m)
            & !BOARD_MASK == 0) by (bit_vector);
    }

    /// Whether column `colm` has room for another stone.
    pub fn can_play(&self, colm: usize) -> (r: bool)
        requires
            colm < WIDTH,
        ensures
            r == self.spec_can_play(colm as u64),
    {
        (self.mask & top_mask_colm(colm)) == 0
    }

    /// Drops a stone of the side to move into column `colm`.
    pub fn play(&mut self, colm: usize)
        requires
            old(self).wf(),
            colm < WIDTH,
            old(self).spec_can_play(colm as u64),
        ensures
            final(self).wf(),
            final(self).state() == drop_stone(old(self).state(), colm as u64),
            final(self).spec_mask() == old(self).spec_mask() | (playable(old(self).spec_mask())
                & column_bits(colm as u64)),
    {
        proof {
            self.lemma_played_bound();
            lemma_drop(self.mask, colm as u64);
            let d = playable(self.mask) & column_bits(colm as u64);
            lemma_popcount_add_bit(self.mask, d);
            lemma_swap_sides(self.current, self.mask, d);
            lemma_popcount_bound(self.mask | d);
        }
        let bottom = bottom_mask_colm(colm);
        let m = self.mask;
        proof {
            let c = colm as u64;
            assert(m + bottom < 0x2_0000_0000_0000) by (bit_vector)
                requires
                    m & !BOARD_MASK == 0,
                    bottom == bottom_mask(c),
                    c < 7,
            ;
        }
        let ghost c0 = self.current;
        let ghost m0 = self.mask;
        self.current = self.mask ^ self.current;
        self.mask = self.mask | (self.mask + bottom);
        self.played_moves = self.played_moves + 1;
        proof {
            assert(m0 ^ c0 == c0 ^ m0) by (bit_vector);
        }
    }

    /// Plays the stone given as a single bit among the playable cells.
    pub fn play_move(&mut self, mov: u64)
        requires
            old(self).wf(),
            mov != 0,
            mov & ((mov - 1) as u64) == 0,
            mov & !playable(old(self).spec_mask()) == 0,
        ensures
            final(self).wf(),
            final(self).spec_current() == old(self).spec_current() ^ old(self).spec_mask(),
            final(self).spec_mask() == old(self).spec_mask() | mov,
            final(self).spec_played() == old(self).spec_played() + 1,
    {
        proof {
            self.lemma_played_bound();
            lemma_add_playable(self.mask, mov);
            lemma_popcount_add_bit(self.mask, mov);
            lemma_swap_sides(self.current, self.mask, mov);
            lemma_popcount_bound(self.mask | mov);
        }
        let ghost c0 = self.current;
        let ghost m0 = self.mask;
        self.current = self.mask ^ self.current;
        self.mask = self.mask | mov;
        self.played_moves = self.played_moves + 1;
        proof {
            assert(m0 ^ c0 == c0 ^ m0) by (bit_vector);
        }
    }

    /// The key of the position: `current + mask`.
    pub fn key(&self) -> (r: u64)
        requires
            self.wf(),
        ensures
            r == self.spec_key(),
            r < 0x2_0000_0000_0000,
    {
        proof {
            self.lemma_played_bound();
            let c = self.current;
            let m = self.mask;
            assert(c & !BOARD_MASK == 0 && m & !BOARD_MASK == 0 ==> c + m < 0x2_0000_0000_0000)
                by (bit_vector);
        }
        self.current + self.mask
    }

    /// The cells where a stone can be dropped now.
    fn possible(&self) -> (r: u64)
        requires
            self.wf(),
        ensures
            r == playable(self.spec_mask()),
    {
        proof {
            let m = self.mask;
            assert(m & !BOARD_MASK == 0 ==> m + BOTTOM_MASK < 0x2_0000_0000_0000) by (bit_vector);
        }
        (self.mask + BOTTOM_MASK) & BOARD_MASK
    }

    fn current_winning_moves(&self) -> (r: u64)
        requires
            self.wf(),
        ensures
            r == self.spec_current_winning(),
    {
        proof {
            self.lemma_played_bound();
        }
        compute_winning_position(self.current, self.mask)
    }

    fn opponent_winning_moves(&self) -> (r: u64)
        requires
            self.wf(),
        ensures
            r == self.spec_opponent_winning(),
    {
        proof {
            self.lemma_played_bound();
        }
        compute_winning_position(self.current ^ self.mask, self.mask)
    }

    /// Whether playing column `colm` completes four in a row for the side
    /// to move.
    pub fn is_winning(&self, colm: usize) -> (r: bool)
        requires
            self.wf(),
            colm < WIDTH,
        ensures
            r == self.spec_is_winning(colm as u64),
    {
        (self.current_winning_moves() & self.possible() & column_mask(colm)) != 0
    }

    /// Whether the side to move has a move that wins at once.
    pub fn can_win_next(&self) -> (r: bool)
        requires
            self.wf(),
        ensures
            r == (self.spec_current_winning() & playable(self.spec_mask()) != 0),
    {
        self.current_winning_moves() & self.possible() != 0
    }

    /// The playable cells that do not hand the opponent an immediate win.
    pub fn possible_non_losing_moves(&self) -> (r: u64)
        requires
            self.wf(),
        ensures
            r == self.spec_non_losing(),
    {
        let mut possible = self.possible();
        let opponent_winning = self.opponent_winning_moves();
        // a threat of the opponent on a playable cell must be blocked
        let forced = possible & opponent_winning;
        if forced != 0 {
            if forced & (forced - 1) != 0 {
                // two threats: the game is lost
                return 0;
            } else {
                possible = forced;
            }
        }
        // never play right under a threat of the opponent
        possible & !(opponent_winning >> 1u64)
    }

    /// Heuristic value of playing the cell `mov`, as a spec.
    pub open spec fn score_spec(self, mov: u64) -> i32 {
        popcount(winning_cells(self.spec_current() | mov, self.spec_mask())) as i32
    }

    /// Heuristic value of playing the cell `mov`: how many threats the side
    /// to move would then have.
    pub fn score(&self, mov: u64) -> (r: i32)
        ensures
            r == popcount(winning_cells(self.spec_current() | mov, self.spec_mask())),
            r == self.score_spec(mov),
    {
        popcount_bits(compute_winning_position(self.current | mov, self.mask))
    }

    /// Number of moves played so far.
    pub fn played_moves(&self) -> (r: usize)
        ensures
            r == self.spec_played(),
    {
        self.played_moves
    }
}

/// The bit of the top playable cell of column `colm`.
fn top_mask_colm(colm: usize) -> (r: u64)
    requires
        colm < WIDTH,
    ensures
        r == top_mask(colm as u64),
{
    let r = (1u64 << 5u64) << (colm as u64 * 7);
    proof {
        let c = colm as u64;
        assert(c < 7 ==> (1u64 << 5u64) << (c * 7) == 1u64 << (7 * c + 5)) by (bit_vector);
    }
    r
}

/// The bit of the bottom cell of column `colm`.
fn bottom_mask_colm(colm: usize) -> (r: u64)
    requires
        colm < WIDTH,
    ensures
        r == bottom_mask(colm as u64),
{
    1u64 << (colm as u64 * 7)
}

/// The six playable cells of column `colm`.
pub fn column_mask(colm: usize) -> (r: u64)
    requires
        colm < WIDTH,
    ensures
        r == column_bits(colm as u64),
{
    63u64 << (colm as u64 * 7)
}

/// Two to the power `k`.
spec fn pow2(k: nat) -> nat
    decreases k,
{
    if k == 0 {
        1
    } else {
        2 * pow2((k - 1) as nat)
    }
}

proof fn lemma_popcount_below(x: u64, k: nat)
    requires
        x < pow2(k),
    ensures
        popcount(x) <= k,
    decreases k,
{
    lemma_popcount_unfold(x);
    if k > 0 {
        assert(x / 2 < pow2((k - 1) as nat));
        lemma_popcount_below(x / 2, (k - 1) as nat);
    }
}

/// A 64-bit word has at most 64 set bits.
proof fn lemma_popcount_word(x: u64)
    ensures
        popcount(x) <= 64,
{
    reveal_with_fuel(pow2, 65);
    assert(pow2(64) == 0x1_0000_0000_0000_0000);
    lemma_popcount_below(x, 64);
}

/// Number of set bits of a word.
fn popcount_bits(mask: u64) -> (r: i32)
    ensures
        r == popcount(mask),
        0 <= r <= 64,
{
    let ghost all = mask;
    let mut rest: u64 = mask;
    let mut count: i32 = 0;
    proof {
        lemma_popcount_word(mask);
    }
    while rest != 0
        invariant
            count + popcount(rest) == popcount(all),
            popcount(all) <= 64,
            count >= 0,
        decreases rest,
    {
        proof {
            lemma_popcount_clear_lowest(rest);
            assert(rest != 0 ==> rest & ((rest - 1) as u64) < rest) by (bit_vector);
        }
        rest = rest & (rest - 1);
        count = count + 1;
    }
    count
}


/// A move history that does not describe a position; it keeps the text.
pub struct ParsingBoardErr {
    msg: String,
}

impl ParsingBoardErr {
    /// The rejected move history.
    pub closed spec fn spec_msg(&self) -> Seq<char> {
        self.msg@
    }

    /// The rejected move history.
    pub fn message(&self) -> (r: &str)
        ensures
            r@ == self.spec_msg(),
    {
        self.msg.as_str()
    }
}

impl Board {
    /// Replays a move history given as bytes: each ASCII digit `1`..`7` is
    /// the column of one move, in order. `None` when a move is out of range,
    /// lands in a full column or wins.
    pub fn from_history(bytes: &[u8]) -> (r: Option<Board>)
        ensures
            match r {
                Some(b) => b.wf() && parse_moves(bytes@) == Some(b.state()),
                None => parse_moves(bytes@) is None,
            },
    {
        let mut board = Board::new();
        let mut i: usize = 0;
        proof {
            assert(bytes@.take(0) =~= Seq::<u8>::empty());
        }
        while i < bytes.len()
            invariant
                i <= bytes@.len(),
                board.wf(),
                parse_moves(bytes@.take(i as int)) == Some(board.state()),
            decreases bytes@.len() - i,
        {
            let ch = bytes[i];
            proof {
                assert(bytes@.take(i as int + 1).drop_last() =~= bytes@.take(i as int));
            }
            if ch < 49 || ch > 55 {
                proof {
                    lemma_parse_prefix(bytes@, (i + 1) as nat);
                }
                return None;
            }
            let colm = (ch - 49) as usize;
            if !board.can_play(colm) || board.is_winning(colm) {
                proof {
                    lemma_parse_prefix(bytes@, (i + 1) as nat);
                }
                return None;
            }
            board.play(colm);
            i = i + 1;
        }
        proof {
            assert(bytes@.take(i as int) =~= bytes@);
        }
        Some(board)
    }

    /// Reads a move history such as `"4453"`: each ASCII digit `1`..`7` is
    /// the column of one move, in order.
    pub fn parse(encoded_board: &str) -> (r: Result<Board, ParsingBoardErr>)
        ensures
            match r {
                Ok(b) => b.wf() && parse_moves(encoded_board.spec_bytes()) == Some(b.state()),
                Err(e) => parse_moves(encoded_board.spec_bytes()) is None && e.spec_msg()
                    == encoded_board@,
            },
    {
        match Board::from_history(encoded_board.as_bytes()) {
            Some(board) => Ok(board),
            None => Err(ParsingBoardErr { msg: encoded_board.to_owned() }),
        }
    }
}

impl std::str::FromStr for Board {
    type Err = ParsingBoardErr;

    fn from_str(encoded_board: &str) -> Result<Self, Self::Err> {
        Board::parse(encoded_board)
    }
}

/// Every board reached from the empty board by `new`, `play`, `play_move`
/// or `parse` is well formed, and then: the mover's stones are stones of
/// the board, the number of stones is the number of moves, and no stone lies
/// outside the playable cells.
pub proof fn lemma_board_invariant(b: Board)
    requires
        b.wf(),
    ensures
        b.spec_current() & !b.spec_mask() == 0,
        popcount(b.spec_mask()) == b.spec_played(),
        b.spec_mask() & !BOARD_MASK == 0,
        b.spec_current() & !BOARD_MASK == 0,
        b.spec_played() <= 42,
{
    b.lemma_played_bound();
}

/// Two well-formed boards with the same number of moves and the same key
/// are the same position.
pub proof fn lemma_key_injective(a: Board, b: Board)
    requires
        a.wf(),
        b.wf(),
        a.spec_played() == b.spec_played(),
        a.spec_key() == b.spec_key(),
    ensures
        a.spec_current() == b.spec_current(),
        a.spec_mask() == b.spec_mask(),
{
    lemma_key_encoding(a.spec_current(), a.spec_mask(), b.spec_current(), b.spec_mask());
}

/// Equal keys of well-formed states mean equal stones.
pub proof fn lemma_key_encoding(c1: u64, m1: u64, c2: u64, m2: u64)
    by (bit_vector)
    requires
        c1 & !m1 == 0,
        c2 & !m2 == 0,
        stacked(m1),
        stacked(m2),
        (c1 + m1) as u64 == (c2 + m2) as u64,
    ensures
        c1 == c2,
        m1 == m2,
{
}

/// The moves kept by `possible_non_losing_moves` are playable cells.
pub proof fn lemma_non_losing_are_possible(b: Board)
    requires
        b.wf(),
    ensures
        b.spec_non_losing() & !playable(b.spec_mask()) == 0,
{
    let p = playable(b.spec_mask());
    let o = b.spec_opponent_winning();
    assert(((p & o) != 0 && (p & o) & (((p & o) - 1) as u64) != 0 ==> 0u64 & !p == 0) && ((p & o)
        != 0 ==> ((p & o) & !(o >> 1u64)) & !p == 0) && (p & !(o >> 1u64)) & !p == 0)
        by (bit_vector);
}

/// The detector only reports empty cells.
pub proof fn lemma_threats_on_empty_cells(position: u64, mask: u64)
    ensures
        winning_cells(position, mask) & mask == 0,
{
    let w = (position << 1u64) & (position << 2u64) & (position << 3u64) | aligned_along(
        position,
        7,
    ) | aligned_along(position, 6) | aligned_along(position, 8);
    assert((w & (BOARD_MASK & !mask)) & mask == 0) by (bit_vector);
}

/// The cells of `x` in column `c`, when `x` holds only playable cells, are
/// no cell or a single playable cell.
pub proof fn lemma_column_move(mask: u64, x: u64, c: u64)
    by (bit_vector)
    requires
        stacked(mask),
        x & !playable(mask) == 0,
        c < 7,
    ensures
        (x & column_bits(c)) == 0 || (x & column_bits(c)) & (((x & column_bits(c)) - 1) as u64)
            == 0,
        (x & column_bits(c)) & !playable(mask) == 0,
        (x & column_bits(c)) & !BOARD_MASK == 0,
{
}

/// Four stones of `p` at `start`, `start + s`, `start + 2s`, `start + 3s`.
/// On stones of the playable cells and with `s` one of 1 (vertical), 7
/// (horizontal), 6 and 8 (the diagonals), these are four cells in a row:
/// a step that would leave the board lands on a sentinel row or beyond.
pub open spec fn line_of_four(p: u64, start: u64, s: u64) -> bool {
    bit(p, start) && bit(p, (start + s) as u64) && bit(p, (start + 2 * s) as u64) && bit(
        p,
        (start + 3 * s) as u64,
    )
}

/// The stones `p` hold a line of four that passes through cell `i`.
pub open spec fn four_through(p: u64, i: u64) -> bool {
    exists|s: u64, k: u64|
        (s == 1 || s == 6 || s == 7 || s == 8) && k < 4 && i >= k * s && #[trigger] line_of_four(
            p,
            (i - k * s) as u64,
            s,
        )
}

proof fn lemma_bit_added(p: u64, i: u64, j: u64)
    by (bit_vector)
    requires
        i < 64,
    ensures
        bit(p | (1u64 << i), j) == (bit(p, j) || j == i),
{
}

proof fn lemma_single_bit(d: u64, i: u64)
    by (bit_vector)
    requires
        d & ((d - 1) as u64) == 0,
        i < 64,
        bit(d, i),
    ensures
        d == 1u64 << i,
{
}

proof fn lemma_above_empty(m: u64, i: u64)
    by (bit_vector)
    requires
        stacked(m),
        bit(BOARD_MASK, i),
        !bit(m, i),
    ensures
        !bit(m, (i + 1) as u64),
{
}

proof fn lemma_stones_after_drop(cur: u64, m: u64, d: u64)
    by (bit_vector)
    requires
        cur & !m == 0,
        m & d == 0,
    ensures
        (cur ^ m) ^ (m | d) == cur | d,
{
}

/// Completing a line at the empty playable cell `i` is having, once a stone
/// is on `i`, a line of four through it. The cell above `i` is empty, so a
/// vertical line can only run downwards.
proof fn lemma_completes_line_iff_four(cur: u64, m: u64, i: u64)
    requires
        cur & !m == 0,
        stacked(m),
        i < 64,
        bit(BOARD_MASK, i),
        !bit(m, i),
    ensures
        completes_line(cur, i) <==> four_through(cur | (1u64 << i), i),
{
    let q = cur | (1u64 << i);
    assert forall|j: u64| #[trigger] bit(q, j) == (bit(cur, j) || j == i) by {
        lemma_bit_added(cur, i, j);
    }
    lemma_above_empty(m, i);
    assert(!bit(cur, (i + 1) as u64)) by {
        assert(cur & !m == 0 && !bit(m, (i + 1) as u64) && i < 63 ==> !bit(cur, (i + 1) as u64))
            by (bit_vector);
        lemma_bit_in_board_or_last(i);
    }
    if completes_line(cur, i) {
        if i >= 3 && bit(cur, (i - 1) as u64) && bit(cur, (i - 2) as u64) && bit(cur, (i - 3) as u64) {
            assert(line_of_four(q, (i - 3 * 1) as u64, 1));
        } else {
            let s: u64 = if completes_line_along(cur, i, 7) {
                7
            } else if completes_line_along(cur, i, 6) {
                6
            } else {
                8
            };
            assert(completes_line_along(cur, i, s));
            if i >= 3 * s && bit(cur, (i - s) as u64) && bit(cur, (i - 2 * s) as u64) && bit(
                cur,
                (i - 3 * s) as u64,
            ) {
                assert(line_of_four(q, (i - 3 * s) as u64, s));
            } else if i >= 2 * s && bit(cur, (i + s) as u64) && bit(cur, (i - s) as u64) && bit(
                cur,
                (i - 2 * s) as u64,
            ) {
                assert(line_of_four(q, (i - 2 * s) as u64, s));
            } else if i >= s && bit(cur, (i + s) as u64) && bit(cur, (i + 2 * s) as u64) && bit(
                cur,
                (i - s) as u64,
            ) {
                assert(line_of_four(q, (i - 1 * s) as u64, s));
            } else {
                assert(line_of_four(q, (i - 0 * s) as u64, s));
            }
        }
    }
    if four_through(q, i) {
        let (s, k) = choose|s: u64, k: u64|
            (s == 1 || s == 6 || s == 7 || s == 8) && k < 4 && i >= k * s && #[trigger] line_of_four(
                q,
                (i - k * s) as u64,
                s,
            );
        let start = (i - k * s) as u64;
        assert(line_of_four(q, start, s));
        if s == 1 {
            if k < 3 {
                let j = (i + 1) as u64;
                if k == 0 {
                    assert(start == i);
                    assert(bit(q, (start + s) as u64));
                } else if k == 1 {
                    assert(start == i - 1);
                    assert(bit(q, (start + 2 * s) as u64));
                } else {
                    assert(start == i - 2);
                    assert(bit(q, (start + 3 * s) as u64));
                }
                assert(bit(q, j));
                assert(false);
            }
        } else {
            assert(completes_line_along(cur, i, s)) by {
                if k == 0 {
                    assert(start == i);
                    assert(bit(cur, (start + s) as u64) && bit(cur, (start + 2 * s) as u64) && bit(
                        cur,
                        (start + 3 * s) as u64,
                    ));
                } else if k == 1 {
                    assert(start == i - s);
                    assert(bit(cur, start) && bit(cur, (start + 2 * s) as u64) && bit(
                        cur,
                        (start + 3 * s) as u64,
                    ));
                } else if k == 2 {
                    assert(start == i - 2 * s);
                    assert(bit(cur, start) && bit(cur, (start + s) as u64) && bit(
                        cur,
                        (start + 3 * s) as u64,
                    ));
                } else {
                    assert(start == i - 3 * s);
                    assert(bit(cur, start) && bit(cur, (start + s) as u64) && bit(
                        cur,
                        (start + 2 * s) as u64,
                    ));
                }
            }
        }
    }
}

proof fn lemma_bit_in_board_or_last(i: u64)
    by (bit_vector)
    requires
        bit(BOARD_MASK, i),
    ensures
        i < 63,
{
}

/// Playing column `c` is winning exactly when, after the move, the player
/// who made it has a line of four through the stone just played, at cell
/// `i`.
pub proof fn lemma_is_winning_iff_four(b: Board, c: u64, i: u64)
    requires
        b.wf(),
        c < 7,
        b.spec_can_play(c),
        i < 64,
        bit(playable(b.spec_mask()) & column_bits(c), i),
    ensures
        b.spec_is_winning(c) <==> four_through(
            drop_stone(b.state(), c).0 ^ drop_stone(b.state(), c).1,
            i,
        ),
{
    let cur = b.spec_current();
    let m = b.spec_mask();
    let d = playable(m) & column_bits(c);
    b.lemma_played_bound();
    lemma_drop(m, c);
    lemma_single_bit(d, i);
    lemma_stones_after_drop(cur, m, d);
    lemma_winning_cells_bit(cur, m, i);
    let w = winning_cells(cur, m);
    assert(bit(w, i) == (w & playable(m) & column_bits(c) != 0)) by (bit_vector)
        requires
            d == playable(m) & column_bits(c),
            d == 1u64 << i,
            i < 64,
    ;
    assert(bit(BOARD_MASK, i) && !bit(m, i)) by (bit_vector)
        requires
            bit(playable(m) & column_bits(c), i),
            m & (playable(m) & column_bits(c)) == 0,
            i < 64,
    ;
    lemma_completes_line_iff_four(cur, m, i);
}

/// A stacked mask lies in the playable cells.
pub proof fn lemma_stacked_in_board(m: u64)
    requires
        stacked(m),
    ensures
        m & !BOARD_MASK == 0,
{
}

/// Dropping a stone on a well-formed state, at the level of states.
pub proof fn lemma_drop_state(cur: u64, m: u64, c: u64)
    requires
        cur & !m == 0,
        stacked(m),
        c < 7,
        m & top_mask(c) == 0,
    ensures
        m | ((m + bottom_mask(c)) as u64) == m | (playable(m) & column_bits(c)),
        (playable(m) & column_bits(c)) != 0,
        (playable(m) & column_bits(c)) & (((playable(m) & column_bits(c)) - 1) as u64) == 0,
        m & (playable(m) & column_bits(c)) == 0,
        (cur ^ m) & !(m | ((m + bottom_mask(c)) as u64)) == 0,
        stacked(m | ((m + bottom_mask(c)) as u64)),
        popcount(m | ((m + bottom_mask(c)) as u64)) == popcount(m) + 1,
{
    lemma_drop(m, c);
    let d = playable(m) & column_bits(c);
    lemma_popcount_add_bit(m, d);
    lemma_swap_sides(cur, m, d);
}

/// The move of column `c` among the cells `nl`, which are playable cells
/// of the mask `sm`: a playable cell when it is not empty, the column's one
/// playable cell, and no move at all when `nl` is empty.
pub proof fn lemma_move_in_column(nl: u64, sm: u64, c: u64, mv: u64)
    by (bit_vector)
    requires
        mv == nl & column_bits(c),
        nl & !playable(sm) == 0,
    ensures
        mv & !playable(sm) == 0,
        nl & !BOARD_MASK == 0,
        mv != 0 ==> playable(sm) & column_bits(c) != 0,
        mv != 0 && (playable(sm) & column_bits(c)) & (((playable(sm) & column_bits(c)) - 1) as u64)
            == 0 ==> mv == playable(sm) & column_bits(c),
        nl == 0 ==> mv == 0,
{
}

/// The empty board is well formed.
pub proof fn lemma_empty_state()
    ensures
        stacked(0),
        0u64 & !0u64 == 0,
        popcount(0) == 0,
{
    assert(stacked(0) && 0u64 & !0u64 == 0) by (bit_vector);
    reveal_with_fuel(popcount, 1);
}

} // verus!
