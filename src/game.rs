use vstd::prelude::*;
use crate::board::{
    BOARD_MASK, bit, stacked, popcount, top_mask, bottom_mask, column_bits, playable,
    winning_cells, line_cells, drop_stone, lemma_popcount_bound, non_losing_cells,
    lemma_losing_cell, lemma_playable_after, lemma_threats_after, lemma_some_column,
    lemma_playable_open, legal_in_history, parse_moves,
};

verus! {

/// A state `(current, mask, played)` that a well-formed board can have.
pub open spec fn state_wf(st: (u64, u64, nat)) -> bool {
    &&& st.0 & !st.1 == 0
    &&& stacked(st.1)
    &&& popcount(st.1) == st.2
}

/// The key of a state: `current + mask`.
pub open spec fn key_of(st: (u64, u64, nat)) -> u64 {
    (st.0 + st.1) as u64
}

/// Column `c` of the state has room.
pub open spec fn st_can_play(st: (u64, u64, nat), c: u64) -> bool {
    st.1 & top_mask(c) == 0
}

/// Playing column `c` completes four for the side to move.
pub open spec fn st_wins_with(st: (u64, u64, nat), c: u64) -> bool {
    winning_cells(st.0, st.1) & playable(st.1) & column_bits(c) != 0
}

/// The side to move can complete four at once.
pub open spec fn st_has_win(st: (u64, u64, nat)) -> bool {
    exists|c: u64| c < 7 && st_can_play(st, c) && #[trigger] st_wins_with(st, c)
}

/// The game value of a position for the side to move, under perfect play:
/// 0 when the board is full, `(43 - n) / 2` when the side to move wins at
/// once (`n` stones down), else the best of minus the values of the
/// positions after each playable column.
pub open spec fn value(st: (u64, u64, nat)) -> int
    decreases 42 - st.2, 8int,
{
    if st.2 >= 42 {
        0
    } else if st_has_win(st) {
        (43 - st.2) / 2
    } else {
        best(st, 0)
    }
}

/// The best of minus the child values over the playable columns `c..7`;
/// -100 when there is none.
pub open spec fn best(st: (u64, u64, nat), c: u64) -> int
    decreases 42 - st.2, 7 - c,
{
    if c >= 7 || st.2 >= 42 {
        -100
    } else {
        let rest = best(st, (c + 1) as u64);
        if st_can_play(st, c) {
            let u = -value(drop_stone(st, c));
            if u > rest {
                u
            } else {
                rest
            }
        } else {
            rest
        }
    }
}

/// The best value is at least that of each playable column.
pub proof fn lemma_best_ge(st: (u64, u64, nat), c0: u64, c: u64)
    requires
        c0 <= c < 7,
        st.2 < 42,
        st_can_play(st, c),
    ensures
        best(st, c0) >= -value(drop_stone(st, c)),
    decreases 7 - c0,
{
    if c0 < c {
        lemma_best_ge(st, (c0 + 1) as u64, c);
    }
}

/// The best value is at most any bound of all playable columns.
pub proof fn lemma_best_le(st: (u64, u64, nat), c0: u64, x: int)
    requires
        c0 <= 7,
        x >= -100,
        forall|c: u64| c0 <= c < 7 && st_can_play(st, c) ==> -value(drop_stone(st, c)) <= x,
    ensures
        best(st, c0) <= x,
    decreases 7 - c0,
{
    if c0 < 7 {
        lemma_best_le(st, (c0 + 1) as u64, x);
    }
}

proof fn lemma_full_board(m: u64)
    by (bit_vector)
    requires
        stacked(m),
        m & top_mask(0) != 0,
        m & top_mask(1) != 0,
        m & top_mask(2) != 0,
        m & top_mask(3) != 0,
        m & top_mask(4) != 0,
        m & top_mask(5) != 0,
        m & top_mask(6) != 0,
    ensures
        m == BOARD_MASK,
{
}

/// A well-formed state with fewer than 42 stones has an open column.
pub proof fn lemma_open_column(st: (u64, u64, nat))
    requires
        state_wf(st),
        st.2 < 42,
    ensures
        exists|c: u64| c < 7 && #[trigger] st_can_play(st, c),
{
    if forall|c: u64| c < 7 ==> !#[trigger] st_can_play(st, c) {
        assert(!st_can_play(st, 0) && !st_can_play(st, 1) && !st_can_play(st, 2) && !st_can_play(
            st,
            3,
        ) && !st_can_play(st, 4) && !st_can_play(st, 5) && !st_can_play(st, 6));
        lemma_full_board(st.1);
        lemma_popcount_bound(st.1);
        crate::board::lemma_popcount_board();
    }
}

/// Dropping a stone keeps a state well formed.
pub proof fn lemma_drop_wf(st: (u64, u64, nat), c: u64)
    requires
        state_wf(st),
        c < 7,
        st_can_play(st, c),
    ensures
        state_wf(drop_stone(st, c)),
        drop_stone(st, c).1 == st.1 | (playable(st.1) & column_bits(c)),
{
    crate::board::lemma_drop_state(st.0, st.1, c);
}

/// Every value lies between losing at the opponent's next stone and winning
/// with one's own next stone; without an immediate win, the side to move
/// cannot win before its stone after next.
pub proof fn lemma_value_bounds(st: (u64, u64, nat))
    requires
        state_wf(st),
    ensures
        st.2 <= 42,
        -((42 - st.2) / 2) <= value(st) <= (43 - st.2) / 2,
        st.2 < 42 && !st_has_win(st) ==> value(st) <= (41 - st.2) / 2,
    decreases 42 - st.2,
{
    lemma_popcount_bound(st.1);
    crate::board::lemma_stacked_in_board(st.1);
    if st.2 < 42 && !st_has_win(st) {
        let n = st.2;
        assert forall|c: u64| 0 <= c < 7 && st_can_play(st, c) implies -value(
            drop_stone(st, c),
        ) <= (41 - n) / 2 && -value(drop_stone(st, c)) >= -((42 - n) / 2) by {
            lemma_drop_wf(st, c);
            lemma_value_bounds(drop_stone(st, c));
        }
        lemma_best_le(st, 0, (41 - n) / 2);
        lemma_open_column(st);
        let c = choose|c: u64| c < 7 && #[trigger] st_can_play(st, c);
        lemma_best_ge(st, 0, c);
    }
}

/// Two well-formed states with the same key are the same state.
pub proof fn lemma_state_key_injective(a: (u64, u64, nat), b: (u64, u64, nat))
    requires
        state_wf(a),
        state_wf(b),
        key_of(a) == key_of(b),
    ensures
        a == b,
{
    crate::board::lemma_key_encoding(a.0, a.1, b.0, b.1);
}

/// The cells where the side to move can play without letting the opponent
/// win at once.
pub open spec fn st_non_losing(st: (u64, u64, nat)) -> u64 {
    non_losing_cells(playable(st.1), winning_cells(st.0 ^ st.1, st.1))
}

/// A playable column with no non-losing cell lets the opponent win at once:
/// the position after it has the value of the opponent's immediate win.
pub proof fn lemma_losing_move(st: (u64, u64, nat), c: u64)
    requires
        state_wf(st),
        st.2 < 42,
        c < 7,
        st_can_play(st, c),
        st_non_losing(st) & column_bits(c) == 0,
    ensures
        value(drop_stone(st, c)) == (42 - st.2) / 2,
{
    let cur = st.0;
    let m = st.1;
    let opp = cur ^ m;
    let p = playable(m);
    let o = winning_cells(opp, m);
    let d = p & column_bits(c);
    crate::board::lemma_drop_state(cur, m, c);
    lemma_drop_wf(st, c);
    let child = drop_stone(st, c);
    assert(child.1 == m | d);
    let nl = st_non_losing(st);
    let lo = line_cells(opp);
    let cb = column_bits(c);
    assert(d & nl == 0 && d & !p == 0 && o & !BOARD_MASK == 0) by (bit_vector)
        requires
            d == p & cb,
            nl & cb == 0,
            o == lo & (BOARD_MASK & !m),
    ;
    lemma_losing_cell(p, o, d);
    lemma_playable_after(m, d);
    lemma_threats_after(line_cells(opp), m, d);
    let cm = child.1;
    let x = winning_cells(opp, cm) & playable(cm);
    assert(x != 0);
    assert(x & !BOARD_MASK == 0) by (bit_vector)
        requires
            x == winning_cells(opp, cm) & playable(cm),
    ;
    lemma_some_column(x);
    if child.2 < 42 {
        assert(st_has_win(child)) by {
            let k: u64 = if x & column_bits(0) != 0 {
                0
            } else if x & column_bits(1) != 0 {
                1
            } else if x & column_bits(2) != 0 {
                2
            } else if x & column_bits(3) != 0 {
                3
            } else if x & column_bits(4) != 0 {
                4
            } else if x & column_bits(5) != 0 {
                5
            } else {
                6
            };
            assert(x & column_bits(k) != 0);
            let w = winning_cells(opp, cm);
            let pp = playable(cm);
            assert(pp & column_bits(k) != 0) by (bit_vector)
                requires
                    (w & pp) & column_bits(k) != 0,
            ;
            lemma_playable_open(cm, k);
            assert(st_wins_with(child, k));
        }
    }
}

/// When every open column of `c0..7` has a child value above -100 and one
/// of them is open, the best value is reached by one of them.
proof fn lemma_best_attained(st: (u64, u64, nat), c0: u64)
    requires
        c0 < 7,
        st.2 < 42,
        exists|c: u64| c0 <= c < 7 && #[trigger] st_can_play(st, c),
        forall|c: u64| c0 <= c < 7 && st_can_play(st, c) ==> -value(#[trigger] drop_stone(st, c)) > -100,
    ensures
        exists|d: u64|
            c0 <= d < 7 && st_can_play(st, d) && best(st, c0) == -value(#[trigger] drop_stone(st, d)),
    decreases 7 - c0,
{
    let rest = best(st, (c0 + 1) as u64);
    if c0 + 1 < 7 && exists|c: u64| c0 + 1 <= c < 7 && #[trigger] st_can_play(st, c) {
        lemma_best_attained(st, (c0 + 1) as u64);
        let d = choose|d: u64|
            c0 + 1 <= d < 7 && st_can_play(st, d) && rest == -value(#[trigger] drop_stone(st, d));
        if st_can_play(st, c0) && -value(drop_stone(st, c0)) > rest {
            assert(best(st, c0) == -value(drop_stone(st, c0)));
        } else {
            assert(best(st, c0) == -value(drop_stone(st, d)));
        }
    } else {
        lemma_best_none(st, (c0 + 1) as u64);
        let c = choose|c: u64| c0 <= c < 7 && #[trigger] st_can_play(st, c);
        assert(c == c0);
        assert(best(st, c0) == -value(drop_stone(st, c0)));
    }
}

proof fn lemma_best_none(st: (u64, u64, nat), c0: u64)
    requires
        c0 <= 7,
        forall|d: u64| c0 <= d < 7 ==> !#[trigger] st_can_play(st, d),
    ensures
        best(st, c0) == -100,
    decreases 7 - c0,
{
    if c0 < 7 {
        lemma_best_none(st, (c0 + 1) as u64);
    }
}

/// Negamax symmetry: without an immediate win, the value of a position is
/// at least minus the value after each playable column, and equal to it
/// after a best one.
pub proof fn lemma_value_of_best_move(st: (u64, u64, nat))
    requires
        state_wf(st),
        st.2 < 42,
        !st_has_win(st),
    ensures
        forall|c: u64| c < 7 && st_can_play(st, c) ==> value(st) >= -value(#[trigger] drop_stone(st, c)),
        exists|c: u64| c < 7 && st_can_play(st, c) && value(st) == -value(#[trigger] drop_stone(st, c)),
{
    assert forall|c: u64| c < 7 && st_can_play(st, c) implies value(st) >= -value(
        #[trigger] drop_stone(st, c),
    ) && -value(drop_stone(st, c)) > -100 by {
        lemma_best_ge(st, 0, c);
        lemma_drop_wf(st, c);
        lemma_value_bounds(drop_stone(st, c));
    }
    lemma_open_column(st);
    lemma_best_attained(st, 0);
}

/// The key `k` is that of a position reached from `st` by up to `d` legal
/// moves (moves into a column with room that do not complete four).
pub open spec fn reach_st(st: (u64, u64, nat), d: nat, k: u64) -> bool
    decreases d,
{
    key_of(st) == k || (d > 0 && ((legal_in_history(st, 0) && reach_st(
        drop_stone(st, 0),
        (d - 1) as nat,
        k,
    )) || (legal_in_history(st, 1) && reach_st(drop_stone(st, 1), (d - 1) as nat, k)) || (
    legal_in_history(st, 2) && reach_st(drop_stone(st, 2), (d - 1) as nat, k)) || (
    legal_in_history(st, 3) && reach_st(drop_stone(st, 3), (d - 1) as nat, k)) || (
    legal_in_history(st, 4) && reach_st(drop_stone(st, 4), (d - 1) as nat, k)) || (
    legal_in_history(st, 5) && reach_st(drop_stone(st, 5), (d - 1) as nat, k)) || (
    legal_in_history(st, 6) && reach_st(drop_stone(st, 6), (d - 1) as nat, k))))
}

/// `m` holds, for every stored position with at least `lo` and fewer than
/// `total` stones, the keys of all its legal children.
pub open spec fn closed(m: Map<u64, i32>, total: nat, lo: nat) -> bool {
    forall|st: (u64, u64, nat), c: u64|
        #![trigger m.contains_key(key_of(st)), drop_stone(st, c)]
        state_wf(st) && m.contains_key(key_of(st)) && lo <= st.2 < total && c < 7
            && legal_in_history(st, c) ==> m.contains_key(key_of(drop_stone(st, c)))
}

/// A closed map that holds a position holds every key reached from it
/// without going past the total.
pub proof fn lemma_closed_covers(
    m: Map<u64, i32>,
    total: nat,
    lo: nat,
    st: (u64, u64, nat),
    d: nat,
    k: u64,
)
    requires
        closed(m, total, lo),
        state_wf(st),
        m.contains_key(key_of(st)),
        lo <= st.2,
        st.2 + d <= total,
        reach_st(st, d, k),
    ensures
        m.contains_key(k),
    decreases d,
{
    if key_of(st) != k {
        let c: u64 = if legal_in_history(st, 0) && reach_st(drop_stone(st, 0), (d - 1) as nat, k) {
            0
        } else if legal_in_history(st, 1) && reach_st(drop_stone(st, 1), (d - 1) as nat, k) {
            1
        } else if legal_in_history(st, 2) && reach_st(drop_stone(st, 2), (d - 1) as nat, k) {
            2
        } else if legal_in_history(st, 3) && reach_st(drop_stone(st, 3), (d - 1) as nat, k) {
            3
        } else if legal_in_history(st, 4) && reach_st(drop_stone(st, 4), (d - 1) as nat, k) {
            4
        } else if legal_in_history(st, 5) && reach_st(drop_stone(st, 5), (d - 1) as nat, k) {
            5
        } else {
            6
        };
        lemma_drop_wf(st, c);
        assert(m.contains_key(key_of(drop_stone(st, c))));
        lemma_closed_covers(m, total, lo, drop_stone(st, c), (d - 1) as nat, k);
    }
}

/// The position a one-move longer history reaches.
pub proof fn lemma_parse_push(h: Seq<u8>, b: u8)
    requires
        parse_moves(h) is Some,
    ensures
        parse_moves(h.push(b)) == (if 49 <= b <= 55 && legal_in_history(
            parse_moves(h)->Some_0,
            (b - 49) as u64,
        ) {
            Some(drop_stone(parse_moves(h)->Some_0, (b - 49) as u64))
        } else {
            None
        }),
{
    assert(h.push(b).drop_last() =~= h);
}

/// A parsed history of `n` moves reaches a well-formed state with `n`
/// stones.
pub proof fn lemma_parse_state(h: Seq<u8>)
    requires
        parse_moves(h) is Some,
    ensures
        state_wf(parse_moves(h)->Some_0),
        parse_moves(h)->Some_0.2 == h.len(),
    decreases h.len(),
{
    if h.len() == 0 {
        crate::board::lemma_empty_state();
    } else {
        lemma_parse_state(h.drop_last());
        let st = parse_moves(h.drop_last())->Some_0;
        lemma_drop_wf(st, (h.last() - 49) as u64);
    }
}

/// A key reached from a legal child is reached from its parent.
pub proof fn lemma_reach_child(st: (u64, u64, nat), c: u64, d: nat, k: u64)
    requires
        d > 0,
        c < 7,
        legal_in_history(st, c),
        reach_st(drop_stone(st, c), (d - 1) as nat, k),
    ensures
        reach_st(st, d, k),
{
    if c == 0 {
    } else if c == 1 {
    } else if c == 2 {
    } else if c == 3 {
    } else if c == 4 {
    } else if c == 5 {
    } else {
        assert(c == 6);
    }
}

} // verus!
