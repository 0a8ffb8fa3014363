use vstd::prelude::*;
use crate::board::{
    Board, WIDTH, HEIGHT, BOARD_MASK, playable, column_mask, column_bits, lemma_column_move,
    lemma_non_losing_are_possible, drop_stone, lemma_move_in_column, lemma_some_column, lemma_playable_open,
};
use crate::game::{
    value, state_wf, key_of, st_can_play, st_has_win, st_non_losing, lemma_value_bounds,
    lemma_best_ge, lemma_best_le, lemma_open_column, lemma_drop_wf, lemma_losing_move,
    lemma_state_key_injective, st_wins_with, reach_st, lemma_reach_child,
};
use crate::transposition_table::{lemma_put_effect, lemma_empty_table, lemma_pack, slot_key};
use crate::move_sorter::MoveSorter;
use crate::opening_book::OpeningBook;
use crate::transposition_table::TranspositionTable;

verus! {

/// Lowest score the table stores, `-(42 / 2) + 3`: no side can lose before
/// the opponent's fourth stone.
pub const MIN_SCORE: i32 = -18;

/// Slots of the transposition table: the prime nearest to 2^23.
pub const TRANSPOSITION_TABLE_SIZE: usize = 8388593;

/// A window wider than every game value (those lie in `-21..=21`): a search
/// in it returns the exact value.
pub const FULL_WINDOW: i32 = 22;

/// A bound above the magnitude of every score the search handles, book
/// scores included.
pub const SCORE_BOUND: i32 = 1000;

/// A single playable cell of `board`.
pub open spec fn is_move_of(board: Board, m: u64) -> bool {
    &&& m != 0
    &&& m & ((m - 1) as u64) == 0
    &&& m & !playable(board.spec_mask()) == 0
    &&& m & !BOARD_MASK == 0
}

/// The score that a book gives for `key`, if any.
pub open spec fn book_score(book: Option<Map<u64, i32>>, key: u64) -> Option<i32> {
    match book {
        Some(m) => if m.contains_key(key) {
            Some(m[key])
        } else {
            None
        },
        None => None,
    }
}

/// The side to move can complete four at once.
pub open spec fn has_winning_move(board: Board) -> bool {
    st_has_win(board.state())
}

/// `r` is what a search in the window `(a, b)` owes for a position of value
/// `v`: `v` itself inside the window, and a bound between `v` and the window
/// outside it.
pub open spec fn window_ok(r: int, v: int, a: int, b: int) -> bool {
    &&& (a < v < b ==> r == v)
    &&& (v <= a ==> v <= r <= a)
    &&& (v >= b ==> b <= r <= v)
}

/// Every entry of the table is an upper bound on the value of the position
/// with its key, stored as a byte in `1..=39`.
pub open spec fn table_sound(t: TranspositionTable) -> bool {
    &&& forall|st: (u64, u64, nat)|
        state_wf(st) && #[trigger] t.spec_get(key_of(st)) is Some ==> value(st) <= t.spec_get(
            key_of(st),
        )->Some_0 + MIN_SCORE - 1
    &&& forall|k: u64| #[trigger] t.spec_get(k) is Some ==> 1 <= t.spec_get(k)->Some_0 <= 39
}

/// Every score of the book is the value of the position with its key.
pub open spec fn book_exact(m: Map<u64, i32>) -> bool {
    forall|st: (u64, u64, nat)|
        state_wf(st) && #[trigger] m.contains_key(key_of(st)) ==> m[key_of(st)] == value(st)
}

/// The move of column `c` among the cells `nl`.
pub open spec fn col_move(nl: u64, c: u64) -> u64 {
    nl & column_bits(c)
}

/// The sorter entries `s` hold the move `m`.
pub open spec fn holds_move(s: Seq<(u64, i32)>, m: u64) -> bool {
    exists|k: int| 0 <= k < s.len() && #[trigger] s[k].0 == m
}

/// `m` is the nonzero move of some open column among the cells `nl`.
pub open spec fn is_column_move(st: (u64, u64, nat), nl: u64, m: u64) -> bool {
    exists|c: u64| c < 7 && st_can_play(st, c) && m != 0 && m == #[trigger] col_move(nl, c)
}

/// The score of a win with the next stone, `n` moves having been played.
pub open spec fn immediate_win_score(n: nat) -> int {
    (43 - n) / 2
}

/// A score within the bound of the search.
pub open spec fn bounded(s: int) -> bool {
    -SCORE_BOUND < s < SCORE_BOUND
}

/// Negamax solver with alpha-beta pruning, a transposition table and an
/// optional opening book.
pub struct Engine {
    column_order: [usize; 7],
    table: TranspositionTable,
    book: Option<OpeningBook>,
    explored_nodes: usize,
}

/// The columns from the centre outwards.
pub open spec fn centre_first() -> Seq<usize> {
    seq![3usize, 2, 4, 1, 5, 0, 6]
}

impl Engine {
    /// Positions searched so far.
    pub closed spec fn spec_explored(&self) -> nat {
        self.explored_nodes as nat
    }

    /// The book's mapping, when the engine has one.
    pub closed spec fn spec_book(&self) -> Option<Map<u64, i32>> {
        match self.book {
            Some(b) => Some(b.spec_map()),
            None => None,
        }
    }

    /// The order in which columns are tried.
    pub closed spec fn spec_column_order(&self) -> Seq<usize> {
        self.column_order@
    }

    /// The engine's invariant: centre-first column order, a table of the
    /// fixed size whose entries are upper bounds on the values of their
    /// positions, and a book whose scores are the values of theirs.
    pub closed spec fn wf(&self) -> bool {
        &&& self.column_order@ == centre_first()
        &&& self.table.spec_slots().len() == TRANSPOSITION_TABLE_SIZE
        &&& table_sound(self.table)
        &&& match self.book {
            Some(b) => b.wf() && book_exact(b.spec_map()),
            None => true,
        }
    }

    /// What the table finds for `key`.
    pub closed spec fn spec_table_get(&self, key: u64) -> Option<u8> {
        self.table.spec_get(key)
    }

    /// The slots of the table.
    pub closed spec fn spec_table_slots(&self) -> Seq<u64> {
        self.table.spec_slots()
    }

    /// Number of slots of the table.
    pub closed spec fn spec_table_size(&self) -> nat {
        self.table.spec_slots().len()
    }

    /// An engine with an empty table and no book.
    pub fn new() -> (r: Self)
        ensures
            r.wf(),
            r.spec_explored() == 0,
            r.spec_book() is None,
            r.spec_column_order() == centre_first(),
            r.spec_table_size() == TRANSPOSITION_TABLE_SIZE,
            forall|k: u64| #[trigger] r.spec_table_get(k) is None,
    {
        let mut column_order: [usize; 7] = [0; 7];
        let mut ind: usize = 0;
        while ind < WIDTH
            invariant
                ind <= 7,
                forall|j: int| 0 <= j < ind ==> column_order@[j] == centre_first()[j],
            decreases 7 - ind,
        {
            // centre first, then alternately left and right of it
            let offset = (ind + 1) / 2;
            let colm = if ind % 2 == 0 {
                WIDTH / 2 + offset
            } else {
                WIDTH / 2 - offset
            };
            column_order[ind] = colm;
            ind = ind + 1;
        }
        proof {
            assert(column_order@ =~= centre_first());
        }
        let table = TranspositionTable::new(TRANSPOSITION_TABLE_SIZE);
        proof {
            assert forall|k: u64| #[trigger] table.spec_get(k) is None by {
                lemma_empty_table(table, k);
            }
        }
        Engine { column_order, table, book: None, explored_nodes: 0 }
    }

    /// An engine with an empty table that answers from `book` where it can.
    pub fn with_book(book: OpeningBook) -> (r: Self)
        requires
            book.wf(),
            book_exact(book.spec_map()),
        ensures
            r.wf(),
            r.spec_explored() == 0,
            r.spec_book() == Some(book.spec_map()),
            r.spec_table_size() == TRANSPOSITION_TABLE_SIZE,
            forall|k: u64| #[trigger] r.spec_table_get(k) is None,
    {
        let mut engine = Engine::new();
        let ghost e0 = engine;
        engine.book = Some(book);
        proof {
            assert forall|k: u64| #[trigger] engine.spec_table_get(k) is None by {
                assert(e0.spec_table_get(k) is None);
                assert(engine.table == e0.table);
            }
        }
        engine
    }

    fn count_node(&mut self)
        requires
            old(self).wf(),
        ensures
            final(self).wf(),
            final(self).spec_explored() >= old(self).spec_explored(),
            old(self).spec_explored() < usize::MAX ==> final(self).spec_explored() == old(self).spec_explored() + 1,
            final(self).spec_book() == old(self).spec_book(),
            final(self).table == old(self).table,
    {
        if self.explored_nodes < usize::MAX {
            self.explored_nodes = self.explored_nodes + 1;
        }
    }

    /// Negamax search of `board` in the window `(alpha, beta)`: a full board
    /// is a draw, a book entry is taken as exact, an immediate win ends the
    /// search, then the non-losing moves are tried best heuristic first,
    /// with the table's upper bound narrowing the window. The result is the
    /// game value when it lies inside the window, and a bound between the
    /// value and the window otherwise.
    fn negamax(&mut self, board: Board, window_low: i32, window_high: i32) -> (r: i32)
        requires
            old(self).wf(),
            board.wf(),
            bounded(window_low as int),
            bounded(window_high as int),
            window_low < window_high,
        ensures
            final(self).wf(),
            bounded(r as int),
            window_ok(r as int, value(board.state()), window_low as int, window_high as int),
            final(self).spec_explored() > old(self).spec_explored() || old(self).spec_explored()
                == usize::MAX,
            final(self).spec_explored() >= old(self).spec_explored(),
            final(self).spec_book() == old(self).spec_book(),
            final(self).spec_table_slots().len() == old(self).spec_table_slots().len(),
            forall|i: int|
                0 <= i < final(self).spec_table_slots().len() && #[trigger] final(self).spec_table_slots()[i] != old(self).spec_table_slots()[i] ==> reach_st(
                    board.state(),
                    (42 - board.spec_played()) as nat,
                    slot_key(final(self).spec_table_slots()[i]),
                ),
            board.spec_played() == 42 ==> r == 0,
            board.spec_played() < 42 && book_score(old(self).spec_book(), board.spec_key()) is Some
                ==> r == book_score(old(self).spec_book(), board.spec_key())->Some_0,
            board.spec_played() < 42 && book_score(old(self).spec_book(), board.spec_key()) is Some
                ==> (forall|k: u64| #[trigger] final(self).spec_table_get(k) == old(self).spec_table_get(k)) && (old(self).spec_explored() < usize::MAX ==> final(self).spec_explored() == old(self).spec_explored() + 1),
            board.spec_played() < 42 && book_score(old(self).spec_book(), board.spec_key()) is None
                && has_winning_move(board) ==> r == immediate_win_score(board.spec_played()),
            board.spec_played() < 42 && book_score(old(self).spec_book(), board.spec_key()) is None
                && !has_winning_move(board) && board.spec_non_losing() == 0 ==> r == -((42
                - board.spec_played()) / 2),
        decreases 42 - board.spec_played(),
    {
        let ghost st = board.state();
        proof {
            board.lemma_played_bound();
            lemma_value_bounds(st);
        }
        let ghost v = value(st);
        let ghost alpha0 = window_low as int;
        let ghost beta0 = window_high as int;
        let mut alpha = window_low;
        let mut beta = window_high;
        self.count_node();
        let played = board.played_moves();
        if played == WIDTH * HEIGHT {
            return 0;
        }
        if let Some(book) = &self.book {
            if let Some(score) = book.score(&board) {
                return score;
            }
        }
        assert(book_score(old(self).spec_book(), board.spec_key()) is None);
        let mut colm: usize = 0;
        while colm < WIDTH
            invariant
                colm <= 7,
                board.wf(),
                st == board.state(),
                played < 42,
                played == board.spec_played(),
                forall|c: u64| c < colm ==> !(st_can_play(st, c) && #[trigger] st_wins_with(st, c)),
                self.table == old(self).table,
                book_score(old(self).spec_book(), board.spec_key()) is None,
                self.wf(),
                self.spec_explored() > old(self).spec_explored() || old(self).spec_explored()
                    == usize::MAX,
                self.spec_explored() >= old(self).spec_explored(),
                self.spec_book() == old(self).spec_book(),
            decreases 7 - colm,
        {
            if board.can_play(colm) && board.is_winning(colm) {
                assert(st_wins_with(st, colm as u64));
                return ((WIDTH * HEIGHT - played + 1) / 2) as i32;
            }
            colm = colm + 1;
        }
        assert(!st_has_win(st));
        let non_losing = board.possible_non_losing_moves();
        let ghost nl = non_losing;
        assert(nl == st_non_losing(st));
        proof {
            lemma_non_losing_are_possible(board);
        }
        if non_losing == 0 {
            proof {
                assert forall|c: u64| c < 7 && st_can_play(st, c) implies -value(
                    drop_stone(st, c),
                ) <= -((42 - played) / 2) by {
                    lemma_move_in_column(nl, st.1, c, col_move(nl, c));
                    lemma_losing_move(st, c);
                }
                lemma_best_le(st, 0, -((42 - played) / 2));
            }
            return -(((WIDTH * HEIGHT - played) / 2) as i32);
        }
        let key = board.key();
        let mut upper_bound: i32 = ((WIDTH * HEIGHT - played - 1) / 2) as i32;
        assert(key == key_of(st));
        if let Some(value) = self.table.get(key) {
            assert(self.table.spec_get(key_of(st)) == Some(value));
            upper_bound = value as i32 + MIN_SCORE - 1;
        }
        assert(v <= upper_bound);
        assert(upper_bound <= 20);
        if upper_bound < beta {
            beta = upper_bound;
            if alpha >= beta {
                return beta;
            }
        }
        let mut moves = MoveSorter::new();
        let mut ind: usize = 0;
        while ind < WIDTH
            invariant
                ind <= 7,
                self.table == old(self).table,
                st == board.state(),
                nl == non_losing,
                !st_has_win(st),
                book_score(old(self).spec_book(), board.spec_key()) is None,
                self.wf(),
                self.spec_explored() > old(self).spec_explored() || old(self).spec_explored()
                    == usize::MAX,
                self.spec_explored() >= old(self).spec_explored(),
                self.spec_book() == old(self).spec_book(),
                board.wf(),
                non_losing & !playable(board.spec_mask()) == 0,
                moves.wf(),
                moves.spec_entries().len() <= ind,
                self.spec_column_order() == centre_first(),
                forall|j: int|
                    0 <= j < moves.spec_entries().len() ==> is_move_of(
                        board,
                        #[trigger] moves.spec_entries()[j].0,
                    ) && is_column_move(st, nl, moves.spec_entries()[j].0),
                forall|j: int|
                    0 <= j < ind && col_move(nl, #[trigger] centre_first()[j] as u64) != 0
                        ==> holds_move(moves.spec_entries(), col_move(nl, centre_first()[j] as u64)),
            decreases 7 - ind,
        {
            let colm = self.column_order[ind];
            let mov = non_losing & column_mask(colm);
            proof {
                lemma_column_move(board.spec_mask(), non_losing, colm as u64);
            }
            if mov != 0 {
                let ghost before = moves.spec_entries();
                moves.add(mov, board.score(mov));
                proof {
                    let after = moves.spec_entries();
                    let p = choose|p: int|
                        0 <= p <= before.len() && after == before.insert(
                            p,
                            (mov, board.score_spec(mov)),
                        );
                    assert(col_move(nl, colm as u64) == mov);
                    lemma_move_in_column(nl, board.spec_mask(), colm as u64, mov);
                    lemma_playable_open(board.spec_mask(), colm as u64);
                    assert(is_column_move(st, nl, mov));
                    assert forall|j: int| 0 <= j < after.len() implies is_move_of(
                        board,
                        #[trigger] after[j].0,
                    ) && is_column_move(st, nl, after[j].0) by {
                        if j < p {
                            assert(after[j] == before[j]);
                        } else if j > p {
                            assert(after[j] == before[j - 1]);
                        }
                    }
                    assert(after[p].0 == mov);
                    assert forall|j: int|
                        0 <= j < ind + 1 && col_move(nl, #[trigger] centre_first()[j] as u64) != 0
                            implies holds_move(after, col_move(nl, centre_first()[j] as u64)) by {
                        let m = col_move(nl, centre_first()[j] as u64);
                        if j < ind {
                            let k = choose|k: int| 0 <= k < before.len() && #[trigger] before[k].0 == m;
                            if k < p {
                                assert(after[k] == before[k]);
                            } else {
                                assert(after[k + 1] == before[k]);
                            }
                        } else {
                            assert(after[p].0 == m);
                        }
                    }
                }
            } else {
                proof {
                    assert(col_move(nl, colm as u64) == 0);
                }
            }
            ind = ind + 1;
        }
        proof {
            assert forall|c: u64| c < 7 && #[trigger] col_move(nl, c) != 0 implies holds_move(
                moves.spec_entries(),
                col_move(nl, c),
            ) by {
                let j: int = if c == 3 {
                    0
                } else if c == 2 {
                    1
                } else if c == 4 {
                    2
                } else if c == 1 {
                    3
                } else if c == 5 {
                    4
                } else if c == 0 {
                    5
                } else {
                    6
                };
                assert(centre_first()[j] as u64 == c);
            }
        }
        loop
            invariant
                st == board.state(),
                nl == non_losing,
                nl == st_non_losing(st),
                nl != 0,
                nl & !playable(board.spec_mask()) == 0,
                !st_has_win(st),
                v == value(st),
                book_score(old(self).spec_book(), board.spec_key()) is None,
                self.wf(),
                board.wf(),
                board.spec_played() < 42,
                played == board.spec_played(),
                key == board.spec_key(),
                alpha0 <= alpha < beta <= beta0,
                self.spec_table_slots().len() == old(self).spec_table_slots().len(),
                forall|i: int|
                    0 <= i < self.spec_table_slots().len() && #[trigger] self.spec_table_slots()[i]
                        != old(self).spec_table_slots()[i] ==> reach_st(
                        st,
                        (42 - board.spec_played()) as nat,
                        slot_key(self.spec_table_slots()[i]),
                    ),
                alpha0 == window_low as int,
                beta0 == window_high as int,
                beta < beta0 ==> v <= beta,
                beta <= 20,
                bounded(alpha as int),
                bounded(beta as int),
                moves.wf(),
                forall|j: int|
                    0 <= j < moves.spec_entries().len() ==> is_move_of(
                        board,
                        #[trigger] moves.spec_entries()[j].0,
                    ) && is_column_move(st, nl, moves.spec_entries()[j].0),
                forall|c: u64|
                    c < 7 && #[trigger] col_move(nl, c) != 0 ==> holds_move(
                        moves.spec_entries(),
                        col_move(nl, c),
                    ) || -value(drop_stone(st, c)) <= alpha,
                alpha > alpha0 ==> exists|c: u64|
                    c < 7 && st_can_play(st, c) && -value(#[trigger] drop_stone(st, c)) == alpha,
                self.spec_explored() > old(self).spec_explored() || old(self).spec_explored()
                    == usize::MAX,
                self.spec_explored() >= old(self).spec_explored(),
                self.spec_book() == old(self).spec_book(),
            ensures
                moves.spec_entries().len() == 0,
            decreases moves.spec_entries().len(),
        {
            let ghost before = moves.spec_entries();
            match moves.next() {
                None => break,
                Some(mov) => {
                    let ghost cs: u64 = choose|c: u64|
                        c < 7 && st_can_play(st, c) && mov != 0 && mov == #[trigger] col_move(nl, c);
                    proof {
                        assert(is_move_of(board, before[before.len() - 1].0));
                        assert(is_column_move(st, nl, before[before.len() - 1].0));
                        assert forall|j: int| 0 <= j < moves.spec_entries().len() implies is_move_of(
                            board,
                            #[trigger] moves.spec_entries()[j].0,
                        ) && is_column_move(st, nl, moves.spec_entries()[j].0) by {
                            assert(moves.spec_entries()[j] == before[j]);
                        }
                        crate::board::lemma_drop_state(st.0, st.1, cs);
                        lemma_move_in_column(nl, st.1, cs, mov);
                        lemma_best_ge(st, 0, cs);
                        assert(v == crate::game::best(st, 0));
                    }
                    let mut child = board;
                    child.play_move(mov);
                    assert(child.state() == drop_stone(st, cs));
                    let ghost u = -value(drop_stone(st, cs));
                    let ghost mid = self.spec_table_slots();
                    let score = -self.negamax(child, -beta, -alpha);
                    proof {
                        assert(crate::board::legal_in_history(st, cs)) by {
                            assert(!st_wins_with(st, cs));
                        }
                        assert forall|i: int|
                            0 <= i < self.spec_table_slots().len() && #[trigger] self.spec_table_slots()[i]
                                != old(self).spec_table_slots()[i] implies reach_st(
                                st,
                                (42 - board.spec_played()) as nat,
                                slot_key(self.spec_table_slots()[i]),
                            ) by {
                            if self.spec_table_slots()[i] != mid[i] {
                                lemma_reach_child(
                                    st,
                                    cs,
                                    (42 - board.spec_played()) as nat,
                                    slot_key(self.spec_table_slots()[i]),
                                );
                            }
                        }
                    }
                    proof {
                        // the remaining entries keep every column's move but the one played
                        assert forall|c: u64|
                            c < 7 && #[trigger] col_move(nl, c) != 0 implies holds_move(
                                moves.spec_entries(),
                                col_move(nl, c),
                            ) || -value(drop_stone(st, c)) <= alpha || (col_move(nl, c) == mov
                                && drop_stone(st, c) == drop_stone(st, cs)) by {
                            if holds_move(before, col_move(nl, c)) {
                                let k = choose|k: int|
                                    0 <= k < before.len() && #[trigger] before[k].0 == col_move(
                                        nl,
                                        c,
                                    );
                                if k < before.len() - 1 {
                                    assert(moves.spec_entries()[k] == before[k]);
                                } else {
                                    lemma_move_in_column(nl, st.1, c, col_move(nl, c));
                                    lemma_playable_open(st.1, c);
                                    crate::board::lemma_drop_state(st.0, st.1, c);

                                }
                            }
                        }
                    }
                    assert(window_ok(-score, -u, -beta as int, -alpha as int));
                    assert(u <= v);
                    if score >= beta {
                        assert(score <= u);
                        assert(beta < beta0 ==> v <= beta);
                        assert(window_ok(score as int, v, alpha0, beta0));
                        assert(v == value(board.state()));
                        return score;
                    }
                    if score > alpha {
                        alpha = score;
                    }
                },
            }
        }
        proof {
            let n = board.spec_played();
            assert(moves.spec_entries().len() == 0);
            lemma_move_in_column(nl, st.1, 0, col_move(nl, 0));
            lemma_some_column(nl);
            assert(exists|c: u64| c < 7 && #[trigger] col_move(nl, c) != 0) by {
                if col_move(nl, 0) != 0 {
                } else if col_move(nl, 1) != 0 {
                } else if col_move(nl, 2) != 0 {
                } else if col_move(nl, 3) != 0 {
                } else if col_move(nl, 4) != 0 {
                } else if col_move(nl, 5) != 0 {
                } else {
                    assert(col_move(nl, 6) != 0);
                }
            }
            let c0: u64 = choose|c: u64| c < 7 && #[trigger] col_move(nl, c) != 0;
            lemma_move_in_column(nl, st.1, c0, col_move(nl, c0));
            lemma_playable_open(st.1, c0);
            lemma_drop_wf(st, c0);
            lemma_value_bounds(drop_stone(st, c0));
            assert(-value(drop_stone(st, c0)) <= alpha);
            assert forall|c: u64| c < 7 && st_can_play(st, c) implies -value(drop_stone(st, c))
                <= alpha by {
                if col_move(nl, c) == 0 {
                    lemma_losing_move(st, c);
                }
            }
            lemma_best_le(st, 0, alpha as int);
            if alpha > alpha0 {
                let c = choose|c: u64|
                    c < 7 && st_can_play(st, c) && -value(#[trigger] drop_stone(st, c)) == alpha;
                lemma_best_ge(st, 0, c);
            }
            assert(v <= alpha);
        }
        let stored = if alpha < MIN_SCORE {
            MIN_SCORE
        } else {
            alpha
        };
        let byte = (stored - MIN_SCORE + 1) as u8;
        let ghost old_table = self.table;
        self.table.put(key, byte);
        proof {
            lemma_pack(key, byte);
            assert forall|i: int|
                0 <= i < self.spec_table_slots().len() && #[trigger] self.spec_table_slots()[i]
                    != old(self).spec_table_slots()[i] implies reach_st(
                st,
                (42 - board.spec_played()) as nat,
                slot_key(self.spec_table_slots()[i]),
            ) by {
                if self.spec_table_slots()[i] != old_table.spec_slots()[i] {
                    assert(slot_key(self.spec_table_slots()[i]) == key);
                }
            }
            assert forall|st2: (u64, u64, nat)|
                state_wf(st2) && #[trigger] self.table.spec_get(key_of(st2)) is Some implies value(
                st2,
            ) <= self.table.spec_get(key_of(st2))->Some_0 + MIN_SCORE - 1 by {
                lemma_put_effect(old_table, self.table, key, byte, key_of(st2));
                if self.table.spec_get(key_of(st2)) != old_table.spec_get(key_of(st2)) {
                    lemma_state_key_injective(st, st2);
                }
            }
            assert forall|k: u64| #[trigger] self.table.spec_get(k) is Some implies 1
                <= self.table.spec_get(k)->Some_0 <= 39 by {
                lemma_put_effect(old_table, self.table, key, byte, k);
            }
        }
        alpha
    }

    /// The score of `board` for the side to move, found by null-window
    /// searches that halve the interval of possible scores.
    pub fn score(&mut self, board: Board) -> (r: i32)
        requires
            old(self).wf(),
            board.wf(),
        ensures
            final(self).wf(),
            r == value(board.state()),
            -((42 - board.spec_played()) / 2) <= r <= (43 - board.spec_played()) / 2,
            final(self).spec_explored() >= old(self).spec_explored(),
            board.spec_played() < 42 ==> final(self).spec_explored() > old(self).spec_explored()
                || old(self).spec_explored() == usize::MAX,
            final(self).spec_book() == old(self).spec_book(),
            board.spec_played() == 42 ==> r == 0,
            board.spec_played() < 42 && has_winning_move(board) ==> r == immediate_win_score(
                board.spec_played(),
            ),
    {
        proof {
            board.lemma_played_bound();
            lemma_value_bounds(board.state());
        }
        let ghost v = value(board.state());
        let played = board.played_moves();
        let mut left: i32 = -(((WIDTH * HEIGHT - played) / 2) as i32);
        let mut right: i32 = ((WIDTH * HEIGHT - played + 1) / 2) as i32;
        let ghost first = (left, right);
        while left < right
            invariant
                v == value(board.state()),
                first.0 < first.1 <==> board.spec_played() < 42,
                (left, right) == first || self.spec_explored() > old(self).spec_explored() || old(self).spec_explored() == usize::MAX,
                left <= v <= right,
                self.wf(),
                board.wf(),
                bounded(left as int),
                bounded(right as int),
                self.spec_explored() >= old(self).spec_explored(),
                self.spec_book() == old(self).spec_book(),
            decreases (if left < right {
                right - left
            } else {
                0
            }),
        {
            let mut median = left + (right - left) / 2;
            if median <= 0 && left / 2 < median {
                median = left / 2;
            } else if median >= 0 && median < right / 2 {
                median = right / 2;
            }
            assert(left <= median < right);
            let score = self.negamax(board, median, median + 1);
            if score <= median {
                right = score;
            } else {
                left = score;
            }
        }
        left
    }

    /// For each column: `None` when it is full, else the score of playing
    /// it for the side to move, minus the value of the position after it,
    /// from a search in a window wider than every value.
    pub fn solve(&mut self, board: Board) -> (r: [Option<i32>; 7])
        requires
            old(self).wf(),
            board.wf(),
        ensures
            final(self).wf(),
            forall|c: int|
                0 <= c < 7 ==> ((#[trigger] r@[c]) is Some <==> board.spec_can_play(c as u64)),
            forall|c: int|
                0 <= c < 7 && board.spec_can_play(c as u64) ==> #[trigger] r@[c] == Some(
                    (-value(drop_stone(board.state(), c as u64))) as i32,
                ),
            final(self).spec_explored() >= old(self).spec_explored(),
            final(self).spec_book() == old(self).spec_book(),
    {
        let mut result: [Option<i32>; 7] = [None; 7];
        let mut colm: usize = 0;
        while colm < WIDTH
            invariant
                colm <= 7,
                self.wf(),
                board.wf(),
                forall|c: int|
                    0 <= c < colm ==> ((#[trigger] result@[c]) is Some <==> board.spec_can_play(
                        c as u64,
                    )),
                forall|c: int| colm <= c < 7 ==> #[trigger] result@[c] is None,
                forall|c: int|
                    0 <= c < colm && board.spec_can_play(c as u64) ==> #[trigger] result@[c]
                        == Some((-value(drop_stone(board.state(), c as u64))) as i32),
                self.spec_explored() >= old(self).spec_explored(),
                self.spec_book() == old(self).spec_book(),
            decreases 7 - colm,
        {
            if board.can_play(colm) {
                let mut child = board;
                child.play(colm);
                proof {
                    lemma_value_bounds(child.state());
                }
                result[colm] = Some(-self.negamax(child, -FULL_WINDOW, FULL_WINDOW));
            }
            colm = colm + 1;
        }
        result
    }

    /// Number of positions searched since the engine was made or reset.
    pub fn explored_nodes(&self) -> (r: usize)
        ensures
            r == self.spec_explored(),
    {
        self.explored_nodes
    }

    /// Forgets the table and the count of positions; keeps the book.
    pub fn reset(&mut self)
        requires
            old(self).wf(),
        ensures
            final(self).wf(),
            final(self).spec_explored() == 0,
            final(self).spec_book() == old(self).spec_book(),
            final(self).spec_table_size() == TRANSPOSITION_TABLE_SIZE,
            forall|k: u64| #[trigger] final(self).spec_table_get(k) is None,
    {
        self.explored_nodes = 0;
        let table = TranspositionTable::new(TRANSPOSITION_TABLE_SIZE);
        proof {
            assert forall|k: u64| #[trigger] table.spec_get(k) is None by {
                lemma_empty_table(table, k);
            }
        }
        self.table = table;
    }
}

} // verus!
