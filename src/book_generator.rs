use vstd::prelude::*;
use std::collections::HashMap;
use crate::board::Board;
use crate::board::{parse_moves, legal_in_history, drop_stone};
use crate::engine::Engine;
use crate::game::{
    value, state_wf, key_of, reach_st, closed, lemma_closed_covers, lemma_parse_push,
    lemma_parse_state, lemma_state_key_injective,
};

verus! {

broadcast use vstd::std_specs::hash::group_hash_axioms;

/// `after` keeps every key of `before` with its value.
pub open spec fn keeps_entries(before: Map<u64, i32>, after: Map<u64, i32>) -> bool {
    forall|k: u64| #[trigger] before.contains_key(k) ==> after.contains_key(k) && after[k] == before[k]
}

/// `score` is the game value of the well-formed position with key `key`.
pub open spec fn exact_entry(key: u64, score: i32) -> bool {
    exists|st: (u64, u64, nat)| state_wf(st) && key_of(st) == key && score == value(st)
}

/// Every key of `after` that `before` lacks holds the game value of its
/// position.
pub open spec fn added_exact(before: Map<u64, i32>, after: Map<u64, i32>) -> bool {
    forall|k: u64|
        #[trigger] after.contains_key(k) && !before.contains_key(k) ==> exact_entry(k, after[k])
}

/// The key of the position that `history` reaches, when it reaches one.
pub open spec fn history_key(history: Seq<u8>) -> u64 {
    key_of(parse_moves(history)->Some_0)
}

/// The key `k` is that of a position reached from the move history `h` by
/// up to `depth` more legal moves.
pub open spec fn reached(h: Seq<u8>, depth: nat, k: u64) -> bool
    decreases depth,
{
    parse_moves(h) is Some && (history_key(h) == k || (depth > 0 && (reached(
        h.push(49),
        (depth - 1) as nat,
        k,
    ) || reached(h.push(50), (depth - 1) as nat, k) || reached(h.push(51), (depth - 1) as nat, k)
        || reached(h.push(52), (depth - 1) as nat, k) || reached(h.push(53), (depth - 1) as nat, k)
        || reached(h.push(54), (depth - 1) as nat, k) || reached(
        h.push(55),
        (depth - 1) as nat,
        k,
    ))))
}

/// A key reached from a child history is reached from its parent.
proof fn lemma_reached_step(h: Seq<u8>, depth: nat, d: u8, k: u64)
    requires
        parse_moves(h) is Some,
        depth > 0,
        49 <= d <= 55,
        reached(h.push(d), (depth - 1) as nat, k),
    ensures
        reached(h, depth, k),
{
}

/// Reaching a key from a history is reaching it from the position the
/// history leads to.
pub proof fn lemma_reached_state(h: Seq<u8>, d: nat, k: u64)
    requires
        parse_moves(h) is Some,
    ensures
        reached(h, d, k) == reach_st(parse_moves(h)->Some_0, d, k),
    decreases d,
{
    let st = parse_moves(h)->Some_0;
    if d > 0 {
        lemma_parse_push(h, 49);
        if parse_moves(h.push(49)) is Some {
            lemma_reached_state(h.push(49), (d - 1) as nat, k);
        }
        assert(reached(h.push(49), (d - 1) as nat, k) == (legal_in_history(st, 0) && reach_st(
            drop_stone(st, 0),
            (d - 1) as nat,
            k,
        )));
        lemma_parse_push(h, 50);
        if parse_moves(h.push(50)) is Some {
            lemma_reached_state(h.push(50), (d - 1) as nat, k);
        }
        assert(reached(h.push(50), (d - 1) as nat, k) == (legal_in_history(st, 1) && reach_st(
            drop_stone(st, 1),
            (d - 1) as nat,
            k,
        )));
        lemma_parse_push(h, 51);
        if parse_moves(h.push(51)) is Some {
            lemma_reached_state(h.push(51), (d - 1) as nat, k);
        }
        assert(reached(h.push(51), (d - 1) as nat, k) == (legal_in_history(st, 2) && reach_st(
            drop_stone(st, 2),
            (d - 1) as nat,
            k,
        )));
        lemma_parse_push(h, 52);
        if parse_moves(h.push(52)) is Some {
            lemma_reached_state(h.push(52), (d - 1) as nat, k);
        }
        assert(reached(h.push(52), (d - 1) as nat, k) == (legal_in_history(st, 3) && reach_st(
            drop_stone(st, 3),
            (d - 1) as nat,
            k,
        )));
        lemma_parse_push(h, 53);
        if parse_moves(h.push(53)) is Some {
            lemma_reached_state(h.push(53), (d - 1) as nat, k);
        }
        assert(reached(h.push(53), (d - 1) as nat, k) == (legal_in_history(st, 4) && reach_st(
            drop_stone(st, 4),
            (d - 1) as nat,
            k,
        )));
        lemma_parse_push(h, 54);
        if parse_moves(h.push(54)) is Some {
            lemma_reached_state(h.push(54), (d - 1) as nat, k);
        }
        assert(reached(h.push(54), (d - 1) as nat, k) == (legal_in_history(st, 5) && reach_st(
            drop_stone(st, 5),
            (d - 1) as nat,
            k,
        )));
        lemma_parse_push(h, 55);
        if parse_moves(h.push(55)) is Some {
            lemma_reached_state(h.push(55), (d - 1) as nat, k);
        }
        assert(reached(h.push(55), (d - 1) as nat, k) == (legal_in_history(st, 6) && reach_st(
            drop_stone(st, 6),
            (d - 1) as nat,
            k,
        )));
    }
}

/// Some well-formed position with at least `lo` stones has the key `k`.
pub open spec fn deep_key(k: u64, lo: nat) -> bool {
    exists|st: (u64, u64, nat)| state_wf(st) && key_of(st) == k && st.2 >= lo
}

/// Scores every position reached from the move history `history` by up to
/// `depth` more legal moves. A position whose key `map` already holds is
/// not searched again: `map` must hold, for every such position with at
/// least as many stones as `history` has moves, its children up to the
/// total of `history`'s moves plus `depth`, and it then holds every
/// position reached. Keys already in `map` keep their score; each added key
/// holds the game value of its position. Histories that are not positions
/// (a full column or a win on the way) add nothing.
pub fn generate_subtree(
    engine: &mut Engine,
    history: &mut Vec<u8>,
    depth: usize,
    map: &mut HashMap<u64, i32>,
)
    requires
        old(engine).wf(),
        closed(
            old(map)@,
            (old(history)@.len() + depth) as nat,
            old(history)@.len() as nat,
        ),
    ensures
        final(engine).wf(),
        final(history)@ == old(history)@,
        keeps_entries(old(map)@, final(map)@),
        added_exact(old(map)@, final(map)@),
        forall|k: u64|
            #[trigger] final(map)@.contains_key(k) && !old(map)@.contains_key(k) ==> reached(
                old(history)@,
                depth as nat,
                k,
            ) && deep_key(k, old(history)@.len() as nat),
        closed(final(map)@, (old(history)@.len() + depth) as nat, old(history)@.len() as nat),
        final(engine).spec_book() == old(engine).spec_book(),
        parse_moves(old(history)@) is Some ==> final(map)@.contains_key(history_key(old(history)@)),
        forall|k: u64|
            reached(old(history)@, depth as nat, k) ==> #[trigger] final(map)@.contains_key(k),
    decreases depth,
{
    let ghost h = history@;
    let ghost total = (h.len() + depth) as nat;
    let ghost lo = h.len() as nat;
    let parsed = Board::from_history(history.as_slice());
    if let Some(board) = parsed {
        let ghost st = board.state();
        proof {
            lemma_parse_state(h);
        }
        let key = board.key();
        if map.contains_key(&key) {
            proof {
                assert forall|k: u64| reached(h, depth as nat, k) implies #[trigger] map@.contains_key(
                    k,
                ) by {
                    lemma_reached_state(h, depth as nat, k);
                    lemma_closed_covers(map@, total, lo, st, depth as nat, k);
                }
            }
            return;
        }
        let ghost start_map = map@;
        let score = engine.score(board);
        map.insert(key, score);
        assert(reached(history@, depth as nat, key));
        assert(exact_entry(key, score)) by {
            assert(state_wf(st) && key_of(st) == key);
        }
        assert(deep_key(key, lo));
        proof {
            // the new key is a position with `lo` stones: the closure above
            // `lo` still holds
            assert forall|s2: (u64, u64, nat), c: u64|
                #![trigger map@.contains_key(key_of(s2)), drop_stone(s2, c)]
                state_wf(s2) && map@.contains_key(key_of(s2)) && lo + 1 <= s2.2 < total && c < 7
                    && legal_in_history(s2, c) implies map@.contains_key(
                key_of(drop_stone(s2, c)),
            ) by {
                if key_of(s2) == key {
                    lemma_state_key_injective(s2, st);
                }
                assert(start_map.contains_key(key_of(s2)));
            }
        }
        if depth == 0 {
            proof {
                assert forall|k: u64| reached(h, depth as nat, k) implies #[trigger] map@.contains_key(
                    k,
                ) by {}
            }
            return;
        }
        let mut col: u8 = 1;
        while col <= 7
            invariant
                1 <= col <= 8,
                depth > 0,
                engine.wf(),
                history@ == h,
                h == old(history)@,
                total == (h.len() + depth) as nat,
                lo == h.len() as nat,
                st == parse_moves(h)->Some_0,
                state_wf(st),
                st.2 == lo,
                keeps_entries(start_map, map@),
                added_exact(start_map, map@),
                closed(start_map, total, lo),
                closed(map@, total, lo + 1),
                forall|k: u64|
                    #[trigger] map@.contains_key(k) && !start_map.contains_key(k) ==> reached(
                        h,
                        depth as nat,
                        k,
                    ) && deep_key(k, lo) && (k == key || deep_key(k, lo + 1)),
                map@.contains_key(key),
                key == history_key(h),
                key == key_of(st),
                parse_moves(h) is Some,
                !start_map.contains_key(key),
                forall|d: u8|
                    49 <= d < 48 + col && parse_moves(#[trigger] h.push(d)) is Some
                        ==> map@.contains_key(history_key(h.push(d))),
                start_map == old(map)@,
                engine.spec_book() == old(engine).spec_book(),
            decreases 8 - col,
        {
            let ghost before_map = map@;
            history.push(48u8 + col);
            proof {
                assert(history@ == h.push((48u8 + col) as u8));
            }
            generate_subtree(engine, history, depth - 1, map);
            history.pop();
            proof {
                assert(history@ =~= h);
                assert forall|k: u64|
                    #[trigger] map@.contains_key(k) && !start_map.contains_key(k) implies exact_entry(
                    k,
                    map@[k],
                ) by {
                    if before_map.contains_key(k) {
                        assert(map@[k] == before_map[k]);
                    }
                }
                assert forall|k: u64|
                    #[trigger] map@.contains_key(k) && !start_map.contains_key(k) implies reached(
                    h,
                    depth as nat,
                    k,
                ) && deep_key(k, lo) && (k == key || deep_key(k, lo + 1)) by {
                    if !before_map.contains_key(k) {
                        lemma_reached_step(h, depth as nat, (48u8 + col) as u8, k);
                        let s3 = choose|s3: (u64, u64, nat)|
                            state_wf(s3) && key_of(s3) == k && s3.2 >= lo + 1;
                        assert(deep_key(k, lo));
                    }
                }
            }
            col = col + 1;
        }
        proof {
            assert forall|s2: (u64, u64, nat), c: u64|
                #![trigger map@.contains_key(key_of(s2)), drop_stone(s2, c)]
                state_wf(s2) && map@.contains_key(key_of(s2)) && lo <= s2.2 < total && c < 7
                    && legal_in_history(s2, c) implies map@.contains_key(
                key_of(drop_stone(s2, c)),
            ) by {
                if s2.2 == lo {
                    if key_of(s2) == key {
                        lemma_state_key_injective(s2, st);
                        let b: u8 = (49 + c) as u8;
                        lemma_parse_push(h, b);
                        assert(parse_moves(h.push(b)) == Some(drop_stone(st, c)));
                    } else if !start_map.contains_key(key_of(s2)) {
                        let s3 = choose|s3: (u64, u64, nat)|
                            state_wf(s3) && key_of(s3) == key_of(s2) && s3.2 >= lo + 1;
                        lemma_state_key_injective(s2, s3);
                    } else {
                        assert(start_map.contains_key(key_of(drop_stone(s2, c))));
                    }
                }
            }
            assert forall|k: u64| reached(h, depth as nat, k) implies #[trigger] map@.contains_key(
                k,
            ) by {
                lemma_reached_state(h, depth as nat, k);
                lemma_closed_covers(map@, total, lo, st, depth as nat, k);
            }
        }
    }
}

/// The book part found from the opening move in column `column` (0-based):
/// exactly the positions reached by up to `depth` legal moves in all, the
/// opening move included, each with its game value, scored by a fresh
/// engine.
pub fn generate_from_column(column: u8, depth: usize) -> (r: HashMap<u64, i32>)
    requires
        column < 7,
        depth > 0,
    ensures
        forall|k: u64| #[trigger] r@.contains_key(k) ==> exact_entry(k, r@[k]),
        forall|k: u64|
            #[trigger] r@.contains_key(k) ==> reached(
                seq![(49u8 + column) as u8],
                (depth - 1) as nat,
                k,
            ),
        r@.contains_key(history_key(seq![(49u8 + column) as u8])),
        forall|k: u64|
            reached(seq![(49u8 + column) as u8], (depth - 1) as nat, k) ==> #[trigger] r@.contains_key(
                k,
            ),
{
    let mut engine = Engine::new();
    let mut map: HashMap<u64, i32> = HashMap::new();
    let mut history: Vec<u8> = Vec::new();
    history.push(49u8 + column);
    proof {
        let h = history@;
        assert(h =~= seq![(49u8 + column) as u8]);
        assert(h.drop_last() =~= Seq::<u8>::empty());
        let c = column as u64;
        assert(0u64 & crate::board::top_mask(c) == 0 && crate::board::winning_cells(0, 0) == 0
            && 0u64 & crate::board::playable(0) & crate::board::column_bits(c) == 0)
            by (bit_vector);
        assert(parse_moves(h.drop_last()) == Some((0u64, 0u64, 0nat)));
        assert(h.last() == 49u8 + column);
        assert(((h.last() - 49) as u64) == c);
        assert(crate::board::legal_in_history((0u64, 0u64, 0nat), c));
        assert(parse_moves(h) is Some);
    }
    generate_subtree(&mut engine, &mut history, depth - 1, &mut map);
    map
}

/// `book` after adding `entries` in order, an entry adding nothing when its
/// key is already there.
pub open spec fn merged(book: Map<u64, i32>, entries: Seq<(u64, i32)>) -> Map<u64, i32>
    decreases entries.len(),
{
    if entries.len() == 0 {
        book
    } else {
        let m = merged(book, entries.drop_last());
        let (k, v) = entries.last();
        if m.contains_key(k) {
            m
        } else {
            m.insert(k, v)
        }
    }
}

/// Adds `entries` to `book`, the first score seen for a key winning.
pub fn merge_first_wins(book: &mut HashMap<u64, i32>, entries: &Vec<(u64, i32)>)
    ensures
        final(book)@ == merged(old(book)@, entries@),
        keeps_entries(old(book)@, final(book)@),
{
    let mut i: usize = 0;
    while i < entries.len()
        invariant
            i <= entries@.len(),
            book@ == merged(old(book)@, entries@.take(i as int)),
            keeps_entries(old(book)@, book@),
        decreases entries@.len() - i,
    {
        let (k, v) = entries[i];
        proof {
            assert(entries@.take(i as int + 1).drop_last() =~= entries@.take(i as int));
        }
        if !book.contains_key(&k) {
            book.insert(k, v);
        }
        i = i + 1;
    }
    proof {
        assert(entries@.take(i as int) =~= entries@);
    }
}

} // verus!
