use std::collections::HashMap;

use engine::board::Board;
use engine::book_generator::{generate_subtree, merge_first_wins};
use engine::engine::Engine;
use engine::move_sorter::MoveSorter;
use engine::opening_book::{encode_book, OpeningBook};
use engine::transposition_table::TranspositionTable;

#[test]
fn sorter_yields_descending_scores() {
    let mut sorter = MoveSorter::new();
    sorter.add(10, 2);
    sorter.add(20, 5);
    sorter.add(30, 1);
    sorter.add(40, 3);
    assert_eq!(sorter.len(), 4);
    assert_eq!(sorter.next(), Some(20));
    assert_eq!(sorter.next(), Some(40));
    assert_eq!(sorter.next(), Some(10));
    assert_eq!(sorter.next(), Some(30));
    assert_eq!(sorter.next(), None);
    assert_eq!(sorter.len(), 0);
}

#[test]
fn sorter_equal_scores_last_added_first() {
    let mut sorter = MoveSorter::new();
    sorter.add(1, 4);
    sorter.add(2, 4);
    sorter.add(3, 4);
    assert_eq!(sorter.next(), Some(3));
    assert_eq!(sorter.next(), Some(2));
    assert_eq!(sorter.next(), Some(1));
}

#[test]
fn sorter_holds_seven_moves() {
    let mut sorter = MoveSorter::new();
    for i in 0..7u64 {
        sorter.add(i, (i % 3) as i32);
    }
    assert_eq!(sorter.len(), 7);
    let mut last = i32::MAX;
    while let Some(m) = sorter.next() {
        let score = (m % 3) as i32;
        assert!(score <= last);
        last = score;
    }
}

#[test]
fn table_stores_and_replaces() {
    let mut table = TranspositionTable::new(7);
    assert_eq!(table.size(), 7);
    assert_eq!(table.get(5), None);
    table.put(5, 9);
    assert_eq!(table.get(5), Some(9));
    // 12 shares the slot of 5
    assert_eq!(table.get(12), None);
    table.put(12, 3);
    assert_eq!(table.get(12), Some(3));
    assert_eq!(table.get(5), None);
}

#[test]
fn table_empty_slot_is_a_miss_for_key_zero() {
    let mut table = TranspositionTable::new(11);
    assert_eq!(table.get(0), None);
    table.put(0, 20);
    assert_eq!(table.get(0), Some(20));
}

#[test]
fn book_bytes_layout() {
    let bytes = encode_book(&vec![(0x0102030405060708 & 0x00ff_ffff_ffff_ffff, -2)]);
    assert_eq!(bytes, vec![8, 7, 6, 5, 4, 3, 2, 125]);
}

#[test]
fn book_round_trip() {
    let histories = ["", "4", "44", "4453", "7223344"];
    let entries: Vec<(u64, i32)> = histories
        .iter()
        .zip([0, -127, 127, 5, -3])
        .map(|(h, s)| (Board::parse(h).ok().unwrap().key(), s))
        .collect();
    let bytes = encode_book(&entries);
    assert_eq!(bytes.len(), 8 * entries.len());
    let book = OpeningBook::from_bytes(&bytes);
    for (history, (_, score)) in histories.iter().zip(entries.iter()) {
        assert_eq!(book.score(&Board::parse(history).ok().unwrap()), Some(*score));
    }
    assert_eq!(book.score(&Board::parse("1").ok().unwrap()), None);
}

#[test]
fn book_first_record_wins_and_trailing_bytes_ignored() {
    let position = Board::parse("4").ok().unwrap();
    let mut bytes = encode_book(&vec![(position.key(), 4), (position.key(), -9)]);
    bytes.extend_from_slice(&[1, 2, 3]);
    let book = OpeningBook::from_bytes(&bytes);
    assert_eq!(book.score(&position), Some(4));
    let book = OpeningBook::from_bytes(&[1, 2, 3]);
    assert_eq!(book.score(&Board::new()), None);
}

#[test]
fn empty_book_knows_nothing() {
    let book = OpeningBook::new();
    assert_eq!(book.score(&Board::new()), None);
}

#[test]
fn merge_keeps_first_score() {
    let mut book = HashMap::new();
    book.insert(1u64, 10);
    merge_first_wins(&mut book, &vec![(1, 99), (2, 20), (2, 30), (3, 40)]);
    assert_eq!(book.len(), 3);
    assert_eq!(book[&1], 10);
    assert_eq!(book[&2], 20);
    assert_eq!(book[&3], 40);
}

#[test]
fn subtree_scores_reachable_positions() {
    let mut engine = Engine::new();
    let mut map = HashMap::new();
    let mut history = b"57234251536772155623166151".to_vec();
    generate_subtree(&mut engine, &mut history, 1, &mut map);
    assert_eq!(history, b"57234251536772155623166151".to_vec());
    let root = Board::parse("57234251536772155623166151").ok().unwrap();
    assert_eq!(map[&root.key()], 2);
    // the root and the six children that do not fill column 5
    assert_eq!(map.len(), 7);
    let mut child = root;
    child.play(2);
    assert_eq!(map[&child.key()], -2);
}

#[test]
fn subtree_stops_at_known_keys_and_bad_histories() {
    let mut engine = Engine::new();
    let mut map = HashMap::new();
    let mut history = b"57234251536772155623166151".to_vec();
    generate_subtree(&mut engine, &mut history, 1, &mut map);
    let first = map.clone();
    let explored = engine.explored_nodes();
    // every key is already there: nothing is searched again
    generate_subtree(&mut engine, &mut history, 1, &mut map);
    assert_eq!(map, first);
    assert_eq!(engine.explored_nodes(), explored);
    let mut empty = HashMap::new();
    let mut history = b"4444444".to_vec();
    generate_subtree(&mut engine, &mut history, 3, &mut empty);
    assert!(empty.is_empty());
}

#[test]
fn subtree_scores_every_position_up_to_depth() {
    let mut engine = Engine::new();
    let mut map = HashMap::new();
    let root = "57234251536772155623166151";
    let mut history = root.as_bytes().to_vec();
    generate_subtree(&mut engine, &mut history, 2, &mut map);
    let mut expected = std::collections::HashSet::new();
    let digits = ["", "1", "2", "3", "4", "5", "6", "7"];
    for a in digits {
        for b in digits {
            if a.is_empty() && !b.is_empty() {
                continue;
            }
            let text = format!("{}{}{}", root, a, b);
            if let Ok(board) = Board::parse(&text) {
                expected.insert(board.key());
            }
        }
    }
    let keys: std::collections::HashSet<u64> = map.keys().copied().collect();
    assert_eq!(keys, expected);
}
