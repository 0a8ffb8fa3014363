use engine::board::{Board, WIDTH};
use engine::engine::Engine;
use engine::opening_book::{encode_book, OpeningBook};

fn board(history: &str) -> Board {
    Board::parse(history).ok().unwrap()
}

#[test]
fn engine_column_order_and_counter() {
    let mut engine = Engine::new();
    assert_eq!(engine.explored_nodes(), 0);
    engine.score(board("57234251536772155623166151"));
    assert!(engine.explored_nodes() > 0);
    engine.reset();
    assert_eq!(engine.explored_nodes(), 0);
}

#[test]
fn score_of_late_positions() {
    let cases = [
        ("246117513515211552327527243744", 6),
        ("57234251536772155623166151", 2),
        ("4654734543327363164674676711", 7),
        ("143251412732724441254735675765", 6),
        ("22122262156344136756744736677733", 5),
        ("12124214611164634722365375465236", 5),
    ];
    let mut engine = Engine::new();
    for (history, expected) in cases {
        assert_eq!(engine.score(board(history)), expected, "{}", history);
    }
}

#[test]
fn score_of_immediate_win() {
    // the first player wins in column 1 with the seventh stone
    let mut engine = Engine::new();
    assert_eq!(engine.score(board("121212")), (42 - 6 + 1) / 2);
}

#[test]
fn solve_gives_each_column_score() {
    let mut engine = Engine::new();
    let result = engine.solve(board("57234251536772155623166151"));
    assert_eq!(
        result,
        [Some(-8), Some(-8), Some(2), Some(-8), None, Some(-8), Some(-8)]
    );
}

#[test]
fn solve_is_negated_child_score() {
    let parent = board("57234251536772155623166151");
    let mut engine = Engine::new();
    let result = engine.solve(parent);
    for col in 0..WIDTH {
        if parent.can_play(col) {
            let mut child = parent;
            child.play(col);
            let mut fresh = Engine::new();
            assert_eq!(result[col], Some(-fresh.score(child)));
        } else {
            assert_eq!(result[col], None);
        }
    }
}

#[test]
fn score_is_negated_after_best_move() {
    let parent = board("57234251536772155623166151");
    let mut engine = Engine::new();
    let value = engine.score(parent);
    // column 3 is the best move
    let mut child = parent;
    child.play(2);
    assert_eq!(value, -engine.score(child));
}

#[test]
fn score_does_not_depend_on_table_state() {
    let position = board("4654734543327363164674676711");
    let mut warm = Engine::new();
    warm.score(board("246117513515211552327527243744"));
    warm.score(board("143251412732724441254735675765"));
    let mut cold = Engine::new();
    assert_eq!(warm.score(position), cold.score(position));
    warm.reset();
    assert_eq!(warm.score(position), 7);
}

#[test]
fn score_with_book_matches_search() {
    let history = "22122262156344136756744736677733";
    let position = board(history);
    let mut plain = Engine::new();
    let expected = plain.score(position);
    let bytes = encode_book(&vec![(position.key(), expected)]);
    let book = OpeningBook::from_bytes(&bytes);
    assert_eq!(book.score(&position), Some(expected));
    let mut with_book = Engine::with_book(book);
    assert_eq!(with_book.score(position), expected);
    assert_eq!(with_book.score(board("246117513515211552327527243744")), 6);
}

#[test]
fn best_solve_slot_is_score() {
    let position = board("57234251536772155623166151");
    let mut engine = Engine::new();
    let best = engine.solve(position).iter().flatten().copied().max().unwrap();
    let mut other = Engine::new();
    assert_eq!(best, other.score(position));
}

#[test]
fn reset_engine_scores_like_fresh_one() {
    let position = board("143251412732724441254735675765");
    let mut engine = Engine::new();
    engine.score(board("246117513515211552327527243744"));
    engine.reset();
    assert_eq!(engine.explored_nodes(), 0);
    assert_eq!(engine.score(position), 6);
}
