use game_backend::entry::Entry;
use game_backend::store::LeaderboardStore;

fn entry(name: &str, score: u32) -> Entry {
    Entry::new(name.to_string(), score)
}

/// Scores that rise, fall and repeat, from a fixed linear congruence.
fn mixed_scores(count: u32) -> Vec<u32> {
    let mut scores = Vec::new();
    let mut state: u32 = 12345;
    for _ in 0..count {
        state = state.wrapping_mul(1103515245).wrapping_add(12345);
        scores.push((state >> 16) % 40);
    }
    scores
}

fn never_rising(board: &[Entry]) -> bool {
    board.windows(2).all(|pair| pair[0].score >= pair[1].score)
}

#[test]
fn board_is_ranked_after_every_submission() {
    let mut store = LeaderboardStore::new(25);
    for (turn, score) in mixed_scores(200).into_iter().enumerate() {
        store.submit(format!("p{}", turn), score);
        assert!(never_rising(&store.top_scores()));
    }
}

#[test]
fn board_never_outgrows_its_cap() {
    let mut store = LeaderboardStore::new(7);
    for (turn, score) in mixed_scores(60).into_iter().enumerate() {
        store.submit(format!("p{}", turn), score);
        let held = store.top_scores().len();
        assert!(held <= 7);
        assert_eq!(held, std::cmp::min(turn + 1, 7));
        assert_eq!(store.len(), held);
    }
}

#[test]
fn score_below_the_last_place_of_a_full_board_is_dropped() {
    let mut store = LeaderboardStore::new(3);
    store.submit("a".to_string(), 30);
    store.submit("b".to_string(), 20);
    store.submit("c".to_string(), 10);
    let before = store.top_scores();
    store.submit("late".to_string(), 9);
    assert_eq!(store.top_scores(), before);
    assert!(!store.top_scores().contains(&entry("late", 9)));
    store.submit("zero".to_string(), 0);
    assert_eq!(store.top_scores(), before);
}

#[test]
fn score_equal_to_the_last_place_of_a_full_board_is_dropped() {
    let mut store = LeaderboardStore::new(3);
    store.submit("a".to_string(), 30);
    store.submit("b".to_string(), 20);
    store.submit("c".to_string(), 10);
    store.submit("tie".to_string(), 10);
    assert_eq!(store.top_scores(), vec![entry("a", 30), entry("b", 20), entry("c", 10)]);
}

#[test]
fn score_above_the_last_place_of_a_full_board_pushes_it_out() {
    let mut store = LeaderboardStore::new(3);
    store.submit("a".to_string(), 30);
    store.submit("b".to_string(), 20);
    store.submit("c".to_string(), 10);
    store.submit("d".to_string(), 20);
    assert_eq!(store.top_scores(), vec![entry("a", 30), entry("b", 20), entry("d", 20)]);
    store.submit("e".to_string(), 40);
    assert_eq!(store.top_scores(), vec![entry("e", 40), entry("a", 30), entry("b", 20)]);
}

#[test]
fn ties_keep_their_submission_order_among_other_scores() {
    let mut store = LeaderboardStore::new(10);
    store.submit("x1".to_string(), 5);
    store.submit("hi".to_string(), 9);
    store.submit("x2".to_string(), 5);
    store.submit("lo".to_string(), 1);
    store.submit("x3".to_string(), 5);
    assert_eq!(
        store.top_scores(),
        vec![entry("hi", 9), entry("x1", 5), entry("x2", 5), entry("x3", 5), entry("lo", 1)]
    );
}

#[test]
fn ties_on_the_board_are_the_first_submitted() {
    let mut store = LeaderboardStore::new(4);
    let mut submitted = Vec::new();
    for (turn, score) in mixed_scores(80).into_iter().enumerate() {
        let name = format!("p{}", turn);
        submitted.push(entry(&name, score % 3));
        store.submit(name, score % 3);
    }
    let board = store.top_scores();
    for score in 0..3u32 {
        let on_board: Vec<&Entry> = board.iter().filter(|e| e.score == score).collect();
        let overall: Vec<&Entry> = submitted.iter().filter(|e| e.score == score).collect();
        assert!(on_board.len() <= overall.len());
        assert_eq!(on_board[..], overall[..on_board.len()]);
    }
}

#[test]
fn reading_twice_gives_the_same_board() {
    let mut store = LeaderboardStore::new(5);
    store.submit("a".to_string(), 3);
    store.submit("b".to_string(), 8);
    let first = store.top_scores();
    let second = store.top_scores();
    assert_eq!(first, second);
    assert_eq!(first, vec![entry("b", 8), entry("a", 3)]);
}

#[test]
fn reading_gives_a_copy() {
    let mut store = LeaderboardStore::new(5);
    store.submit("a".to_string(), 3);
    let mut snapshot = store.top_scores();
    snapshot.push(entry("stray", 100));
    snapshot[0].score = 0;
    assert_eq!(store.top_scores(), vec![entry("a", 3)]);
    store.submit("b".to_string(), 1);
    assert_eq!(snapshot.len(), 2);
}

#[test]
fn submissions_match_a_stable_sort_cut_at_the_cap() {
    let mut store = LeaderboardStore::new(12);
    let mut all = Vec::new();
    for (turn, score) in mixed_scores(150).into_iter().enumerate() {
        let name = format!("p{}", turn);
        all.push(entry(&name, score));
        store.submit(name, score);
        let mut expected = all.clone();
        expected.sort_by(|a, b| b.score.cmp(&a.score));
        expected.truncate(12);
        assert_eq!(store.top_scores(), expected);
    }
}

#[test]
fn seeding_matches_submitting_each_entry_in_turn() {
    let mut seed = Vec::new();
    let mut one_by_one = LeaderboardStore::new(9);
    for (turn, score) in mixed_scores(40).into_iter().enumerate() {
        let name = format!("p{}", turn);
        seed.push(entry(&name, score));
        one_by_one.submit(name, score);
    }
    let seeded = LeaderboardStore::with_seed(9, seed);
    assert_eq!(seeded.top_scores(), one_by_one.top_scores());
}

#[test]
fn board_holds_seed_and_submissions_up_to_the_cap() {
    let seed = vec![entry("s1", 3), entry("s2", 2)];
    let mut store = LeaderboardStore::with_seed(6, seed);
    for turn in 0..3u32 {
        store.submit(format!("p{}", turn), 10 + turn);
        assert_eq!(store.len(), 3 + turn as usize);
    }
    for turn in 3..10u32 {
        store.submit(format!("p{}", turn), 10 + turn);
        assert_eq!(store.len(), std::cmp::min(3 + turn as usize, 6));
    }
    assert_eq!(store.len(), 6);
}
