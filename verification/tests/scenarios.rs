use game_backend::{Entry, LeaderboardStore, DEFAULT_CAP};

fn entry(name: &str, score: u32) -> Entry {
    Entry::new(name.to_string(), score)
}

fn dinosaurs() -> Vec<Entry> {
    vec![entry("T-Rex", 1500), entry("Raptor", 1200), entry("Stego", 900)]
}

#[test]
fn seeded_board_takes_a_new_score_in_its_place() {
    let mut store = LeaderboardStore::with_seed(DEFAULT_CAP, dinosaurs());
    store.submit("Pterosaur".to_string(), 1300);
    assert_eq!(
        store.top_scores(),
        vec![
            entry("T-Rex", 1500),
            entry("Pterosaur", 1300),
            entry("Raptor", 1200),
            entry("Stego", 900),
        ]
    );
}

#[test]
fn full_board_keeps_the_hundred_highest() {
    let mut store = LeaderboardStore::new(100);
    let mut score: u32 = 105;
    while score >= 1 {
        store.submit(format!("player{}", score), score);
        score -= 1;
    }
    let top = store.top_scores();
    assert_eq!(top.len(), 100);
    assert_eq!(store.len(), 100);
    for (place, found) in top.iter().enumerate() {
        let expected = 105 - place as u32;
        assert_eq!(found.score, expected);
        assert_eq!(found.name, format!("player{}", expected));
    }
    assert_eq!(top[0].score, 105);
    assert_eq!(top[99].score, 6);
}

#[test]
fn equal_scores_stay_in_submission_order() {
    let mut store = LeaderboardStore::default();
    store.submit("A".to_string(), 50);
    store.submit("B".to_string(), 50);
    assert_eq!(store.top_scores(), vec![entry("A", 50), entry("B", 50)]);
}

#[test]
fn new_store_is_empty() {
    let store = LeaderboardStore::new(10);
    assert_eq!(store.len(), 0);
    assert_eq!(store.cap(), 10);
    assert_eq!(store.top_scores(), Vec::<Entry>::new());
}

#[test]
fn default_store_keeps_a_hundred() {
    let store = LeaderboardStore::default();
    assert_eq!(DEFAULT_CAP, 100);
    assert_eq!(store.cap(), 100);
    assert_eq!(store.len(), 0);
}

#[test]
fn seed_is_held_as_given_when_already_ranked() {
    let store = LeaderboardStore::with_seed(DEFAULT_CAP, dinosaurs());
    assert_eq!(store.top_scores(), dinosaurs());
    assert_eq!(store.len(), 3);
}

#[test]
fn seed_out_of_order_is_ranked_at_construction() {
    let seed = vec![
        entry("Stego", 900),
        entry("Anky", 1200),
        entry("T-Rex", 1500),
        entry("Raptor", 1200),
    ];
    let store = LeaderboardStore::with_seed(DEFAULT_CAP, seed);
    assert_eq!(
        store.top_scores(),
        vec![
            entry("T-Rex", 1500),
            entry("Anky", 1200),
            entry("Raptor", 1200),
            entry("Stego", 900),
        ]
    );
}

#[test]
fn seed_longer_than_the_cap_is_cut() {
    let seed = vec![entry("a", 1), entry("b", 4), entry("c", 2), entry("d", 4), entry("e", 3)];
    let store = LeaderboardStore::with_seed(3, seed);
    assert_eq!(store.top_scores(), vec![entry("b", 4), entry("d", 4), entry("e", 3)]);
    assert_eq!(store.cap(), 3);
}

#[test]
fn empty_seed_gives_an_empty_store() {
    let store = LeaderboardStore::with_seed(5, Vec::new());
    assert_eq!(store.len(), 0);
    assert_eq!(store.top_scores(), Vec::<Entry>::new());
}

#[test]
fn empty_name_is_accepted() {
    let mut store = LeaderboardStore::new(3);
    store.submit(String::new(), 7);
    assert_eq!(store.top_scores(), vec![entry("", 7)]);
}

#[test]
fn largest_and_smallest_scores_are_accepted() {
    let mut store = LeaderboardStore::new(3);
    store.submit("low".to_string(), 0);
    store.submit("high".to_string(), u32::MAX);
    assert_eq!(store.top_scores(), vec![entry("high", u32::MAX), entry("low", 0)]);
}

#[test]
fn same_name_twice_gives_two_entries() {
    let mut store = LeaderboardStore::new(5);
    store.submit("Rex".to_string(), 10);
    store.submit("Rex".to_string(), 30);
    store.submit("Rex".to_string(), 10);
    assert_eq!(
        store.top_scores(),
        vec![entry("Rex", 30), entry("Rex", 10), entry("Rex", 10)]
    );
}

#[test]
fn store_without_room_stays_empty() {
    let mut store = LeaderboardStore::new(0);
    store.submit("anyone".to_string(), 99);
    assert_eq!(store.len(), 0);
    assert_eq!(store.top_scores(), Vec::<Entry>::new());
    let seeded = LeaderboardStore::with_seed(0, dinosaurs());
    assert_eq!(seeded.len(), 0);
}

#[test]
fn store_of_one_keeps_the_first_of_the_best() {
    let mut store = LeaderboardStore::new(1);
    store.submit("first".to_string(), 5);
    store.submit("tie".to_string(), 5);
    assert_eq!(store.top_scores(), vec![entry("first", 5)]);
    store.submit("better".to_string(), 6);
    assert_eq!(store.top_scores(), vec![entry("better", 6)]);
    store.submit("worse".to_string(), 2);
    assert_eq!(store.top_scores(), vec![entry("better", 6)]);
}

#[test]
fn entry_holds_what_it_was_made_with() {
    let made = Entry::new("Stego".to_string(), 900);
    assert_eq!(made.name, "Stego");
    assert_eq!(made.score, 900);
    let copy = made.clone();
    assert_eq!(copy, made);
    assert_ne!(copy, entry("Stego", 901));
    assert_ne!(copy, entry("stego", 900));
}
