//! The leaderboard store: a ranked board of at most `cap` entries.
//!
//! The store does no locking of its own. `submit` takes `&mut self`, so a
//! submission never overlaps another operation on the same store; callers that
//! share a store put it behind a lock and hold the lock for one operation.

use vstd::prelude::*;
use crate::entry::{Entry, EntryView};
use crate::ranking::{is_ranked, ranked, settle, settle_index};
use crate::ranking::lemma_settle_index_is;
use crate::submission::{after_all, after_submit, keep_top, misses_cut};
use crate::submission::{
    lemma_after_all_ranks, lemma_after_submit_settles, lemma_submit_above_cut,
    lemma_submit_below_cut, lemma_submit_keeps_board,
};

verus! {

/// The number of entries that a store keeps unless it is made with another limit.
pub const DEFAULT_CAP: usize = 100;

/// A board of entries, best score first, that never holds more than `cap()` entries.
pub struct LeaderboardStore {
    entries: Vec<Entry>,
    cap: usize,
}

impl View for LeaderboardStore {
    type V = Seq<EntryView>;

    /// The board, from the first place to the last.
    closed spec fn view(&self) -> Seq<EntryView> {
        self.entries.deep_view()
    }
}

/// The place that a new entry with `score` takes among `entries`.
fn settle_place(entries: &Vec<Entry>, score: u32) -> (place: usize)
    requires
        is_ranked(entries.deep_view()),
    ensures
        place == settle_index(entries.deep_view(), score as nat),
        place <= entries.len(),
{
    let ghost board = entries.deep_view();
    let mut low: usize = 0;
    let mut high: usize = entries.len();
    while low < high
        invariant
            low <= high <= entries.len(),
            board == entries.deep_view(),
            is_ranked(board),
            forall|i: int| 0 <= i < low ==> board[i].score >= score,
            forall|i: int| high <= i < board.len() ==> board[i].score < score,
        decreases high - low,
    {
        let mid = low + (high - low) / 2;
        if entries[mid].score >= score {
            assert(board[mid as int].score >= score);
            low = mid + 1;
        } else {
            assert(board[mid as int].score < score);
            high = mid;
        }
    }
    proof {
        lemma_settle_index_is(board, score as nat, low as int);
    }
    low
}

impl Default for LeaderboardStore {
    /// An empty store with the usual cap.
    fn default() -> (store: Self)
        ensures
            store@ == Seq::<EntryView>::empty(),
            store.cap() == DEFAULT_CAP,
    {
        LeaderboardStore::new(DEFAULT_CAP)
    }
}

impl LeaderboardStore {
    #[verifier::type_invariant]
    spec fn ranked_within_cap(&self) -> bool {
        is_ranked(self@) && self@.len() <= self.cap
    }

    /// The limit that the store was made with.
    pub closed spec fn spec_cap(&self) -> usize {
        self.cap
    }

    /// The largest number of entries that the store keeps.
    #[verifier::when_used_as_spec(spec_cap)]
    pub fn cap(&self) -> (cap: usize)
        ensures
            cap == self.spec_cap(),
    {
        self.cap
    }

    /// An empty store that keeps at most `cap` entries.
    pub fn new(cap: usize) -> (store: Self)
        ensures
            store@ == Seq::<EntryView>::empty(),
            store.cap() == cap,
    {
        let store = LeaderboardStore { entries: Vec::new(), cap };
        assert(store@ =~= Seq::<EntryView>::empty());
        store
    }

    /// A store that keeps at most `cap` entries and begins with those of `seed`: the
    /// seed in its stable ranking, cut at `cap`, as if each entry had been submitted
    /// in turn.
    pub fn with_seed(cap: usize, seed: Vec<Entry>) -> (store: Self)
        ensures
            store@ == keep_top(ranked(seed.deep_view()), cap as nat),
            store@ == after_all(Seq::<EntryView>::empty(), seed.deep_view(), cap as nat),
            store.cap() == cap,
    {
        let ghost given = seed.deep_view();
        let ghost none = Seq::<EntryView>::empty();
        let mut store = LeaderboardStore::new(cap);
        for entry in seeds: seed
            invariant
                store.cap() == cap,
                seeds.seq().map_values(|e: Entry| e@) == given,
                store@ == after_all(none, given.take(seeds.index() as int), cap as nat),
        {
            let ghost done = seeds.index() as int;
            assert(given.take(done + 1).drop_last() =~= given.take(done));
            assert(given.take(done + 1).last() == entry@);
            store.submit(entry.name, entry.score);
        }
        proof {
            assert(given.take(given.len() as int) =~= given);
            lemma_after_all_ranks(none, given, cap as nat);
            assert(none + given =~= given);
        }
        store
    }

    /// The number of entries on the board.
    pub fn len(&self) -> (len: usize)
        ensures
            len == self@.len(),
            len <= self.cap(),
    {
        proof {
            use_type_invariant(self);
        }
        self.entries.len()
    }

    /// Takes one submission: the entry goes behind every entry that scores at least
    /// as much, and the last place is dropped where the board would outgrow its cap.
    /// Every name and every score is accepted.
    pub fn submit(&mut self, name: String, score: u32)
        ensures
            final(self).cap() == old(self).cap(),
            final(self)@ == after_submit(
                old(self)@,
                EntryView::of(name@, score),
                old(self).cap() as nat,
            ),
            is_ranked(final(self)@),
            final(self)@.len() <= final(self).cap(),
            final(self)@.len() == if old(self)@.len() < old(self).cap() {
                old(self)@.len() + 1
            } else {
                old(self).cap() as nat
            },
            misses_cut(old(self)@, score as nat, old(self).cap() as nat)
                ==> final(self)@ == old(self)@,
            !misses_cut(old(self)@, score as nat, old(self).cap() as nat)
                ==> final(self)@[settle_index(old(self)@, score as nat) as int]
                == EntryView::of(name@, score),
            old(self)@.len() == old(self).cap() && old(self).cap() > 0
                && score < old(self)@.last().score
                ==> !final(self)@.contains(EntryView::of(name@, score)),
    {
        proof {
            use_type_invariant(&*self);
        }
        let ghost before = self@;
        let ghost entry = EntryView::of(name@, score);
        let ghost cap = self.cap as nat;
        proof {
            lemma_after_submit_settles(before, entry, cap);
            lemma_submit_keeps_board(before, entry, cap);
            if misses_cut(before, entry.score, cap) {
                lemma_submit_below_cut(before, entry, cap);
            } else {
                lemma_submit_above_cut(before, entry, cap);
            }
        }
        let place = settle_place(&self.entries, score);
        if place < self.cap {
            let mut entries = Vec::new();
            std::mem::swap(&mut entries, &mut self.entries);
            if entries.len() == self.cap {
                entries.pop();
            }
            entries.insert(place, Entry { name, score });
            assert(entries.deep_view() =~= keep_top(settle(before, entry), cap));
            self.entries = entries;
        } else {
            assert(before =~= keep_top(settle(before, entry), cap));
        }
    }

    /// A copy of the board, from the first place to the last. Reading leaves the
    /// board as it is: two reads with no submission between them give equal copies.
    pub fn top_scores(&self) -> (scores: Vec<Entry>)
        ensures
            scores.deep_view() == self@,
            is_ranked(scores.deep_view()),
            scores.len() <= self.cap(),
    {
        proof {
            use_type_invariant(self);
        }
        let scores = self.entries.clone();
        assert(scores.deep_view() =~= self.entries.deep_view());
        scores
    }
}

} // verus!
