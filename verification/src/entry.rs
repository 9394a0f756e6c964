//! One record of the leaderboard and its mathematical view.

use vstd::prelude::*;

verus! {

/// What an [`Entry`] stands for in contracts: the characters of the name and the score.
pub struct EntryView {
    pub name: Seq<char>,
    pub score: nat,
}

impl EntryView {
    /// The view of the entry that holds `name` and `score`.
    pub open spec fn of(name: Seq<char>, score: u32) -> EntryView {
        EntryView { name, score: score as nat }
    }
}

/// A named score. Two entries with the same name are unrelated records.
#[derive(Debug, PartialEq, Eq)]
pub struct Entry {
    pub name: String,
    pub score: u32,
}

impl View for Entry {
    type V = EntryView;

    open spec fn view(&self) -> EntryView {
        EntryView::of(self.name@, self.score)
    }
}

impl DeepView for Entry {
    type V = EntryView;

    open spec fn deep_view(&self) -> EntryView {
        self@
    }
}

impl Clone for Entry {
    fn clone(&self) -> (copy: Self)
        ensures
            copy == *self,
    {
        Entry { name: self.name.clone(), score: self.score }
    }
}

impl Entry {
    /// Makes the entry for `name` with `score`. Any name is taken, the empty one too.
    pub fn new(name: String, score: u32) -> (entry: Self)
        ensures
            entry.name == name,
            entry.score == score,
            entry@ == EntryView::of(name@, score),
    {
        Entry { name, score }
    }
}

} // verus!
