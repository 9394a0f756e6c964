//! The order of a leaderboard, stated over sequences of entry views.
//!
//! A board is *ranked* when its scores never rise from one place to the next.
//! An entry *settles* behind every entry that scores at least as much, so of two
//! entries with the same score the earlier one stays ahead. The *stable ranking*
//! of a sequence settles its entries one after another; it is the only ranked
//! sequence that keeps the entries of each score in the order they came in.

use vstd::prelude::*;
use crate::entry::EntryView;

verus! {

/// The scores of `board` never rise from one place to the next.
pub open spec fn is_ranked(board: Seq<EntryView>) -> bool {
    forall|i: int, j: int| 0 <= i < j < board.len() ==> board[i].score >= board[j].score
}

/// The number of entries at the head of `board` that score at least `score`: the
/// place that a new entry with this score takes.
pub open spec fn settle_index(board: Seq<EntryView>, score: nat) -> nat
    decreases board.len(),
{
    if board.len() == 0 || board[0].score < score {
        0
    } else {
        1 + settle_index(board.drop_first(), score)
    }
}

/// `board` with `entry` put behind the leading entries that score at least as much.
pub open spec fn settle(board: Seq<EntryView>, entry: EntryView) -> Seq<EntryView> {
    board.insert(settle_index(board, entry.score) as int, entry)
}

/// The stable ranking of `entries`: each entry in turn settles among those before it.
pub open spec fn ranked(entries: Seq<EntryView>) -> Seq<EntryView>
    decreases entries.len(),
{
    if entries.len() == 0 {
        entries
    } else {
        settle(ranked(entries.drop_last()), entries.last())
    }
}

/// The entries of `entries` that score exactly `score`, in the order they have there.
pub open spec fn with_score(entries: Seq<EntryView>, score: nat) -> Seq<EntryView> {
    entries.filter(|e: EntryView| e.score == score)
}

/// No two entries of `entries` have the same score.
pub open spec fn has_distinct_scores(entries: Seq<EntryView>) -> bool {
    forall|i: int, j: int| 0 <= i < j < entries.len() ==> entries[i].score != entries[j].score
}

/// The settle index lies within the board, every entry before it scores at least
/// `score`, and the entry at it, if there is one, scores less.
pub proof fn lemma_settle_index_splits(board: Seq<EntryView>, score: nat)
    ensures
        settle_index(board, score) <= board.len(),
        forall|i: int| 0 <= i < settle_index(board, score) ==> board[i].score >= score,
        settle_index(board, score) < board.len()
            ==> board[settle_index(board, score) as int].score < score,
    decreases board.len(),
{
    if board.len() == 0 || board[0].score < score {
    } else {
        let rest = board.drop_first();
        lemma_settle_index_splits(rest, score);
        let k = settle_index(rest, score) as int;
        assert forall|i: int| 0 <= i < k + 1 implies board[i].score >= score by {
            if i > 0 {
                assert(board[i] == rest[i - 1]);
            }
        }
        if k + 1 < board.len() {
            assert(board[k + 1] == rest[k]);
        }
    }
}

/// In a ranked board every entry from the settle index on scores less than `score`.
pub proof fn lemma_settle_index_ranked(board: Seq<EntryView>, score: nat)
    requires
        is_ranked(board),
    ensures
        forall|i: int| settle_index(board, score) <= i < board.len() ==> board[i].score < score,
{
    lemma_settle_index_splits(board, score);
}

/// The settle index is the only place `k` with no lower score before it and a
/// lower score at it.
pub proof fn lemma_settle_index_is(board: Seq<EntryView>, score: nat, k: int)
    requires
        0 <= k <= board.len(),
        forall|i: int| 0 <= i < k ==> board[i].score >= score,
        k < board.len() ==> board[k].score < score,
    ensures
        settle_index(board, score) == k,
{
    lemma_settle_index_splits(board, score);
    let found = settle_index(board, score) as int;
    if found < k {
        assert(board[found].score >= score);
    } else if k < found {
        assert(board[k].score >= score);
    }
}

/// Settling an entry into a ranked board leaves a ranked board, one entry longer.
pub proof fn lemma_settle_keeps_ranking(board: Seq<EntryView>, entry: EntryView)
    requires
        is_ranked(board),
    ensures
        is_ranked(settle(board, entry)),
        settle(board, entry).len() == board.len() + 1,
{
    lemma_settle_index_splits(board, entry.score);
    lemma_settle_index_ranked(board, entry.score);
    let k = settle_index(board, entry.score) as int;
    let next = settle(board, entry);
    assert forall|i: int, j: int| 0 <= i < j < next.len() implies next[i].score
        >= next[j].score by {
        if j < k {
            assert(next[i] == board[i] && next[j] == board[j]);
        } else if j == k {
            assert(next[i] == board[i]);
        } else if i < k {
            assert(next[i] == board[i] && next[j] == board[j - 1]);
        } else if i == k {
            assert(next[j] == board[j - 1]);
        } else {
            assert(next[i] == board[i - 1] && next[j] == board[j - 1]);
        }
    }
}

/// The stable ranking is ranked and as long as what it ranks.
pub proof fn lemma_ranked_is_ranked(entries: Seq<EntryView>)
    ensures
        is_ranked(ranked(entries)),
        ranked(entries).len() == entries.len(),
    decreases entries.len(),
{
    if entries.len() > 0 {
        lemma_ranked_is_ranked(entries.drop_last());
        lemma_settle_keeps_ranking(ranked(entries.drop_last()), entries.last());
    }
}

/// Ranking changes nothing in a board that is ranked already.
pub proof fn lemma_ranked_fixes_ranked(board: Seq<EntryView>)
    requires
        is_ranked(board),
    ensures
        ranked(board) == board,
    decreases board.len(),
{
    if board.len() > 0 {
        let head = board.drop_last();
        lemma_ranked_fixes_ranked(head);
        lemma_settle_index_is(head, board.last().score, head.len() as int);
        assert(head.insert(head.len() as int, board.last()) =~= board);
    }
}

/// The stable ranking holds the entries it was given, each as often as before.
pub proof fn lemma_ranked_permutes(entries: Seq<EntryView>)
    ensures
        ranked(entries).to_multiset() == entries.to_multiset(),
    decreases entries.len(),
{
    if entries.len() > 0 {
        let head = entries.drop_last();
        lemma_ranked_permutes(head);
        lemma_settle_index_splits(ranked(head), entries.last().score);
        vstd::seq_lib::to_multiset_insert(
            ranked(head),
            settle_index(ranked(head), entries.last().score) as int,
            entries.last(),
        );
        vstd::seq_lib::to_multiset_build(head, entries.last());
        assert(head.push(entries.last()) =~= entries);
    }
}

/// Among the entries with one score, settling an entry into a ranked board puts it last.
pub proof fn lemma_settle_keeps_ties(board: Seq<EntryView>, entry: EntryView, score: nat)
    requires
        is_ranked(board),
    ensures
        with_score(settle(board, entry), score) == with_score(board.push(entry), score),
{
    let tied = |e: EntryView| e.score == score;
    let k = settle_index(board, entry.score) as int;
    lemma_settle_index_splits(board, entry.score);
    lemma_settle_index_ranked(board, entry.score);
    let front = board.take(k);
    let back = board.skip(k);
    let one = seq![entry];
    assert(board =~= front + back);
    assert(settle(board, entry) =~= (front + one) + back);
    assert(board.push(entry) =~= (front + back) + one);
    Seq::filter_distributes_over_add(front + one, back, tied);
    Seq::filter_distributes_over_add(front, one, tied);
    Seq::filter_distributes_over_add(front + back, one, tied);
    Seq::filter_distributes_over_add(front, back, tied);
    if entry.score == score {
        assert(back.all(|e: EntryView| !tied(e))) by {
            assert forall|i: int| 0 <= i < back.len() implies !tied(back[i]) by {
                assert(back[i] == board[k + i]);
            }
        }
        back.lemma_all_neg_filter_empty(tied);
        assert(back.filter(tied) =~= Seq::<EntryView>::empty());
        assert((front.filter(tied) + one.filter(tied)) + back.filter(tied) =~= (front.filter(tied)
            + back.filter(tied)) + one.filter(tied));
    } else {
        assert(one.all(|e: EntryView| !tied(e)));
        one.lemma_all_neg_filter_empty(tied);
        assert(one.filter(tied) =~= Seq::<EntryView>::empty());
        assert((front.filter(tied) + one.filter(tied)) + back.filter(tied) =~= (front.filter(tied)
            + back.filter(tied)) + one.filter(tied));
    }
}

/// The stable ranking leaves the entries with one score in the order they came in.
pub proof fn lemma_ranked_keeps_ties(entries: Seq<EntryView>, score: nat)
    ensures
        with_score(ranked(entries), score) == with_score(entries, score),
    decreases entries.len(),
{
    if entries.len() > 0 {
        let tied = |e: EntryView| e.score == score;
        let head = entries.drop_last();
        let last = entries.last();
        lemma_ranked_keeps_ties(head, score);
        lemma_ranked_is_ranked(head);
        lemma_settle_keeps_ties(ranked(head), last, score);
        Seq::filter_distributes_over_add(ranked(head), seq![last], tied);
        Seq::filter_distributes_over_add(head, seq![last], tied);
        assert(ranked(head).push(last) =~= ranked(head) + seq![last]);
        assert(entries =~= head + seq![last]);
    }
}

/// The entries with one score, split at the first place of a board that has one.
proof fn lemma_ties_from_first(board: Seq<EntryView>, score: nat)
    requires
        board.len() > 0,
    ensures
        with_score(board, score) == if board[0].score == score {
            seq![board[0]] + with_score(board.drop_first(), score)
        } else {
            with_score(board.drop_first(), score)
        },
{
    let tied = |e: EntryView| e.score == score;
    assert(board =~= seq![board[0]] + board.drop_first());
    board.drop_first().lemma_filter_prepend(board[0], tied);
    if board[0].score != score {
        let rest = with_score(board.drop_first(), score);
        assert(Seq::<EntryView>::empty() + rest =~= rest);
    }
}

/// A score that no entry of a board has: none of its entries has that score.
proof fn lemma_ties_of_missing_score(board: Seq<EntryView>, score: nat)
    requires
        with_score(board, score).len() == 0,
    ensures
        forall|i: int| 0 <= i < board.len() ==> board[i].score != score,
{
    let tied = |e: EntryView| e.score == score;
    assert forall|i: int| 0 <= i < board.len() implies board[i].score != score by {
        if board[i].score == score {
            board.lemma_filter_contains(tied, i);
        }
    }
}

/// The first place of a ranked board scores no less than the first place of
/// another board where both hold the same entries for every score.
proof fn lemma_first_place_leads(one: Seq<EntryView>, other: Seq<EntryView>)
    requires
        is_ranked(one),
        one.len() > 0,
        other.len() > 0,
        forall|score: nat| with_score(one, score) == with_score(other, score),
    ensures
        one[0].score >= other[0].score,
{
    let score = other[0].score;
    let tied = |e: EntryView| e.score == score;
    other.lemma_filter_contains(tied, 0);
    assert(with_score(one, score) == with_score(other, score));
    one.lemma_filter_contains_rev(tied, other[0]);
    let j = choose|j: int| 0 <= j < one.len() && one[j] == other[0];
    assert(one[0].score >= one[j].score);
}

/// Two ranked boards that hold, for every score, the same entries in the same
/// order are one and the same board.
pub proof fn lemma_ranked_boards_agree(one: Seq<EntryView>, other: Seq<EntryView>)
    requires
        is_ranked(one),
        is_ranked(other),
        forall|score: nat| with_score(one, score) == with_score(other, score),
    ensures
        one == other,
    decreases one.len(),
{
    if one.len() == 0 || other.len() == 0 {
        if one.len() > 0 {
            let score = one[0].score;
            assert(with_score(one, score) == with_score(other, score));
            reveal(Seq::filter);
            lemma_ties_of_missing_score(one, score);
        }
        if other.len() > 0 {
            let score = other[0].score;
            assert(with_score(one, score) == with_score(other, score));
            reveal(Seq::filter);
            lemma_ties_of_missing_score(other, score);
        }
        assert(one =~= other);
    } else {
        lemma_first_place_leads(one, other);
        lemma_first_place_leads(other, one);
        let top = one[0].score;
        lemma_ties_from_first(one, top);
        lemma_ties_from_first(other, top);
        assert(with_score(one, top) == with_score(other, top));
        assert(with_score(one, top)[0] == one[0]);
        assert(with_score(other, top)[0] == other[0]);
        let rest_one = one.drop_first();
        let rest_other = other.drop_first();
        assert forall|score: nat|
            with_score(rest_one, score) == with_score(rest_other, score) by {
            lemma_ties_from_first(one, score);
            lemma_ties_from_first(other, score);
            assert(with_score(one, score) == with_score(other, score));
            if score == top {
                seq![one[0]].lemma_concat_injective(
                    with_score(rest_one, score),
                    with_score(rest_other, score),
                );
            }
        }
        assert(is_ranked(rest_one)) by {
            assert forall|i: int, j: int| 0 <= i < j < rest_one.len() implies rest_one[i].score
                >= rest_one[j].score by {
                assert(rest_one[i] == one[i + 1] && rest_one[j] == one[j + 1]);
            }
        }
        assert(is_ranked(rest_other)) by {
            assert forall|i: int, j: int| 0 <= i < j < rest_other.len() implies rest_other[i].score
                >= rest_other[j].score by {
                assert(rest_other[i] == other[i + 1] && rest_other[j] == other[j + 1]);
            }
        }
        lemma_ranked_boards_agree(rest_one, rest_other);
        assert(one =~= seq![one[0]] + rest_one);
        assert(other =~= seq![other[0]] + rest_other);
    }
}

/// The stable ranking is the only ranked board that holds, for every score, the
/// entries with that score in the order they came in.
pub proof fn lemma_ranked_is_the_stable_order(entries: Seq<EntryView>, board: Seq<EntryView>)
    requires
        is_ranked(board),
        forall|score: nat| with_score(board, score) == with_score(entries, score),
    ensures
        board == ranked(entries),
{
    lemma_ranked_is_ranked(entries);
    assert forall|score: nat| with_score(board, score) == with_score(ranked(entries), score) by {
        lemma_ranked_keeps_ties(entries, score);
    }
    lemma_ranked_boards_agree(board, ranked(entries));
}

/// Where no two scores are alike, the entries with one score are the one entry
/// that has it, or none.
proof fn lemma_ties_of_distinct_scores(entries: Seq<EntryView>, score: nat)
    requires
        has_distinct_scores(entries),
    ensures
        forall|i: int|
            0 <= i < entries.len() && entries[i].score == score
                ==> with_score(entries, score) == seq![entries[i]],
        (forall|i: int| 0 <= i < entries.len() ==> entries[i].score != score)
            ==> with_score(entries, score) == Seq::<EntryView>::empty(),
    decreases entries.len(),
{
    if entries.len() == 0 {
        reveal(Seq::filter);
    } else {
        let rest = entries.drop_first();
        assert(has_distinct_scores(rest)) by {
            assert forall|i: int, j: int| 0 <= i < j < rest.len() implies rest[i].score
                != rest[j].score by {
                assert(rest[i] == entries[i + 1] && rest[j] == entries[j + 1]);
            }
        }
        lemma_ties_of_distinct_scores(rest, score);
        lemma_ties_from_first(entries, score);
        if entries[0].score == score {
            assert forall|i: int| 0 <= i < rest.len() implies rest[i].score != score by {
                assert(rest[i] == entries[i + 1]);
            }
            assert(seq![entries[0]] + Seq::<EntryView>::empty() =~= seq![entries[0]]);
        } else {
            assert forall|i: int|
                0 <= i < entries.len() && entries[i].score == score
                implies with_score(entries, score) == seq![entries[i]] by {
                assert(rest[i - 1] == entries[i]);
            }
            if forall|i: int| 0 <= i < entries.len() ==> entries[i].score != score {
                assert forall|i: int| 0 <= i < rest.len() implies rest[i].score != score by {
                    assert(rest[i] == entries[i + 1]);
                }
            }
        }
    }
}

/// Entries in another order, none of them with the score of another, still have
/// no two scores alike.
proof fn lemma_distinct_scores_in_any_order(one: Seq<EntryView>, other: Seq<EntryView>)
    requires
        has_distinct_scores(one),
        one.to_multiset() == other.to_multiset(),
    ensures
        has_distinct_scores(other),
{
    assert(one.no_duplicates());
    one.lemma_multiset_has_no_duplicates();
    other.lemma_multiset_has_no_duplicates_conv();
    assert forall|i: int, j: int| 0 <= i < j < other.len() implies other[i].score
        != other[j].score by {
        vstd::seq_lib::to_multiset_contains(other, other[i]);
        vstd::seq_lib::to_multiset_contains(other, other[j]);
        vstd::seq_lib::to_multiset_contains(one, other[i]);
        vstd::seq_lib::to_multiset_contains(one, other[j]);
        assert(other.contains(other[i]) && other.contains(other[j]));
        let p = choose|p: int| 0 <= p < one.len() && one[p] == other[i];
        let q = choose|q: int| 0 <= q < one.len() && one[q] == other[j];
        assert(other[i] != other[j]);
        assert(p != q);
    }
}

/// Where no two scores are alike, the ranking does not depend on the order in
/// which the entries came.
pub proof fn lemma_ranked_ignores_order(one: Seq<EntryView>, other: Seq<EntryView>)
    requires
        has_distinct_scores(one),
        one.to_multiset() == other.to_multiset(),
    ensures
        ranked(one) == ranked(other),
{
    lemma_distinct_scores_in_any_order(one, other);
    lemma_ranked_is_ranked(one);
    lemma_ranked_is_ranked(other);
    assert forall|score: nat|
        with_score(ranked(one), score) == with_score(ranked(other), score) by {
        lemma_ranked_keeps_ties(one, score);
        lemma_ranked_keeps_ties(other, score);
        lemma_ties_of_distinct_scores(one, score);
        lemma_ties_of_distinct_scores(other, score);
        if exists|i: int| 0 <= i < one.len() && one[i].score == score {
            let i = choose|i: int| 0 <= i < one.len() && one[i].score == score;
            vstd::seq_lib::to_multiset_contains(one, one[i]);
            vstd::seq_lib::to_multiset_contains(other, one[i]);
            assert(one.contains(one[i]));
            let j = choose|j: int| 0 <= j < other.len() && other[j] == one[i];
            assert(other[j].score == score);
        } else if exists|j: int| 0 <= j < other.len() && other[j].score == score {
            let j = choose|j: int| 0 <= j < other.len() && other[j].score == score;
            vstd::seq_lib::to_multiset_contains(other, other[j]);
            vstd::seq_lib::to_multiset_contains(one, other[j]);
            assert(other.contains(other[j]));
            let i = choose|i: int| 0 <= i < one.len() && one[i] == other[j];
            assert(one[i].score == score);
        }
    }
    lemma_ranked_boards_agree(ranked(one), ranked(other));
}

} // verus!
