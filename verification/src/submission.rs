//! What submissions do to a board, stated over sequences of entry views.
//!
//! A board holds at most `cap` entries. A submission appends its entry, ranks the
//! whole anew and drops what lies beyond `cap`.

use vstd::prelude::*;
use crate::entry::EntryView;
use crate::ranking::{has_distinct_scores, is_ranked, ranked, settle, settle_index, with_score};
use crate::ranking::{
    lemma_ranked_fixes_ranked, lemma_ranked_ignores_order, lemma_ranked_is_ranked,
    lemma_ranked_keeps_ties, lemma_ranked_permutes, lemma_settle_index_is,
    lemma_settle_index_ranked, lemma_settle_index_splits, lemma_settle_keeps_ranking,
};

verus! {

/// The first `cap` entries of `board`, or all of it where it holds no more.
pub open spec fn keep_top(board: Seq<EntryView>, cap: nat) -> Seq<EntryView> {
    if board.len() > cap {
        board.take(cap as int)
    } else {
        board
    }
}

/// The board that one submission leaves: the entry is appended, the whole is
/// ranked anew, and what lies beyond `cap` is dropped.
pub open spec fn after_submit(
    board: Seq<EntryView>,
    entry: EntryView,
    cap: nat,
) -> Seq<EntryView> {
    keep_top(ranked(board.push(entry)), cap)
}

/// A full board whose last place `score` does not beat: a new entry with this
/// score finds no place on it.
pub open spec fn misses_cut(board: Seq<EntryView>, score: nat, cap: nat) -> bool {
    board.len() == cap && (cap == 0 || score <= board.last().score)
}

/// The board that the submissions `entries`, made in this order, leave of `board`.
pub open spec fn after_all(
    board: Seq<EntryView>,
    entries: Seq<EntryView>,
    cap: nat,
) -> Seq<EntryView>
    decreases entries.len(),
{
    if entries.len() == 0 {
        board
    } else {
        after_submit(after_all(board, entries.drop_last(), cap), entries.last(), cap)
    }
}

/// On a ranked board a submission settles the entry and drops what lies beyond `cap`.
pub proof fn lemma_after_submit_settles(board: Seq<EntryView>, entry: EntryView, cap: nat)
    requires
        is_ranked(board),
    ensures
        after_submit(board, entry, cap) == keep_top(settle(board, entry), cap),
{
    lemma_ranked_fixes_ranked(board);
    assert(board.push(entry).drop_last() =~= board);
}

/// A submission to a ranked board within its cap leaves a ranked board within its
/// cap: one entry longer, unless the board was full.
pub proof fn lemma_submit_keeps_board(board: Seq<EntryView>, entry: EntryView, cap: nat)
    requires
        is_ranked(board),
        board.len() <= cap,
    ensures
        is_ranked(after_submit(board, entry, cap)),
        after_submit(board, entry, cap).len() <= cap,
        after_submit(board, entry, cap).len() == if board.len() < cap {
            board.len() + 1
        } else {
            cap
        },
{
    lemma_after_submit_settles(board, entry, cap);
    lemma_settle_keeps_ranking(board, entry);
    let settled = settle(board, entry);
    let after = keep_top(settled, cap);
    assert forall|i: int, j: int| 0 <= i < j < after.len() implies after[i].score
        >= after[j].score by {
        assert(after[i] == settled[i] && after[j] == settled[j]);
    }
}

/// A board stays as it is where the new entry misses the cut; an entry that
/// scores less than the last place is not on the board afterwards.
pub proof fn lemma_submit_below_cut(board: Seq<EntryView>, entry: EntryView, cap: nat)
    requires
        is_ranked(board),
        misses_cut(board, entry.score, cap),
    ensures
        after_submit(board, entry, cap) == board,
        cap > 0 && entry.score < board.last().score
            ==> !after_submit(board, entry, cap).contains(entry),
{
    lemma_after_submit_settles(board, entry, cap);
    lemma_settle_index_is(board, entry.score, board.len() as int);
    assert(keep_top(settle(board, entry), cap) =~= board);
}

/// An entry that finds room, or that beats the last place of a full board, stands
/// on the board afterwards, behind the entries that score at least as much.
pub proof fn lemma_submit_above_cut(board: Seq<EntryView>, entry: EntryView, cap: nat)
    requires
        is_ranked(board),
        board.len() <= cap,
        !misses_cut(board, entry.score, cap),
    ensures
        settle_index(board, entry.score) < after_submit(board, entry, cap).len(),
        after_submit(board, entry, cap)[settle_index(board, entry.score) as int] == entry,
        after_submit(board, entry, cap).contains(entry),
{
    lemma_after_submit_settles(board, entry, cap);
    lemma_settle_index_splits(board, entry.score);
    let k = settle_index(board, entry.score) as int;
    if board.len() == cap && k == board.len() {
        assert(board[k - 1].score >= entry.score);
    }
    assert(keep_top(settle(board, entry), cap)[k] == entry);
}

/// What lies beyond `cap` has no say in a submission: dropping it before the
/// entry settles, or only afterwards, leaves the same board.
pub proof fn lemma_settle_before_cut(board: Seq<EntryView>, entry: EntryView, cap: nat)
    requires
        is_ranked(board),
    ensures
        keep_top(settle(keep_top(board, cap), entry), cap) == keep_top(settle(board, entry), cap),
{
    if board.len() > cap {
        let top = board.take(cap as int);
        let k = settle_index(board, entry.score) as int;
        lemma_settle_index_splits(board, entry.score);
        lemma_settle_index_ranked(board, entry.score);
        if k < cap {
            assert(top[k] == board[k]);
            assert forall|i: int| 0 <= i < k implies top[i].score >= entry.score by {
                assert(top[i] == board[i]);
            }
            lemma_settle_index_is(top, entry.score, k);
        } else {
            assert forall|i: int| 0 <= i < cap implies top[i].score >= entry.score by {
                assert(top[i] == board[i]);
            }
            lemma_settle_index_is(top, entry.score, cap as int);
        }
        assert(keep_top(settle(top, entry), cap) =~= keep_top(settle(board, entry), cap));
    }
}

/// However the submissions follow one another, they leave the stable ranking of
/// the board and all the entries submitted, cut at `cap`.
pub proof fn lemma_after_all_ranks(board: Seq<EntryView>, entries: Seq<EntryView>, cap: nat)
    requires
        is_ranked(board),
        board.len() <= cap,
    ensures
        after_all(board, entries, cap) == keep_top(ranked(board + entries), cap),
    decreases entries.len(),
{
    if entries.len() == 0 {
        assert(board + entries =~= board);
        lemma_ranked_fixes_ranked(board);
    } else {
        let head = entries.drop_last();
        let last = entries.last();
        let all = ranked(board + head);
        lemma_after_all_ranks(board, head, cap);
        lemma_ranked_is_ranked(board + head);
        lemma_after_all_keeps_board(board, head, cap);
        lemma_after_submit_settles(keep_top(all, cap), last, cap);
        lemma_settle_before_cut(all, last, cap);
        assert((board + entries).drop_last() =~= board + head);
    }
}

/// Every board that submissions leave is ranked and within its cap, and holds the
/// entries it began with and those submitted as far as the cap allows.
pub proof fn lemma_after_all_keeps_board(board: Seq<EntryView>, entries: Seq<EntryView>, cap: nat)
    requires
        is_ranked(board),
        board.len() <= cap,
    ensures
        is_ranked(after_all(board, entries, cap)),
        after_all(board, entries, cap).len() <= cap,
        after_all(board, entries, cap).len() == if board.len() + entries.len() < cap {
            board.len() + entries.len()
        } else {
            cap
        },
    decreases entries.len(),
{
    if entries.len() > 0 {
        lemma_after_all_keeps_board(board, entries.drop_last(), cap);
        lemma_submit_keeps_board(after_all(board, entries.drop_last(), cap), entries.last(), cap);
    }
}

/// Entries that tie stand on the board in the order they were submitted: those
/// with one score on the board are the first of those with that score overall.
pub proof fn lemma_after_all_keeps_ties(
    board: Seq<EntryView>,
    entries: Seq<EntryView>,
    cap: nat,
    score: nat,
)
    requires
        is_ranked(board),
        board.len() <= cap,
    ensures
        with_score(after_all(board, entries, cap), score).is_prefix_of(
            with_score(board + entries, score),
        ),
{
    let tied = |e: EntryView| e.score == score;
    let all = ranked(board + entries);
    lemma_after_all_ranks(board, entries, cap);
    lemma_ranked_keeps_ties(board + entries, score);
    if all.len() > cap {
        let top = all.take(cap as int);
        let rest = all.skip(cap as int);
        assert(all =~= top + rest);
        Seq::filter_distributes_over_add(top, rest, tied);
    }
}

/// The board that submissions leave holds no entry that was not on the board
/// before or submitted, and none more often than it came.
pub proof fn lemma_after_all_holds_given(board: Seq<EntryView>, entries: Seq<EntryView>, cap: nat)
    requires
        is_ranked(board),
        board.len() <= cap,
    ensures
        after_all(board, entries, cap).to_multiset().subset_of((board + entries).to_multiset()),
        board.len() + entries.len() <= cap
            ==> after_all(board, entries, cap).to_multiset() == (board + entries).to_multiset(),
{
    let all = ranked(board + entries);
    lemma_after_all_ranks(board, entries, cap);
    lemma_ranked_permutes(board + entries);
    lemma_ranked_is_ranked(board + entries);
    if all.len() > cap {
        let top = all.take(cap as int);
        let rest = all.skip(cap as int);
        assert(all =~= top + rest);
        vstd::seq_lib::lemma_multiset_commutative(top, rest);
        assert(top.to_multiset().subset_of(top.to_multiset().add(rest.to_multiset())));
    }
}

/// Where no two scores are alike, the board that submissions leave does not
/// depend on the order in which they were made.
pub proof fn lemma_after_all_ignores_order(
    board: Seq<EntryView>,
    one: Seq<EntryView>,
    other: Seq<EntryView>,
    cap: nat,
)
    requires
        is_ranked(board),
        board.len() <= cap,
        has_distinct_scores(board + one),
        one.to_multiset() == other.to_multiset(),
    ensures
        after_all(board, one, cap) == after_all(board, other, cap),
{
    vstd::seq_lib::lemma_multiset_commutative(board, one);
    vstd::seq_lib::lemma_multiset_commutative(board, other);
    lemma_ranked_ignores_order(board + one, board + other);
    lemma_after_all_ranks(board, one, cap);
    lemma_after_all_ranks(board, other, cap);
}

} // verus!
