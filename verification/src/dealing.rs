//! How colors are dealt out, in terms of the candidates and of what every slot gets.
use vstd::prelude::*;

use crate::assignment;
use crate::assignment::{Candidate, CandidateView};
use crate::order;

verus! {

/// `m` is the least score of the candidates, and the greatest number where there are none.
pub open spec fn is_least(board: Seq<CandidateView>, m: int) -> bool {
    &&& board.len() == 0 ==> m == 0x7fff_ffff_ffff_ffff
    &&& board.len() > 0 ==> exists|i: int| 0 <= i < board.len() && (#[trigger] board[i]).score == m
    &&& forall|i: int| 0 <= i < board.len() ==> m <= (#[trigger] board[i]).score
}

/// Slot `a` chooses before slot `b`: its least score is smaller, or the same and the slot the first
/// of the two.
pub open spec fn chooses_before(boards: Seq<Seq<CandidateView>>, a: int, b: int) -> bool {
    exists|m: int, n: int| #[trigger]
        is_least(boards[a], m) && #[trigger] is_least(boards[b], n) && (m < n || (m == n && a < b))
}

/// A slot that chooses before `slot` got a color with the label.
pub open spec fn is_gone(
    boards: Seq<Seq<CandidateView>>,
    picks: Seq<Option<int>>,
    slot: int,
    label: Seq<char>,
) -> bool {
    exists|other: int|
        {
            &&& 0 <= other < boards.len()
            &&& #[trigger] chooses_before(boards, other, slot)
            &&& picks[other] matches Some(i) && boards[other][i].label == label
        }
}

/// A slot gets the nearest of its candidates whose labels are not gone, the first of equally near
/// ones; it gets none only where the labels of all its candidates are gone.
pub open spec fn gets(
    boards: Seq<Seq<CandidateView>>,
    picks: Seq<Option<int>>,
    slot: int,
    pick: Option<int>,
) -> bool {
    let board = boards[slot];
    match pick {
        Some(i) => {
            &&& 0 <= i < board.len()
            &&& !is_gone(boards, picks, slot, board[i].label)
            &&& forall|j: int|
                0 <= j < board.len() && !is_gone(boards, picks, slot, (#[trigger] board[j]).label)
                    ==> board[i].score < board[j].score || (board[i].score == board[j].score && i
                    <= j)
        },
        None => forall|j: int|
            0 <= j < board.len() ==> is_gone(boards, picks, slot, (#[trigger] board[j]).label),
    }
}

/// The picks are a dealing: slots choose in turn, those with the smallest least scores first.
pub open spec fn is_dealt(boards: Seq<Seq<CandidateView>>, picks: Seq<Option<int>>) -> bool {
    &&& picks.len() == boards.len()
    &&& forall|slot: int|
        0 <= slot < boards.len() ==> gets(boards, picks, slot, #[trigger] picks[slot])
}

/// What the slots get.
pub open spec fn picks_of(boards: Seq<Seq<CandidateView>>) -> Seq<Option<int>> {
    Seq::new(boards.len(), |slot: int| assignment::pick_of(boards, slot))
}

/// The best score of a slot is the least.
proof fn best_is_least(board: Seq<CandidateView>)
    ensures
        is_least(board, assignment::best_of(board) as int),
{
    let none = Seq::<Seq<char>>::empty();
    assignment::nearest_exists(board, none);
    assert forall|i: int| 0 <= i < board.len() implies assignment::is_free(board, none, i) by {}
    match assignment::nearest_of(board, none) {
        Some(i) => {
            assert(assignment::is_free(board, none, i));
            assert forall|j: int| 0 <= j < board.len() implies board[i].score <= (
            #[trigger] board[j]).score by {
                assert(assignment::is_free(board, none, j));
            }
        },
        None => {
            if board.len() > 0 {
                assert(assignment::is_free(board, none, 0));
            }
        },
    }
}

/// A board has one least score.
proof fn least_is_unique(board: Seq<CandidateView>, m: int, n: int)
    requires
        is_least(board, m),
        is_least(board, n),
    ensures
        m == n,
{
    if board.len() > 0 {
        let i = choose|i: int| 0 <= i < board.len() && (#[trigger] board[i]).score == m;
        let j = choose|j: int| 0 <= j < board.len() && (#[trigger] board[j]).score == n;
        assert(n <= board[i].score && m <= board[j].score);
    }
}

/// The places of the slots follow the order in which they choose.
proof fn places_follow(boards: Seq<Seq<CandidateView>>, a: int, b: int)
    requires
        boards.len() <= usize::MAX,
        0 <= a < boards.len(),
        0 <= b < boards.len(),
    ensures
        assignment::place_of(boards, a) < assignment::place_of(boards, b) <==> chooses_before(
            boards,
            a,
            b,
        ),
{
    let keys = Seq::new(boards.len(), |slot: int| assignment::best_of(boards[slot]));
    let order = order::stable_order_exists(keys);
    order::stable_order_is_unique(keys, order);
    assignment::every_slot_has_a_place(boards, a);
    assignment::every_slot_has_a_place(boards, b);
    best_is_least(boards[a]);
    best_is_least(boards[b]);
    let (m, n) = (assignment::best_of(boards[a]) as int, assignment::best_of(boards[b]) as int);
    let (p, q) = (assignment::place_of(boards, a), assignment::place_of(boards, b));
    if p < q {
        assert(order::before(keys, order[p] as int, order[q] as int));
        assert(is_least(boards[a], m) && is_least(boards[b], n));
    }
    if q < p {
        assert(order::before(keys, order[q] as int, order[p] as int));
    }
    if chooses_before(boards, a, b) {
        let (x, y) = choose|x: int, y: int| #[trigger]
            is_least(boards[a], x) && #[trigger] is_least(boards[b], y) && (x < y || (x == y && a
                < b));
        least_is_unique(boards[a], m, x);
        least_is_unique(boards[b], n, y);
    }
}

/// A label that is used was got by a slot at an earlier place.
proof fn used_label_was_got(boards: Seq<Seq<CandidateView>>, k: int, label: Seq<char>) -> (j: int)
    requires
        assignment::used_after(boards, k).contains(label),
    ensures
        0 <= j < k,
        ({
            let slot = assignment::slot_order_of(boards)[j] as int;
            match assignment::nearest_of(boards[slot], assignment::used_after(boards, j)) {
                Some(i) => boards[slot][i].label == label,
                None => false,
            }
        }),
    decreases k,
{
    let now = assignment::used_after(boards, k);
    let i = choose|i: int| 0 <= i < now.len() && now[i] == label;
    assert(k > 0);
    let used = assignment::used_after(boards, k - 1);
    let board = boards[assignment::slot_order_of(boards)[k - 1] as int];
    if i < used.len() {
        assert(used[i] == label);
        assert(used.contains(label));
        used_label_was_got(boards, k - 1, label)
    } else {
        k - 1
    }
}

/// The labels that are used when a slot chooses are those that are gone.
proof fn used_labels_are_gone(boards: Seq<Seq<CandidateView>>, slot: int, label: Seq<char>)
    requires
        0 <= slot < boards.len() <= usize::MAX,
    ensures
        assignment::used_after(boards, assignment::place_of(boards, slot)).contains(label)
            <==> is_gone(boards, picks_of(boards), slot, label),
{
    let p = assignment::place_of(boards, slot);
    let picks = picks_of(boards);
    assignment::every_slot_has_a_place(boards, slot);
    let keys = Seq::new(boards.len(), |slot: int| assignment::best_of(boards[slot]));
    let order = order::stable_order_exists(keys);
    order::stable_order_is_unique(keys, order);
    if assignment::used_after(boards, p).contains(label) {
        let j = used_label_was_got(boards, p, label);
        let other = order[j] as int;
        assignment::every_slot_has_a_place(boards, other);
        let q = assignment::place_of(boards, other);
        if q < j {
            assert(order::before(keys, order[q] as int, order[j] as int));
        }
        if j < q {
            assert(order::before(keys, order[j] as int, order[q] as int));
        }
        places_follow(boards, other, slot);
        assert(picks[other] == assignment::pick_of(boards, other));
    }
    if is_gone(boards, picks, slot, label) {
        let other = choose|other: int|
            {
                &&& 0 <= other < boards.len()
                &&& #[trigger] chooses_before(boards, other, slot)
                &&& picks[other] matches Some(i) && boards[other][i].label == label
            };
        places_follow(boards, other, slot);
        assignment::every_slot_has_a_place(boards, other);
        assignment::used_labels_stay(boards, assignment::place_of(boards, other), p, label);
    }
}

/// Colors are dealt out in turn. The slot whose nearest candidate is nearest chooses first, and of
/// equal ones the first; each slot gets the nearest candidate whose label none before it has got,
/// and goes without a color only where they have got them all.
pub proof fn colors_are_dealt_in_turn(boards: Seq<Seq<CandidateView>>)
    requires
        boards.len() <= usize::MAX,
    ensures
        is_dealt(boards, picks_of(boards)),
{
    let picks = picks_of(boards);
    assert forall|slot: int| 0 <= slot < boards.len() implies gets(
        boards,
        picks,
        slot,
        #[trigger] picks[slot],
    ) by {
        let board = boards[slot];
        let used = assignment::used_after(boards, assignment::place_of(boards, slot));
        assignment::nearest_exists(board, used);
        assert forall|j: int| 0 <= j < board.len() implies assignment::is_free(board, used, j)
            == !is_gone(boards, picks, slot, (#[trigger] board[j]).label) by {
            used_labels_are_gone(boards, slot, board[j].label);
        }
        match picks[slot] {
            Some(i) => {
                assert(assignment::is_free(board, used, i));
                assert forall|j: int|
                    0 <= j < board.len() && !is_gone(
                        boards,
                        picks,
                        slot,
                        (#[trigger] board[j]).label,
                    ) implies board[i].score < board[j].score || (board[i].score
                    == board[j].score && i <= j) by {
                    assert(assignment::is_free(board, used, j));
                }
            },
            None => {
                assert forall|j: int| 0 <= j < board.len() implies is_gone(
                    boards,
                    picks,
                    slot,
                    (#[trigger] board[j]).label,
                ) by {
                    assert(!assignment::is_free(board, used, j));
                }
            },
        }
    }
}

/// Where two dealings agree on the slots before, a slot gets the same in both.
proof fn slot_gets_the_same(
    boards: Seq<Seq<CandidateView>>,
    picks: Seq<Option<int>>,
    others: Seq<Option<int>>,
    slot: int,
)
    requires
        0 <= slot < boards.len() <= usize::MAX,
        is_dealt(boards, picks),
        is_dealt(boards, others),
    ensures
        picks[slot] == others[slot],
    decreases assignment::place_of(boards, slot),
{
    assert forall|other: int|
        0 <= other < boards.len() && #[trigger] chooses_before(
            boards,
            other,
            slot,
        ) implies picks[other] == others[other] by {
        places_follow(boards, other, slot);
        assignment::every_slot_has_a_place(boards, other);
        slot_gets_the_same(boards, picks, others, other);
    }
    assert forall|label: Seq<char>| #[trigger]
        is_gone(boards, picks, slot, label) == is_gone(boards, others, slot, label) by {}
    assert(gets(boards, picks, slot, picks[slot]));
    assert(gets(boards, others, slot, others[slot]));
    let board = boards[slot];
    match (picks[slot], others[slot]) {
        (Some(i), Some(j)) => {
            assert(!is_gone(boards, picks, slot, board[j].label));
            assert(!is_gone(boards, others, slot, board[i].label));
        },
        (Some(i), None) => {
            assert(is_gone(boards, others, slot, board[i].label));
        },
        (None, Some(j)) => {
            assert(is_gone(boards, picks, slot, board[j].label));
        },
        (None, None) => {},
    }
}

/// There is one dealing only.
pub proof fn dealing_is_unique(boards: Seq<Seq<CandidateView>>, picks: Seq<Option<int>>)
    requires
        boards.len() <= usize::MAX,
        is_dealt(boards, picks),
    ensures
        picks == picks_of(boards),
{
    colors_are_dealt_in_turn(boards);
    assert forall|slot: int| 0 <= slot < boards.len() implies picks[slot]
        == picks_of(boards)[slot] by {
        slot_gets_the_same(boards, picks, picks_of(boards), slot);
    }
    assert(picks =~= picks_of(boards));
}

/// The candidates are dealt with as they are: none is left out, and score, label and color stay
/// together.
pub proof fn candidates_are_seen_whole(boards: Seq<Vec<Candidate>>, slot: int, i: int)
    requires
        0 <= slot < boards.len(),
        0 <= i < boards[slot]@.len(),
    ensures
        assignment::boards_of(boards).len() == boards.len(),
        assignment::boards_of(boards)[slot] == assignment::board_of(boards[slot]),
        assignment::board_of(boards[slot]).len() == boards[slot]@.len(),
        assignment::board_of(boards[slot])[i].score == boards[slot]@[i].score,
        assignment::board_of(boards[slot])[i].label == boards[slot]@[i].label@,
        assignment::board_of(boards[slot])[i].color == boards[slot]@[i].color,
{
}

/// The labels that are told apart are the texts themselves.
pub proof fn labels_are_texts(labels: Seq<String>, i: int)
    requires
        0 <= i < labels.len(),
    ensures
        assignment::texts_of(labels).len() == labels.len(),
        assignment::texts_of(labels)[i] == labels[i]@,
{
}

/// The candidate that is taken of a board is the nearest whose label is not among those used, the
/// first of equally near ones; none is taken only where all labels are used.
pub proof fn nearest_is_the_nearest(board: Seq<CandidateView>, used: Seq<Seq<char>>)
    ensures
        match assignment::nearest_of(board, used) {
            Some(i) => {
                &&& 0 <= i < board.len()
                &&& !used.contains(board[i].label)
                &&& forall|j: int|
                    0 <= j < board.len() && !used.contains((#[trigger] board[j]).label)
                        ==> board[i].score < board[j].score || (board[i].score == board[j].score
                        && i <= j)
            },
            None => forall|j: int|
                0 <= j < board.len() ==> used.contains((#[trigger] board[j]).label),
        },
{
    assignment::nearest_exists(board, used);
    match assignment::nearest_of(board, used) {
        Some(i) => {
            assert(assignment::is_free(board, used, i));
            assert forall|j: int|
                0 <= j < board.len() && !used.contains((#[trigger] board[j]).label) implies board[
                i].score < board[j].score || (board[i].score == board[j].score && i <= j) by {
                assert(assignment::is_free(board, used, j));
            }
        },
        None => {
            assert forall|j: int| 0 <= j < board.len() implies used.contains(
                (#[trigger] board[j]).label,
            ) by {
                assert(!assignment::is_free(board, used, j));
            }
        },
    }
}

} // verus!
