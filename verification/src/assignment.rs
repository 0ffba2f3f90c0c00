//! Colors dealt out to slots: every slot gets the nearest color that no slot before it has got.
use vstd::prelude::*;

use crate::color::Argb;
use crate::order;

verus! {

/// A color that a slot may get.
#[derive(Debug)]
pub struct Candidate {
    /// How far the color is from what the slot asks for.
    pub score: i64,
    /// The text by which colors are told apart.
    pub label: String,
    /// The color.
    pub color: Argb,
}

/// A candidate with its label as a sequence of characters.
pub struct CandidateView {
    pub score: i64,
    pub label: Seq<char>,
    pub color: Argb,
}

impl View for Candidate {
    type V = CandidateView;

    open spec fn view(&self) -> CandidateView {
        CandidateView { score: self.score, label: self.label@, color: self.color }
    }
}

/// The candidates of one slot.
pub open spec fn board_of(board: Vec<Candidate>) -> Seq<CandidateView> {
    Seq::new(board@.len(), |i: int| board@[i]@)
}

/// The candidates of all slots.
pub open spec fn boards_of(boards: Seq<Vec<Candidate>>) -> Seq<Seq<CandidateView>> {
    Seq::new(boards.len(), |slot: int| board_of(boards[slot]))
}

/// Candidate `i` has a label that is not used yet.
pub open spec fn is_free(board: Seq<CandidateView>, used: Seq<Seq<char>>, i: int) -> bool {
    0 <= i < board.len() && !used.contains(board[i].label)
}

/// Candidate `i` is the nearest of those whose label is not used yet, the first of equally near
/// ones.
pub open spec fn is_nearest(board: Seq<CandidateView>, used: Seq<Seq<char>>, i: int) -> bool {
    &&& is_free(board, used, i)
    &&& forall|j: int| #[trigger]
        is_free(board, used, j) ==> board[i].score < board[j].score || (board[i].score
            == board[j].score && i <= j)
}

/// The candidate that a slot gets when the labels in `used` are gone.
pub open spec fn nearest_of(board: Seq<CandidateView>, used: Seq<Seq<char>>) -> Option<int> {
    if exists|i: int| is_free(board, used, i) {
        Some(choose|i: int| is_nearest(board, used, i))
    } else {
        None
    }
}

/// The score of the nearest candidate of a slot; the greatest number where it has none.
pub open spec fn best_of(board: Seq<CandidateView>) -> i64 {
    match nearest_of(board, Seq::empty()) {
        Some(i) => board[i].score,
        None => i64::MAX,
    }
}

/// The slots, the one with the smallest best score first.
pub open spec fn slot_order_of(boards: Seq<Seq<CandidateView>>) -> Seq<usize> {
    order::stable_order_of(Seq::new(boards.len(), |slot: int| best_of(boards[slot])))
}

/// The labels that are used when the first `k` slots, in their order, have got their colors.
pub open spec fn used_after(boards: Seq<Seq<CandidateView>>, k: int) -> Seq<Seq<char>>
    decreases k,
{
    if k <= 0 {
        Seq::empty()
    } else {
        let used = used_after(boards, k - 1);
        let board = boards[slot_order_of(boards)[k - 1] as int];
        match nearest_of(board, used) {
            Some(i) => used.push(board[i].label),
            None => used,
        }
    }
}

/// The place of a slot in the order.
pub open spec fn place_of(boards: Seq<Seq<CandidateView>>, slot: int) -> int {
    choose|k: int| 0 <= k < boards.len() && slot_order_of(boards)[k] == slot
}

/// The candidate that a slot gets.
pub open spec fn pick_of(boards: Seq<Seq<CandidateView>>, slot: int) -> Option<int> {
    nearest_of(boards[slot], used_after(boards, place_of(boards, slot)))
}

/// What the candidate with the given index shows itself to be.
proof fn nearest_is(board: Seq<CandidateView>, used: Seq<Seq<char>>, i: int)
    requires
        is_nearest(board, used, i),
    ensures
        nearest_of(board, used) == Some(i),
{
    let c = choose|c: int| is_nearest(board, used, c);
    assert(is_nearest(board, used, c));
    assert(is_free(board, used, c));
    assert(is_free(board, used, i));
}

/// Whether a label is among those used.
fn is_used(used: &Vec<String>, label: &String) -> (r: bool)
    ensures
        r == exists|i: int| 0 <= i < used@.len() && (#[trigger] used@[i])@ == label@,
{
    let mut i: usize = 0;
    while i < used.len()
        invariant
            i <= used.len(),
            forall|j: int| 0 <= j < i ==> (#[trigger] used@[j])@ != label@,
        decreases used.len() - i,
    {
        if used[i] == *label {
            return true;
        }
        i = i + 1;
    }
    false
}

/// The labels as sequences of characters.
pub open spec fn texts_of(labels: Seq<String>) -> Seq<Seq<char>> {
    Seq::new(labels.len(), |i: int| labels[i]@)
}

/// The candidate that a slot gets when the labels in `used` are gone.
pub fn nearest(board: &Vec<Candidate>, used: &Vec<String>) -> (r: Option<usize>)
    ensures
        match r {
            Some(i) => nearest_of(board_of(*board), texts_of(used@)) == Some(i as int),
            None => nearest_of(board_of(*board), texts_of(used@)) is None,
        },
{
    let ghost (b, u) = (board_of(*board), texts_of(used@));
    let mut best: Option<usize> = None;
    let mut i: usize = 0;
    while i < board.len()
        invariant
            b == board_of(*board),
            u == texts_of(used@),
            i <= board.len(),
            match best {
                Some(p) => {
                    &&& p < i
                    &&& is_free(b, u, p as int)
                    &&& forall|j: int|
                        j < i && #[trigger] is_free(b, u, j) ==> b[p as int].score < b[j].score || (
                        b[p as int].score == b[j].score && p <= j)
                },
                None => forall|j: int| j < i ==> !#[trigger] is_free(b, u, j),
            },
        decreases board.len() - i,
    {
        let used_up: bool = is_used(used, &board[i].label);
        proof {
            let text = board@[i as int].label@;
            assert(b[i as int].label == text);
            if used_up {
                let k = choose|k: int| 0 <= k < used@.len() && (#[trigger] used@[k])@ == text;
                assert(u[k] == text);
            } else if u.contains(text) {
                let k = choose|k: int| 0 <= k < u.len() && u[k] == text;
                assert(used@[k]@ == text);
            }
            assert(is_free(b, u, i as int) == !used_up);
        }
        if !used_up {
            best = match best {
                Some(p) => if board[i].score < board[p].score {
                    Some(i)
                } else {
                    Some(p)
                },
                None => Some(i),
            };
        }
        i = i + 1;
    }
    proof {
        match best {
            Some(p) => {
                assert(is_nearest(b, u, p as int));
                nearest_is(b, u, p as int);
            },
            None => {},
        }
    }
    best
}

/// Deals the colors out. Slots whose best candidate is nearer come first, and each gets the
/// nearest candidate whose label is not used yet.
pub fn assign(boards: &Vec<Vec<Candidate>>) -> (picks: Vec<Option<usize>>)
    ensures
        picks@.len() == boards@.len(),
        forall|slot: int|
            0 <= slot < boards@.len() ==> match #[trigger] picks@[slot] {
                Some(i) => pick_of(boards_of(boards@), slot) == Some(i as int),
                None => pick_of(boards_of(boards@), slot) is None,
            },
{
    let ghost b = boards_of(boards@);
    let none: Vec<String> = Vec::new();
    let mut scores: Vec<i64> = Vec::new();
    let mut picks: Vec<Option<usize>> = Vec::new();
    let mut s: usize = 0;
    while s < boards.len()
        invariant
            b == boards_of(boards@),
            none@.len() == 0,
            s <= boards.len(),
            scores.len() == s,
            picks.len() == s,
            forall|t: int| 0 <= t < s ==> #[trigger] scores@[t] == best_of(b[t]),
        decreases boards.len() - s,
    {
        assert(texts_of(none@) =~= Seq::empty());
        assert(b[s as int] == board_of(boards@[s as int]));
        let score: i64 = match nearest(&boards[s], &none) {
            Some(i) => {
                proof {
                    nearest_exists(b[s as int], Seq::empty());
                }
                boards[s][i].score
            },
            None => i64::MAX,
        };
        scores.push(score);
        picks.push(None);
        s = s + 1;
    }
    let places: Vec<usize> = order::stable_order(&scores);
    proof {
        assert(scores@ =~= Seq::new(b.len(), |slot: int| best_of(b[slot])));
    }
    let mut used: Vec<String> = Vec::new();
    let mut k: usize = 0;
    assert(texts_of(used@) =~= used_after(b, 0));
    while k < boards.len()
        invariant
            b == boards_of(boards@),
            places@ == slot_order_of(b),
            order::is_stable_order(scores@, places@),
            scores.len() == boards.len(),
            places.len() == boards.len(),
            picks.len() == boards.len(),
            k <= boards.len(),
            texts_of(used@) == used_after(b, k as int),
            forall|j: int|
                0 <= j < k ==> match picks@[#[trigger] places@[j] as int] {
                    Some(i) => nearest_of(b[places@[j] as int], used_after(b, j)) == Some(i as int),
                    None => nearest_of(b[places@[j] as int], used_after(b, j)) is None,
                },
        decreases boards.len() - k,
    {
        let slot: usize = places[k];
        assert(b[slot as int] == board_of(boards@[slot as int]));
        let pick: Option<usize> = nearest(&boards[slot], &used);
        let ghost before = picks@;
        picks.set(slot, pick);
        proof {
            assert forall|j: int| 0 <= j < k implies match picks@[#[trigger] places@[j] as int] {
                Some(i) => nearest_of(b[places@[j] as int], used_after(b, j)) == Some(i as int),
                None => nearest_of(b[places@[j] as int], used_after(b, j)) is None,
            } by {
                assert(order::before(scores@, places@[j] as int, places@[k as int] as int));
                assert(picks@[places@[j] as int] == before[places@[j] as int]);
            }
        }
        if let Some(i) = pick {
            proof {
                nearest_exists(b[slot as int], texts_of(used@));
            }
            let ghost texts = texts_of(used@);
            used.push(boards[slot][i].label.clone());
            assert(texts_of(used@) =~= texts.push(b[slot as int][i as int].label));
        }
        k = k + 1;
    }
    proof {
        assert forall|slot: int| 0 <= slot < boards@.len() implies match #[trigger] picks@[slot] {
            Some(i) => pick_of(b, slot) == Some(i as int),
            None => pick_of(b, slot) is None,
        } by {
            assert(places@.contains(slot as usize));
            let p = choose|p: int| 0 <= p < places@.len() && places@[p] == slot as usize;
            assert(0 <= p < b.len() && slot_order_of(b)[p] == slot);
            let q = place_of(b, slot);
            assert(places@[q] == slot);
        }
    }
    picks
}

/// Where a label is free, the slot gets the nearest candidate with a free label.
pub proof fn nearest_exists(board: Seq<CandidateView>, used: Seq<Seq<char>>)
    ensures
        match nearest_of(board, used) {
            Some(i) => is_nearest(board, used, i),
            None => forall|i: int| !#[trigger] is_free(board, used, i),
        },
{
    if exists|i: int| is_free(board, used, i) {
        let start = choose|i: int| is_free(board, used, i);
        let found = nearest_from(board, used, start, board.len() as int);
        assert(is_nearest(board, used, found));
    }
}

/// The nearest candidate below `bound`, or at `start`.
proof fn nearest_from(
    board: Seq<CandidateView>,
    used: Seq<Seq<char>>,
    start: int,
    bound: int,
) -> (found: int)
    requires
        is_free(board, used, start),
        0 <= bound <= board.len(),
    ensures
        is_free(board, used, found),
        found == start || found < bound,
        forall|j: int|
            (j < bound || j == start) && #[trigger] is_free(board, used, j) ==> board[found].score
                < board[j].score || (board[found].score == board[j].score && found <= j),
    decreases bound,
{
    if bound == 0 {
        start
    } else {
        let prior = nearest_from(board, used, start, bound - 1);
        let last = bound - 1;
        if is_free(board, used, last) && (board[last].score < board[prior].score || (
        board[last].score == board[prior].score && last < prior)) {
            last
        } else {
            prior
        }
    }
}

/// The order of the slots lists every slot once, at its place.
pub proof fn every_slot_has_a_place(boards: Seq<Seq<CandidateView>>, slot: int)
    requires
        0 <= slot < boards.len() <= usize::MAX,
    ensures
        0 <= place_of(boards, slot) < boards.len(),
        slot_order_of(boards)[place_of(boards, slot)] == slot,
{
    let keys = Seq::new(boards.len(), |slot: int| best_of(boards[slot]));
    let order = order::stable_order_exists(keys);
    order::stable_order_is_unique(keys, order);
    assert(order.contains(slot as usize));
    let k = choose|k: int| 0 <= k < order.len() && order[k] == slot as usize;
    assert(0 <= k < boards.len() && slot_order_of(boards)[k] == slot);
}

/// A slot whose nearest candidate is nearer gets its color earlier.
pub proof fn nearer_slots_come_first(boards: Seq<Seq<CandidateView>>, a: int, b: int)
    requires
        0 <= a < boards.len() <= usize::MAX,
        0 <= b < boards.len(),
        best_of(boards[a]) < best_of(boards[b]),
    ensures
        place_of(boards, a) < place_of(boards, b),
{
    let keys = Seq::new(boards.len(), |slot: int| best_of(boards[slot]));
    let order = order::stable_order_exists(keys);
    order::stable_order_is_unique(keys, order);
    every_slot_has_a_place(boards, a);
    every_slot_has_a_place(boards, b);
    let (p, q) = (place_of(boards, a), place_of(boards, b));
    if q < p {
        assert(order::before(keys, order[q] as int, order[p] as int));
    }
}

/// The labels used stay used, and the label that a slot got is among them.
pub proof fn used_labels_stay(boards: Seq<Seq<CandidateView>>, j: int, k: int, label: Seq<char>)
    requires
        0 <= j < k,
        ({
            let board = boards[slot_order_of(boards)[j] as int];
            match nearest_of(board, used_after(boards, j)) {
                Some(i) => label == board[i].label,
                None => false,
            }
        }),
    ensures
        used_after(boards, k).contains(label),
    decreases k,
{
    let used = used_after(boards, k - 1);
    if k == j + 1 {
        let now = used_after(boards, k);
        assert(now[now.len() - 1] == label);
    } else {
        used_labels_stay(boards, j, k - 1, label);
        let i = choose|i: int| 0 <= i < used.len() && used[i] == label;
        assert(used_after(boards, k)[i] == label);
    }
}

/// No two slots get colors with the same label.
pub proof fn labels_are_dealt_once(boards: Seq<Seq<CandidateView>>, a: int, b: int)
    requires
        0 <= a < boards.len() <= usize::MAX,
        0 <= b < boards.len(),
        a != b,
    ensures
        match (pick_of(boards, a), pick_of(boards, b)) {
            (Some(i), Some(j)) => boards[a][i].label != boards[b][j].label,
            _ => true,
        },
{
    every_slot_has_a_place(boards, a);
    every_slot_has_a_place(boards, b);
    let (p, q) = (place_of(boards, a), place_of(boards, b));
    nearest_exists(boards[a], used_after(boards, p));
    nearest_exists(boards[b], used_after(boards, q));
    if let (Some(i), Some(j)) = (pick_of(boards, a), pick_of(boards, b)) {
        if p < q {
            used_labels_stay(boards, p, q, boards[a][i].label);
        } else {
            used_labels_stay(boards, q, p, boards[b][j].label);
        }
    }
}

/// No more labels are used than slots have come up.
proof fn few_labels_are_used(boards: Seq<Seq<CandidateView>>, k: int)
    requires
        0 <= k,
    ensures
        used_after(boards, k).len() <= k,
    decreases k,
{
    if k > 0 {
        few_labels_are_used(boards, k - 1);
    }
}

/// The labels of the candidates of a slot.
pub open spec fn labels_of(board: Seq<CandidateView>) -> Seq<Seq<char>> {
    Seq::new(board.len(), |i: int| board[i].label)
}

/// A slot gets a color if its candidates have at least as many labels as there are slots.
pub proof fn enough_labels_fill_a_slot(boards: Seq<Seq<CandidateView>>, slot: int)
    requires
        0 <= slot < boards.len() <= usize::MAX,
        labels_of(boards[slot]).to_set().len() >= boards.len(),
    ensures
        pick_of(boards, slot) is Some,
{
    every_slot_has_a_place(boards, slot);
    let used = used_after(boards, place_of(boards, slot));
    let labels = labels_of(boards[slot]);
    few_labels_are_used(boards, place_of(boards, slot));
    nearest_exists(boards[slot], used);
    if pick_of(boards, slot) is None {
        assert forall|label: Seq<char>|
            labels.to_set().contains(label) implies used.to_set().contains(label) by {
            let i = choose|i: int| 0 <= i < labels.len() && labels[i] == label;
            assert(!is_free(boards[slot], used, i));
        }
        used.lemma_cardinality_of_set();
        vstd::set_lib::lemma_len_subset(labels.to_set(), used.to_set());
    }
}

/// A slot goes without a color only where every one of its labels has gone to another slot.
pub proof fn empty_slot_is_used_up(boards: Seq<Seq<CandidateView>>, slot: int, i: int)
    requires
        pick_of(boards, slot) is None,
        0 <= i < boards[slot].len(),
    ensures
        used_after(boards, place_of(boards, slot)).contains(boards[slot][i].label),
{
    let used = used_after(boards, place_of(boards, slot));
    nearest_exists(boards[slot], used);
    assert(!is_free(boards[slot], used, i));
}

/// The slot whose best candidate is nearest of all gets that candidate.
pub proof fn first_slot_gets_its_nearest(boards: Seq<Seq<CandidateView>>, slot: int)
    requires
        place_of(boards, slot) == 0,
    ensures
        pick_of(boards, slot) == nearest_of(boards[slot], Seq::empty()),
{
}

/// What a slot gets is the nearest of its candidates whose labels the slots before it have left.
pub proof fn pick_is_the_nearest_left(boards: Seq<Seq<CandidateView>>, slot: int)
    ensures
        pick_of(boards, slot) matches Some(i) ==> is_nearest(
            boards[slot],
            used_after(boards, place_of(boards, slot)),
            i,
        ),
{
    nearest_exists(boards[slot], used_after(boards, place_of(boards, slot)));
}

} // verus!
