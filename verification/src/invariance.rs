//! What makes no difference to the accents: colors that are hardly colored, repeated colors, the
//! order of the colors, and, as far as the choice goes, the source color.
use vstd::prelude::*;

use crate::accents;
use crate::assignment;
use crate::assignment::CandidateView;
use crate::color::{Argb, Hct};
use crate::harmonization;
use crate::harmonization::Harmonization;
use crate::measure;
use crate::order;

verus! {

/// A slot gets the same candidate, or none, from either list of candidates.
pub open spec fn same_pick(
    board: Seq<CandidateView>,
    other: Seq<CandidateView>,
    used: Seq<Seq<char>>,
) -> bool {
    match (assignment::nearest_of(board, used), assignment::nearest_of(other, used)) {
        (Some(i), Some(j)) => board[i] == other[j],
        (None, None) => true,
        _ => false,
    }
}

/// Every slot gets the same candidate from either list, whatever has gone before.
pub open spec fn alike(boards: Seq<Seq<CandidateView>>, others: Seq<Seq<CandidateView>>) -> bool {
    &&& boards.len() == others.len()
    &&& forall|slot: int, used: Seq<Seq<char>>|
        0 <= slot < boards.len() ==> #[trigger] same_pick(boards[slot], others[slot], used)
}

/// Lists that give the same candidates are dealt out in the same order.
proof fn alike_in_order(boards: Seq<Seq<CandidateView>>, others: Seq<Seq<CandidateView>>)
    requires
        alike(boards, others),
    ensures
        assignment::slot_order_of(boards) == assignment::slot_order_of(others),
{
    let a = Seq::new(boards.len(), |slot: int| assignment::best_of(boards[slot]));
    let b = Seq::new(others.len(), |slot: int| assignment::best_of(others[slot]));
    assert forall|slot: int| 0 <= slot < boards.len() implies a[slot] == b[slot] by {
        assert(same_pick(boards[slot], others[slot], Seq::empty()));
    }
    assert(a =~= b);
}

/// Lists that give the same candidates use up the same labels.
proof fn alike_in_use(boards: Seq<Seq<CandidateView>>, others: Seq<Seq<CandidateView>>, k: int)
    requires
        alike(boards, others),
        k <= boards.len() <= usize::MAX,
    ensures
        assignment::used_after(boards, k) == assignment::used_after(others, k),
    decreases k,
{
    if k > 0 {
        alike_in_use(boards, others, k - 1);
        alike_in_order(boards, others);
        let keys = Seq::new(boards.len(), |slot: int| assignment::best_of(boards[slot]));
        let places = order::stable_order_exists(keys);
        order::stable_order_is_unique(keys, places);
        let slot = places[k - 1] as int;
        assert(same_pick(boards[slot], others[slot], assignment::used_after(boards, k - 1)));
    }
}

/// Lists that give the same candidates are dealt out alike.
pub proof fn alike_boards_are_dealt_alike(
    boards: Seq<Seq<CandidateView>>,
    others: Seq<Seq<CandidateView>>,
    slot: int,
)
    requires
        alike(boards, others),
        0 <= slot < boards.len() <= usize::MAX,
    ensures
        match (assignment::pick_of(boards, slot), assignment::pick_of(others, slot)) {
            (Some(i), Some(j)) => boards[slot][i] == others[slot][j],
            (None, None) => true,
            _ => false,
        },
{
    alike_in_order(boards, others);
    assignment::every_slot_has_a_place(boards, slot);
    assignment::every_slot_has_a_place(others, slot);
    let (p, q) = (assignment::place_of(boards, slot), assignment::place_of(others, slot));
    let keys = Seq::new(boards.len(), |slot: int| assignment::best_of(boards[slot]));
    let places = order::stable_order_exists(keys);
    order::stable_order_is_unique(keys, places);
    if p < q {
        assert(order::before(keys, places[p] as int, places[q] as int));
    }
    if q < p {
        assert(order::before(keys, places[q] as int, places[p] as int));
    }
    alike_in_use(boards, others, p);
    assert(same_pick(boards[slot], others[slot], assignment::used_after(boards, p)));
}

/// Lists that give the same candidates give the same accents.
proof fn alike_boards_have_the_same_accents<S: Fn(Hct) -> Argb>(
    dark: bool,
    boards: Seq<Seq<CandidateView>>,
    others: Seq<Seq<CandidateView>>,
    source_color: Option<Argb>,
    harmonization: Harmonization,
    solve: &S,
    accents: Seq<Argb>,
)
    requires
        alike(boards, others),
        boards.len() == 8,
        accents::are_accents(dark, boards, source_color, harmonization, solve, accents),
    ensures
        accents::are_accents(dark, others, source_color, harmonization, solve, accents),
{
    assert forall|slot: int| 0 <= slot < others.len() implies accents::is_accent(
        slot,
        dark,
        others,
        source_color,
        harmonization,
        solve,
        #[trigger] accents[slot],
    ) by {
        alike_boards_are_dealt_alike(boards, others, slot);
        assert(accents::is_accent(
            slot,
            dark,
            boards,
            source_color,
            harmonization,
            solve,
            accents[slot],
        ));
    }
}

/// The choice of the colors depends neither on the source color nor on the level: where a color was
/// chosen, the accent with a source color is the harmonized accent without one.
pub proof fn source_only_harmonizes<S: Fn(Hct) -> Argb>(
    slot: int,
    dark: bool,
    boards: Seq<Seq<CandidateView>>,
    source: Argb,
    harmonization: Harmonization,
    any: Harmonization,
    solve: &S,
    plain: Seq<Argb>,
    accents: Seq<Argb>,
)
    requires
        0 <= slot < boards.len(),
        accents::are_accents(dark, boards, None, any, solve, plain),
        accents::are_accents(dark, boards, Some(source), harmonization, solve, accents),
        plain[slot] != Argb::unset(),
    ensures
        harmonization::may_apply(plain[slot], source, harmonization, solve, accents[slot]),
{
    assert(accents::is_accent(slot, dark, boards, None, any, solve, plain[slot]));
    assert(accents::is_accent(
        slot,
        dark,
        boards,
        Some(source),
        harmonization,
        solve,
        accents[slot],
    ));
}

/// Without a source color the level has no effect.
pub proof fn level_needs_a_source<S: Fn(Hct) -> Argb>(
    readings: Seq<Hct>,
    one: Harmonization,
    other: Harmonization,
    dark: bool,
    solve: &S,
    accents: Seq<Argb>,
)
    requires
        accents::may_deal(readings, None, one, dark, solve, accents),
    ensures
        accents::may_deal(readings, None, other, dark, solve, accents),
{
    let boards = choose|boards: Seq<Seq<CandidateView>>|
        accents::are_boards(dark, accents::chromatic_of(readings), solve, boards)
            && #[trigger] accents::are_accents(dark, boards, None, one, solve, accents);
    assert forall|slot: int| 0 <= slot < boards.len() implies accents::is_accent(
        slot,
        dark,
        boards,
        None,
        other,
        solve,
        #[trigger] accents[slot],
    ) by {
        assert(accents::is_accent(slot, dark, boards, None, one, solve, accents[slot]));
    }
    assert(accents::are_accents(dark, boards, None, other, solve, accents));
}

/// The colors that are taken for accents, in their order.
pub open spec fn kept_of(colors: Seq<Argb>, readings: Seq<Hct>) -> Seq<Argb>
    decreases colors.len(),
{
    if colors.len() == 0 {
        Seq::empty()
    } else {
        let rest = kept_of(colors.drop_last(), readings.drop_last());
        if accents::is_chromatic(readings.last()) {
            rest.push(colors.last())
        } else {
            rest
        }
    }
}

/// The colors that are taken for accents have the readings that are.
proof fn kept_colors_keep_their_readings(colors: Seq<Argb>, readings: Seq<Hct>)
    requires
        accents::may_read(colors, readings),
    ensures
        accents::may_read(kept_of(colors, readings), accents::chromatic_of(readings)),
        accents::chromatic_of(accents::chromatic_of(readings)) == accents::chromatic_of(readings),
    decreases colors.len(),
{
    reveal(Seq::filter);
    let kept = accents::chromatic_of(readings);
    if colors.len() == 0 {
        assert(kept =~= Seq::empty());
        assert(accents::chromatic_of(kept) =~= kept);
    } else {
        let (few, some) = (colors.drop_last(), readings.drop_last());
        assert forall|i: int| 0 <= i < few.len() implies #[trigger] some[i].valid()
            && measure::may_measure(few[i], some[i]) by {
            assert(readings[i].valid());
        }
        kept_colors_keep_their_readings(few, some);
        let rest = accents::chromatic_of(some);
        assert(readings[readings.len() - 1].valid());
        if accents::is_chromatic(readings.last()) {
            assert(kept == rest.push(readings.last()));
            assert(kept.drop_last() =~= rest);
            let c = kept_of(few, some);
            assert forall|i: int| 0 <= i < kept.len() implies #[trigger] kept[i].valid()
                && measure::may_measure(kept_of(colors, readings)[i], kept[i]) by {
                if i < rest.len() {
                    assert(rest[i].valid());
                    assert(kept_of(colors, readings)[i] == c[i]);
                }
            }
        } else {
            assert(kept == rest);
        }
    }
}

/// Colors of a chroma below 20 make no difference: with and without them the accents are the same.
pub proof fn dull_colors_have_no_influence<S: Fn(Hct) -> Argb>(
    colors: Seq<Argb>,
    readings: Seq<Hct>,
    source_color: Option<Argb>,
    harmonization: Harmonization,
    dark: bool,
    solve: &S,
    accents: Seq<Argb>,
)
    requires
        accents::may_read(colors, readings),
    ensures
        ({
            let kept = accents::chromatic_of(readings);
            &&& accents::may_read(kept_of(colors, readings), kept)
            &&& accents::may_deal(readings, source_color, harmonization, dark, solve, accents)
                <==> accents::may_deal(kept, source_color, harmonization, dark, solve, accents)
            &&& is_steady(solve) ==> (accents::may_assign(
                colors,
                source_color,
                harmonization,
                dark,
                solve,
                accents,
            ) <==> accents::may_assign(
                kept_of(colors, readings),
                source_color,
                harmonization,
                dark,
                solve,
                accents,
            ))
        }),
{
    kept_colors_keep_their_readings(colors, readings);
    if is_steady(solve) {
        let kept = accents::chromatic_of(readings);
        assert forall|other: Seq<Hct>| #[trigger] accents::may_read(colors, other) implies other
            == readings by {
            readings_are_unique(colors, other, readings, solve);
        }
        assert forall|other: Seq<Hct>| #[trigger]
            accents::may_read(kept_of(colors, readings), other) implies other == kept by {
            readings_are_unique(kept_of(colors, readings), other, kept, solve);
        }
    }
}

/// Colors have one list of readings only, if results are the same every time.
proof fn readings_are_unique<S: Fn(Hct) -> Argb>(
    colors: Seq<Argb>,
    a: Seq<Hct>,
    b: Seq<Hct>,
    solve: &S,
)
    requires
        is_steady(solve),
        accents::may_read(colors, a),
        accents::may_read(colors, b),
    ensures
        a == b,
{
    assert forall|i: int| 0 <= i < a.len() implies a[i] == b[i] by {
        assert(a[i].valid() && b[i].valid());
    }
    assert(a =~= b);
}

/// A copy of a candidate, behind all the others, is never taken in its place.
proof fn repeated_candidate_is_passed_over(
    board: Seq<CandidateView>,
    k: int,
    used: Seq<Seq<char>>,
)
    requires
        0 <= k < board.len(),
    ensures
        same_pick(board, board.push(board[k]), used),
{
    let more = board.push(board[k]);
    assignment::nearest_exists(board, used);
    assignment::nearest_exists(more, used);
    assert forall|i: int| 0 <= i < board.len() implies assignment::is_free(board, used, i)
        == assignment::is_free(more, used, i) by {}
    assert(assignment::is_free(more, used, board.len() as int) == assignment::is_free(
        board,
        used,
        k,
    ));
    if let Some(i) = assignment::nearest_of(board, used) {
        assert(assignment::is_free(more, used, i));
        let j = assignment::nearest_of(more, used).unwrap();
        assert(assignment::is_free(more, used, j));
        if j < board.len() {
            assert(assignment::is_free(board, used, j));
        } else {
            assert(assignment::is_free(board, used, k));
            assert(assignment::is_free(more, used, k));
        }
    } else if let Some(j) = assignment::nearest_of(more, used) {
        if j < board.len() {
            assert(assignment::is_free(board, used, j));
        } else {
            assert(assignment::is_free(board, used, k));
        }
    }
}

/// Two targets stand for the same numbers.
pub open spec fn same_target(a: Hct, b: Hct) -> bool {
    &&& a.hue.value() == b.hue.value()
    &&& a.chroma.value() == b.chroma.value()
    &&& a.tone.value() == b.tone.value()
}

/// Measurements, labels and solved colors are the same every time.
pub open spec fn is_steady<S: Fn(Hct) -> Argb>(solve: &S) -> bool {
    &&& forall|color: Argb, a: Hct, b: Hct| #[trigger]
        measure::may_measure(color, a) && #[trigger] measure::may_measure(color, b) ==> a == b
    &&& forall|color: Argb, a: Seq<char>, b: Seq<char>| #[trigger]
        measure::may_label(color, a) && #[trigger] measure::may_label(color, b) ==> a == b
    &&& forall|a: Hct, b: Hct, x: Argb, y: Argb| #[trigger]
        solve.ensures((a,), x) && #[trigger] solve.ensures((b,), y) && same_target(a, b) ==> x == y
}

/// A measured color is one candidate for a slot only, if results are the same every time.
proof fn candidate_is_unique<S: Fn(Hct) -> Argb>(
    slot: int,
    dark: bool,
    hct: Hct,
    solve: &S,
    a: CandidateView,
    b: CandidateView,
)
    requires
        is_steady(solve),
        accents::is_candidate(slot, dark, hct, solve, a),
        accents::is_candidate(slot, dark, hct, solve, b),
    ensures
        a == b,
{
    let x = choose|target: Hct| #[trigger]
        accents::is_fitted(slot, dark, hct.hue.value(), hct, target) && solve.ensures(
            (target,),
            a.color,
        );
    let y = choose|target: Hct| #[trigger]
        accents::is_fitted(slot, dark, hct.hue.value(), hct, target) && solve.ensures(
            (target,),
            b.color,
        );
    assert(same_target(x, y));
    assert(a.color == b.color);
    assert(a.label == b.label);
}

/// A repeated color that becomes the same candidates as the first time makes no difference: boards
/// with such a copy behind all others are dealt out like those without it.
pub proof fn copies_are_alike(
    boards: Seq<Seq<CandidateView>>,
    others: Seq<Seq<CandidateView>>,
    k: int,
)
    requires
        boards.len() == others.len(),
        forall|slot: int|
            0 <= slot < boards.len() ==> 0 <= k < (#[trigger] boards[slot]).len() && others[slot]
                == boards[slot].push(boards[slot][k]),
    ensures
        alike(boards, others),
        alike(others, boards),
{
    assert forall|slot: int, used: Seq<Seq<char>>| 0 <= slot < boards.len() implies #[trigger]
        same_pick(boards[slot], others[slot], used) by {
        repeated_candidate_is_passed_over(boards[slot], k, used);
    }
    assert forall|slot: int, used: Seq<Seq<char>>| 0 <= slot < boards.len() implies #[trigger]
        same_pick(others[slot], boards[slot], used) by {
        repeated_candidate_is_passed_over(boards[slot], k, used);
    }
}

/// The readings that are taken for accents, with one more reading behind the others.
proof fn chromatic_of_more(readings: Seq<Hct>, hct: Hct)
    ensures
        accents::chromatic_of(readings.push(hct)) == if accents::is_chromatic(hct) {
            accents::chromatic_of(readings).push(hct)
        } else {
            accents::chromatic_of(readings)
        },
{
    reveal(Seq::filter);
    assert(readings.push(hct).drop_last() =~= readings);
}

/// What comes of readings also comes of them with one repeated.
proof fn repeated_reading<S: Fn(Hct) -> Argb>(
    readings: Seq<Hct>,
    k: int,
    source_color: Option<Argb>,
    harmonization: Harmonization,
    dark: bool,
    solve: &S,
    accents: Seq<Argb>,
)
    requires
        0 <= k < readings.len(),
        accents::may_deal(readings, source_color, harmonization, dark, solve, accents),
    ensures
        accents::may_deal(
            readings.push(readings[k]),
            source_color,
            harmonization,
            dark,
            solve,
            accents,
        ),
{
    let hct = readings[k];
    let m = accents::chromatic_of(readings);
    chromatic_of_more(readings, hct);
    let boards = choose|boards: Seq<Seq<CandidateView>>|
        accents::are_boards(dark, m, solve, boards) && #[trigger] accents::are_accents(
            dark,
            boards,
            source_color,
            harmonization,
            solve,
            accents,
        );
    if accents::is_chromatic(hct) {
        assert(readings.contains(hct));
        accents::candidates_are_chromatic(readings, hct);
        let j = choose|j: int| 0 <= j < m.len() && m[j] == hct;
        let others = Seq::new(8, |slot: int| boards[slot].push(boards[slot][j]));
        let more = m.push(hct);
        assert forall|slot: int| 0 <= slot < 8 implies accents::is_board(
            slot,
            dark,
            more,
            solve,
            #[trigger] others[slot],
        ) by {
            assert(accents::is_board(slot, dark, m, solve, boards[slot]));
            assert forall|i: int| 0 <= i < more.len() implies accents::is_candidate(
                slot,
                dark,
                more[i],
                solve,
                #[trigger] others[slot][i],
            ) by {
                if i < m.len() {
                    assert(accents::is_candidate(slot, dark, m[i], solve, boards[slot][i]));
                } else {
                    assert(accents::is_candidate(slot, dark, m[j], solve, boards[slot][j]));
                }
            }
        }
        assert forall|slot: int| 0 <= slot < boards.len() implies 0 <= j < (
        #[trigger] boards[slot]).len() && others[slot] == boards[slot].push(boards[slot][j]) by {
            assert(accents::is_board(slot, dark, m, solve, boards[slot]));
        }
        copies_are_alike(boards, others, j);
        alike_boards_have_the_same_accents(
            dark,
            boards,
            others,
            source_color,
            harmonization,
            solve,
            accents,
        );
        assert(accents::are_boards(dark, more, solve, others));
    }
}

/// What comes of readings with one repeated also comes of them without the repetition, if results
/// are the same every time.
proof fn unrepeated_reading<S: Fn(Hct) -> Argb>(
    readings: Seq<Hct>,
    k: int,
    source_color: Option<Argb>,
    harmonization: Harmonization,
    dark: bool,
    solve: &S,
    accents: Seq<Argb>,
)
    requires
        is_steady(solve),
        0 <= k < readings.len(),
        accents::may_deal(
            readings.push(readings[k]),
            source_color,
            harmonization,
            dark,
            solve,
            accents,
        ),
    ensures
        accents::may_deal(readings, source_color, harmonization, dark, solve, accents),
{
    let hct = readings[k];
    let m = accents::chromatic_of(readings);
    chromatic_of_more(readings, hct);
    let more = accents::chromatic_of(readings.push(hct));
    let others = choose|boards: Seq<Seq<CandidateView>>|
        accents::are_boards(dark, more, solve, boards) && #[trigger] accents::are_accents(
            dark,
            boards,
            source_color,
            harmonization,
            solve,
            accents,
        );
    if accents::is_chromatic(hct) {
        assert(readings.contains(hct));
        accents::candidates_are_chromatic(readings, hct);
        let j = choose|j: int| 0 <= j < m.len() && m[j] == hct;
        let last = m.len() as int;
        let boards = Seq::new(8, |slot: int| others[slot].drop_last());
        assert forall|slot: int| 0 <= slot < 8 implies accents::is_board(
            slot,
            dark,
            m,
            solve,
            #[trigger] boards[slot],
        ) by {
            assert(accents::is_board(slot, dark, more, solve, others[slot]));
            assert forall|i: int| 0 <= i < m.len() implies accents::is_candidate(
                slot,
                dark,
                m[i],
                solve,
                #[trigger] boards[slot][i],
            ) by {
                assert(accents::is_candidate(slot, dark, more[i], solve, others[slot][i]));
            }
        }
        assert forall|slot: int| 0 <= slot < boards.len() implies 0 <= j < (
        #[trigger] boards[slot]).len() && others[slot] == boards[slot].push(boards[slot][j]) by {
            assert(accents::is_board(slot, dark, more, solve, others[slot]));
            assert(accents::is_candidate(slot, dark, more[j], solve, others[slot][j]));
            assert(accents::is_candidate(slot, dark, more[last], solve, others[slot][last]));
            candidate_is_unique(slot, dark, hct, solve, others[slot][j], others[slot][last]);
            assert(others[slot] =~= boards[slot].push(boards[slot][j]));
        }
        copies_are_alike(boards, others, j);
        alike_boards_have_the_same_accents(
            dark,
            others,
            boards,
            source_color,
            harmonization,
            solve,
            accents,
        );
        assert(accents::are_boards(dark, m, solve, boards));
    }
}

/// Repeating a color makes no difference: its accents may still come, and no others, if results are
/// the same every time.
pub proof fn repeats_do_not_matter<S: Fn(Hct) -> Argb>(
    colors: Seq<Argb>,
    k: int,
    source_color: Option<Argb>,
    harmonization: Harmonization,
    dark: bool,
    solve: &S,
    accents: Seq<Argb>,
)
    requires
        0 <= k < colors.len(),
    ensures
        ({
            let more = colors.push(colors[k]);
            let once = accents::may_assign(
                colors,
                source_color,
                harmonization,
                dark,
                solve,
                accents,
            );
            let twice = accents::may_assign(
                more,
                source_color,
                harmonization,
                dark,
                solve,
                accents,
            );
            &&& once ==> twice
            &&& is_steady(solve) && twice ==> once
        }),
{
    let more = colors.push(colors[k]);
    if accents::may_assign(colors, source_color, harmonization, dark, solve, accents) {
        let readings = choose|readings: Seq<Hct>| #[trigger]
            accents::may_read(colors, readings) && accents::may_deal(
                readings,
                source_color,
                harmonization,
                dark,
                solve,
                accents,
            );
        let read = readings.push(readings[k]);
        assert forall|i: int| 0 <= i < more.len() implies #[trigger] read[i].valid()
            && measure::may_measure(more[i], read[i]) by {
            assert(readings[k].valid());
            if i < colors.len() {
                assert(readings[i].valid());
            }
        }
        repeated_reading(readings, k, source_color, harmonization, dark, solve, accents);
        assert(accents::may_read(more, read));
    }
    if is_steady(solve) && accents::may_assign(
        more,
        source_color,
        harmonization,
        dark,
        solve,
        accents,
    ) {
        let read = choose|readings: Seq<Hct>| #[trigger]
            accents::may_read(more, readings) && accents::may_deal(
                readings,
                source_color,
                harmonization,
                dark,
                solve,
                accents,
            );
        let readings = read.drop_last();
        let last = colors.len() as int;
        assert(read[k].valid() && read[last].valid());
        assert(measure::may_measure(more[k], read[k]));
        assert(measure::may_measure(more[last], read[last]));
        assert(read =~= readings.push(readings[k]));
        assert forall|i: int| 0 <= i < colors.len() implies #[trigger] readings[i].valid()
            && measure::may_measure(colors[i], readings[i]) by {
            assert(read[i].valid());
            assert(measure::may_measure(more[i], read[i]));
        }
        unrepeated_reading(readings, k, source_color, harmonization, dark, solve, accents);
        assert(accents::may_read(colors, readings));
    }
}

/// No two chromatic colors have the same score for any slot.
pub open spec fn scores_differ(readings: Seq<Hct>) -> bool {
    forall|i: int, j: int, slot: int|
        #![trigger accents::score_of(readings[i].hue.value(), slot), accents::score_of(
            readings[j].hue.value(),
            slot,
        )]
        0 <= i < j < readings.len() && accents::is_chromatic(readings[i]) && accents::is_chromatic(
            readings[j],
        ) && 0 <= slot < 8 ==> accents::score_of(readings[i].hue.value(), slot)
            != accents::score_of(readings[j].hue.value(), slot)
}

/// What holds of the scores of all readings holds of those that are taken for accents.
proof fn kept_scores_differ(readings: Seq<Hct>)
    requires
        scores_differ(readings),
    ensures
        scores_differ(accents::chromatic_of(readings)),
    decreases readings.len(),
{
    reveal(Seq::filter);
    let m = accents::chromatic_of(readings);
    if readings.len() > 0 {
        let rest = readings.drop_last();
        let last = readings.len() - 1;
        assert forall|i: int, j: int, slot: int|
            #![trigger accents::score_of(rest[i].hue.value(), slot), accents::score_of(
                rest[j].hue.value(),
                slot,
            )]
            0 <= i < j < rest.len() && accents::is_chromatic(rest[i]) && accents::is_chromatic(
                rest[j],
            ) && 0 <= slot < 8 implies accents::score_of(rest[i].hue.value(), slot)
            != accents::score_of(rest[j].hue.value(), slot) by {
            assert(rest[i] == readings[i] && rest[j] == readings[j]);
        }
        kept_scores_differ(rest);
        let few = accents::chromatic_of(rest);
        if accents::is_chromatic(readings.last()) {
            assert(m == few.push(readings.last()));
            assert forall|i: int, j: int, slot: int|
                #![trigger accents::score_of(m[i].hue.value(), slot), accents::score_of(
                    m[j].hue.value(),
                    slot,
                )]
                0 <= i < j < m.len() && accents::is_chromatic(m[i]) && accents::is_chromatic(m[j])
                    && 0 <= slot < 8 implies accents::score_of(m[i].hue.value(), slot)
                != accents::score_of(m[j].hue.value(), slot) by {
                if j < few.len() {
                    assert(m[i] == few[i] && m[j] == few[j]);
                } else {
                    assert(few.contains(few[i]));
                    accents::candidates_are_chromatic(rest, few[i]);
                    let k = choose|k: int| 0 <= k < rest.len() && rest[k] == few[i];
                    assert(readings[k] == m[i] && readings[last] == m[j]);
                    assert(accents::score_of(readings[k].hue.value(), slot) != accents::score_of(
                        readings[last].hue.value(),
                        slot,
                    ));
                }
            }
        } else {
            assert(m == few);
        }
    }
}

/// Where a measured color stands in a list.
pub open spec fn place_in(measured: Seq<Hct>, hct: Hct) -> int {
    choose|i: int| 0 <= i < measured.len() && measured[i] == hct
}

/// The candidates of one list of measured colors, in the order of another.
pub open spec fn in_order_of(
    board: Seq<CandidateView>,
    measured: Seq<Hct>,
    other: Seq<Hct>,
) -> Seq<CandidateView> {
    Seq::new(other.len(), |i: int| board[place_in(measured, other[i])])
}

/// A slot gets the same candidate from a list in any order, if no two of its scores are equal.
proof fn reordered_board_gives_the_same<S: Fn(Hct) -> Argb>(
    slot: int,
    dark: bool,
    measured: Seq<Hct>,
    other: Seq<Hct>,
    solve: &S,
    board: Seq<CandidateView>,
    used: Seq<Seq<char>>,
)
    requires
        0 <= slot < 8,
        accents::is_board(slot, dark, measured, solve, board),
        forall|hct: Hct| measured.contains(hct) <==> other.contains(hct),
        forall|i: int| 0 <= i < measured.len() ==> accents::is_chromatic(#[trigger] measured[i]),
        forall|i: int| 0 <= i < other.len() ==> accents::is_chromatic(#[trigger] other[i]),
        scores_differ(measured),
        scores_differ(other),
    ensures
        same_pick(board, in_order_of(board, measured, other), used),
{
    let list = in_order_of(board, measured, other);
    assert forall|j: int| 0 <= j < other.len() implies {
        let i = place_in(measured, #[trigger] other[j]);
        &&& 0 <= i < measured.len()
        &&& measured[i] == other[j]
        &&& list[j] == board[i]
        &&& assignment::is_free(list, used, j) == assignment::is_free(board, used, i)
    } by {
        assert(other.contains(other[j]));
        let i = choose|i: int| 0 <= i < measured.len() && measured[i] == other[j];
        assert(list[j] == board[place_in(measured, other[j])]);
    }
    assert forall|i: int, k: int|
        0 <= i < measured.len() && 0 <= k < measured.len() && #[trigger] board[i].score
            == #[trigger] board[k].score implies i == k by {
        assert(accents::is_candidate(slot, dark, measured[i], solve, board[i]));
        assert(accents::is_candidate(slot, dark, measured[k], solve, board[k]));
        assert(accents::is_chromatic(measured[i]) && accents::is_chromatic(measured[k]));
        assert(accents::score_of(measured[i].hue.value(), slot) == accents::score_of(
            measured[k].hue.value(),
            slot,
        ));
    }
    assignment::nearest_exists(board, used);
    assignment::nearest_exists(list, used);
    if let Some(j) = assignment::nearest_of(list, used) {
        let i = place_in(measured, other[j]);
        assert(assignment::is_free(list, used, j));
        assert(assignment::is_free(board, used, i));
        let n = assignment::nearest_of(board, used).unwrap();
        assert(assignment::is_free(board, used, n));
        assert(measured.contains(measured[n]));
        let k = choose|k: int| 0 <= k < other.len() && other[k] == measured[n];
        let p = place_in(measured, other[k]);
        assert(list[k] == board[p]);
        assert(accents::is_candidate(slot, dark, measured[p], solve, board[p]));
        assert(accents::is_candidate(slot, dark, measured[n], solve, board[n]));
        assert(board[p].score == board[n].score);
        assert(p == n);
        assert(assignment::is_free(list, used, k));
        assert(board[i].score == board[n].score);
    } else if let Some(n) = assignment::nearest_of(board, used) {
        assert(assignment::is_free(board, used, n));
        assert(measured.contains(measured[n]));
        let k = choose|k: int| 0 <= k < other.len() && other[k] == measured[n];
        let p = place_in(measured, other[k]);
        assert(accents::is_candidate(slot, dark, measured[p], solve, board[p]));
        assert(accents::is_candidate(slot, dark, measured[n], solve, board[n]));
        assert(board[p].score == board[n].score);
        assert(assignment::is_free(list, used, k));
    }
}

/// The order of measured colors makes no difference, if no two of the chromatic ones have the same
/// score for any slot.
pub proof fn order_of_readings_does_not_matter<S: Fn(Hct) -> Argb>(
    readings: Seq<Hct>,
    others: Seq<Hct>,
    source_color: Option<Argb>,
    harmonization: Harmonization,
    dark: bool,
    solve: &S,
    accents: Seq<Argb>,
)
    requires
        forall|hct: Hct| readings.contains(hct) <==> others.contains(hct),
        scores_differ(readings),
        scores_differ(others),
        accents::may_deal(readings, source_color, harmonization, dark, solve, accents),
    ensures
        accents::may_deal(others, source_color, harmonization, dark, solve, accents),
{
    let (m, n) = (accents::chromatic_of(readings), accents::chromatic_of(others));
    kept_scores_differ(readings);
    kept_scores_differ(others);
    assert forall|hct: Hct| m.contains(hct) <==> n.contains(hct) by {
        accents::candidates_are_chromatic(readings, hct);
        accents::candidates_are_chromatic(others, hct);
    }
    assert forall|i: int| 0 <= i < m.len() implies accents::is_chromatic(#[trigger] m[i]) by {
        assert(m.contains(m[i]));
        accents::candidates_are_chromatic(readings, m[i]);
    }
    assert forall|i: int| 0 <= i < n.len() implies accents::is_chromatic(#[trigger] n[i]) by {
        assert(n.contains(n[i]));
        accents::candidates_are_chromatic(others, n[i]);
    }
    let boards = choose|boards: Seq<Seq<CandidateView>>|
        accents::are_boards(dark, m, solve, boards) && #[trigger] accents::are_accents(
            dark,
            boards,
            source_color,
            harmonization,
            solve,
            accents,
        );
    let lists = Seq::new(8, |slot: int| in_order_of(boards[slot], m, n));
    assert forall|slot: int, used: Seq<Seq<char>>| 0 <= slot < boards.len() implies #[trigger]
        same_pick(boards[slot], lists[slot], used) by {
        assert(accents::is_board(slot, dark, m, solve, boards[slot]));
        reordered_board_gives_the_same(slot, dark, m, n, solve, boards[slot], used);
    }
    assert forall|slot: int| 0 <= slot < 8 implies accents::is_board(
        slot,
        dark,
        n,
        solve,
        #[trigger] lists[slot],
    ) by {
        assert(accents::is_board(slot, dark, m, solve, boards[slot]));
        assert forall|i: int| 0 <= i < n.len() implies accents::is_candidate(
            slot,
            dark,
            n[i],
            solve,
            #[trigger] lists[slot][i],
        ) by {
            assert(n.contains(n[i]));
            let k = choose|k: int| 0 <= k < m.len() && m[k] == n[i];
            let p = place_in(m, n[i]);
            assert(accents::is_candidate(slot, dark, m[p], solve, boards[slot][p]));
        }
    }
    assert(accents::are_boards(dark, n, solve, lists));
    alike_boards_have_the_same_accents(
        dark,
        boards,
        lists,
        source_color,
        harmonization,
        solve,
        accents,
    );
}

/// `to` says where every place goes in a new order, and `back` where it came from.
pub open spec fn is_reordering(to: Seq<int>, back: Seq<int>) -> bool {
    &&& to.len() == back.len()
    &&& forall|i: int| 0 <= i < to.len() ==> 0 <= #[trigger] to[i] < to.len() && back[to[i]] == i
    &&& forall|i: int|
        0 <= i < to.len() ==> 0 <= #[trigger] back[i] < to.len() && to[back[i]] == i
}

/// A list in a new order.
pub open spec fn reordered<A>(list: Seq<A>, back: Seq<int>) -> Seq<A> {
    Seq::new(list.len(), |i: int| list[back[i]])
}

/// The order of the colors makes no difference, if no two of the chromatic ones have the same score
/// for any slot.
pub proof fn order_does_not_matter<S: Fn(Hct) -> Argb>(
    colors: Seq<Argb>,
    to: Seq<int>,
    back: Seq<int>,
    readings: Seq<Hct>,
    source_color: Option<Argb>,
    harmonization: Harmonization,
    dark: bool,
    solve: &S,
    accents: Seq<Argb>,
)
    requires
        is_reordering(to, back),
        to.len() == colors.len(),
        accents::may_read(colors, readings),
        scores_differ(readings),
    ensures
        accents::may_read(reordered(colors, back), reordered(readings, back)),
        accents::may_deal(readings, source_color, harmonization, dark, solve, accents)
            <==> accents::may_deal(
            reordered(readings, back),
            source_color,
            harmonization,
            dark,
            solve,
            accents,
        ),
        is_steady(solve) ==> (accents::may_assign(
            colors,
            source_color,
            harmonization,
            dark,
            solve,
            accents,
        ) <==> accents::may_assign(
            reordered(colors, back),
            source_color,
            harmonization,
            dark,
            solve,
            accents,
        )),
{
    let others = reordered(readings, back);
    assert forall|i: int| 0 <= i < colors.len() implies #[trigger] others[i].valid()
        && measure::may_measure(reordered(colors, back)[i], others[i]) by {
        assert(0 <= back[i] < to.len());
        assert(readings[back[i]].valid());
    }
    assert forall|hct: Hct| readings.contains(hct) <==> others.contains(hct) by {
        if readings.contains(hct) {
            let i = choose|i: int| 0 <= i < readings.len() && readings[i] == hct;
            assert(0 <= to[i] < to.len());
            assert(others[to[i]] == hct);
        }
        if others.contains(hct) {
            let i = choose|i: int| 0 <= i < others.len() && others[i] == hct;
            assert(0 <= back[i] < to.len());
            assert(readings[back[i]] == hct);
        }
    }
    assert forall|i: int, j: int, slot: int|
        #![trigger accents::score_of(others[i].hue.value(), slot), accents::score_of(
            others[j].hue.value(),
            slot,
        )]
        0 <= i < j < others.len() && accents::is_chromatic(others[i]) && accents::is_chromatic(
            others[j],
        ) && 0 <= slot < 8 implies accents::score_of(others[i].hue.value(), slot)
        != accents::score_of(others[j].hue.value(), slot) by {
        let (p, q) = (back[i], back[j]);
        assert(0 <= back[i] < to.len() && to[back[i]] == i);
        assert(0 <= back[j] < to.len() && to[back[j]] == j);
        assert(readings[p] == others[i] && readings[q] == others[j]);
        if p < q {
            assert(accents::score_of(readings[p].hue.value(), slot) != accents::score_of(
                readings[q].hue.value(),
                slot,
            ));
        } else {
            assert(accents::score_of(readings[q].hue.value(), slot) != accents::score_of(
                readings[p].hue.value(),
                slot,
            ));
        }
    }
    if accents::may_deal(readings, source_color, harmonization, dark, solve, accents) {
        order_of_readings_does_not_matter(
            readings,
            others,
            source_color,
            harmonization,
            dark,
            solve,
            accents,
        );
    }
    if accents::may_deal(others, source_color, harmonization, dark, solve, accents) {
        order_of_readings_does_not_matter(
            others,
            readings,
            source_color,
            harmonization,
            dark,
            solve,
            accents,
        );
    }
    if is_steady(solve) {
        assert forall|read: Seq<Hct>| #[trigger] accents::may_read(colors, read) implies read
            == readings by {
            readings_are_unique(colors, read, readings, solve);
        }
        assert forall|read: Seq<Hct>| #[trigger]
            accents::may_read(reordered(colors, back), read) implies read == others by {
            readings_are_unique(reordered(colors, back), read, others, solve);
        }
        assert(accents::may_read(colors, readings));
        assert(accents::may_read(reordered(colors, back), others));
    }
}

/// Measured colors have one set of boards only, if results are the same every time.
proof fn boards_are_unique<S: Fn(Hct) -> Argb>(
    dark: bool,
    measured: Seq<Hct>,
    solve: &S,
    a: Seq<Seq<CandidateView>>,
    b: Seq<Seq<CandidateView>>,
)
    requires
        is_steady(solve),
        accents::are_boards(dark, measured, solve, a),
        accents::are_boards(dark, measured, solve, b),
    ensures
        a == b,
{
    assert forall|slot: int| 0 <= slot < 8 implies a[slot] == b[slot] by {
        assert(accents::is_board(slot, dark, measured, solve, a[slot]));
        assert(accents::is_board(slot, dark, measured, solve, b[slot]));
        assert forall|i: int| 0 <= i < measured.len() implies a[slot][i] == b[slot][i] by {
            assert(accents::is_candidate(slot, dark, measured[i], solve, a[slot][i]));
            assert(accents::is_candidate(slot, dark, measured[i], solve, b[slot][i]));
            candidate_is_unique(slot, dark, measured[i], solve, a[slot][i], b[slot][i]);
        }
        assert(a[slot] =~= b[slot]);
    }
    assert(a =~= b);
}

/// Of one palette, the accents with a source color are the harmonized accents without one, wherever
/// these are set and if results are the same every time.
pub proof fn accents_are_harmonized_plain_accents<S: Fn(Hct) -> Argb>(
    colors: Seq<Argb>,
    slot: int,
    source: Argb,
    harmonization: Harmonization,
    any: Harmonization,
    dark: bool,
    solve: &S,
    plain: Seq<Argb>,
    accents: Seq<Argb>,
)
    requires
        is_steady(solve),
        0 <= slot < 8,
        accents::may_assign(colors, None, any, dark, solve, plain),
        accents::may_assign(colors, Some(source), harmonization, dark, solve, accents),
        plain[slot] != Argb::unset(),
    ensures
        harmonization::may_apply(plain[slot], source, harmonization, solve, accents[slot]),
{
    let r = choose|readings: Seq<Hct>| #[trigger]
        accents::may_read(colors, readings) && accents::may_deal(
            readings,
            None,
            any,
            dark,
            solve,
            plain,
        );
    let q = choose|readings: Seq<Hct>| #[trigger]
        accents::may_read(colors, readings) && accents::may_deal(
            readings,
            Some(source),
            harmonization,
            dark,
            solve,
            accents,
        );
    readings_are_unique(colors, r, q, solve);
    let measured = accents::chromatic_of(r);
    let a = choose|boards: Seq<Seq<CandidateView>>|
        accents::are_boards(dark, measured, solve, boards) && #[trigger] accents::are_accents(
            dark,
            boards,
            None,
            any,
            solve,
            plain,
        );
    let b = choose|boards: Seq<Seq<CandidateView>>|
        accents::are_boards(dark, measured, solve, boards) && #[trigger] accents::are_accents(
            dark,
            boards,
            Some(source),
            harmonization,
            solve,
            accents,
        );
    boards_are_unique(dark, measured, solve, a, b);
    source_only_harmonizes(slot, dark, a, source, harmonization, any, solve, plain, accents);
}

} // verus!
