//! What the accents of a palette are, in terms of its colors, their hues, chromas and tones.
use vstd::arithmetic::power2::*;
use vstd::prelude::*;

use crate::accents;
use crate::angle;
use crate::assignment;
use crate::assignment::CandidateView;
use crate::binary64;
use crate::circle;
use crate::color::{Argb, Hct};
use crate::dealing;
use crate::exactness;
use crate::harmonization;
use crate::harmonization::Harmonization;
use crate::measure;
use crate::nearness;
use crate::rounding;

verus! {

/// The hues of the slots, in degrees.
pub open spec fn centers() -> Seq<int> {
    seq![10int, 40, 65, 115, 185, 245, 295, 25]
}

/// `target` has the hue, and the chroma and the tone of `hct` as a slot wants them: the tone is at
/// least 50 in a dark scheme and at most 50 in a light one, and changed to 50 only where it is not;
/// the chroma is halved in the last slot.
pub open spec fn fits(slot: int, dark: bool, hue: int, hct: Hct, target: Hct) -> bool {
    let (u, k) = (binary64::one() as int, pow2(52) as int);
    let (chroma, tone) = (target.chroma.value(), target.tone.value());
    &&& target.hue.finite() && target.chroma.finite() && target.tone.finite()
    &&& target.hue.value() == hue
    &&& slot != 7 ==> chroma == hct.chroma.value()
    &&& slot == 7 ==> k * rounding::apart(2 * chroma, hct.chroma.value()) <= nearness::size(
        hct.chroma.value(),
    ) + 2 * k
    &&& tone == hct.tone.value() || tone == 50 * u
    &&& dark ==> tone >= hct.tone.value() && tone >= 50 * u
    &&& !dark ==> tone <= hct.tone.value() && tone <= 50 * u
}

/// The score is the way from the hue to that of the slot, in ten-thousandths of a degree, less than
/// one off.
pub open spec fn counts_the_way(hue: int, slot: int, score: int) -> bool {
    let (u, h) = (binary64::one() as int, nearness::hair());
    let way = 10000 * circle::arc(hue, centers()[slot] * u);
    score * u <= way + 0x10000 * h && way < score * u + u + 0x10000 * h
}

/// `r` is solved for the hue of `accent` turned towards that of `source`, by half the way or by
/// `most`, whichever is less, with the chroma and the tone of `accent`.
pub open spec fn is_blend<S: Fn(Hct) -> Argb>(
    accent: Argb,
    source: Argb,
    most: int,
    solve: &S,
    r: Argb,
) -> bool {
    exists|a: Hct, s: Hct, target: Hct|
        {
            &&& #[trigger] measure::hct_readings(accent.red, accent.green, accent.blue).contains(
                (a.hue.bits, a.chroma.bits, a.tone.bits),
            )
            &&& #[trigger] measure::hct_readings(source.red, source.green, source.blue).contains(
                (s.hue.bits, s.chroma.bits, s.tone.bits),
            )
            &&& circle::on_circle(a.hue.value())
            &&& circle::on_circle(s.hue.value())
            &&& target.hue.finite()
            &&& target.chroma == a.chroma
            &&& target.tone == a.tone
            &&& circle::is_turned(a.hue.value(), s.hue.value(), most, target.hue.value())
            &&& #[trigger] solve.ensures((target,), r)
        }
}

/// `r` is `accent`, blended towards `source` as far as the level says: not at all, or by at most
/// 15, 30 or 45 degrees.
pub open spec fn is_leveled<S: Fn(Hct) -> Argb>(
    accent: Argb,
    source: Argb,
    level: Harmonization,
    solve: &S,
    r: Argb,
) -> bool {
    let u = binary64::one() as int;
    match level {
        Harmonization::Off => r == accent,
        Harmonization::Light => is_blend(accent, source, 15 * u, solve, r),
        Harmonization::Moderate => is_blend(accent, source, 30 * u, solve, r),
        Harmonization::Strong => is_blend(accent, source, 45 * u, solve, r),
    }
}

/// Whatever the ceiling, blending turns the measured hue along the shorter way to that of the
/// source, by half of it or by the ceiling, and keeps the measured chroma and tone.
pub proof fn blending_turns_the_hue<S: Fn(Hct) -> Argb>(
    accent: Argb,
    source: Argb,
    most: int,
    solve: &S,
    r: Argb,
)
    requires
        0 <= most,
        harmonization::may_harmonize(accent, source, most, solve, r),
    ensures
        is_blend(accent, source, most, solve, r),
{
    let (a, s, target) = choose|a: Hct, s: Hct, target: Hct|
        #![trigger harmonization::is_harmonized(a, s, most, target)]
        {
            &&& measure::may_measure(accent, a) && angle::is_hue(a.hue)
            &&& measure::may_measure(source, s) && angle::is_hue(s.hue)
            &&& harmonization::is_harmonized(a, s, most, target)
            &&& solve.ensures((target,), r)
        };
    circle::harmonized_target_is_turned(a, s, most, target);
    assert(measure::hct_readings(accent.red, accent.green, accent.blue).contains(
        (a.hue.bits, a.chroma.bits, a.tone.bits),
    ));
    assert(measure::hct_readings(source.red, source.green, source.blue).contains(
        (s.hue.bits, s.chroma.bits, s.tone.bits),
    ));
}

/// A level blends an accent by at most 15, 30 or 45 degrees, or leaves it as it is.
pub proof fn levels_blend<S: Fn(Hct) -> Argb>(
    accent: Argb,
    source: Argb,
    level: Harmonization,
    solve: &S,
    r: Argb,
)
    requires
        harmonization::may_apply(accent, source, level, solve, r),
    ensures
        is_leveled(accent, source, level, solve, r),
{
    let u = binary64::one() as int;
    nearness::hair_is_small();
    match level {
        Harmonization::Off => {},
        Harmonization::Light => {
            blending_turns_the_hue(accent, source, 15 * u, solve, r);
        },
        Harmonization::Moderate => {
            blending_turns_the_hue(accent, source, 30 * u, solve, r);
        },
        Harmonization::Strong => {
            blending_turns_the_hue(accent, source, 45 * u, solve, r);
        },
    }
}

/// A color made to fit a slot has the tone nearest to its own that is readable, and in the last
/// slot half its chroma.
pub proof fn fitted_colors_fit(slot: int, dark: bool, hue: int, hct: Hct, target: Hct)
    requires
        accents::is_fitted(slot, dark, hue, hct, target),
    ensures
        fits(slot, dark, hue, hct, target),
{
    exactness::fitted_color(slot, dark, hue, hct, target);
}

/// `from` lists the indices of the readings whose chroma is at least 20, in order.
pub open spec fn lists_chromatic(readings: Seq<Hct>, from: Seq<int>) -> bool {
    let u = binary64::one() as int;
    &&& forall|k: int|
        0 <= k < from.len() ==> 0 <= #[trigger] from[k] < readings.len()
            && readings[from[k]].chroma.value() >= 20 * u
    &&& forall|k: int, m: int| 0 <= k < m < from.len() ==> #[trigger] from[k] < #[trigger] from[m]
    &&& forall|i: int|
        0 <= i < readings.len() && (#[trigger] readings[i]).chroma.value() >= 20 * u
            ==> from.contains(i)
}

/// The colors kept are those with a chroma of at least 20, in their order.
pub proof fn chromatic_colors_are_kept(readings: Seq<Hct>) -> (from: Seq<int>)
    ensures
        lists_chromatic(readings, from),
        accents::chromatic_of(readings).len() == from.len(),
        forall|k: int|
            0 <= k < from.len() ==> #[trigger] accents::chromatic_of(readings)[k]
                == readings[from[k]],
    decreases readings.len(),
{
    reveal(Seq::filter);
    if readings.len() == 0 {
        Seq::empty()
    } else {
        let few = readings.drop_last();
        let prior = chromatic_colors_are_kept(few);
        let n = few.len() as int;
        let kept = accents::chromatic_of(few);
        if readings[n].chroma.value() >= 20 * binary64::one() {
            let from = prior.push(n);
            assert(accents::chromatic_of(readings) == kept.push(readings[n]));
            assert forall|i: int|
                0 <= i < readings.len() && (#[trigger] readings[i]).chroma.value() >= 20
                    * binary64::one() implies from.contains(i) by {
                if i == n {
                    assert(from[prior.len() as int] == n);
                } else {
                    assert(few[i] == readings[i]);
                    assert(prior.contains(i));
                    let k = choose|k: int| 0 <= k < prior.len() && prior[k] == i;
                    assert(from[k] == i);
                }
            }
            from
        } else {
            assert(accents::chromatic_of(readings) == kept);
            assert forall|i: int|
                0 <= i < readings.len() && (#[trigger] readings[i]).chroma.value() >= 20
                    * binary64::one() implies prior.contains(i) by {
                assert(few[i] == readings[i]);
            }
            prior
        }
    }
}

/// The candidate is the color that was measured, fitted to the slot and solved for, with its score
/// and its label.
pub open spec fn is_choice<S: Fn(Hct) -> Argb>(
    slot: int,
    dark: bool,
    hct: Hct,
    solve: &S,
    candidate: CandidateView,
) -> bool {
    let color = candidate.color;
    &&& counts_the_way(hct.hue.value(), slot, candidate.score as int)
    &&& measure::hct_labels(color.red, color.green, color.blue).contains(candidate.label)
    &&& exists|target: Hct| #[trigger]
        fits(slot, dark, hct.hue.value(), hct, target) && solve.ensures((target,), color)
}

/// Every measured color is a candidate, in its order.
pub proof fn candidates_are_choices<S: Fn(Hct) -> Argb>(
    slot: int,
    dark: bool,
    measured: Seq<Hct>,
    solve: &S,
    board: Seq<CandidateView>,
)
    requires
        0 <= slot < 8,
        accents::is_board(slot, dark, measured, solve, board),
        forall|i: int|
            0 <= i < measured.len() ==> circle::on_circle((#[trigger] measured[i]).hue.value()),
    ensures
        board.len() == measured.len(),
        forall|i: int|
            0 <= i < board.len() ==> is_choice(slot, dark, measured[i], solve, #[trigger] board[i]),
{
    assert forall|i: int| 0 <= i < board.len() implies is_choice(
        slot,
        dark,
        measured[i],
        solve,
        #[trigger] board[i],
    ) by {
        let (hct, candidate) = (measured[i], board[i]);
        assert(accents::is_candidate(slot, dark, hct, solve, candidate));
        circle::score_counts_the_way(hct.hue.value(), slot);
        let target = choose|target: Hct| #[trigger]
            accents::is_fitted(slot, dark, hct.hue.value(), hct, target) && solve.ensures(
                (target,),
                candidate.color,
            );
        fitted_colors_fit(slot, dark, hct.hue.value(), hct, target);
    }
}

/// `accent` is made for a slot from the chroma and the tone of the source color and the hue of the
/// slot, and then leveled.
pub open spec fn is_made<S: Fn(Hct) -> Argb>(
    slot: int,
    dark: bool,
    source: Argb,
    level: Harmonization,
    solve: &S,
    accent: Argb,
) -> bool {
    exists|hct: Hct, target: Hct, color: Argb|
        {
            &&& #[trigger] measure::hct_readings(source.red, source.green, source.blue).contains(
                (hct.hue.bits, hct.chroma.bits, hct.tone.bits),
            )
            &&& fits(slot, dark, centers()[slot] * binary64::one(), hct, target)
            &&& #[trigger] solve.ensures((target,), color)
            &&& is_leveled(color, source, level, solve, accent)
        }
}

/// A synthesized color is made so.
pub proof fn synthesized_colors_are_made<S: Fn(Hct) -> Argb>(
    slot: int,
    dark: bool,
    source: Argb,
    level: Harmonization,
    solve: &S,
    accent: Argb,
)
    requires
        0 <= slot < 8,
        accents::may_synthesize(slot, dark, source, level, solve, accent),
    ensures
        is_made(slot, dark, source, level, solve, accent),
{
    let (hct, target, color) = choose|hct: Hct, target: Hct, color: Argb|
        #![trigger measure::may_measure(source, hct), solve.ensures((target,), color)]
        {
            &&& measure::may_measure(source, hct)
            &&& accents::is_fitted(
                slot,
                dark,
                angle::degrees(accents::hue_center_of(slot)),
                hct,
                target,
            )
            &&& solve.ensures((target,), color)
            &&& harmonization::may_apply(color, source, level, solve, accent)
        };
    fitted_colors_fit(slot, dark, centers()[slot] * binary64::one(), hct, target);
    levels_blend(color, source, level, solve, accent);
    assert(measure::hct_readings(source.red, source.green, source.blue).contains(
        (hct.hue.bits, hct.chroma.bits, hct.tone.bits),
    ));
}

/// What a slot shows in the end: the color that it got, leveled where there is a source color; a
/// color made from the source color where it got none; and black that nothing can be seen of where
/// there is no source color either.
pub open spec fn is_finished<S: Fn(Hct) -> Argb>(
    slot: int,
    dark: bool,
    board: Seq<CandidateView>,
    pick: Option<int>,
    source_color: Option<Argb>,
    level: Harmonization,
    solve: &S,
    accent: Argb,
) -> bool {
    match (pick, source_color) {
        (Some(i), Some(source)) => is_leveled(board[i].color, source, level, solve, accent),
        (Some(i), None) => accent == board[i].color,
        (None, Some(source)) => is_made(slot, dark, source, level, solve, accent),
        (None, None) => accent.alpha == 0 && accent.red == 0 && accent.green == 0 && accent.blue
            == 0,
    }
}

/// Accents are what the slots show when the candidates are dealt out in turn.
pub proof fn accents_are_finished<S: Fn(Hct) -> Argb>(
    dark: bool,
    boards: Seq<Seq<CandidateView>>,
    source_color: Option<Argb>,
    level: Harmonization,
    solve: &S,
    accents: Seq<Argb>,
) -> (picks: Seq<Option<int>>)
    requires
        boards.len() == 8,
        accents::are_accents(dark, boards, source_color, level, solve, accents),
    ensures
        accents.len() == 8,
        dealing::is_dealt(boards, picks),
        forall|slot: int|
            0 <= slot < 8 ==> is_finished(
                slot,
                dark,
                boards[slot],
                picks[slot],
                source_color,
                level,
                solve,
                #[trigger] accents[slot],
            ),
{
    let picks = dealing::picks_of(boards);
    dealing::colors_are_dealt_in_turn(boards);
    assert forall|slot: int| 0 <= slot < 8 implies is_finished(
        slot,
        dark,
        boards[slot],
        picks[slot],
        source_color,
        level,
        solve,
        #[trigger] accents[slot],
    ) by {
        let accent = accents[slot];
        assert(accents::is_accent(slot, dark, boards, source_color, level, solve, accent));
        match (assignment::pick_of(boards, slot), source_color) {
            (Some(i), Some(source)) => {
                levels_blend(boards[slot][i].color, source, level, solve, accent);
            },
            (None, Some(source)) => {
                synthesized_colors_are_made(slot, dark, source, level, solve, accent);
            },
            _ => {},
        }
    }
    picks
}

/// The readings are measurements of the colors, one by one, with hues on the circle.
pub open spec fn are_readings(colors: Seq<Argb>, readings: Seq<Hct>) -> bool {
    &&& readings.len() == colors.len()
    &&& forall|i: int|
        0 <= i < colors.len() ==> {
            let (color, hct) = (colors[i], #[trigger] readings[i]);
            &&& measure::hct_readings(color.red, color.green, color.blue).contains(
                (hct.hue.bits, hct.chroma.bits, hct.tone.bits),
            )
            &&& circle::on_circle(hct.hue.value())
        }
}

/// The boards of the eight slots have the readings with the given indices as candidates.
pub open spec fn are_choices<S: Fn(Hct) -> Argb>(
    dark: bool,
    readings: Seq<Hct>,
    from: Seq<int>,
    solve: &S,
    boards: Seq<Seq<CandidateView>>,
) -> bool {
    &&& boards.len() == 8
    &&& forall|slot: int|
        0 <= slot < 8 ==> {
            &&& (#[trigger] boards[slot]).len() == from.len()
            &&& forall|k: int|
                0 <= k < from.len() ==> is_choice(
                    slot,
                    dark,
                    readings[from[k]],
                    solve,
                    #[trigger] boards[slot][k],
                )
        }
}

/// The slots show what they got in a dealing.
pub open spec fn are_finished<S: Fn(Hct) -> Argb>(
    dark: bool,
    boards: Seq<Seq<CandidateView>>,
    picks: Seq<Option<int>>,
    source_color: Option<Argb>,
    level: Harmonization,
    solve: &S,
    accents: Seq<Argb>,
) -> bool {
    &&& accents.len() == 8
    &&& dealing::is_dealt(boards, picks)
    &&& forall|slot: int|
        0 <= slot < 8 ==> is_finished(
            slot,
            dark,
            boards[slot],
            picks[slot],
            source_color,
            level,
            solve,
            #[trigger] accents[slot],
        )
}

/// The accents are those of measured colors that are dealt out in turn.
pub open spec fn are_palette_accents<S: Fn(Hct) -> Argb>(
    colors: Seq<Argb>,
    source_color: Option<Argb>,
    level: Harmonization,
    dark: bool,
    solve: &S,
    accents: Seq<Argb>,
) -> bool {
    exists|
        readings: Seq<Hct>,
        from: Seq<int>,
        boards: Seq<Seq<CandidateView>>,
        picks: Seq<Option<int>>,
    |
        {
            &&& are_readings(colors, readings)
            &&& lists_chromatic(readings, from)
            &&& #[trigger] are_choices(dark, readings, from, solve, boards)
            &&& #[trigger] are_finished(dark, boards, picks, source_color, level, solve, accents)
        }
}

/// The accents of a palette: all its colors are measured; those with a chroma of at least 20 are
/// candidates for every slot, fitted to it and scored by the way from their hue to that of the
/// slot; they are dealt out in turn; and what a slot got is leveled, or made from the source color
/// where it got nothing.
pub proof fn accents_of_a_palette<S: Fn(Hct) -> Argb>(
    colors: Seq<Argb>,
    source_color: Option<Argb>,
    level: Harmonization,
    dark: bool,
    solve: &S,
    accents: Seq<Argb>,
)
    requires
        accents::may_assign(colors, source_color, level, dark, solve, accents),
    ensures
        accents.len() == 8,
        are_palette_accents(colors, source_color, level, dark, solve, accents),
{
    let readings = choose|readings: Seq<Hct>| #[trigger]
        accents::may_read(colors, readings) && accents::may_deal(
            readings,
            source_color,
            level,
            dark,
            solve,
            accents,
        );
    let measured = accents::chromatic_of(readings);
    let boards = choose|boards: Seq<Seq<CandidateView>>|
        accents::are_boards(dark, measured, solve, boards) && #[trigger] accents::are_accents(
            dark,
            boards,
            source_color,
            level,
            solve,
            accents,
        );
    assert forall|i: int| 0 <= i < colors.len() implies {
        let (color, hct) = (colors[i], #[trigger] readings[i]);
        &&& measure::hct_readings(color.red, color.green, color.blue).contains(
            (hct.hue.bits, hct.chroma.bits, hct.tone.bits),
        )
        &&& circle::on_circle(hct.hue.value())
    } by {
        assert(readings[i].valid());
    }
    let from = chromatic_colors_are_kept(readings);
    assert forall|k: int| 0 <= k < measured.len() implies circle::on_circle(
        (#[trigger] measured[k]).hue.value(),
    ) by {
        assert(measured[k] == readings[from[k]]);
    }
    assert forall|slot: int| 0 <= slot < 8 implies {
        &&& (#[trigger] boards[slot]).len() == from.len()
        &&& forall|k: int|
            0 <= k < from.len() ==> is_choice(
                slot,
                dark,
                readings[from[k]],
                solve,
                #[trigger] boards[slot][k],
            )
    } by {
        candidates_are_choices(slot, dark, measured, solve, boards[slot]);
        assert forall|k: int| 0 <= k < from.len() implies is_choice(
            slot,
            dark,
            readings[from[k]],
            solve,
            #[trigger] boards[slot][k],
        ) by {
            assert(measured[k] == readings[from[k]]);
        }
    }
    assert(are_choices(dark, readings, from, solve, boards));
    let picks = accents_are_finished(dark, boards, source_color, level, solve, accents);
    assert(are_finished(dark, boards, picks, source_color, level, solve, accents));
}

/// A color whose measurements all are ordinary numbers is not misread.
pub proof fn ordinary_colors_are_read(color: Argb)
    requires
        forall|hct: Hct| #[trigger]
            measure::may_measure(color, hct) ==> {
                &&& hct.hue.finite() && hct.chroma.finite() && hct.tone.finite()
                &&& circle::on_circle(hct.hue.value())
                &&& nearness::size(hct.chroma.value()) < pow2(1500)
                &&& nearness::size(hct.tone.value()) < pow2(1500)
            },
    ensures
        !accents::may_misread(color),
{
    assert forall|hct: Hct| #[trigger] measure::may_measure(color, hct) implies hct.valid() by {
        exactness::ordinary_measurements_are_valid(hct);
    }
}

} // verus!
