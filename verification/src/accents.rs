//! The eight accent colors: slots by hue, and the colors of a palette fitted to them.
use vstd::arithmetic::power2::*;
use vstd::prelude::*;

use crate::angle;
use crate::assignment;
use crate::assignment::{Candidate, CandidateView};
use crate::binary64;
use crate::binary64::Binary64;
use crate::color::{Argb, Hct};
use crate::error::SchemeError;
use crate::harmonization;
use crate::harmonization::Harmonization;
use crate::measure;
use crate::rounding;
use crate::selection;

verus! {

/// The hue that a slot asks for, in degrees: red, orange, yellow, green, cyan, blue, purple, brown.
pub open spec fn hue_center_of(slot: int) -> int {
    seq![10int, 40, 65, 115, 185, 245, 295, 25][slot]
}

/// The hue that a slot asks for.
pub fn hue_center(slot: usize) -> (r: Binary64)
    requires
        slot < 8,
    ensures
        r.finite(),
        r.value() == angle::degrees(hue_center_of(slot as int)),
        angle::is_hue(r),
{
    proof {
        angle::degrees_are_small();
    }
    let center: u16 = match slot {
        // red (variables, diff deleted)
        0 => 10,
        // orange (integers, constants)
        1 => 40,
        // yellow (classes, search highlight)
        2 => 65,
        // green (strings, diff inserted)
        3 => 115,
        // cyan (regex, escape characters)
        4 => 185,
        // blue (functions, methods)
        5 => 245,
        // purple (keywords, diff changed)
        6 => 295,
        // brown (deprecated)
        _ => 25,
    };
    Binary64::whole(center)
}

/// The slot that is intentionally muted: its colors have half their chroma.
pub open spec fn is_muted(slot: int) -> bool {
    slot == 7
}

/// How far a hue is from what a slot asks for, in whole ten-thousandths of a degree.
pub open spec fn score_of(hue: int, slot: int) -> int {
    let way = angle::difference_of(hue, angle::degrees(hue_center_of(slot)));
    binary64::truncated_of(binary64::rounded_at(way * (10000 * binary64::one()), -1074))
}

/// How far a hue is from what a slot asks for.
pub fn score(hue: Binary64, slot: usize) -> (r: i64)
    requires
        angle::is_hue(hue),
        slot < 8,
    ensures
        r == score_of(hue.value(), slot as int),
{
    let way: Binary64 = angle::difference_degrees(hue, hue_center(slot));
    let fine: Binary64 = Binary64::whole(10000);
    proof {
        angle::degrees_are_small();
        lemma2_to64();
        lemma_pow2_adds(14, 1074);
        lemma_pow2_strictly_increases(1088, 1500);
    }
    way.times(fine).truncated()
}

/// The chroma that a color has in a slot.
pub open spec fn fitted_chroma_of(slot: int, chroma: int) -> int {
    if is_muted(slot) {
        binary64::quotient_of(chroma, 2)
    } else {
        chroma
    }
}

/// The tone that a color has in a scheme: at least 50 in a dark scheme, at most 50 in a light one.
pub open spec fn fitted_tone_of(dark: bool, tone: int) -> int {
    let middle = (50 * binary64::one()) as int;
    let fits = if dark {
        tone >= middle
    } else {
        tone <= middle
    };
    if fits {
        tone
    } else {
        middle
    }
}

/// `target` has the hue given, and the chroma and the tone of `hct` made to fit a slot.
pub open spec fn is_fitted(slot: int, dark: bool, hue: int, hct: Hct, target: Hct) -> bool {
    &&& angle::is_hue(target.hue)
    &&& target.hue.value() == hue
    &&& target.chroma.finite()
    &&& target.chroma.value() == fitted_chroma_of(slot, hct.chroma.value())
    &&& target.tone.finite()
    &&& target.tone.value() == fitted_tone_of(dark, hct.tone.value())
}

/// The hue given, with the chroma and the tone of `hct` made to fit a slot.
pub fn fit(slot: usize, dark: bool, hue: Binary64, hct: &Hct) -> (target: Hct)
    requires
        angle::is_hue(hue),
        hct.valid(),
    ensures
        is_fitted(slot as int, dark, hue.value(), *hct, target),
        selection::fits(slot as int, dark, hue.value(), *hct, target),
{
    let chroma: Binary64 = if slot == 7 {
        hct.chroma.divided_by(2)
    } else {
        hct.chroma
    };
    let middle: Binary64 = Binary64::whole(50);
    let tone: Binary64 = if dark {
        hct.tone.max(middle)
    } else {
        hct.tone.min(middle)
    };
    let target: Hct = Hct { hue, chroma, tone };
    proof {
        selection::fitted_colors_fit(slot as int, dark, hue.value(), *hct, target);
    }
    target
}

/// A color that is taken for an accent: its chroma is at least 20.
pub open spec fn is_chromatic(hct: Hct) -> bool {
    hct.chroma.value() >= 20 * binary64::one()
}

/// `readings` may be measured of the colors, one by one, and are all in range.
pub open spec fn may_read(colors: Seq<Argb>, readings: Seq<Hct>) -> bool {
    &&& readings.len() == colors.len()
    &&& forall|i: int|
        0 <= i < colors.len() ==> #[trigger] readings[i].valid() && measure::may_measure(
            colors[i],
            readings[i],
        )
}

/// The colors that are taken for accents, in their order.
pub open spec fn chromatic_of(readings: Seq<Hct>) -> Seq<Hct> {
    readings.filter(|hct: Hct| is_chromatic(hct))
}

/// `color` has a measurement that is out of range.
pub open spec fn may_misread(color: Argb) -> bool {
    exists|hct: Hct| #[trigger] measure::may_measure(color, hct) && !hct.valid()
}

/// Measures the colors and keeps those that are taken for accents.
pub fn chromatic(colors: &Vec<Argb>) -> (r: Result<Vec<Hct>, SchemeError>)
    ensures
        match r {
            Ok(kept) => exists|readings: Seq<Hct>| #[trigger]
                may_read(colors@, readings) && kept@ == chromatic_of(readings),
            Err(e) => e matches SchemeError::Range { color } && colors@.contains(color)
                && may_misread(color),
        },
        forall|i: int|
            r matches Ok(kept) && 0 <= i < kept@.len() ==> (#[trigger] r->Ok_0@[i]).valid(),
{
    let mut kept: Vec<Hct> = Vec::new();
    let ghost mut readings: Seq<Hct> = Seq::empty();
    let mut i: usize = 0;
    proof {
        reveal(Seq::filter);
        assert(kept@ =~= chromatic_of(readings));
    }
    while i < colors.len()
        invariant
            i <= colors.len(),
            may_read(colors@.take(i as int), readings),
            kept@ == chromatic_of(readings),
            forall|j: int| 0 <= j < kept@.len() ==> (#[trigger] kept@[j]).valid(),
        decreases colors.len() - i,
    {
        let hct: Hct = measure::measure(colors[i]);
        if !hct.is_valid() {
            return Err(SchemeError::Range { color: colors[i] });
        }
        proof {
            reveal(Seq::filter);
            let more = readings.push(hct);
            assert(more.drop_last() =~= readings);
            assert forall|j: int| 0 <= j < i + 1 implies #[trigger] more[j].valid()
                && measure::may_measure(colors@.take(i + 1)[j], more[j]) by {
                if j < i {
                    assert(readings[j].valid());
                    assert(colors@.take(i + 1)[j] == colors@.take(i as int)[j]);
                }
            }
            readings = more;
        }
        if hct.chroma.at_least(Binary64::whole(20)) {
            kept.push(hct);
        }
        i = i + 1;
    }
    proof {
        assert(colors@.take(i as int) =~= colors@);
        assert(may_read(colors@, readings));
    }
    Ok(kept)
}

/// `candidate` may come of a color that was measured as `hct`, in a slot.
pub open spec fn is_candidate<S: Fn(Hct) -> Argb>(
    slot: int,
    dark: bool,
    hct: Hct,
    solve: &S,
    candidate: CandidateView,
) -> bool {
    &&& candidate.score == score_of(hct.hue.value(), slot)
    &&& measure::may_label(candidate.color, candidate.label)
    &&& exists|target: Hct| #[trigger]
        is_fitted(slot, dark, hct.hue.value(), hct, target) && solve.ensures(
            (target,),
            candidate.color,
        )
}

/// `board` may come of the colors that were measured, in a slot.
pub open spec fn is_board<S: Fn(Hct) -> Argb>(
    slot: int,
    dark: bool,
    measured: Seq<Hct>,
    solve: &S,
    board: Seq<CandidateView>,
) -> bool {
    &&& board.len() == measured.len()
    &&& forall|i: int|
        0 <= i < measured.len() ==> is_candidate(
            slot,
            dark,
            measured[i],
            solve,
            #[trigger] board[i],
        )
}

/// The measured colors as candidates for a slot. `solve` finds the color that has given hue,
/// chroma and tone.
pub fn candidates<S: Fn(Hct) -> Argb>(
    slot: usize,
    dark: bool,
    measured: &Vec<Hct>,
    solve: &S,
) -> (board: Vec<Candidate>)
    requires
        slot < 8,
        forall|i: int| 0 <= i < measured@.len() ==> (#[trigger] measured@[i]).valid(),
        forall|target: Hct| solve.requires((target,)),
    ensures
        is_board(slot as int, dark, measured@, solve, assignment::board_of(board)),
{
    let mut board: Vec<Candidate> = Vec::new();
    let mut i: usize = 0;
    while i < measured.len()
        invariant
            slot < 8,
            i <= measured.len(),
            board.len() == i,
            forall|j: int| 0 <= j < measured@.len() ==> (#[trigger] measured@[j]).valid(),
            forall|target: Hct| solve.requires((target,)),
            forall|j: int|
                0 <= j < i ==> is_candidate(
                    slot as int,
                    dark,
                    measured@[j],
                    solve,
                    (#[trigger] board@[j])@,
                ),
        decreases measured.len() - i,
    {
        let hct: &Hct = &measured[i];
        assert(measured@[i as int].valid());
        let target: Hct = fit(slot, dark, hct.hue, hct);
        let color: Argb = solve(target);
        let label: String = measure::label(color);
        let candidate: Candidate = Candidate { score: score(hct.hue, slot), label, color };
        assert(is_candidate(slot as int, dark, *hct, solve, candidate@));
        board.push(candidate);
        i = i + 1;
    }
    proof {
        let b = assignment::board_of(board);
        assert forall|j: int| 0 <= j < measured@.len() implies is_candidate(
            slot as int,
            dark,
            measured@[j],
            solve,
            #[trigger] b[j],
        ) by {
            assert(b[j] == board@[j]@);
        }
    }
    board
}

/// `accent` may be made for a slot that no color of the palette is left for: it has the hue of the
/// slot and the chroma of the source color.
pub open spec fn may_synthesize<S: Fn(Hct) -> Argb>(
    slot: int,
    dark: bool,
    source: Argb,
    harmonization: Harmonization,
    solve: &S,
    accent: Argb,
) -> bool {
    exists|hct: Hct, target: Hct, color: Argb|
        #![trigger measure::may_measure(source, hct), solve.ensures((target,), color)]
        {
            &&& measure::may_measure(source, hct)
            &&& is_fitted(slot, dark, angle::degrees(hue_center_of(slot)), hct, target)
            &&& solve.ensures((target,), color)
            &&& harmonization::may_apply(color, source, harmonization, solve, accent)
        }
}

/// Makes a color for a slot from the hue of the slot and the chroma of the source color.
pub fn synthesize<S: Fn(Hct) -> Argb>(
    slot: usize,
    dark: bool,
    source: Argb,
    harmonization: &Harmonization,
    solve: &S,
) -> (r: Result<Argb, SchemeError>)
    requires
        slot < 8,
        forall|target: Hct| solve.requires((target,)),
    ensures
        match r {
            Ok(accent) => may_synthesize(slot as int, dark, source, *harmonization, solve, accent),
            Err(e) => e == (SchemeError::Range { color: source }) && may_misread(source),
        },
{
    let hct: Hct = measure::measure(source);
    if !hct.is_valid() {
        return Err(SchemeError::Range { color: source });
    }
    let target: Hct = fit(slot, dark, hue_center(slot), &hct);
    let color: Argb = solve(target);
    Ok(harmonization::apply_harmonization(color, source, harmonization, solve))
}

/// `accent` may be the color of a slot when the candidates are dealt out.
pub open spec fn is_accent<S: Fn(Hct) -> Argb>(
    slot: int,
    dark: bool,
    boards: Seq<Seq<CandidateView>>,
    source_color: Option<Argb>,
    harmonization: Harmonization,
    solve: &S,
    accent: Argb,
) -> bool {
    match (assignment::pick_of(boards, slot), source_color) {
        (Some(i), Some(source)) => harmonization::may_apply(
            boards[slot][i].color,
            source,
            harmonization,
            solve,
            accent,
        ),
        (Some(i), None) => accent == boards[slot][i].color,
        (None, Some(source)) => may_synthesize(slot, dark, source, harmonization, solve, accent),
        (None, None) => accent == Argb::unset(),
    }
}

/// `accents` may be the colors of the slots when the candidates are dealt out.
pub open spec fn are_accents<S: Fn(Hct) -> Argb>(
    dark: bool,
    boards: Seq<Seq<CandidateView>>,
    source_color: Option<Argb>,
    harmonization: Harmonization,
    solve: &S,
    accents: Seq<Argb>,
) -> bool {
    &&& accents.len() == boards.len()
    &&& forall|slot: int|
        0 <= slot < boards.len() ==> is_accent(
            slot,
            dark,
            boards,
            source_color,
            harmonization,
            solve,
            #[trigger] accents[slot],
        )
}

/// Deals the candidates out and finishes the colors: those of the palette are harmonized toward
/// the source color, and slots that got none have theirs made from it.
pub fn deal_accents<S: Fn(Hct) -> Argb>(
    dark: bool,
    boards: &Vec<Vec<Candidate>>,
    source_color: Option<Argb>,
    harmonization: &Harmonization,
    solve: &S,
) -> (r: Result<Vec<Argb>, SchemeError>)
    requires
        boards@.len() == 8,
        forall|target: Hct| solve.requires((target,)),
    ensures
        match r {
            Ok(accents) => are_accents(
                dark,
                assignment::boards_of(boards@),
                source_color,
                *harmonization,
                solve,
                accents@,
            ),
            Err(e) => source_color matches Some(source) && e == (SchemeError::Range {
                color: source,
            }) && may_misread(source),
        },
{
    let ghost b = assignment::boards_of(boards@);
    let picks: Vec<Option<usize>> = assignment::assign(boards);
    let mut accents: Vec<Argb> = Vec::new();
    let mut slot: usize = 0;
    while slot < 8
        invariant
            slot <= 8,
            boards@.len() == 8,
            b == assignment::boards_of(boards@),
            picks@.len() == 8,
            accents@.len() == slot,
            forall|target: Hct| solve.requires((target,)),
            forall|s: int|
                0 <= s < 8 ==> match #[trigger] picks@[s] {
                    Some(i) => assignment::pick_of(b, s) == Some(i as int),
                    None => assignment::pick_of(b, s) is None,
                },
            forall|s: int|
                0 <= s < slot ==> is_accent(
                    s,
                    dark,
                    b,
                    source_color,
                    *harmonization,
                    solve,
                    #[trigger] accents@[s],
                ),
        decreases 8 - slot,
    {
        proof {
            assert(b[slot as int] == assignment::board_of(boards@[slot as int]));
            assignment::nearest_exists(
                b[slot as int],
                assignment::used_after(b, assignment::place_of(b, slot as int)),
            );
        }
        let accent: Argb = match picks[slot] {
            Some(i) => {
                let color: Argb = boards[slot][i].color;
                match source_color {
                    Some(source) => harmonization::apply_harmonization(
                        color,
                        source,
                        harmonization,
                        solve,
                    ),
                    None => color,
                }
            },
            None => match source_color {
                Some(source) => match synthesize(slot, dark, source, harmonization, solve) {
                    Ok(accent) => accent,
                    Err(e) => {
                        return Err(e);
                    },
                },
                None => Argb::default(),
            },
        };
        accents.push(accent);
        slot = slot + 1;
    }
    Ok(accents)
}

/// `boards` may come of the colors that were measured.
pub open spec fn are_boards<S: Fn(Hct) -> Argb>(
    dark: bool,
    measured: Seq<Hct>,
    solve: &S,
    boards: Seq<Seq<CandidateView>>,
) -> bool {
    &&& boards.len() == 8
    &&& forall|slot: int|
        0 <= slot < 8 ==> is_board(slot, dark, measured, solve, #[trigger] boards[slot])
}

/// `accents` may be the accents of colors that were measured as `readings`.
pub open spec fn may_deal<S: Fn(Hct) -> Argb>(
    readings: Seq<Hct>,
    source_color: Option<Argb>,
    harmonization: Harmonization,
    dark: bool,
    solve: &S,
    accents: Seq<Argb>,
) -> bool {
    exists|boards: Seq<Seq<CandidateView>>|
        are_boards(dark, chromatic_of(readings), solve, boards) && #[trigger] are_accents(
            dark,
            boards,
            source_color,
            harmonization,
            solve,
            accents,
        )
}

/// `accents` may be the accents of the colors.
pub open spec fn may_assign<S: Fn(Hct) -> Argb>(
    colors: Seq<Argb>,
    source_color: Option<Argb>,
    harmonization: Harmonization,
    dark: bool,
    solve: &S,
    accents: Seq<Argb>,
) -> bool {
    exists|readings: Seq<Hct>| #[trigger]
        may_read(colors, readings) && may_deal(
            readings,
            source_color,
            harmonization,
            dark,
            solve,
            accents,
        )
}

/// Assigns the eight accent colors from a raw palette by hue, then harmonizes them toward the
/// source color.
///
/// Every chromatic color is a candidate for every slot, the nearer its hue to that of the slot the
/// better. The slots with the smallest differences choose first, and no color is assigned twice.
/// When no candidate is left a color is synthesized from the source color's chroma and the slot's
/// target hue. All accents are tone-normalized for readability before harmonization is applied.
pub fn assign_accents<S: Fn(Hct) -> Argb>(
    colors: &Vec<Argb>,
    source_color: Option<Argb>,
    harmonization: &Harmonization,
    dark: bool,
    solve: &S,
) -> (r: Result<Vec<Argb>, SchemeError>)
    requires
        forall|target: Hct| solve.requires((target,)),
    ensures
        match r {
            Ok(accents) => accents@.len() == 8 && may_assign(
                colors@,
                source_color,
                *harmonization,
                dark,
                solve,
                accents@,
            ),
            Err(e) => e matches SchemeError::Range { color } && may_misread(color) && (
            colors@.contains(color) || source_color == Some(color)),
        },
{
    let measured: Vec<Hct> = match chromatic(colors) {
        Ok(measured) => measured,
        Err(e) => {
            return Err(e);
        },
    };
    let mut boards: Vec<Vec<Candidate>> = Vec::new();
    let mut slot: usize = 0;
    while slot < 8
        invariant
            slot <= 8,
            boards@.len() == slot,
            forall|i: int| 0 <= i < measured@.len() ==> (#[trigger] measured@[i]).valid(),
            forall|target: Hct| solve.requires((target,)),
            forall|s: int|
                0 <= s < slot ==> is_board(
                    s,
                    dark,
                    measured@,
                    solve,
                    assignment::board_of(#[trigger] boards@[s]),
                ),
        decreases 8 - slot,
    {
        let board: Vec<Candidate> = candidates(slot, dark, &measured, solve);
        boards.push(board);
        slot = slot + 1;
    }
    proof {
        let b = assignment::boards_of(boards@);
        assert forall|s: int| 0 <= s < 8 implies is_board(
            s,
            dark,
            measured@,
            solve,
            #[trigger] b[s],
        ) by {
            assert(b[s] == assignment::board_of(boards@[s]));
        }
        assert(are_boards(dark, measured@, solve, b));
    }
    deal_accents(dark, &boards, source_color, harmonization, solve)
}

/// Accents are readable: those of a dark scheme are asked to have a tone of at least 50, those of a
/// light scheme one of at most 50.
pub proof fn tones_are_readable(slot: int, dark: bool, hue: int, hct: Hct, target: Hct)
    requires
        is_fitted(slot, dark, hue, hct, target),
    ensures
        dark ==> target.tone.value() >= 50 * binary64::one(),
        !dark ==> target.tone.value() <= 50 * binary64::one(),
{
}

/// A tone that is readable in the scheme is left as it is.
pub proof fn readable_tone_is_kept(dark: bool, tone: int)
    requires
        dark ==> tone >= 50 * binary64::one(),
        !dark ==> tone <= 50 * binary64::one(),
    ensures
        fitted_tone_of(dark, tone) == tone,
{
}

/// Only chromatic colors are candidates, and all of them are.
pub proof fn candidates_are_chromatic(readings: Seq<Hct>, hct: Hct)
    ensures
        chromatic_of(readings).contains(hct) <==> readings.contains(hct) && is_chromatic(hct),
{
    let chromatic = |hct: Hct| is_chromatic(hct);
    if chromatic_of(readings).contains(hct) {
        let i = choose|i: int|
            0 <= i < chromatic_of(readings).len() && chromatic_of(readings)[i] == hct;
        readings.lemma_filter_pred(chromatic, i);
        readings.lemma_filter_contains_rev(chromatic, hct);
    }
    if readings.contains(hct) && is_chromatic(hct) {
        let i = choose|i: int| 0 <= i < readings.len() && readings[i] == hct;
        readings.lemma_filter_contains(chromatic, i);
    }
}

/// A score is at most that of half the circle.
pub proof fn score_range(hue: int, slot: int)
    requires
        0 <= hue <= angle::degrees(360),
        0 <= slot < 8,
    ensures
        0 <= score_of(hue, slot) <= 1_800_000,
{
    let u = binary64::one() as int;
    angle::degrees_are_small();
    angle::difference_range(hue, angle::degrees(hue_center_of(slot)));
    let way = angle::difference_of(hue, angle::degrees(hue_center_of(slot)));
    assert(0 <= way * (10000 * u) <= (1_800_000 * u) * u) by (nonlinear_arith)
        requires
            0 <= way <= 180 * u,
            u > 0,
    ;
    lemma2_to64_rest();
    binary64::rounded_scaled(1_800_000 * u, 1074, -1074);
    binary64::rounded_whole(1_800_000, 1074);
    rounding::nearest_zero(-1074);
    binary64::rounded_increases(0, way * (10000 * u), -1074);
    binary64::rounded_increases(way * (10000 * u), (1_800_000 * u) * u, -1074);
    let v = binary64::rounded_at(way * (10000 * u), -1074);
    vstd::arithmetic::div_mod::lemma_div_is_ordered(v, 1_800_000 * u, u);
    vstd::arithmetic::div_mod::lemma_div_by_multiple(1_800_000, u);
    vstd::arithmetic::div_mod::lemma_div_pos_is_pos(v, u);
}

/// Without a source color an accent is a color of the palette, fitted to the slot, or none at all.
pub proof fn accents_come_from_the_palette<S: Fn(Hct) -> Argb>(
    slot: int,
    dark: bool,
    measured: Seq<Hct>,
    boards: Seq<Seq<CandidateView>>,
    harmonization: Harmonization,
    solve: &S,
    accents: Seq<Argb>,
)
    requires
        0 <= slot < 8,
        are_boards(dark, measured, solve, boards),
        are_accents(dark, boards, None, harmonization, solve, accents),
    ensures
        accents[slot] == Argb::unset() || exists|i: int, target: Hct|
            0 <= i < measured.len() && #[trigger] is_fitted(
                slot,
                dark,
                measured[i].hue.value(),
                measured[i],
                target,
            ) && solve.ensures((target,), accents[slot]),
{
    let board = boards[slot];
    assignment::nearest_exists(
        board,
        assignment::used_after(boards, assignment::place_of(boards, slot)),
    );
    assert(is_accent(slot, dark, boards, None, harmonization, solve, accents[slot]));
    assert(is_board(slot, dark, measured, solve, board));
    if let Some(i) = assignment::pick_of(boards, slot) {
        assert(is_candidate(slot, dark, measured[i], solve, board[i]));
        let target = choose|target: Hct| #[trigger]
            is_fitted(slot, dark, measured[i].hue.value(), measured[i], target) && solve.ensures(
                (target,),
                board[i].color,
            );
        assert(is_fitted(slot, dark, measured[i].hue.value(), measured[i], target));
    }
}

/// A hue that is nearer to that of a slot does not have a higher score there.
pub proof fn nearer_hues_score_lower(near: int, far: int, slot: int)
    requires
        0 <= slot < 8,
        0 <= near <= angle::degrees(360),
        0 <= far <= angle::degrees(360),
        angle::difference_of(near, angle::degrees(hue_center_of(slot))) <= angle::difference_of(
            far,
            angle::degrees(hue_center_of(slot)),
        ),
    ensures
        score_of(near, slot) <= score_of(far, slot),
{
    let u = binary64::one() as int;
    let center = angle::degrees(hue_center_of(slot));
    let (a, b) = (angle::difference_of(near, center), angle::difference_of(far, center));
    angle::degrees_are_small();
    angle::difference_range(near, center);
    score_range(near, slot);
    score_range(far, slot);
    assert(0 <= a * (10000 * u) <= b * (10000 * u)) by (nonlinear_arith)
        requires
            0 <= a <= b,
            u > 0,
    ;
    rounding::nearest_zero(-1074);
    binary64::rounded_increases(0, a * (10000 * u), -1074);
    binary64::rounded_increases(a * (10000 * u), b * (10000 * u), -1074);
    vstd::arithmetic::div_mod::lemma_div_is_ordered(
        binary64::rounded_at(a * (10000 * u), -1074),
        binary64::rounded_at(b * (10000 * u), -1074),
        u,
    );
}

/// In the muted slot a chromatic color has exactly half its chroma, and in every other slot all of
/// it.
pub proof fn muted_chroma_is_half(slot: int, hct: Hct)
    requires
        hct.valid(),
        is_chromatic(hct),
    ensures
        is_muted(slot) ==> 2 * fitted_chroma_of(slot, hct.chroma.value()) == hct.chroma.value(),
        !is_muted(slot) ==> fitted_chroma_of(slot, hct.chroma.value()) == hct.chroma.value(),
{
    angle::degrees_are_small();
    binary64::exact_half(hct.chroma);
}

} // verus!
