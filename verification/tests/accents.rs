//! Accents, held against a computation in floating point.
use base16::accents::{
    assign_accents, candidates, chromatic, deal_accents, fit, hue_center, score, synthesize,
};
use base16::assignment::Candidate;
use base16::binary64::Binary64;
use base16::color::{Argb, Hct};
use base16::harmonization::{
    apply_harmonization, harmonize_hue, harmonized_hue, Harmonization,
};
use base16::measure::{hsl, label, measure};
use material_colors::blend::harmonize;
use material_colors::utils::math;
use std::collections::HashSet;

type Outside = material_colors::hct::Hct;

fn b(x: f64) -> Binary64 {
    Binary64 { bits: x.to_bits() }
}

fn f(x: Binary64) -> f64 {
    f64::from_bits(x.bits)
}

fn outside(c: Argb) -> material_colors::color::Argb {
    material_colors::color::Argb::new(c.alpha, c.red, c.green, c.blue)
}

fn inside(c: material_colors::color::Argb) -> Argb {
    Argb::new(c.alpha, c.red, c.green, c.blue)
}

fn solve(target: Hct) -> Argb {
    inside(Outside::from(f(target.hue), f(target.chroma), f(target.tone)).into())
}

const CENTERS: [f64; 8] = [10.0, 40.0, 65.0, 115.0, 185.0, 245.0, 295.0, 25.0];

fn expected_harmonized(accent: Argb, source: Argb, most: f64) -> Argb {
    let (a, s) = (Outside::new(outside(accent)), Outside::new(outside(source)));
    let way = math::difference_degrees(a.get_hue(), s.get_hue());
    let rotation = (way * 0.5).min(most);
    let direction = math::rotate_direction(a.get_hue(), s.get_hue());
    let hue = math::sanitize_degrees_double(rotation.mul_add(direction, a.get_hue()));
    inside(Outside::from(hue, a.get_chroma(), a.get_tone()).into())
}

fn expected_applied(accent: Argb, source: Argb, harmonization: Harmonization) -> Argb {
    match harmonization {
        Harmonization::Off => accent,
        Harmonization::Light => expected_harmonized(accent, source, 15.0),
        Harmonization::Moderate => expected_harmonized(accent, source, 30.0),
        Harmonization::Strong => expected_harmonized(accent, source, 45.0),
    }
}

fn expected_fit(slot: usize, dark: bool, hue: f64, hct: &Outside) -> Outside {
    let chroma = if slot == 7 { hct.get_chroma() * 0.5 } else { hct.get_chroma() };
    let tone = if dark { hct.get_tone().max(50.0) } else { hct.get_tone().min(50.0) };
    Outside::from(hue, chroma, tone)
}

fn expected_accents(
    colors: &[Argb],
    source: Option<Argb>,
    harmonization: Harmonization,
    dark: bool,
) -> Vec<Argb> {
    let measured: Vec<Outside> = colors
        .iter()
        .map(|&c| Outside::new(outside(c)))
        .filter(|hct| hct.get_chroma() >= 20.0)
        .collect();
    let mut boards: Vec<(usize, Vec<(Outside, i64)>)> = (0..8)
        .map(|slot| {
            let mut board: Vec<(Outside, i64)> = measured
                .iter()
                .map(|hct| {
                    let way = math::difference_degrees(hct.get_hue(), CENTERS[slot]);
                    (expected_fit(slot, dark, hct.get_hue(), hct), (way * 10000.0) as i64)
                })
                .collect();
            board.sort_by_key(|entry| entry.1);
            (slot, board)
        })
        .collect();
    boards.sort_by_key(|(_, board)| board.first().map_or(i64::MAX, |entry| entry.1));
    let mut used = HashSet::new();
    let mut accents = vec![Argb::default(); 8];
    for (slot, board) in boards {
        let found = board.into_iter().find(|(hct, _)| !used.contains(&hct.to_string()));
        let color = match (found, source) {
            (Some((hct, _)), _) => {
                used.insert(hct.to_string());
                inside(hct.into())
            }
            (None, Some(s)) => {
                let hct = Outside::new(outside(s));
                inside(expected_fit(slot, dark, CENTERS[slot], &hct).into())
            }
            (None, None) => continue,
        };
        accents[slot] = match source {
            Some(s) => expected_applied(color, s, harmonization),
            None => color,
        };
    }
    accents
}

fn palettes() -> Vec<Vec<Argb>> {
    let mut state = 0x2545_f491_4f6c_dd1d_u64;
    let mut next = || {
        state ^= state << 13;
        state ^= state >> 7;
        state ^= state << 17;
        (state >> 24) as u8
    };
    let mut palettes = vec![
        vec![],
        vec![Argb::new(255, 128, 128, 128)],
        vec![Argb::new(255, 255, 0, 0)],
        vec![Argb::new(255, 200, 30, 30), Argb::new(255, 201, 31, 31), Argb::new(255, 10, 10, 200)],
    ];
    for n in [2, 5, 8, 16, 16, 16] {
        palettes.push((0..n).map(|_| Argb::new(255, next(), next(), next())).collect());
    }
    palettes
}

#[test]
fn measurement_is_that_of_the_color_library() {
    for c in [Argb::new(255, 255, 0, 0), Argb::new(9, 18, 52, 86), Argb::new(255, 0, 0, 0)] {
        let (hct, expected) = (measure(c), Outside::new(outside(c)));
        assert_eq!(f(hct.hue), expected.get_hue());
        assert_eq!(f(hct.chroma), expected.get_chroma());
        assert_eq!(f(hct.tone), expected.get_tone());
        assert!(hct.is_valid());
        assert_eq!(label(c), expected.to_string());
    }
    assert_eq!(label(Argb::new(255, 255, 0, 0)), "H27 C113 T53");
}

#[test]
fn hue_saturation_and_lightness_are_those_of_the_color_library() {
    let reading = hsl(Argb::new(255, 215, 0, 99));
    let expected = colorsys::Hsl::from(&colorsys::Rgb::from((215u8, 0u8, 99u8)));
    assert_eq!(f(reading.hue), expected.hue());
    assert_eq!(f(reading.saturation), expected.saturation());
    assert_eq!(f(reading.lightness), expected.lightness());
    assert_eq!(f(reading.saturation), 100.0);
    assert!(reading.is_valid());
}

#[test]
fn every_measured_color_of_a_grid_is_in_range() {
    for r in (0..=255).step_by(15) {
        for g in (0..=255).step_by(15) {
            for bl in (0..=255).step_by(15) {
                let c = Argb::new(255, r as u8, g as u8, bl as u8);
                assert!(measure(c).is_valid() && hsl(c).is_valid());
            }
        }
    }
}

#[test]
fn hue_turns_half_the_way_and_no_further_than_the_ceiling() {
    assert_eq!(f(harmonized_hue(b(100.0), b(120.0), b(15.0))), 110.0);
    assert_eq!(f(harmonized_hue(b(100.0), b(190.0), b(15.0))), 115.0);
    assert_eq!(f(harmonized_hue(b(100.0), b(10.0), b(30.0))), 70.0);
    assert_eq!(f(harmonized_hue(b(5.0), b(300.0), b(45.0))), 332.5);
    assert_eq!(f(harmonized_hue(b(350.0), b(60.0), b(45.0))), 25.0);
    assert_eq!(f(harmonized_hue(b(77.25), b(77.25), b(45.0))), 77.25);
}

#[test]
fn stronger_harmonization_turns_further() {
    let turned: Vec<f64> = [0.0, 15.0, 30.0, 45.0]
        .iter()
        .map(|&most| f(harmonized_hue(b(200.0), b(310.0), b(most))))
        .collect();
    assert_eq!(turned, vec![200.0, 215.0, 230.0, 245.0]);
}

#[test]
fn harmonization_levels_are_those_of_their_ceilings() {
    let (accent, source) = (Argb::new(255, 20, 200, 40), Argb::new(255, 180, 40, 220));
    for level in [
        Harmonization::Off,
        Harmonization::Light,
        Harmonization::Moderate,
        Harmonization::Strong,
    ] {
        let expected = expected_applied(accent, source, level);
        assert_eq!(apply_harmonization(accent, source, &level, &solve), expected);
    }
    assert_eq!(apply_harmonization(accent, source, &Harmonization::Off, &solve), accent);
    assert_ne!(apply_harmonization(accent, source, &Harmonization::Light, &solve), accent);
    assert_eq!(
        harmonize_hue(accent, source, b(7.5), &solve),
        expected_harmonized(accent, source, 7.5)
    );
    assert_eq!(Harmonization::default(), Harmonization::Light);
}

#[test]
fn ceilings_beyond_half_the_way_are_alike() {
    let (accent, source) = (Argb::new(255, 20, 200, 40), Argb::new(255, 180, 40, 220));
    let half_way = harmonize_hue(accent, source, b(90.0), &solve);
    for most in [90.5, 180.0, 200.0, 1e300, f64::INFINITY] {
        assert_eq!(harmonize_hue(accent, source, b(most), &solve), half_way);
        assert_eq!(expected_harmonized(accent, source, most), half_way);
    }
    assert_eq!(f(harmonized_hue(b(10.0), b(50.0), b(20.0))), 30.0);
    assert_eq!(f(harmonized_hue(b(10.0), b(50.0), b(1000.0))), 30.0);
    assert_eq!(f(harmonized_hue(b(10.0), b(50.0), b(7.5))), 17.5);
}

#[test]
fn light_harmonization_is_that_of_the_color_library() {
    for r in (0..=255).step_by(51) {
        for g in (0..=255).step_by(51) {
            for bl in (0..=255).step_by(51) {
                let accent = Argb::new(255, r as u8, g as u8, bl as u8);
                for source in [Argb::new(255, 66, 133, 244), Argb::new(255, 200, 60, 40)] {
                    let blended = harmonize(outside(accent), outside(source));
                    let level = Harmonization::Light;
                    let applied = apply_harmonization(accent, source, &level, &solve);
                    assert_eq!(applied, inside(blended));
                }
            }
        }
    }
}

#[test]
fn dull_and_repeated_colors_make_no_difference() {
    for colors in palettes() {
        let mut more = colors.clone();
        more.insert(0, Argb::new(255, 120, 120, 124));
        more.push(Argb::new(255, 90, 90, 90));
        more.extend_from_slice(&colors);
        for source in [None, Some(Argb::new(255, 66, 133, 244))] {
            let level = Harmonization::Moderate;
            assert_eq!(
                assign_accents(&colors, source, &level, true, &solve).unwrap(),
                assign_accents(&more, source, &level, true, &solve).unwrap()
            );
        }
    }
}

#[test]
fn order_makes_no_difference_where_scores_differ() {
    let colors = vec![
        Argb::new(255, 250, 10, 20),
        Argb::new(255, 10, 200, 30),
        Argb::new(255, 30, 40, 220),
        Argb::new(255, 230, 180, 10),
    ];
    let mut turned = colors.clone();
    turned.reverse();
    turned.swap(0, 1);
    let level = Harmonization::Light;
    assert_eq!(
        assign_accents(&colors, None, &level, false, &solve).unwrap(),
        assign_accents(&turned, None, &level, false, &solve).unwrap()
    );
}

#[test]
fn source_only_harmonizes_what_was_chosen() {
    let source = Argb::new(255, 66, 133, 244);
    for colors in palettes() {
        for level in [Harmonization::Off, Harmonization::Light, Harmonization::Strong] {
            let plain = assign_accents(&colors, None, &level, true, &solve).unwrap();
            let other = assign_accents(&colors, None, &Harmonization::Off, true, &solve).unwrap();
            assert_eq!(plain, other);
            let accents = assign_accents(&colors, Some(source), &level, true, &solve).unwrap();
            for slot in 0..8 {
                if plain[slot] != Argb::default() {
                    let expected = apply_harmonization(plain[slot], source, &level, &solve);
                    assert_eq!(accents[slot], expected);
                }
            }
        }
    }
}

#[test]
fn slots_have_their_hues_and_scores() {
    for slot in 0..8 {
        assert_eq!(f(hue_center(slot)), CENTERS[slot]);
        for hue in [0.0, 10.0, 24.99995, 190.123456, 205.0, 359.99999] {
            let expected = (math::difference_degrees(hue, CENTERS[slot]) * 10000.0) as i64;
            assert_eq!(score(b(hue), slot), expected);
        }
    }
    assert_eq!(score(b(10.0), 0), 0);
    assert_eq!(score(b(190.0), 0), 1_800_000);
    assert_eq!(score(b(350.0), 0), 200_000);
}

#[test]
fn colors_are_fitted_to_slot_and_scheme() {
    let hct = Hct { hue: b(120.0), chroma: b(41.0), tone: b(30.0) };
    let dark = fit(0, true, hct.hue, &hct);
    assert_eq!((f(dark.hue), f(dark.chroma), f(dark.tone)), (120.0, 41.0, 50.0));
    let light = fit(0, false, hct.hue, &hct);
    assert_eq!((f(light.hue), f(light.chroma), f(light.tone)), (120.0, 41.0, 30.0));
    let muted = fit(7, true, b(25.0), &hct);
    assert_eq!((f(muted.hue), f(muted.chroma), f(muted.tone)), (25.0, 20.5, 50.0));
    let bright = Hct { hue: b(1.0), chroma: b(0.0), tone: b(80.0) };
    assert_eq!(f(fit(3, true, bright.hue, &bright).tone), 80.0);
    assert_eq!(f(fit(3, false, bright.hue, &bright).tone), 50.0);
}

#[test]
fn every_ordinary_number_is_a_measure() {
    let hct = |chroma: f64, tone: f64| Hct { hue: b(1.0), chroma: b(chroma), tone: b(tone) };
    assert!(hct(5000.0, -3.5).is_valid() && hct(-0.25, 1e120).is_valid());
    assert!(!hct(f64::NAN, 1.0).is_valid() && !hct(1.0, f64::INFINITY).is_valid());
    assert!(!hct(1e200, 1.0).is_valid());
    let muted = fit(7, true, b(25.0), &hct(-3.0, -3.5));
    assert_eq!((f(muted.chroma), f(muted.tone)), (-1.5, 50.0));
}

#[test]
fn gray_colors_are_no_accents() {
    let colors = vec![
        Argb::new(255, 120, 120, 120),
        Argb::new(255, 255, 0, 0),
        Argb::new(255, 125, 120, 120),
        Argb::new(255, 0, 0, 255),
    ];
    let kept = chromatic(&colors).unwrap();
    assert_eq!(kept, vec![measure(colors[1]), measure(colors[3])]);
    assert!(chromatic(&vec![]).unwrap().is_empty());
}

#[test]
fn candidates_carry_the_solved_color_and_its_label() {
    let red = measure(Argb::new(255, 120, 0, 0));
    let board = candidates(7, true, &vec![red], &solve);
    let color = solve(fit(7, true, red.hue, &red));
    assert_eq!(board.len(), 1);
    assert_eq!(board[0].color, color);
    assert_eq!(board[0].label, label(color));
    assert_eq!(board[0].score, score(red.hue, 7));
}

#[test]
fn accents_are_the_nearest_colors_left() {
    for colors in palettes() {
        for source in [None, Some(Argb::new(255, 66, 133, 244))] {
            for level in [Harmonization::Off, Harmonization::Light, Harmonization::Strong] {
                for dark in [true, false] {
                    let accents = assign_accents(&colors, source, &level, dark, &solve).unwrap();
                    assert_eq!(accents, expected_accents(&colors, source, level, dark));
                }
            }
        }
    }
}

#[test]
fn without_candidates_and_source_accents_are_unset() {
    let gray = vec![Argb::new(255, 128, 128, 128)];
    let accents = assign_accents(&gray, None, &Harmonization::Light, true, &solve).unwrap();
    assert_eq!(accents, vec![Argb::new(0, 0, 0, 0); 8]);
}

#[test]
fn without_candidates_accents_are_made_from_the_source() {
    let source = Argb::new(255, 200, 60, 40);
    let hct = measure(source);
    let accents = assign_accents(&vec![], Some(source), &Harmonization::Off, true, &solve).unwrap();
    for slot in 0..8 {
        assert_eq!(accents[slot], solve(fit(slot, true, hue_center(slot), &hct)));
        assert_eq!(
            synthesize(slot, true, source, &Harmonization::Off, &solve).unwrap(),
            accents[slot]
        );
    }
}

#[test]
fn a_single_color_is_dealt_once() {
    let red = vec![Argb::new(255, 255, 0, 0)];
    let accents = assign_accents(&red, None, &Harmonization::Off, true, &solve).unwrap();
    // its hue of 27.4 degrees is nearest to that of the last slot
    let dealt: Vec<usize> = (0..8).filter(|&i| accents[i].alpha == 255).collect();
    assert!(dealt.contains(&7));
    assert_eq!(accents, expected_accents(&red, None, Harmonization::Off, true));
}

#[test]
fn dealing_takes_what_was_solved() {
    let color = |n: u8| Argb::new(255, n, n, n);
    let boards: Vec<Vec<Candidate>> = (0..8i64)
        .map(|slot| {
            (0..8i64)
                .map(|i| Candidate {
                    score: (slot - i).abs(),
                    label: i.to_string(),
                    color: color(i as u8),
                })
                .collect()
        })
        .collect();
    let accents = deal_accents(true, &boards, None, &Harmonization::Strong, &solve).unwrap();
    assert_eq!(accents, (0..8u8).map(color).collect::<Vec<_>>());
}
