//! The gray ramp.
use base16::binary64::Binary64;
use base16::color::{rgb_from_argb, Argb, Rgb};
use base16::grays::interpolate_grays;

fn rgb(red: f64, green: f64, blue: f64) -> Rgb {
    Rgb {
        red: Binary64 { bits: red.to_bits() },
        green: Binary64 { bits: green.to_bits() },
        blue: Binary64 { bits: blue.to_bits() },
    }
}

fn expected(a: [f64; 3], b: [f64; 3]) -> Vec<Argb> {
    (0..8)
        .map(|i| {
            let t = i as f64 / 6.0;
            let c: Vec<u8> = (0..3)
                .map(|k| (a[k] + t * (b[k] - a[k])).round().min(255.0) as u8)
                .collect();
            Argb::new(255, c[0], c[1], c[2])
        })
        .collect()
}

#[test]
fn ramp_from_black_to_white_goes_beyond_white_at_most_to_white() {
    let ramp = interpolate_grays(&rgb(0.0, 0.0, 0.0), &rgb(255.0, 255.0, 255.0));
    let levels: Vec<u8> = ramp.iter().map(|c| c.red).collect();
    assert_eq!(levels, vec![0, 43, 85, 128, 170, 213, 255, 255]);
    assert!(ramp.iter().all(|c| c.alpha == 255 && c.red == c.green && c.green == c.blue));
}

#[test]
fn ramp_downwards_stops_at_zero() {
    let ramp = interpolate_grays(&rgb(60.0, 30.0, 250.0), &rgb(0.0, 36.0, 10.0));
    let red: Vec<u8> = ramp.iter().map(|c| c.red).collect();
    let green: Vec<u8> = ramp.iter().map(|c| c.green).collect();
    assert_eq!(red, vec![60, 50, 40, 30, 20, 10, 0, 0]);
    assert_eq!(green, vec![30, 31, 32, 33, 34, 35, 36, 37]);
}

#[test]
fn every_pair_of_levels_gives_the_rounded_ramp() {
    for a in 0..=255u8 {
        for b in (0..=255u8).step_by(5) {
            let (x, y) = (f64::from(a), f64::from(b));
            let ramp = interpolate_grays(&rgb(x, y, x), &rgb(y, x, x));
            assert_eq!(ramp, expected([x, y, x], [y, x, x]), "{a} {b}");
        }
    }
}

#[test]
fn fractions_of_levels_are_kept_until_the_end() {
    let (a, b) = ([12.75, 200.125, 0.3], [99.9, 17.45, 254.6]);
    let ramp = interpolate_grays(&rgb(a[0], a[1], a[2]), &rgb(b[0], b[1], b[2]));
    assert_eq!(ramp, expected(a, b));
}

#[test]
fn ramp_meets_its_ends() {
    let (first, second) = (Argb::new(255, 3, 141, 59), Argb::new(7, 254, 26, 53));
    let ramp = interpolate_grays(&rgb_from_argb(first), &rgb_from_argb(second));
    assert_eq!(ramp[0], first);
    assert_eq!(ramp[6], Argb::new(255, 254, 26, 53));
}

#[test]
fn ramp_does_not_turn() {
    let ramp = interpolate_grays(&rgb(10.0, 200.0, 77.0), &rgb(90.0, 20.0, 77.0));
    for pair in ramp.windows(2) {
        assert!(pair[0].red <= pair[1].red);
        assert!(pair[0].green >= pair[1].green);
        assert_eq!(pair[0].blue, pair[1].blue);
    }
}

#[test]
fn ramp_to_itself_is_flat() {
    let ramp = interpolate_grays(&rgb(1.5, 2.25, 3.0), &rgb(1.5, 2.25, 3.0));
    assert!(ramp.iter().all(|&c| c == Argb::new(255, 2, 2, 3)));
}

#[test]
fn swapped_ends_reverse_the_ramp() {
    let pairs =
        [([0.0, 255.0, 10.0], [200.0, 3.0, 13.0]), ([12.75, 0.5, 99.9], [99.9, 1.5, 7.3])];
    for (a, b) in pairs {
        let there = interpolate_grays(&rgb(a[0], a[1], a[2]), &rgb(b[0], b[1], b[2]));
        let back = interpolate_grays(&rgb(b[0], b[1], b[2]), &rgb(a[0], a[1], a[2]));
        for i in 0..=6 {
            assert!(there[i].red.abs_diff(back[6 - i].red) <= 1);
            assert!(there[i].green.abs_diff(back[6 - i].green) <= 1);
            assert!(there[i].blue.abs_diff(back[6 - i].blue) <= 1);
        }
    }
}
