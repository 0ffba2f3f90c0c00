//! The gray ramp: eight steps from one color towards another.
use vstd::arithmetic::div_mod::*;
use vstd::arithmetic::power2::*;
use vstd::prelude::*;

use crate::angle;
use crate::binary64;
use crate::binary64::Binary64;
use crate::color;
use crate::color::{Argb, Rgb};
use crate::exactness;
use crate::rounding;

verus! {

/// How far step `i` is on the way: `i` sixths, so that the second color is reached at step 6 and
/// the last step lies beyond it.
pub open spec fn step_of(i: int) -> int {
    rounding::nearest_quotient((i * binary64::one()) as nat, 6) as int
}

/// A channel at step `i` of the way from `a` to `b`.
pub open spec fn mixed_of(a: int, b: int, i: int) -> int {
    binary64::rounded(a + binary64::rounded_at(step_of(i) * binary64::rounded(b - a), -1074))
}

/// The color at step `i` of the ramp.
pub open spec fn gray_of(base00: Rgb, base05: Rgb, i: int) -> Argb {
    Argb {
        alpha: 255,
        red: binary64::channel_of(mixed_of(base00.red.value(), base05.red.value(), i)) as u8,
        green: binary64::channel_of(mixed_of(base00.green.value(), base05.green.value(), i)) as u8,
        blue: binary64::channel_of(mixed_of(base00.blue.value(), base05.blue.value(), i)) as u8,
    }
}

/// The eight colors of the ramp.
pub open spec fn grays_of(base00: Rgb, base05: Rgb) -> Seq<Argb> {
    Seq::new(8, |i: int| gray_of(base00, base05, i))
}

/// The fractions of the way, from 0 to less than two.
proof fn step_range(i: int)
    requires
        0 <= i < 8,
    ensures
        0 <= step_of(i) < 2 * binary64::one(),
        step_of(0) == 0,
        step_of(6) == binary64::one(),
{
    let u = binary64::one();
    angle::degrees_are_small();
    lemma2_to64();
    assert(0 * u == 0) by (nonlinear_arith);
    rounding::nearest_quotient_zero(6);
    rounding::bit_length_is(1, 1);
    rounding::nearest_quotient_exact(1, 1074, 6);
    assert((1 * 6) * u == 6 * u);
    rounding::nearest_quotient_increases(0, (i * u) as nat, 6);
    rounding::bit_length_is(3, 2);
    lemma_pow2_adds(1, 1073);
    rounding::nearest_quotient_exact(3, 1073, 6);
    let h = pow2(1073);
    assert(i * u <= (3 * 6) * h) by (nonlinear_arith)
        requires
            i <= 7,
            u == 2 * h,
    ;
    assert(i * u >= 0) by (nonlinear_arith)
        requires
            i >= 0,
            u >= 0,
    ;
    rounding::nearest_quotient_increases((i * u) as nat, (3 * 6) * h, 6);
}

/// A channel at step `i` of the way from `a` to `b`.
pub fn mix(a: Binary64, b: Binary64, i: u16) -> (r: Binary64)
    requires
        color::is_channel(a),
        color::is_channel(b),
        i < 8,
    ensures
        r.finite(),
        r.value() == mixed_of(a.value(), b.value(), i as int),
{
    let ghost u = binary64::one() as int;
    proof {
        angle::degrees_are_small();
        step_range(i as int);
        lemma2_to64();
        lemma_pow2_adds(1, 1083);
        lemma_pow2_adds(1, 1084);
        lemma_pow2_adds(1, 1074);
        lemma_pow2_adds(1075, 1084);
        lemma_pow2_strictly_increases(1085, 1500);
        lemma_pow2_strictly_increases(1086, 1500);
        binary64::rounded_within(b.value() - a.value(), 0, 1083);
        assert(0 <= i * u <= 8 * u) by (nonlinear_arith)
            requires
                0 <= i < 8,
                u > 0,
        ;
    }
    let way: Binary64 = b.minus(a);
    let step: Binary64 = Binary64::whole(i).divided_by(6);
    proof {
        let (t, w) = (step.value(), way.value());
        let (p, q) = (pow2(1075) as int, pow2(1084) as int);
        assert(-(p * q) < t * w < p * q) by (nonlinear_arith)
            requires
                0 <= t < p,
                -q < w < q,
        ;
        binary64::rounded_within(t * w, -1074, 1085);
    }
    a.plus(step.times(way))
}

/// The eight colors of the ramp from `base00` through `base05`.
pub fn interpolate_grays(base00: &Rgb, base05: &Rgb) -> (grays: Vec<Argb>)
    requires
        base00.valid(),
        base05.valid(),
    ensures
        grays@ == grays_of(*base00, *base05),
        grays@.len() == 8,
        forall|i: int| 0 <= i < 8 ==> exactness::is_step(*base00, *base05, i, #[trigger] grays@[i]),
{
    let mut grays: Vec<Argb> = Vec::new();
    let mut i: u16 = 0;
    while i < 8
        invariant
            base00.valid(),
            base05.valid(),
            i <= 8,
            grays.len() == i,
            forall|j: int| 0 <= j < i ==> #[trigger] grays[j] == gray_of(*base00, *base05, j),
        decreases 8 - i,
    {
        let gray = Argb::new(
            255,
            mix(base00.red, base05.red, i).channel(),
            mix(base00.green, base05.green, i).channel(),
            mix(base00.blue, base05.blue, i).channel(),
        );
        grays.push(gray);
        i = i + 1;
    }
    assert(grays@ =~= grays_of(*base00, *base05));
    proof {
        assert forall|j: int| 0 <= j < 8 implies exactness::is_step(
            *base00,
            *base05,
            j,
            #[trigger] grays@[j],
        ) by {
            exactness::ramp_is_evenly_spaced(*base00, *base05, j);
        }
    }
    grays
}

/// The opaque color with the channels of another.
pub open spec fn opaque(color: Argb) -> Argb {
    Argb { alpha: 255, red: color.red, green: color.green, blue: color.blue }
}

/// A way of no length is gone in no time: the channel stays what it is.
proof fn mixed_with_itself(x: Binary64, i: int)
    requires
        color::is_channel(x),
    ensures
        mixed_of(x.value(), x.value(), i) == x.value(),
{
    rounding::nearest_zero(0);
    rounding::nearest_zero(-1074);
    assert(step_of(i) * 0 == 0) by (nonlinear_arith);
    binary64::rounded_exact(x);
}

/// At step 0 the channel is that of the first color.
proof fn mixed_at_start(x: Binary64, b: int)
    requires
        color::is_channel(x),
    ensures
        mixed_of(x.value(), b, 0) == x.value(),
{
    step_range(0);
    rounding::nearest_zero(-1074);
    let w = binary64::rounded(b - x.value());
    assert(0 * w == 0) by (nonlinear_arith);
    binary64::rounded_exact(x);
}

/// At step 6 the channel is that of the second color, if both are whole numbers.
proof fn mixed_at_end(m: u8, n: u8)
    ensures
        mixed_of(m * binary64::one(), n * binary64::one(), 6) == n * binary64::one(),
{
    step_range(6);
    lemma2_to64_rest();
    let u = binary64::one() as int;
    let k: int = n - m;
    assert(n * u - m * u == k * u) by (nonlinear_arith)
        requires
            k == n - m,
    ;
    binary64::rounded_whole(k, 1074);
    binary64::rounded_scaled(k * u, 1074, -1074);
    assert(u * (k * u) == (k * u) * u) by (nonlinear_arith);
    binary64::rounded_whole(n as int, 1074);
}

/// Later steps of an ascending way are not lower, and those of a descending way not higher.
proof fn mixed_in_order(a: int, b: int, i: int, j: int)
    requires
        0 <= i <= j < 8,
    ensures
        a <= b ==> mixed_of(a, b, i) <= mixed_of(a, b, j),
        a >= b ==> mixed_of(a, b, i) >= mixed_of(a, b, j),
{
    let u = binary64::one() as int;
    assert(0 <= i * u <= j * u) by (nonlinear_arith)
        requires
            0 <= i <= j,
            u >= 0,
    ;
    rounding::nearest_quotient_increases((i * u) as nat, (j * u) as nat, 6);
    rounding::nearest_zero(0);
    let (s, t, w) = (step_of(i), step_of(j), binary64::rounded(b - a));
    if a <= b {
        binary64::rounded_increases(0, b - a, 0);
        assert(s * w <= t * w) by (nonlinear_arith)
            requires
                s <= t,
                w >= 0,
        ;
        binary64::rounded_increases(s * w, t * w, -1074);
        binary64::rounded_increases(
            a + binary64::rounded_at(s * w, -1074),
            a + binary64::rounded_at(t * w, -1074),
            0,
        );
    }
    if a >= b {
        binary64::rounded_increases(b - a, 0, 0);
        assert(s * w >= t * w) by (nonlinear_arith)
            requires
                s <= t,
                w <= 0,
        ;
        binary64::rounded_increases(t * w, s * w, -1074);
        binary64::rounded_increases(
            a + binary64::rounded_at(t * w, -1074),
            a + binary64::rounded_at(s * w, -1074),
            0,
        );
    }
}

/// The ramp between two 8-bit colors starts at the first, and reaches the second at step 6.
pub proof fn ramp_meets_its_ends(base00: Rgb, base05: Rgb, first: Argb, second: Argb)
    requires
        base00.is_of(first),
        base05.is_of(second),
    ensures
        grays_of(base00, base05)[0] == opaque(first),
        grays_of(base00, base05)[6] == opaque(second),
{
    color::whole_channels_are_valid(base00, first);
    mixed_at_start(base00.red, base05.red.value());
    mixed_at_start(base00.green, base05.green.value());
    mixed_at_start(base00.blue, base05.blue.value());
    mixed_at_end(first.red, second.red);
    mixed_at_end(first.green, second.green);
    mixed_at_end(first.blue, second.blue);
    binary64::channel_of_whole(first.red);
    binary64::channel_of_whole(first.green);
    binary64::channel_of_whole(first.blue);
    binary64::channel_of_whole(second.red);
    binary64::channel_of_whole(second.green);
    binary64::channel_of_whole(second.blue);
}

/// No channel of the ramp turns back on its way: where the second color has more of it than the
/// first, later steps have no less of it, and the other way round.
pub proof fn ramp_does_not_turn(base00: Rgb, base05: Rgb, i: int, j: int)
    requires
        0 <= i <= j < 8,
    ensures
        ({
            let (low, high) = (grays_of(base00, base05)[i], grays_of(base00, base05)[j]);
            &&& base00.red.value() <= base05.red.value() ==> low.red <= high.red
            &&& base00.red.value() >= base05.red.value() ==> low.red >= high.red
            &&& base00.green.value() <= base05.green.value() ==> low.green <= high.green
            &&& base00.green.value() >= base05.green.value() ==> low.green >= high.green
            &&& base00.blue.value() <= base05.blue.value() ==> low.blue <= high.blue
            &&& base00.blue.value() >= base05.blue.value() ==> low.blue >= high.blue
        }),
{
    channels_in_order(base00.red.value(), base05.red.value(), i, j);
    channels_in_order(base00.green.value(), base05.green.value(), i, j);
    channels_in_order(base00.blue.value(), base05.blue.value(), i, j);
}

/// The channels at two steps of a way.
proof fn channels_in_order(a: int, b: int, i: int, j: int)
    requires
        0 <= i <= j < 8,
    ensures
        ({
            let low = binary64::channel_of(mixed_of(a, b, i)) as u8;
            let high = binary64::channel_of(mixed_of(a, b, j)) as u8;
            (a <= b ==> low <= high) && (a >= b ==> low >= high)
        }),
{
    mixed_in_order(a, b, i, j);
    let (v, w) = (mixed_of(a, b, i), mixed_of(a, b, j));
    if a <= b {
        binary64::channel_increases(v, w);
    }
    if a >= b {
        binary64::channel_increases(w, v);
    }
}

/// The ramp from a color to itself has that color only.
pub proof fn ramp_to_itself_is_flat(base00: Rgb, i: int)
    requires
        base00.valid(),
        0 <= i < 8,
    ensures
        grays_of(base00, base00)[i] == grays_of(base00, base00)[0],
{
    mixed_with_itself(base00.red, i);
    mixed_with_itself(base00.green, i);
    mixed_with_itself(base00.blue, i);
    mixed_with_itself(base00.red, 0);
    mixed_with_itself(base00.green, 0);
    mixed_with_itself(base00.blue, 0);
}

/// The opaque 8-bit color nearest to a color.
pub open spec fn nearest_color(rgb: Rgb) -> Argb {
    Argb {
        alpha: 255,
        red: binary64::channel_of(rgb.red.value()) as u8,
        green: binary64::channel_of(rgb.green.value()) as u8,
        blue: binary64::channel_of(rgb.blue.value()) as u8,
    }
}

/// The ramp starts at the first color, rounded to 8-bit channels.
pub proof fn ramp_starts_at_the_first(base00: Rgb, base05: Rgb)
    requires
        base00.valid(),
    ensures
        grays_of(base00, base05)[0] == nearest_color(base00),
{
    mixed_at_start(base00.red, base05.red.value());
    mixed_at_start(base00.green, base05.green.value());
    mixed_at_start(base00.blue, base05.blue.value());
}

/// A length far below that of a channel, in multiples of which channels have few digits.
pub open spec fn grain() -> int {
    pow2(1060) as int
}

/// There are many grains in one, and a power of two of them.
proof fn grain_is_small()
    ensures
        grain() > 0,
        binary64::one() == 16384 * grain(),
        pow2(1086) == 0x400_0000 * grain(),
{
    lemma2_to64();
    lemma_pow2_pos(1060);
    lemma_pow2_adds(14, 1060);
    lemma_pow2_adds(26, 1060);
}

/// Rounding moves a value by less than a grain.
proof fn rounded_nearby(v: int)
    requires
        -pow2(1086) < v < pow2(1086),
    ensures
        v - grain() <= binary64::rounded(v) <= v + grain(),
{
    grain_is_small();
    let g = grain();
    let j = v / g;
    lemma_fundamental_div_mod(v, g);
    assert(g * j == j * g && (j + 1) * g == j * g + g) by (nonlinear_arith);
    assert(-0x400_0001 <= j <= 0x400_0000) by (nonlinear_arith)
        requires
            -(0x400_0000 * g) < v < 0x400_0000 * g,
            j * g <= v < j * g + g,
            g > 0,
    ;
    lemma2_to64_rest();
    binary64::rounded_whole(j, 1060);
    binary64::rounded_whole(j + 1, 1060);
    binary64::rounded_increases(j * g, v, 0);
    binary64::rounded_increases(v, (j + 1) * g, 0);
}

/// Rounding moves a product by less than a grain.
proof fn product_nearby(v: int)
    requires
        -pow2(1086) * binary64::one() < v < pow2(1086) * binary64::one(),
    ensures
        ({
            let u = binary64::one() as int;
            let p = binary64::rounded_at(v, -1074);
            (p - grain()) * u <= v <= (p + grain()) * u
        }),
{
    grain_is_small();
    let (g, u) = (grain(), binary64::one() as int);
    let d = g * u;
    assert(d > 0) by (nonlinear_arith)
        requires
            d == g * u,
            g > 0,
            u > 0,
    ;
    let j = v / d;
    lemma_fundamental_div_mod(v, d);
    let (low, high) = (j * g, (j + 1) * g);
    assert(high == low + g && d * j == low * u && high * u == low * u + d) by (nonlinear_arith)
        requires
            low == j * g,
            high == (j + 1) * g,
            d == g * u,
    ;
    assert(-0x400_0001 <= j <= 0x400_0000) by (nonlinear_arith)
        requires
            -(0x400_0000 * g) * u < v < (0x400_0000 * g) * u,
            j * g * u <= v < j * g * u + d,
            d == g * u,
            d > 0,
    ;
    lemma2_to64_rest();
    binary64::rounded_whole(j, 1060);
    binary64::rounded_whole(j + 1, 1060);
    binary64::rounded_scaled(low, 1074, -1074);
    binary64::rounded_scaled(high, 1074, -1074);
    binary64::rounded_increases(low * u, v, -1074);
    binary64::rounded_increases(v, high * u, -1074);
    let p = binary64::rounded_at(v, -1074);
    assert((p - g) * u <= low * u && high * u <= (p + g) * u) by (nonlinear_arith)
        requires
            low <= p <= high,
            high == low + g,
            u > 0,
    ;
}

/// A step is a sixth of the way, up to a grain.
proof fn step_nearby(i: int)
    requires
        0 <= i < 8,
    ensures
        6 * (step_of(i) - grain()) <= i * binary64::one() <= 6 * (step_of(i) + grain()),
{
    grain_is_small();
    let (g, u) = (grain(), binary64::one() as int);
    let v = i * u;
    assert(0 <= v <= 8 * u) by (nonlinear_arith)
        requires
            v == i * u,
            0 <= i < 8,
            u > 0,
    ;
    let d = 6 * g;
    let j = v / d;
    lemma_fundamental_div_mod(v, d);
    assert(d * j == 6 * (j * g) && (j + 1) * g == j * g + g) by (nonlinear_arith)
        requires
            d == 6 * g,
    ;
    assert(0 <= j <= 131072) by (nonlinear_arith)
        requires
            0 <= v <= 131072 * g,
            6 * (j * g) <= v < 6 * (j * g) + 6 * g,
            g > 0,
    ;
    lemma2_to64_rest();
    let (a, b) = (j as nat, (j + 1) as nat);
    binary64::digits_below(a, 53);
    binary64::digits_below(b, 53);
    rounding::nearest_quotient_exact(a, 1060, 6);
    rounding::nearest_quotient_exact(b, 1060, 6);
    assert((a * 6) * g == 6 * (j * g) && (b * 6) * g == 6 * (j * g) + 6 * g) by (nonlinear_arith)
        requires
            a == j,
            b == j + 1,
    ;
    rounding::nearest_quotient_increases(((a * 6) * g) as nat, v as nat, 6);
    rounding::nearest_quotient_increases(v as nat, ((b * 6) * g) as nat, 6);
}

/// A channel on the way from `a` to `b` is within one of that on the way back.
proof fn mixed_backwards(a: int, b: int, i: int)
    requires
        -binary64::one() <= a <= 256 * binary64::one(),
        -binary64::one() <= b <= 256 * binary64::one(),
        0 <= i <= 6,
    ensures
        -binary64::one() <= mixed_of(a, b, i) - mixed_of(b, a, 6 - i) <= binary64::one(),
{
    grain_is_small();
    let (g, u) = (grain(), binary64::one() as int);
    let (s, t) = (step_of(i), step_of(6 - i));
    step_range(i);
    step_range(6 - i);
    step_nearby(i);
    step_nearby(6 - i);
    assert(i * u + (6 - i) * u == 6 * u) by (nonlinear_arith);
    let w = binary64::rounded(b - a);
    rounding::nearest_zero(0);
    assert(binary64::rounded(a - b) == -w);
    rounded_nearby(b - a);
    assert(-(516 * u) * u <= s * w <= (516 * u) * u && -(516 * u) * u <= t * (-w) <= (516 * u) * u)
        by (nonlinear_arith)
        requires
            0 <= s <= 2 * u,
            0 <= t <= 2 * u,
            -258 * u <= w <= 258 * u,
            u > 0,
    ;
    let limit = pow2(1086) as int;
    assert((516 * u) * u < limit * u && -(limit * u) < -(516 * u) * u && -limit * u == -(limit * u))
        by (nonlinear_arith)
        requires
            516 * u < limit,
            u > 0,
    ;
    product_nearby(s * w);
    product_nearby(t * (-w));
    let p = binary64::rounded_at(s * w, -1074);
    let q = binary64::rounded_at(t * (-w), -1074);
    assert(w - 518 * g <= p - q <= w + 518 * g) by (nonlinear_arith)
        requires
            (p - g) * u <= s * w <= (p + g) * u,
            (q - g) * u <= t * (-w) <= (q + g) * u,
            u - 2 * g <= s + t <= u + 2 * g,
            -258 * u <= w <= 258 * u,
            u > 0,
            g > 0,
    {
        let e = s + t - u;
        assert(-516 * (g * u) <= e * w <= 516 * (g * u)) by (nonlinear_arith)
            requires
                -2 * g <= e <= 2 * g,
                -258 * u <= w <= 258 * u,
                g > 0,
                u > 0,
        ;
        assert(s * w - t * (-w) == u * w + e * w) by (nonlinear_arith)
            requires
                e == s + t - u,
        ;
        assert((p - g) * u - (q + g) * u == (p - q - 2 * g) * u) by (nonlinear_arith);
        assert((p + g) * u - (q - g) * u == (p - q + 2 * g) * u) by (nonlinear_arith);
        assert((p - q - 2 * g) * u <= u * w + 516 * (g * u));
        assert((p - q + 2 * g) * u >= u * w - 516 * (g * u));
        assert(p - q - 2 * g <= w + 516 * g) by (nonlinear_arith)
            requires
                (p - q - 2 * g) * u <= u * w + 516 * (g * u),
                u > 0,
        ;
        assert(p - q + 2 * g >= w - 516 * g) by (nonlinear_arith)
            requires
                (p - q + 2 * g) * u >= u * w - 516 * (g * u),
                u > 0,
        ;
    }
    assert(-517 * u <= p <= 517 * u && -517 * u <= q <= 517 * u) by (nonlinear_arith)
        requires
            (p - g) * u <= s * w <= (p + g) * u,
            (q - g) * u <= t * (-w) <= (q + g) * u,
            -(516 * u) * u <= s * w <= (516 * u) * u,
            -(516 * u) * u <= t * (-w) <= (516 * u) * u,
            0 < g <= u,
    ;
    rounded_nearby(a + p);
    rounded_nearby(b + q);
}

/// The channels of two colors are within one of each other.
pub open spec fn within_one(a: Argb, b: Argb) -> bool {
    &&& -1 <= a.red - b.red <= 1
    &&& -1 <= a.green - b.green <= 1
    &&& -1 <= a.blue - b.blue <= 1
}

/// The channels of a way and of the way back.
proof fn channels_backwards(a: int, b: int, i: int)
    requires
        -binary64::one() <= a <= 256 * binary64::one(),
        -binary64::one() <= b <= 256 * binary64::one(),
        0 <= i <= 6,
    ensures
        ({
            let there = binary64::channel_of(mixed_of(a, b, i)) as u8;
            let back = binary64::channel_of(mixed_of(b, a, 6 - i)) as u8;
            -1 <= there - back <= 1
        }),
{
    mixed_backwards(a, b, i);
    let (v, w) = (mixed_of(a, b, i), mixed_of(b, a, 6 - i));
    binary64::channel_increases(v, v);
    binary64::channel_increases(w, w);
    if v <= w {
        binary64::channel_is_steady(v, w);
    } else {
        binary64::channel_is_steady(w, v);
    }
}

/// Swapping the ends reverses the first seven colors of the ramp, up to one in each channel. (The
/// last color lies beyond the end and has no counterpart.)
pub proof fn swapped_ends_reverse_the_ramp(base00: Rgb, base05: Rgb, i: int)
    requires
        base00.valid(),
        base05.valid(),
        0 <= i <= 6,
    ensures
        within_one(grays_of(base00, base05)[i], grays_of(base05, base00)[6 - i]),
{
    channels_backwards(base00.red.value(), base05.red.value(), i);
    channels_backwards(base00.green.value(), base05.green.value(), i);
    channels_backwards(base00.blue.value(), base05.blue.value(), i);
}

} // verus!
