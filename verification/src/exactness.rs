//! What channels, shades and accents come to, in exact arithmetic.
use vstd::arithmetic::div_mod::*;
use vstd::arithmetic::power2::*;
use vstd::prelude::*;

use crate::accents;
use crate::angle;
use crate::binary64;
use crate::circle;
use crate::color;
use crate::color::{Argb, Hct, Hsl, Rgb};
use crate::grays;
use crate::measure;
use crate::nearness;
use crate::rounding;
use crate::single;
use crate::single::ColorReading;

verus! {

/// A value held between two others.
pub open spec fn limited(v: int, low: int, high: int) -> int {
    if v < low {
        low
    } else if v > high {
        high
    } else {
        v
    }
}

/// A channel is the whole number nearest to the value, held to the range of channels; a half is
/// rounded up.
pub proof fn channel_is_the_nearest(v: int)
    ensures
        ({
            let (u, c) = (binary64::one() as int, binary64::channel_of(v));
            let w = limited(v, 0, 255 * u);
            0 <= c <= 255 && 2 * (c * u) <= 2 * w + u && 2 * w < 2 * (c * u) + u
        }),
{
    let u = binary64::one() as int;
    lemma_pow2_pos(1074);
    binary64::channel_increases(v, v);
    let d = 2 * u;
    let whole = (2 * v + u) / d;
    lemma_fundamental_div_mod(2 * v + u, d);
    lemma_mod_bound(2 * v + u, d);
    assert(d * whole == 2 * (whole * u)) by (nonlinear_arith)
        requires
            d == 2 * u,
    ;
    let c = binary64::channel_of(v);
    if v < 0 {
        assert(0 * u == 0) by (nonlinear_arith);
    } else if whole > 255 {
        assert(whole * u >= 256 * u) by (nonlinear_arith)
            requires
                whole >= 256,
                u > 0,
        ;
    } else {
        assert(whole * u <= 255 * u) by (nonlinear_arith)
            requires
                whole <= 255,
                u > 0,
        ;
    }
}

/// The whole part of a number keeps its sign and drops what is less than one; what is out of the
/// range of 64 signed bits is held to it.
pub proof fn truncation_drops_the_fraction(v: int)
    ensures
        ({
            let (u, t) = (binary64::one() as int, binary64::truncated_of(v));
            let w = limited(v, -0x8000_0000_0000_0000 * u, 0x7fff_ffff_ffff_ffff * u);
            &&& nearness::size(t) * u <= nearness::size(w) < nearness::size(t) * u + u
            &&& v >= 0 ==> t >= 0
            &&& v <= 0 ==> t <= 0
        }),
{
    let u = binary64::one() as int;
    lemma_pow2_pos(1074);
    let n = nearness::size(v);
    lemma_fundamental_div_mod(n, u);
    lemma_mod_bound(n, u);
    let whole = n / u;
    assert(u * whole == whole * u) by (nonlinear_arith);
    lemma_div_pos_is_pos(n, u);
    let (top, end): (int, int) = (0x7fff_ffff_ffff_ffff, 0x8000_0000_0000_0000);
    assert(whole >= top ==> whole * u >= top * u) by (nonlinear_arith)
        requires
            u > 0,
    ;
    assert(whole >= end ==> whole * u >= end * u) by (nonlinear_arith)
        requires
            u > 0,
    ;
    assert(whole < top ==> whole * u + u <= top * u) by (nonlinear_arith)
        requires
            u > 0,
    ;
    assert(whole < end ==> whole * u + u <= end * u) by (nonlinear_arith)
        requires
            u > 0,
    ;
}

/// A channel at step `i` is `i` sixths of the way from `a` to `b`, up to a few hairs.
proof fn mixed_is_a_sixth(a: int, b: int, i: int)
    requires
        -binary64::one() <= a <= 256 * binary64::one(),
        -binary64::one() <= b <= 256 * binary64::one(),
        0 <= i < 8,
    ensures
        rounding::apart(6 * grays::mixed_of(a, b, i), 6 * a + i * (b - a)) <= 0x1000
            * nearness::hair(),
{
    let (u, h) = (binary64::one() as int, nearness::hair());
    nearness::hair_is_small();
    assert(0 <= i * u <= 8 * u) by (nonlinear_arith)
        requires
            0 <= i < 8,
            u > 0,
    ;
    nearness::quotient_near(i * u, 6);
    let s = grays::step_of(i);
    assert(rounding::apart(6 * s, i * u) <= h);
    nearness::rounded_near(b - a);
    let w = binary64::rounded(b - a);
    assert(nearness::size(s * w) <= (2 * u) * (258 * u)) by (nonlinear_arith)
        requires
            -u <= s <= 2 * u,
            -258 * u <= w <= 258 * u,
            u > 0,
    ;
    let limit = pow2(1086) as int;
    assert((2 * u) * (258 * u) <= limit * u) by (nonlinear_arith)
        requires
            limit == 4096 * u,
            u > 0,
    ;
    nearness::product_near(s * w);
    let p = binary64::rounded_at(s * w, -1074);
    let e = 6 * s - i * u;
    assert(rounding::apart(6 * p, i * w) <= 264 * h) by (nonlinear_arith)
        requires
            rounding::apart(p * u, s * w) <= h * u,
            e == 6 * s - i * u,
            -h <= e <= h,
            -258 * u <= w <= 258 * u,
            h > 0,
            u > 0,
    {
        assert(-258 * (h * u) <= e * w <= 258 * (h * u)) by (nonlinear_arith)
            requires
                -h <= e <= h,
                -258 * u <= w <= 258 * u,
                h > 0,
                u > 0,
        ;
        assert(6 * (s * w) == (i * w) * u + e * w) by (nonlinear_arith)
            requires
                e == 6 * s - i * u,
        ;
        let x = 6 * p - i * w;
        assert(x * u == 6 * (p * u) - (i * w) * u) by (nonlinear_arith)
            requires
                x == 6 * p - i * w,
        ;
        assert(-(264 * (h * u)) <= x * u <= 264 * (h * u));
        assert(-(264 * h) <= x <= 264 * h) by (nonlinear_arith)
            requires
                -(264 * (h * u)) <= x * u <= 264 * (h * u),
                u > 0,
        ;
    }
    assert(rounding::apart(i * w, i * (b - a)) <= 8 * h) by (nonlinear_arith)
        requires
            rounding::apart(w, b - a) <= h,
            0 <= i < 8,
            h > 0,
    ;
    assert(-8 * (257 * u) <= i * (b - a) <= 8 * (257 * u)) by (nonlinear_arith)
        requires
            -257 * u <= b - a <= 257 * u,
            0 <= i < 8,
            u > 0,
    ;
    nearness::rounded_near(a + p);
}

/// The channel `c` is as near as a channel can be to `i` sixths of the way from `a` to `b`, held to
/// the range of channels.
pub open spec fn is_sixth(a: int, b: int, i: int, c: u8) -> bool {
    let u = binary64::one() as int;
    rounding::apart(6 * (c * u), limited(6 * a + i * (b - a), 0, 6 * (255 * u))) <= 3 * u + 0x2000
        * nearness::hair()
}

/// The gray is opaque, and each of its channels is `i` sixths of the way between those of the ends.
pub open spec fn is_step(base00: Rgb, base05: Rgb, i: int, gray: Argb) -> bool {
    &&& gray.alpha == 255
    &&& is_sixth(base00.red.value(), base05.red.value(), i, gray.red)
    &&& is_sixth(base00.green.value(), base05.green.value(), i, gray.green)
    &&& is_sixth(base00.blue.value(), base05.blue.value(), i, gray.blue)
}

/// The channels lie between 0 and 255, or at most one beyond.
pub open spec fn in_channels(rgb: Rgb) -> bool {
    let u = binary64::one() as int;
    &&& -u <= rgb.red.value() <= 256 * u
    &&& -u <= rgb.green.value() <= 256 * u
    &&& -u <= rgb.blue.value() <= 256 * u
}

/// A channel of the ramp.
proof fn channel_is_a_sixth(a: int, b: int, i: int)
    requires
        -binary64::one() <= a <= 256 * binary64::one(),
        -binary64::one() <= b <= 256 * binary64::one(),
        0 <= i < 8,
    ensures
        is_sixth(a, b, i, binary64::channel_of(grays::mixed_of(a, b, i)) as u8),
{
    let u = binary64::one() as int;
    nearness::hair_is_small();
    mixed_is_a_sixth(a, b, i);
    channel_is_the_nearest(grays::mixed_of(a, b, i));
}

/// The steps of the ramp are evenly spaced: each color is as many sixths of the way from the first
/// end to the second as its index says, in every channel.
pub proof fn ramp_is_evenly_spaced(base00: Rgb, base05: Rgb, i: int)
    requires
        in_channels(base00),
        in_channels(base05),
        0 <= i < 8,
    ensures
        grays::grays_of(base00, base05).len() == 8,
        is_step(base00, base05, i, grays::grays_of(base00, base05)[i]),
{
    channel_is_a_sixth(base00.red.value(), base05.red.value(), i);
    channel_is_a_sixth(base00.green.value(), base05.green.value(), i);
    channel_is_a_sixth(base00.blue.value(), base05.blue.value(), i);
}

/// The dark scheme of a color steps evenly from its dim shade to its bright one, and the light
/// scheme from its bright shade to its dim one.
pub proof fn color_ramp_is_evenly_spaced(reading: ColorReading, dark: bool, i: int)
    requires
        in_channels(reading.dim),
        in_channels(reading.bright),
        0 <= i < 8,
    ensures
        dark ==> is_step(
            reading.dim,
            reading.bright,
            i,
            single::color_scheme_of(reading, dark)[i].1,
        ),
        !dark ==> is_step(
            reading.bright,
            reading.dim,
            i,
            single::color_scheme_of(reading, dark)[i].1,
        ),
{
    ramp_is_evenly_spaced(reading.dim, reading.bright, i);
    ramp_is_evenly_spaced(reading.bright, reading.dim, i);
}

/// The values are `tenths` tenths of each other, up to rounding.
pub open spec fn is_tenths(v: int, tenths: int, t: int) -> bool {
    0x100_0000_0000 * rounding::apart(10 * t, tenths * v) <= nearness::size(v) + 0x1000_0000_0000
}

/// A product with tenths.
proof fn product_with_tenths(v: int, k: int)
    requires
        0 < k <= 15,
    ensures
        is_tenths(v, k, binary64::rounded_at(v * binary64::tenths_of(k), -1074)),
        nearness::size(10 * binary64::tenths_of(k) - k * binary64::one()) * pow2(52) <= k
            * binary64::one() + 10 * pow2(52),
        0 < binary64::tenths_of(k) <= 2 * binary64::one(),
{
    let u = binary64::one() as int;
    let t = binary64::tenths_of(k);
    nearness::hair_is_small();
    assert(0 < k * u <= 15 * u) by (nonlinear_arith)
        requires
            0 < k <= 15,
            u > 0,
    ;
    assert(k * u >= u) by (nonlinear_arith)
        requires
            0 < k,
            u > 0,
    ;
    nearness::quotient_error(k * u, 10);
    lemma_pow2_strictly_increases(60, 1074);
    lemma2_to64_rest();
    let b = 10 * t - k * u;
    assert(0x10_0000_0000_0000 * nearness::size(b) <= 15 * u + 10 * 0x10_0000_0000_0000);
    assert(0 < t <= 2 * u);
    let r = binary64::rounded_at(v * t, -1074);
    nearness::rounded_error(v * t, 1074);
    let l = nearness::size(v);
    let x = 10 * r - k * v;
    let y = r * u - v * t;
    assert(x * u == 10 * y + v * b) by (nonlinear_arith)
        requires
            x == 10 * r - k * v,
            y == r * u - v * t,
            b == 10 * t - k * u,
    ;
    assert(nearness::size(v * t) <= 2 * (l * u)) by (nonlinear_arith)
        requires
            l == nearness::size(v),
            0 < t <= 2 * u,
    ;
    let c: int = 0x10_0000_0000_0000;
    assert(c * nearness::size(v * b) <= 16 * (l * u)) by (nonlinear_arith)
        requires
            l == nearness::size(v),
            c * nearness::size(b) <= 16 * u,
            c > 0,
    {
        let m = nearness::size(b);
        assert(nearness::size(v * b) == l * m) by (nonlinear_arith)
            requires
                l == nearness::size(v),
                m == nearness::size(b),
        ;
        assert(c * (l * m) == l * (c * m)) by (nonlinear_arith);
        assert(l * (c * m) <= l * (16 * u)) by (nonlinear_arith)
            requires
                c * m <= 16 * u,
                l >= 0,
        ;
        assert(l * (16 * u) == 16 * (l * u)) by (nonlinear_arith);
    }
    assert(c * nearness::size(y) <= 2 * (l * u) + c * u);
    assert(c * nearness::size(x * u) <= 36 * (l * u) + 10 * (c * u)) by (nonlinear_arith)
        requires
            x * u == 10 * y + v * b,
            c * nearness::size(y) <= 2 * (l * u) + c * u,
            c * nearness::size(v * b) <= 16 * (l * u),
            c > 0,
    ;
    let n = nearness::size(x);
    assert(nearness::size(x * u) == n * u) by (nonlinear_arith)
        requires
            n == nearness::size(x),
            u > 0,
    ;
    assert(c * n <= 36 * l + 10 * c) by (nonlinear_arith)
        requires
            c * (n * u) <= 36 * (l * u) + 10 * (c * u),
            u > 0,
    ;
}

/// A shade keeps the hue, and has the given tenths of the saturation and of the lightness, up to
/// rounding.
pub proof fn shade_scales(hsl: Hsl, saturation: int, lightness: int, target: Hsl)
    requires
        0 < saturation <= 15,
        0 < lightness <= 15,
        single::is_shade(hsl, saturation, lightness, target),
    ensures
        target.hue.value() == hsl.hue.value(),
        target.saturation.finite() && target.lightness.finite(),
        is_tenths(hsl.saturation.value(), saturation, target.saturation.value()),
        is_tenths(hsl.lightness.value(), lightness, target.lightness.value()),
{
    product_with_tenths(hsl.saturation.value(), saturation);
    product_with_tenths(hsl.lightness.value(), lightness);
}

/// Of two shades of one color, the one with fewer tenths of its lightness is darker; fewer than ten
/// tenths are darker than the color itself, and more are lighter.
pub proof fn shades_are_ordered(hsl: Hsl, less: int, more: int, s: int, dark: Hsl, light: Hsl)
    requires
        0 < less < more <= 15,
        0 < s <= 15,
        hsl.lightness.value() >= 0x1000,
        single::is_shade(hsl, s, less, dark),
        single::is_shade(hsl, s, more, light),
    ensures
        dark.lightness.value() < light.lightness.value(),
        less < 10 ==> dark.lightness.value() < hsl.lightness.value(),
        more > 10 ==> light.lightness.value() > hsl.lightness.value(),
{
    let v = hsl.lightness.value();
    shade_scales(hsl, s, less, dark);
    shade_scales(hsl, s, more, light);
    assert(more * v >= less * v + v) by (nonlinear_arith)
        requires
            more >= less + 1,
            v >= 0,
    ;
    assert(less < 10 ==> less * v <= 9 * v) by (nonlinear_arith)
        requires
            v >= 0,
    ;
    assert(more > 10 ==> more * v >= 11 * v) by (nonlinear_arith)
        requires
            v >= 0,
    ;
}

/// The two shades of a color, from which its gray ramps are made: the dim one has three tenths of
/// its saturation and fifteen of its lightness, the bright one seven and two; both keep its hue.
pub proof fn shades_of_a_color<C: Fn(Hsl) -> Rgb, S: Fn(Hct) -> Argb>(
    hsl: Hsl,
    color: Argb,
    convert: &C,
    solve: &S,
    reading: ColorReading,
)
    requires
        single::may_read_color(hsl, color, convert, solve, reading),
    ensures
        exists|dim: Hsl, bright: Hsl|
            {
                &&& #[trigger] convert.ensures((dim,), reading.dim)
                &&& #[trigger] convert.ensures((bright,), reading.bright)
                &&& dim.hue.value() == hsl.hue.value() && bright.hue.value() == hsl.hue.value()
                &&& is_tenths(hsl.saturation.value(), 3, dim.saturation.value())
                &&& is_tenths(hsl.lightness.value(), 15, dim.lightness.value())
                &&& is_tenths(hsl.saturation.value(), 7, bright.saturation.value())
                &&& is_tenths(hsl.lightness.value(), 2, bright.lightness.value())
            },
{
    let dim = choose|target: Hsl| #[trigger]
        single::is_shade(hsl, 3, 15, target) && convert.ensures((target,), reading.dim);
    let bright = choose|target: Hsl| #[trigger]
        single::is_shade(hsl, 7, 2, target) && convert.ensures((target,), reading.bright);
    shade_scales(hsl, 3, 15, dim);
    shade_scales(hsl, 7, 2, bright);
    assert(convert.ensures((dim,), reading.dim) && convert.ensures((bright,), reading.bright));
}

/// The fitted tone is the readable tone nearest to that of the color: the greater of it and 50 in a
/// dark scheme, the smaller of the two in a light one. The hue is the one given; the chroma is
/// kept, but for the last slot, where it is halved.
pub proof fn fitted_color(slot: int, dark: bool, hue: int, hct: Hct, target: Hct)
    requires
        accents::is_fitted(slot, dark, hue, hct, target),
    ensures
        target.hue.value() == hue,
        slot != 7 ==> target.chroma.value() == hct.chroma.value(),
        slot == 7 ==> pow2(52) * rounding::apart(
            2 * target.chroma.value(),
            hct.chroma.value(),
        ) <= nearness::size(hct.chroma.value()) + 2 * pow2(52),
        ({
            let (fitted, tone) = (target.tone.value(), hct.tone.value());
            let middle = 50 * binary64::one();
            &&& fitted == tone || fitted == middle
            &&& dark ==> fitted >= tone && fitted >= middle
            &&& !dark ==> fitted <= tone && fitted <= middle
        }),
{
    nearness::quotient_error(hct.chroma.value(), 2);
}

/// Every color with channels from 0 to 255 can be dealt with.
pub proof fn ordinary_colors_are_valid(rgb: Rgb)
    requires
        rgb.red.finite() && rgb.green.finite() && rgb.blue.finite(),
        in_channels(rgb),
    ensures
        rgb.valid(),
{
}

/// Every measurement with a hue on the circle, and a chroma and a tone that are ordinary numbers,
/// can be dealt with.
pub proof fn ordinary_measurements_are_valid(hct: Hct)
    requires
        hct.hue.finite() && hct.chroma.finite() && hct.tone.finite(),
        circle::on_circle(hct.hue.value()),
        nearness::size(hct.chroma.value()) < pow2(1500),
        nearness::size(hct.tone.value()) < pow2(1500),
    ensures
        hct.valid(),
{
}

/// Every saturation and lightness that is an ordinary number can be dealt with.
pub proof fn ordinary_shades_are_valid(hsl: Hsl)
    requires
        hsl.saturation.finite() && hsl.lightness.finite(),
        nearness::size(hsl.saturation.value()) < pow2(1500),
        nearness::size(hsl.lightness.value()) < pow2(1500),
    ensures
        hsl.valid(),
{
}

/// A color in 8-bit channels has these channels as whole numbers.
pub proof fn whole_channels_are_the_numbers(rgb: Rgb, color: Argb)
    requires
        rgb.is_of(color),
    ensures
        rgb.red.value() == color.red * binary64::one(),
        rgb.green.value() == color.green * binary64::one(),
        rgb.blue.value() == color.blue * binary64::one(),
        in_channels(rgb),
{
    color::whole_channels_are_valid(rgb, color);
}

/// A hue that lies eight tenths of the shorter way from `a` to `s`.
pub open spec fn is_dragged(a: int, s: int, t: int) -> bool {
    let h = nearness::hair();
    &&& circle::on_circle(t)
    &&& circle::arc(a, t) + circle::arc(t, s) <= circle::arc(a, s) + 64 * h
    &&& rounding::apart(10 * circle::arc(a, t), 8 * circle::arc(a, s)) <= 0x1000 * h
}

/// A hue dragged by eight tenths.
proof fn dragged_by_eight_tenths(a: int, s: int)
    requires
        circle::on_circle(a),
        circle::on_circle(s),
    ensures
        is_dragged(a, s, angle::dragged_of(a, s, binary64::tenths_of(8))),
{
    let (u, h) = (binary64::one() as int, nearness::hair());
    nearness::hair_is_small();
    product_with_tenths(0, 8);
    let m = binary64::tenths_of(8);
    lemma_pow2_strictly_increases(60, 1034);
    lemma2_to64_rest();
    let b = 10 * m - 8 * u;
    assert(nearness::size(b) <= h);
    circle::dragged_hue_is_turned(a, s, m);
    let (w, t) = (circle::arc(a, s), angle::dragged_of(a, s, m));
    let moved = circle::arc(a, t);
    let x = 10 * moved - 8 * w;
    assert(-(0x1000 * h) <= x <= 0x1000 * h) by (nonlinear_arith)
        requires
            rounding::apart(moved * u, m * w) <= 64 * (h * u),
            b == 10 * m - 8 * u,
            -h <= b <= h,
            0 <= w <= 180 * u,
            x == 10 * moved - 8 * w,
            h > 0,
            u > 0,
    {
        assert(-(180 * (h * u)) <= b * w <= 180 * (h * u)) by (nonlinear_arith)
            requires
                -h <= b <= h,
                0 <= w <= 180 * u,
                h > 0,
                u > 0,
        ;
        assert(x * u == 10 * (moved * u - m * w) + b * w) by (nonlinear_arith)
            requires
                x == 10 * moved - 8 * w,
                b == 10 * m - 8 * u,
        ;
        assert(-(1000 * (h * u)) <= x * u <= 1000 * (h * u));
        assert(-(1000 * h) <= x <= 1000 * h) by (nonlinear_arith)
            requires
                -(1000 * (h * u)) <= x * u <= 1000 * (h * u),
                u > 0,
        ;
    }
}

/// `t` is the tone `v` in the given tenths, plus `base`, up to rounding.
pub open spec fn is_lifted(v: int, tenths: int, base: int, t: int) -> bool {
    let u = binary64::one() as int;
    0x100_0000_0000 * rounding::apart(10 * t, tenths * v + 10 * (base * u)) <= nearness::size(v) + u
}

/// A tone lifted by a fused product.
proof fn lifted_by_tenths(v: int, k: int, base: int)
    requires
        0 < k <= 15,
        0 <= base <= 50,
    ensures
        is_lifted(
            v,
            k,
            base,
            binary64::rounded_at(
                v * binary64::tenths_of(k) + (base * binary64::one()) * binary64::one(),
                -1074,
            ),
        ),
{
    let u = binary64::one() as int;
    let t = binary64::tenths_of(k);
    nearness::hair_is_small();
    product_with_tenths(v, k);
    lemma_pow2_strictly_increases(60, 1074);
    lemma2_to64_rest();
    assert(0 < k * u <= 15 * u) by (nonlinear_arith)
        requires
            0 < k <= 15,
            u > 0,
    ;
    assert(0 <= base * u <= 50 * u) by (nonlinear_arith)
        requires
            0 <= base <= 50,
            u > 0,
    ;
    let b = 10 * t - k * u;
    let c: int = 0x10_0000_0000_0000;
    let total = v * t + (base * u) * u;
    let r = binary64::rounded_at(total, -1074);
    nearness::rounded_error(total, 1074);
    let l = nearness::size(v);
    let x = 10 * r - (k * v + 10 * (base * u));
    let y = r * u - total;
    assert(x * u == 10 * y + v * b) by (nonlinear_arith)
        requires
            x == 10 * r - (k * v + 10 * (base * u)),
            y == r * u - total,
            total == v * t + (base * u) * u,
            b == 10 * t - k * u,
    ;
    assert(nearness::size(v * t) <= 2 * (l * u)) by (nonlinear_arith)
        requires
            l == nearness::size(v),
            0 < t <= 2 * u,
    ;
    assert(0 <= (base * u) * u <= 50 * (u * u)) by (nonlinear_arith)
        requires
            0 <= base * u <= 50 * u,
            u > 0,
    ;
    assert(c * nearness::size(v * b) <= 16 * (l * u)) by (nonlinear_arith)
        requires
            l == nearness::size(v),
            c * nearness::size(b) <= 16 * u,
            c > 0,
    {
        let m = nearness::size(b);
        assert(nearness::size(v * b) == l * m) by (nonlinear_arith)
            requires
                l == nearness::size(v),
                m == nearness::size(b),
        ;
        assert(c * (l * m) == l * (c * m)) by (nonlinear_arith);
        assert(l * (c * m) <= l * (16 * u)) by (nonlinear_arith)
            requires
                c * m <= 16 * u,
                l >= 0,
        ;
        assert(l * (16 * u) == 16 * (l * u)) by (nonlinear_arith);
    }
    assert(c * nearness::size(y) <= 2 * (l * u) + 50 * (u * u) + c * u);
    assert(c * nearness::size(x * u) <= 36 * (l * u) + 500 * (u * u) + 10 * (c * u))
        by (nonlinear_arith)
        requires
            x * u == 10 * y + v * b,
            c * nearness::size(y) <= 2 * (l * u) + 50 * (u * u) + c * u,
            c * nearness::size(v * b) <= 16 * (l * u),
            c > 0,
    ;
    let n = nearness::size(x);
    assert(nearness::size(x * u) == n * u) by (nonlinear_arith)
        requires
            n == nearness::size(x),
            u > 0,
    ;
    assert(c * n <= 36 * l + 500 * u + 10 * c) by (nonlinear_arith)
        requires
            c * (n * u) <= 36 * (l * u) + 500 * (u * u) + 10 * (c * u),
            u > 0,
    ;
}

/// Hues of the accents of a color: red and green are dragged eight tenths of the way to 25 and 118
/// degrees, the second is 10 degrees from that red on the side of the color, two are 60 degrees
/// further than the color, and the others have its own hue.
pub proof fn hues_of_the_accents(hct: Hct, targets: Seq<Hct>)
    requires
        circle::on_circle(hct.hue.value()),
        single::are_targets(hct, targets),
    ensures
        ({
            let (u, h, hue) = (binary64::one() as int, nearness::hair(), hct.hue.value());
            let red = targets[0].hue.value();
            let ahead = if hue >= red {
                hue - red
            } else {
                hue - red + 360 * u
            };
            let off = targets[1].hue.value();
            &&& is_dragged(hue, 25 * u, red)
            &&& is_dragged(hue, 118 * u, targets[3].hue.value())
            &&& rounding::apart(off, red + 10 * u) <= h || rounding::apart(off, red - 10 * u) <= h
            &&& 2 * h < ahead < 180 * u - 2 * h ==> rounding::apart(off, red + 10 * u) <= h
            &&& 180 * u + 2 * h < ahead < 360 * u - 2 * h ==> rounding::apart(off, red - 10 * u)
                <= h
            &&& rounding::apart(targets[4].hue.value(), hue + 60 * u) <= h
            &&& targets[6].hue.value() == targets[4].hue.value()
            &&& targets[2].hue.value() == hue
            &&& targets[5].hue.value() == hue
            &&& targets[7].hue.value() == hue
        }),
{
    let (u, hue) = (binary64::one() as int, hct.hue.value());
    nearness::hair_is_small();
    assert(single::is_target(
        single::parameters_of(single::numbers_of(hue, hct.chroma.value(), hct.tone.value()))[0],
        targets[0],
    ));
    dragged_by_eight_tenths(hue, 25 * u);
    dragged_by_eight_tenths(hue, 118 * u);
    let red = targets[0].hue.value();
    circle::direction_is_the_shorter_way(red, hue);
    nearness::rounded_near(red + 10 * u);
    nearness::rounded_near(red - 10 * u);
    nearness::rounded_near(hue + 60 * u);
    let n = single::numbers_of(hue, hct.chroma.value(), hct.tone.value());
    assert(single::is_target(single::parameters_of(n)[1], targets[1]));
    assert(single::is_target(single::parameters_of(n)[2], targets[2]));
    assert(single::is_target(single::parameters_of(n)[3], targets[3]));
    assert(single::is_target(single::parameters_of(n)[4], targets[4]));
    assert(single::is_target(single::parameters_of(n)[5], targets[5]));
    assert(single::is_target(single::parameters_of(n)[6], targets[6]));
    assert(single::is_target(single::parameters_of(n)[7], targets[7]));
}

/// The numbers in the targets of the accents.
pub proof fn accent_numbers(hct: Hct, targets: Seq<Hct>, n: single::Numbers)
    requires
        single::are_targets(hct, targets),
        n == single::numbers_of(hct.hue.value(), hct.chroma.value(), hct.tone.value()),
    ensures
        targets.len() == 8,
        targets[0].chroma.value() == n.main_chroma,
        targets[1].chroma.value() == n.mute_chroma,
        targets[2].chroma.value() == n.mute_chroma,
        targets[3].chroma.value() == n.main_chroma,
        targets[4].chroma.value() == n.mute_chroma,
        targets[5].chroma.value() == n.main_chroma,
        targets[6].chroma.value() == n.main_chroma,
        targets[7].chroma.value() == n.low_chroma,
        forall|i: int| 0 <= i < 7 ==> (#[trigger] targets[i]).tone.value() == n.main_tone,
        targets[7].tone.value() == n.low_tone,
{
    let parameters = single::parameters_of(n);
    assert(forall|i: int|
        0 <= i < 8 ==> single::is_target(parameters[i], #[trigger] targets[i]));
    assert forall|i: int| 0 <= i < 7 implies (#[trigger] targets[i]).tone.value()
        == n.main_tone by {
        assert(single::is_target(parameters[i], targets[i]));
        assert(parameters[i].2 == n.main_tone);
    }
    assert(single::is_target(parameters[0], targets[0]));
    assert(single::is_target(parameters[1], targets[1]));
    assert(single::is_target(parameters[2], targets[2]));
    assert(single::is_target(parameters[3], targets[3]));
    assert(single::is_target(parameters[4], targets[4]));
    assert(single::is_target(parameters[5], targets[5]));
    assert(single::is_target(parameters[6], targets[6]));
    assert(single::is_target(parameters[7], targets[7]));
}

/// Half of a number.
proof fn half_is_near(v: int)
    ensures
        pow2(52) * rounding::apart(2 * binary64::quotient_of(v, 2), v) <= nearness::size(v) + 2
            * pow2(52),
{
    nearness::quotient_error(v, 2);
    let q = binary64::quotient_of(v, 2);
    assert(q * 2 == 2 * q);
}

/// A sixth of a number.
proof fn sixth_is_near(v: int)
    ensures
        pow2(52) * rounding::apart(6 * binary64::quotient_of(v, 6), v) <= nearness::size(v) + 6
            * pow2(52),
{
    nearness::quotient_error(v, 6);
    let q = binary64::quotient_of(v, 6);
    assert(q * 6 == 6 * q);
}

/// Chromas of the accents of a color. Variables, strings, functions and keywords have a chroma of
/// at least 80; three have half of it; the last has a sixth of the color's, at most 10.
pub proof fn chromas_of_the_accents(hct: Hct, targets: Seq<Hct>)
    requires
        single::are_targets(hct, targets),
    ensures
        targets.len() == 8,
        ({
            let u = binary64::one() as int;
            let (chroma, k) = (hct.chroma.value(), pow2(52) as int);
            let (main, mute, low) = (
                targets[0].chroma.value(),
                targets[1].chroma.value(),
                targets[7].chroma.value(),
            );
            &&& main >= chroma && main >= 80 * u && (main == chroma || main == 80 * u)
            &&& targets[3].chroma.value() == main && targets[5].chroma.value() == main
            &&& targets[6].chroma.value() == main
            &&& k * rounding::apart(2 * mute, main) <= main + 2 * k
            &&& targets[2].chroma.value() == mute && targets[4].chroma.value() == mute
            &&& low <= 10 * u
            &&& low == 10 * u || k * rounding::apart(6 * low, chroma) <= nearness::size(chroma) + 6
                * k
            &&& k * (6 * low - chroma) <= nearness::size(chroma) + 6 * k
        }),
{
    let u = binary64::one() as int;
    let n = single::numbers_of(hct.hue.value(), hct.chroma.value(), hct.tone.value());
    accent_numbers(hct, targets, n);
    half_is_near(n.main_chroma);
    let (c, k) = (hct.chroma.value(), pow2(52) as int);
    sixth_is_near(c);
    let q = binary64::quotient_of(c, 6);
    let low = n.low_chroma;
    assert(low <= q);
    assert(k * (6 * low - c) <= k * rounding::apart(6 * q, c)) by (nonlinear_arith)
        requires
            6 * low - c <= rounding::apart(6 * q, c),
            k >= 0,
    ;
}

/// Tones of the accents of a color: 50 and three tenths of the color's, and for the last 20 and
/// half of it.
pub proof fn tones_of_the_accents(hct: Hct, targets: Seq<Hct>)
    requires
        single::are_targets(hct, targets),
    ensures
        forall|i: int|
            0 <= i < 7 ==> is_lifted(hct.tone.value(), 3, 50, (#[trigger] targets[i]).tone.value()),
        is_lifted(hct.tone.value(), 5, 20, targets[7].tone.value()),
{
    let n = single::numbers_of(hct.hue.value(), hct.chroma.value(), hct.tone.value());
    accent_numbers(hct, targets, n);
    lifted_by_tenths(hct.tone.value(), 3, 50);
    lifted_by_tenths(hct.tone.value(), 5, 20);
}

/// The accents of a color are solved from such targets, one for one, for a measurement of it.
pub proof fn accents_of_a_color<S: Fn(Hct) -> Argb>(color: Argb, solve: &S, accents: Seq<Argb>)
    requires
        single::may_accent(color, solve, accents),
    ensures
        accents.len() == 8,
        exists|hct: Hct, targets: Seq<Hct>|
            {
                &&& #[trigger] measure::may_measure(color, hct)
                &&& #[trigger] single::are_targets(hct, targets)
                &&& forall|i: int|
                    0 <= i < 8 ==> solve.ensures((targets[i],), #[trigger] accents[i])
            },
{
}

} // verus!
