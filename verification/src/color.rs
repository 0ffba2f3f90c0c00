//! Colors.
use vstd::prelude::*;

use crate::angle;
use crate::binary64;
use crate::binary64::Binary64;

verus! {

/// A color in 8-bit channels, with its opacity.
#[derive(Clone, Copy, Debug, PartialEq, Eq, Structural)]
pub struct Argb {
    pub alpha: u8,
    pub red: u8,
    pub green: u8,
    pub blue: u8,
}

impl Argb {
    /// The color with the given channels.
    pub fn new(alpha: u8, red: u8, green: u8, blue: u8) -> (r: Argb)
        ensures
            r == (Argb { alpha, red, green, blue }),
    {
        Argb { alpha, red, green, blue }
    }

    /// No color: black that nothing can be seen of.
    pub open spec fn unset() -> Argb {
        Argb { alpha: 0, red: 0, green: 0, blue: 0 }
    }
}

impl Default for Argb {
    fn default() -> (r: Argb)
        ensures
            r == Argb::unset(),
    {
        Argb { alpha: 0, red: 0, green: 0, blue: 0 }
    }
}

/// A color in channels from 0 to 255 that need not be whole.
#[derive(Clone, Copy, Debug, PartialEq, Eq, Structural)]
pub struct Rgb {
    pub red: Binary64,
    pub green: Binary64,
    pub blue: Binary64,
}

/// A channel: a number that does not leave the range of colors by more than one on either side.
pub open spec fn is_channel(x: Binary64) -> bool {
    &&& x.finite()
    &&& -binary64::one() <= x.value() <= 256 * binary64::one()
}

/// Whether a number is a channel.
pub fn check_channel(x: Binary64) -> (r: bool)
    ensures
        r == is_channel(x),
{
    x.is_finite() && x.at_least(Binary64::whole(1).negated()) && Binary64::whole(256).at_least(x)
}

/// The whole number `n`, as its value is counted.
pub open spec fn is_whole(x: Binary64, n: u8) -> bool {
    x.finite() && x.value() == n * binary64::one()
}

impl Rgb {
    /// The three channels are in range.
    pub open spec fn valid(self) -> bool {
        is_channel(self.red) && is_channel(self.green) && is_channel(self.blue)
    }

    /// Whether the three channels are in range.
    pub fn is_valid(&self) -> (r: bool)
        ensures
            r == self.valid(),
    {
        check_channel(self.red) && check_channel(self.green) && check_channel(self.blue)
    }

    /// The channels are the whole numbers that the 8-bit color has.
    pub open spec fn is_of(self, color: Argb) -> bool {
        &&& is_whole(self.red, color.red)
        &&& is_whole(self.green, color.green)
        &&& is_whole(self.blue, color.blue)
    }
}

/// The channels of an 8-bit color are in range.
pub proof fn whole_channels_are_valid(rgb: Rgb, color: Argb)
    requires
        rgb.is_of(color),
    ensures
        rgb.valid(),
{
    angle::degrees_are_small();
    let u = binary64::one() as int;
    assert forall|n: u8| 0 <= #[trigger] (n * u) <= 256 * u by {
        assert(0 <= n * u <= 256 * u) by (nonlinear_arith)
            requires
                0 <= n <= 255,
                u > 0,
        ;
    }
    assert(0 <= color.red * u <= 256 * u);
    assert(0 <= color.green * u <= 256 * u);
    assert(0 <= color.blue * u <= 256 * u);
}

/// The channels of an 8-bit color.
pub fn rgb_from_argb(color: Argb) -> (r: Rgb)
    ensures
        r.is_of(color),
        r.valid(),
{
    let r = Rgb {
        red: Binary64::whole(color.red as u16),
        green: Binary64::whole(color.green as u16),
        blue: Binary64::whole(color.blue as u16),
    };
    proof {
        whole_channels_are_valid(r, color);
    }
    r
}

/// A color by hue, chroma and tone.
#[derive(Clone, Copy, Debug, PartialEq, Eq, Structural)]
pub struct Hct {
    pub hue: Binary64,
    pub chroma: Binary64,
    pub tone: Binary64,
}

/// A chroma, a tone or a percentage: a number that sums and products can be made of.
pub open spec fn is_measure(x: Binary64) -> bool {
    x.finite() && binary64::bounded(x.value())
}

/// Whether a number is a chroma, a tone or a percentage.
pub fn check_measure(x: Binary64) -> (r: bool)
    ensures
        r == is_measure(x),
{
    x.is_bounded()
}

impl Hct {
    /// The hue is an angle, and chroma and tone are numbers.
    pub open spec fn valid(self) -> bool {
        angle::is_hue(self.hue) && is_measure(self.chroma) && is_measure(self.tone)
    }

    /// Whether the hue is an angle, and chroma and tone are numbers.
    pub fn is_valid(&self) -> (r: bool)
        ensures
            r == self.valid(),
    {
        angle::check_hue(self.hue) && check_measure(self.chroma) && check_measure(self.tone)
    }
}

/// A color by hue in degrees, and saturation and lightness in percent.
#[derive(Clone, Copy, Debug, PartialEq, Eq, Structural)]
pub struct Hsl {
    pub hue: Binary64,
    pub saturation: Binary64,
    pub lightness: Binary64,
}

impl Hsl {
    /// Saturation and lightness are numbers.
    pub open spec fn valid(self) -> bool {
        is_measure(self.saturation) && is_measure(self.lightness)
    }

    /// Whether saturation and lightness are numbers.
    pub fn is_valid(&self) -> (r: bool)
        ensures
            r == self.valid(),
    {
        check_measure(self.saturation) && check_measure(self.lightness)
    }
}

} // verus!
