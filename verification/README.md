# base16

Dark and light base16 color schemes from images and from single colors, with every rule of the
library proved in Verus.

A scheme has sixteen named colors. The first eight are a gray ramp: between two colors of a
Material theme if there is one, between the brightest and the darkest color of the palette
otherwise. The other eight are accents: the chromatic colors of the palette, dealt out to eight hue
slots so that the nearest pairs come first and no color is used twice, brought to a readable tone
and turned a little towards the source color of the theme.

- `src/` is the library. Hues and channels are double precision numbers, carried as bit patterns
  and computed with exactly as IEEE 754 rounds.
- `tests/` holds it against floating point arithmetic and against the crates that it calls.
- `app/` reads files and web addresses, and hands the library four things: the two conversions
  that need floating point (from hue, chroma and tone, and from hue, saturation and lightness), the
  reading of a palette color (its 8-bit channels and its luminance), and the extractor that
  clusters.
