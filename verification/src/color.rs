//! RGB colors, channel-difference distance, and the nearest-palette-entry
//! search that the palette builder quantizes pixels with.

use vstd::prelude::*;

verus! {

/// One RGB pixel. Equality is exact channel equality.
#[derive(Clone, Copy, Debug, PartialEq, Eq, Structural)]
pub struct Color {
    pub r: u8,
    pub g: u8,
    pub b: u8,
}

/// The three channel bytes of a color, in wire order.
pub open spec fn spec_rgb_bytes(c: Color) -> Seq<u8> {
    seq![c.r, c.g, c.b]
}

/// Absolute difference of two channel values.
pub open spec fn channel_diff(x: u8, y: u8) -> int {
    if x >= y {
        x - y
    } else {
        y - x
    }
}

/// Manhattan distance of two colors in RGB space, in the range 0..=765.
pub open spec fn color_diff(a: Color, b: Color) -> int {
    channel_diff(a.r, b.r) + channel_diff(a.g, b.g) + channel_diff(a.b, b.b)
}

/// Two colors are at distance zero exactly when they are equal.
pub proof fn lemma_color_diff_zero(a: Color, b: Color)
    ensures
        0 <= color_diff(a, b) <= 765,
        color_diff(a, b) == 0 <==> a == b,
{
}

impl Color {
    pub fn new(r: u8, g: u8, b: u8) -> (c: Self)
        ensures
            c == (Color { r, g, b }),
    {
        Color { r, g, b }
    }

    /// The three channel bytes of the color, in wire order.
    pub fn colors(self) -> (v: Vec<u8>)
        ensures
            v@ == spec_rgb_bytes(self),
    {
        let mut v: Vec<u8> = Vec::new();
        v.push(self.r);
        v.push(self.g);
        v.push(self.b);
        proof {
            assert(v@ =~= spec_rgb_bytes(self));
        }
        v
    }
}

impl Default for Color {
    /// Black.
    fn default() -> (c: Self)
        ensures
            c == (Color { r: 0, g: 0, b: 0 }),
    {
        Color { r: 0, g: 0, b: 0 }
    }
}

/// The result of a nearest-color search: the index of the best palette entry
/// and its distance to the probed color.
#[derive(Clone, Copy, Debug, PartialEq, Eq, Structural)]
pub struct BestColor {
    pub index: usize,
    pub diff: u32,
}

impl Default for BestColor {
    /// The state of the search before any entry was examined: index 0, at the
    /// largest possible channel-difference sum.
    fn default() -> (b: Self)
        ensures
            b == (BestColor { index: 0, diff: 765u32 }),
    {
        BestColor { index: 0, diff: 255 * 3 }
    }
}

/// The nearest-entry search over a palette prefix, as a fold: starting from
/// index 0 at distance 765, each entry in turn replaces the best candidate
/// exactly when it is strictly nearer. Returns (index, distance), so the
/// first entry of minimal distance wins.
pub open spec fn best_match(c: Color, palette: Seq<Color>) -> (int, int)
    decreases palette.len(),
{
    if palette.len() == 0 {
        (0, 765)
    } else {
        let prev = best_match(c, palette.drop_last());
        let d = color_diff(c, palette.last());
        if d < prev.1 {
            (palette.len() - 1, d)
        } else {
            prev
        }
    }
}

/// What the search result means: the returned distance is the entry's actual
/// distance, no entry is strictly nearer, and no earlier entry is as near.
pub proof fn lemma_best_match(c: Color, palette: Seq<Color>)
    ensures
        palette.len() == 0 ==> best_match(c, palette) == (0int, 765int),
        palette.len() > 0 ==> 0 <= best_match(c, palette).0 < palette.len(),
        palette.len() > 0 ==> best_match(c, palette).1 == color_diff(
            c,
            palette[best_match(c, palette).0],
        ),
        0 <= best_match(c, palette).1 <= 765,
        forall|j: int|
            0 <= j < palette.len() ==> best_match(c, palette).1 <= #[trigger] color_diff(
                c,
                palette[j],
            ),
        forall|j: int|
            0 <= j < best_match(c, palette).0 ==> best_match(c, palette).1 < #[trigger] color_diff(
                c,
                palette[j],
            ),
    decreases palette.len(),
{
    if palette.len() > 0 {
        lemma_best_match(c, palette.drop_last());
        assert forall|j: int| 0 <= j < palette.len() - 1 implies palette.drop_last()[j]
            == palette[j] by {}
        lemma_color_diff_zero(c, palette.last());
    }
}

/// If a color occurs in the palette, the search finds distance zero, and the
/// entry at the returned index equals the color.
pub proof fn lemma_best_match_exact(c: Color, palette: Seq<Color>)
    requires
        palette.contains(c),
    ensures
        best_match(c, palette).1 == 0,
        palette[best_match(c, palette).0] == c,
{
    let j = choose|j: int| 0 <= j < palette.len() && palette[j] == c;
    lemma_best_match(c, palette);
    lemma_color_diff_zero(c, palette[j]);
    assert(color_diff(c, palette[j]) == 0);
    lemma_color_diff_zero(c, palette[best_match(c, palette).0]);
}

/// Scans the palette and returns the first entry of minimal channel-difference
/// sum to `color`, together with that sum; index 0 at distance 765 when the
/// palette is empty.
pub fn best_color_match(color: &Color, color_array: &Vec<Color>) -> (best: BestColor)
    ensures
        best.index as int == best_match(*color, color_array@).0,
        best.diff as int == best_match(*color, color_array@).1,
{
    let mut best = BestColor::default();
    let mut i: usize = 0;
    while i < color_array.len()
        invariant
            i <= color_array@.len(),
            best.index as int == best_match(*color, color_array@.take(i as int)).0,
            best.diff as int == best_match(*color, color_array@.take(i as int)).1,
        decreases color_array@.len() - i,
    {
        let c = color_array[i];
        let mut diff: u32 = 0;
        diff += (if c.r >= color.r {
            c.r - color.r
        } else {
            color.r - c.r
        }) as u32;
        diff += (if c.g >= color.g {
            c.g - color.g
        } else {
            color.g - c.g
        }) as u32;
        diff += (if c.b >= color.b {
            c.b - color.b
        } else {
            color.b - c.b
        }) as u32;
        proof {
            assert(diff as int == color_diff(*color, color_array@[i as int]));
            let post = color_array@.take(i as int + 1);
            assert(post.drop_last() =~= color_array@.take(i as int));
            assert(post.last() == color_array@[i as int]);
        }
        if diff < best.diff {
            best.diff = diff;
            best.index = i;
        }
        i = i + 1;
    }
    proof {
        assert(color_array@.take(color_array@.len() as int) =~= color_array@);
    }
    best
}

} // verus!
