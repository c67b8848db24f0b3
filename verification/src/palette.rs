//! The palette builder: reduces a pixel stream to a bounded palette of
//! distinct colors and one palette index per pixel. A pixel reuses the
//! nearest existing entry once the palette is at its cap or whenever that
//! entry is nearer than the match threshold; otherwise an exact match reuses
//! its entry, and a genuinely new color is appended.

use vstd::prelude::*;
use crate::color::{
    Color, best_color_match, best_match, color_diff, lemma_best_match, lemma_best_match_exact,
};

verus! {

/// The position of the first occurrence of `c` in the palette; meaningful
/// only when the palette contains `c`.
pub open spec fn index_of_first(palette: Seq<Color>, c: Color) -> int
    decreases palette.len(),
{
    if palette.len() == 0 {
        0
    } else if palette[0] == c {
        0
    } else {
        1 + index_of_first(palette.drop_first(), c)
    }
}

pub proof fn lemma_index_of_first(palette: Seq<Color>, c: Color)
    requires
        palette.contains(c),
    ensures
        0 <= index_of_first(palette, c) < palette.len(),
        palette[index_of_first(palette, c)] == c,
        forall|j: int| 0 <= j < index_of_first(palette, c) ==> palette[j] != c,
    decreases palette.len(),
{
    if palette[0] != c {
        let rest = palette.drop_first();
        assert(rest.contains(c)) by {
            let j = choose|j: int| 0 <= j < palette.len() && palette[j] == c;
            assert(rest[j - 1] == c);
        }
        lemma_index_of_first(rest, c);
        assert forall|j: int| 0 <= j < index_of_first(palette, c) implies palette[j] != c by {
            if j > 0 {
                assert(rest[j - 1] == palette[j]);
            }
        }
    }
}

/// One step of the palette builder: the palette after seeing one pixel, and
/// the index emitted for it. The pixel is forced onto the nearest existing
/// entry when the palette already holds `max_size` entries or when that entry
/// is nearer than `threshold`; an exact match reuses its first occurrence;
/// anything else is appended.
pub open spec fn palette_step(palette: Seq<Color>, c: Color, max_size: int, threshold: int) -> (
    Seq<Color>,
    u8,
) {
    let bm = best_match(c, palette);
    if palette.len() >= max_size || bm.1 < threshold {
        (palette, bm.0 as u8)
    } else if palette.contains(c) {
        (palette, index_of_first(palette, c) as u8)
    } else {
        (palette.push(c), palette.len() as u8)
    }
}

/// The palette builder over a whole pixel sequence, in raster order.
pub open spec fn build_palette_spec(pixels: Seq<Color>, max_size: int, threshold: int) -> (
    Seq<Color>,
    Seq<u8>,
)
    decreases pixels.len(),
{
    if pixels.len() == 0 {
        (Seq::<Color>::empty(), Seq::<u8>::empty())
    } else {
        let prev = build_palette_spec(pixels.drop_last(), max_size, threshold);
        let step = palette_step(prev.0, pixels.last(), max_size, threshold);
        (step.0, prev.1.push(step.1))
    }
}

/// What the builder guarantees on any input: the palette never exceeds its
/// cap, its entries are pairwise distinct colors of the raster, and every
/// emitted index is below the final palette length.
pub proof fn lemma_build_palette_invariants(pixels: Seq<Color>, max_size: int, threshold: int)
    requires
        1 <= max_size,
        0 <= threshold <= 765,
    ensures
        build_palette_spec(pixels, max_size, threshold).0.len() <= max_size,
        build_palette_spec(pixels, max_size, threshold).1.len() == pixels.len(),
        forall|k: int|
            0 <= k < build_palette_spec(pixels, max_size, threshold).0.len() ==> pixels.contains(
                #[trigger] build_palette_spec(pixels, max_size, threshold).0[k],
            ),
        forall|k: int, l: int|
            0 <= k < l < build_palette_spec(pixels, max_size, threshold).0.len()
                ==> build_palette_spec(pixels, max_size, threshold).0[k] != build_palette_spec(
                pixels,
                max_size,
                threshold,
            ).0[l],
        forall|i: int|
            0 <= i < pixels.len() ==> (#[trigger] build_palette_spec(
                pixels,
                max_size,
                threshold,
            ).1[i] as int) < build_palette_spec(pixels, max_size, threshold).0.len(),
    decreases pixels.len(),
{
    if pixels.len() > 0 {
        let prefix = pixels.drop_last();
        let c = pixels.last();
        lemma_build_palette_invariants(prefix, max_size, threshold);
        let pal = build_palette_spec(prefix, max_size, threshold).0;
        let idx = build_palette_spec(prefix, max_size, threshold).1;
        lemma_best_match(c, pal);
        assert forall|k: int| 0 <= k < pal.len() && prefix.contains(pal[k]) implies pixels.contains(
            pal[k],
        ) by {
            let w = choose|w: int| 0 <= w < prefix.len() && prefix[w] == pal[k];
            assert(pixels[w] == pal[k]);
        }
        if !(pal.len() >= max_size || best_match(c, pal).1 < threshold) && !pal.contains(c) {
            assert(pixels[pixels.len() - 1] == c);
            assert(pixels.contains(c));
        }
        if pal.contains(c) {
            lemma_index_of_first(pal, c);
        }
    }
}

/// Law: once the palette is at its cap, a step never changes the palette,
/// and the emitted index is the first entry of minimal channel-difference
/// sum to the pixel.
pub proof fn lemma_palette_step_at_capacity(
    palette: Seq<Color>,
    c: Color,
    max_size: int,
    threshold: int,
)
    requires
        1 <= max_size <= palette.len() <= 256,
    ensures
        palette_step(palette, c, max_size, threshold).0 == palette,
        palette_step(palette, c, max_size, threshold).1 as int == best_match(c, palette).0,
        ({
            let e = palette_step(palette, c, max_size, threshold).1 as int;
            &&& 0 <= e < palette.len()
            &&& forall|j: int|
                0 <= j < palette.len() ==> color_diff(c, palette[e]) <= #[trigger] color_diff(
                    c,
                    palette[j],
                )
            &&& forall|j: int|
                0 <= j < e ==> color_diff(c, palette[e]) < #[trigger] color_diff(c, palette[j])
        }),
{
    lemma_best_match(c, palette);
}

/// Law: once the builder's palette has reached the cap, the pixel seen next
/// changes nothing: the palette stays as it is, and the pixel is mapped to
/// the first existing entry of minimal channel-difference sum. Applied at
/// each position past the fill point, this is the builder's whole behavior
/// at capacity.
pub proof fn lemma_build_palette_at_capacity(
    pixels: Seq<Color>,
    max_size: int,
    threshold: int,
    j: int,
)
    requires
        1 <= max_size <= 256,
        0 <= threshold <= 765,
        0 <= j < pixels.len(),
        build_palette_spec(pixels.take(j), max_size, threshold).0.len() >= max_size,
    ensures
        build_palette_spec(pixels.take(j + 1), max_size, threshold).0 == build_palette_spec(
            pixels.take(j),
            max_size,
            threshold,
        ).0,
        ({
            let pal = build_palette_spec(pixels.take(j), max_size, threshold).0;
            let e = build_palette_spec(pixels.take(j + 1), max_size, threshold).1[j] as int;
            &&& e == best_match(pixels[j], pal).0
            &&& 0 <= e < pal.len()
            &&& forall|l: int|
                0 <= l < pal.len() ==> color_diff(pixels[j], pal[e]) <= #[trigger] color_diff(
                    pixels[j],
                    pal[l],
                )
        }),
{
    assert(pixels.take(j + 1).drop_last() =~= pixels.take(j));
    assert(pixels.take(j + 1).last() == pixels[j]);
    lemma_build_palette_invariants(pixels.take(j), max_size, threshold);
    let pal = build_palette_spec(pixels.take(j), max_size, threshold).0;
    let idx = build_palette_spec(pixels.take(j), max_size, threshold).1;
    assert(idx.len() == j);
    lemma_palette_step_at_capacity(pal, pixels[j], max_size, threshold);
    assert(build_palette_spec(pixels.take(j + 1), max_size, threshold).1[j] == palette_step(
        pal,
        pixels[j],
        max_size,
        threshold,
    ).1);
}

/// The distinct colors of a pixel sequence, in order of first appearance.
pub open spec fn distinct_colors(pixels: Seq<Color>) -> Seq<Color>
    decreases pixels.len(),
{
    if pixels.len() == 0 {
        Seq::<Color>::empty()
    } else {
        let prev = distinct_colors(pixels.drop_last());
        if prev.contains(pixels.last()) {
            prev
        } else {
            prev.push(pixels.last())
        }
    }
}

/// Every distinct color comes from the raster.
pub proof fn lemma_distinct_colors_contains(pixels: Seq<Color>)
    ensures
        forall|k: int|
            0 <= k < distinct_colors(pixels).len() ==> pixels.contains(
                #[trigger] distinct_colors(pixels)[k],
            ),
    decreases pixels.len(),
{
    if pixels.len() > 0 {
        let prefix = pixels.drop_last();
        lemma_distinct_colors_contains(prefix);
        assert forall|k: int| 0 <= k < distinct_colors(pixels).len() implies pixels.contains(
            distinct_colors(pixels)[k],
        ) by {
            if k < distinct_colors(prefix).len() {
                let w = choose|w: int|
                    0 <= w < prefix.len() && prefix[w] == distinct_colors(prefix)[k];
                assert(pixels[w] == distinct_colors(pixels)[k]);
            } else {
                assert(pixels[pixels.len() - 1] == distinct_colors(pixels)[k]);
            }
        }
    }
}

/// Law: while every distinct raster color fits under the cap and distinct
/// colors sit at least the match threshold apart, the builder is lossless:
/// the palette is exactly the distinct colors in order of first appearance,
/// and every emitted index points at its own pixel's color.
pub proof fn lemma_build_palette_lossless(pixels: Seq<Color>, max_size: int, threshold: int)
    requires
        1 <= max_size <= 256,
        0 <= threshold <= 765,
        distinct_colors(pixels).len() <= max_size,
        forall|i: int, j: int|
            0 <= i < pixels.len() && 0 <= j < pixels.len() && pixels[i] != pixels[j]
                ==> #[trigger] color_diff(pixels[i], pixels[j]) >= threshold,
    ensures
        build_palette_spec(pixels, max_size, threshold).0 == distinct_colors(pixels),
        build_palette_spec(pixels, max_size, threshold).1.len() == pixels.len(),
        forall|i: int|
            0 <= i < pixels.len() ==> (#[trigger] build_palette_spec(
                pixels,
                max_size,
                threshold,
            ).1[i] as int) < build_palette_spec(pixels, max_size, threshold).0.len()
                && build_palette_spec(pixels, max_size, threshold).0[build_palette_spec(
                pixels,
                max_size,
                threshold,
            ).1[i] as int] == pixels[i],
    decreases pixels.len(),
{
    if pixels.len() > 0 {
        let prefix = pixels.drop_last();
        let c = pixels.last();
        assert(distinct_colors(prefix).len() <= distinct_colors(pixels).len());
        assert forall|i: int, j: int|
            0 <= i < prefix.len() && 0 <= j < prefix.len() && prefix[i]
                != prefix[j] implies #[trigger] color_diff(prefix[i], prefix[j]) >= threshold by {
            assert(prefix[i] == pixels[i]);
            assert(prefix[j] == pixels[j]);
        }
        lemma_build_palette_lossless(prefix, max_size, threshold);
        let pal = distinct_colors(prefix);
        let idx = build_palette_spec(prefix, max_size, threshold).1;
        lemma_best_match(c, pal);
        let bm = best_match(c, pal);
        if pal.contains(c) {
            lemma_best_match_exact(c, pal);
            assert(distinct_colors(pixels) == pal);
            if pal.len() >= max_size || bm.1 < threshold {
                // nearest-entry reuse; the nearest entry is an exact match
                assert(pal[palette_step(pal, c, max_size, threshold).1 as int] == c);
            } else {
                lemma_index_of_first(pal, c);
            }
        } else {
            // `c` is genuinely new: the step must append it
            assert(distinct_colors(pixels) == pal.push(c));
            assert(pal.len() < max_size);
            if pal.len() > 0 {
                // the nearest entry is a distinct raster color, hence at least
                // `threshold` away
                lemma_distinct_colors_contains(prefix);
                let e = pal[bm.0];
                let w = choose|w: int| 0 <= w < prefix.len() && prefix[w] == e;
                assert(pixels[w] == e);
                assert(pixels[pixels.len() - 1] == c);
                assert(e != c) by {
                    assert(pal[bm.0] == e);
                }
                assert(color_diff(pixels[pixels.len() - 1], pixels[w]) >= threshold);
                assert(bm.1 >= threshold);
            }
            let e8 = palette_step(pal, c, max_size, threshold).1;
            assert(e8 as int == pal.len());
            assert forall|i: int|
                0 <= i < pixels.len() implies (#[trigger] build_palette_spec(
                pixels,
                max_size,
                threshold,
            ).1[i] as int) < pal.push(c).len() && pal.push(c)[build_palette_spec(
                pixels,
                max_size,
                threshold,
            ).1[i] as int] == pixels[i] by {
                if i < prefix.len() {
                    assert(build_palette_spec(pixels, max_size, threshold).1[i] == idx[i]);
                    assert(pal.push(c)[idx[i] as int] == pal[idx[i] as int]);
                }
            }
        }
    }
}

/// Finds the first palette entry equal to `c`, if any.
fn find_color(palette: &Vec<Color>, c: &Color) -> (r: Option<usize>)
    ensures
        r is Some <==> palette@.contains(*c),
        r is Some ==> r.unwrap() < palette@.len() && r.unwrap() as int == index_of_first(
            palette@,
            *c,
        ),
{
    let mut i: usize = 0;
    while i < palette.len()
        invariant
            i <= palette@.len(),
            forall|j: int| 0 <= j < i ==> palette@[j] != *c,
        decreases palette@.len() - i,
    {
        if palette[i].r == c.r && palette[i].g == c.g && palette[i].b == c.b {
            proof {
                assert(palette@[i as int] == *c);
                assert(palette@.contains(*c));
                lemma_index_of_first(palette@, *c);
                let f = index_of_first(palette@, *c);
                if f < i {
                    assert(palette@[f] != *c);
                }
            }
            return Some(i);
        }
        i = i + 1;
    }
    proof {
        if palette@.contains(*c) {
            let j = choose|j: int| 0 <= j < palette@.len() && palette@[j] == *c;
            assert(palette@[j] != *c);
        }
    }
    None
}

/// Builds the palette and index stream for a raster, one pixel at a time in
/// raster order. `max_size` bounds the palette; `match_threshold` is the
/// channel-difference sum under which a pixel reuses the nearest entry.
pub fn build_palette(pixels: &Vec<Color>, max_size: usize, match_threshold: u32) -> (r: (
    Vec<Color>,
    Vec<u8>,
))
    requires
        1 <= max_size <= 256,
        match_threshold <= 765,
    ensures
        r.0@ == build_palette_spec(pixels@, max_size as int, match_threshold as int).0,
        r.1@ == build_palette_spec(pixels@, max_size as int, match_threshold as int).1,
{
    let ghost ms = max_size as int;
    let ghost thr = match_threshold as int;
    let mut palette: Vec<Color> = Vec::new();
    let mut indices: Vec<u8> = Vec::new();
    let mut i: usize = 0;
    while i < pixels.len()
        invariant
            i <= pixels@.len(),
            1 <= max_size <= 256,
            match_threshold <= 765,
            ms == max_size as int,
            thr == match_threshold as int,
            palette@ == build_palette_spec(pixels@.take(i as int), ms, thr).0,
            indices@ == build_palette_spec(pixels@.take(i as int), ms, thr).1,
            palette@.len() <= max_size,
        decreases pixels@.len() - i,
    {
        let c = pixels[i];
        let best = best_color_match(&c, &palette);
        proof {
            assert(pixels@.take(i as int + 1).drop_last() =~= pixels@.take(i as int));
            assert(pixels@.take(i as int + 1).last() == pixels@[i as int]);
            lemma_best_match(c, palette@);
        }
        if palette.len() >= max_size || best.diff < match_threshold {
            proof {
                assert(best.index < 256);
            }
            indices.push(best.index as u8);
        } else if let Some(pos) = find_color(&palette, &c) {
            proof {
                assert(pos < 256);
            }
            indices.push(pos as u8);
        } else {
            proof {
                assert(palette@.len() < 256);
            }
            indices.push(palette.len() as u8);
            palette.push(c);
        }
        i = i + 1;
    }
    proof {
        assert(pixels@.take(pixels@.len() as int) =~= pixels@);
    }
    (palette, indices)
}

} // verus!
