use divoom_link::bits::{bit_width, pack_indices, unpack_indices};
use divoom_link::color::{best_color_match, Color};
use divoom_link::palette::build_palette;

#[test]
fn color_accessors() {
    let c = Color::new(1, 2, 3);
    assert_eq!(c.r, 1);
    assert_eq!(c.g, 2);
    assert_eq!(c.b, 3);
    assert_eq!(c.colors(), vec![1, 2, 3]);
    assert_eq!(Color::default(), Color::new(0, 0, 0));
}

#[test]
fn best_match_on_empty_palette() {
    let best = best_color_match(&Color::new(5, 5, 5), &vec![]);
    assert_eq!(best.index, 0);
    assert_eq!(best.diff, 765);
}

#[test]
fn best_match_picks_nearest_entry() {
    let palette = vec![
        Color::new(255, 0, 0),
        Color::new(0, 255, 0),
        Color::new(0, 0, 255),
    ];
    let best = best_color_match(&Color::new(250, 10, 10), &palette);
    assert_eq!(best.index, 0);
    assert_eq!(best.diff, 5 + 10 + 10);
}

#[test]
fn best_match_first_minimum_wins() {
    let palette = vec![Color::new(9, 0, 0), Color::new(9, 0, 0)];
    let best = best_color_match(&Color::new(9, 0, 0), &palette);
    assert_eq!(best.index, 0);
    assert_eq!(best.diff, 0);
}

#[test]
fn identical_black_pixels_make_one_entry() {
    // four identical black pixels at cap 8: one palette entry, four zero
    // indices; at one entry the bit width is zero and nothing is packed
    let pixels = vec![Color::new(0, 0, 0); 4];
    let (palette, indices) = build_palette(&pixels, 8, 128);
    assert_eq!(palette, vec![Color::new(0, 0, 0)]);
    assert_eq!(indices, vec![0, 0, 0, 0]);
    let w = bit_width(palette.len());
    assert_eq!(w, 0);
    assert_eq!(pack_indices(&indices, w), Vec::<u8>::new());
}

#[test]
fn two_interleaved_colors_pack_into_one_byte() {
    // red and green alternating, four times each: two palette entries, one
    // bit per index, exactly one packed byte for eight pixels
    let mut pixels = Vec::new();
    for _ in 0..4 {
        pixels.push(Color::new(255, 0, 0));
        pixels.push(Color::new(0, 255, 0));
    }
    let (palette, indices) = build_palette(&pixels, 8, 128);
    assert_eq!(palette, vec![Color::new(255, 0, 0), Color::new(0, 255, 0)]);
    assert_eq!(indices, vec![0, 1, 0, 1, 0, 1, 0, 1]);
    let w = bit_width(palette.len());
    assert_eq!(w, 1);
    let packed = pack_indices(&indices, w);
    assert_eq!(packed.len(), 1);
    assert_eq!(packed, vec![0b0101_0101]);
}

#[test]
fn near_colors_merge_below_threshold() {
    // distance 30 < 128: the second color is forced onto the first entry
    let pixels = vec![Color::new(0, 0, 0), Color::new(10, 10, 10)];
    let (palette, indices) = build_palette(&pixels, 8, 128);
    assert_eq!(palette, vec![Color::new(0, 0, 0)]);
    assert_eq!(indices, vec![0, 0]);
}

#[test]
fn full_palette_reuses_nearest_entry() {
    // cap 1: the second, distant color still maps onto the only entry
    let pixels = vec![Color::new(0, 0, 0), Color::new(255, 255, 255)];
    let (palette, indices) = build_palette(&pixels, 1, 128);
    assert_eq!(palette, vec![Color::new(0, 0, 0)]);
    assert_eq!(indices, vec![0, 0]);
}

#[test]
fn zero_threshold_keeps_exact_matches_only() {
    let a = Color::new(0, 0, 0);
    let b = Color::new(1, 0, 0);
    let pixels = vec![a, b, a];
    let (palette, indices) = build_palette(&pixels, 8, 0);
    assert_eq!(palette, vec![a, b]);
    assert_eq!(indices, vec![0, 1, 0]);
}

#[test]
fn bit_width_boundary_sizes() {
    // floor(log2(n)) plus one bit when the fractional part of log2(n)
    // exceeds one tenth
    assert_eq!(bit_width(0), 0);
    assert_eq!(bit_width(1), 0);
    assert_eq!(bit_width(2), 1);
    assert_eq!(bit_width(3), 2);
    assert_eq!(bit_width(4), 2);
    assert_eq!(bit_width(5), 3);
    assert_eq!(bit_width(8), 3);
    assert_eq!(bit_width(9), 4);
}

#[test]
fn bit_width_tenth_rule_above_powers_of_two() {
    // 17 sits within a tenth of a bit above 16, so it keeps 4 bits; 18 does
    // not and rounds up
    assert_eq!(bit_width(16), 4);
    assert_eq!(bit_width(17), 4);
    assert_eq!(bit_width(18), 5);
    assert_eq!(bit_width(137), 7);
    assert_eq!(bit_width(138), 8);
    assert_eq!(bit_width(256), 8);
}

#[test]
fn pack_is_msb_first() {
    // two-bit indices 0,1,2,3 concatenate to 00 01 10 11
    let packed = pack_indices(&vec![0, 1, 2, 3], 2);
    assert_eq!(packed, vec![0b0001_1011]);
}

#[test]
fn pack_drops_trailing_partial_byte() {
    // three three-bit indices make nine bits; the ninth is dropped
    let packed = pack_indices(&vec![7, 7, 7], 3);
    assert_eq!(packed, vec![0xFF]);
    // three one-bit indices never fill a byte at all
    assert_eq!(pack_indices(&vec![1, 1, 1], 1), Vec::<u8>::new());
}

#[test]
fn unpack_reverses_pack() {
    let indices = vec![0, 1, 2, 3];
    let packed = pack_indices(&indices, 2);
    assert_eq!(unpack_indices(&packed, 2), indices);
    assert_eq!(unpack_indices(&vec![0b0101_0101], 1), vec![0, 1, 0, 1, 0, 1, 0, 1]);
}

#[test]
fn empty_raster_builds_nothing() {
    let (palette, indices) = build_palette(&vec![], 8, 128);
    assert_eq!(palette, Vec::<Color>::new());
    assert_eq!(indices, Vec::<u8>::new());
}

#[test]
fn palette_cap_nine_forces_tenth_color_onto_nearest() {
    // nine colors pairwise at least 128 apart fill the palette; a tenth,
    // also far from all of them, is forced onto the first nearest entry
    let nine = vec![
        Color::new(0, 0, 0),
        Color::new(255, 0, 0),
        Color::new(0, 255, 0),
        Color::new(0, 0, 255),
        Color::new(255, 255, 0),
        Color::new(255, 0, 255),
        Color::new(0, 255, 255),
        Color::new(255, 255, 255),
        Color::new(128, 128, 128),
    ];
    let mut pixels = nine.clone();
    pixels.push(Color::new(64, 64, 64));
    let (palette, indices) = build_palette(&pixels, 9, 128);
    assert_eq!(palette, nine);
    // (64,64,64) is 192 away from both black and mid-gray; black comes first
    assert_eq!(indices, vec![0, 1, 2, 3, 4, 5, 6, 7, 8, 0]);
}
