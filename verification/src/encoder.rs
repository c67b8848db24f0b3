//! The frame encoder: turns a raster of RGB pixels into the device's image
//! payload — header and sentinel, total-length field, display-mode bytes,
//! palette table, then the bit-packed index stream — and back again.

use vstd::prelude::*;
use vstd::arithmetic::div_mod::{lemma_div_is_ordered, lemma_fundamental_div_mod_converse};
use vstd::arithmetic::power2::pow2;
use crate::color::{Color, color_diff, spec_rgb_bytes};
use crate::palette::{
    build_palette, build_palette_spec, distinct_colors, lemma_build_palette_invariants,
    lemma_build_palette_lossless,
};
use crate::bits::{
    bit_width, pack_indices, unpack_indices, spec_bit_width, pack_spec, unpack_spec, stream_bits,
    lemma_stream_bits_len, lemma_pack_unpack, lemma_bit_width_covers, floor_log2,
};
use crate::framing::{littlehex, spec_le16, divoom_command_bytes, DivoomCommand, spec_wire_frame};

verus! {

/// Side of the square raster this encoder drives.
pub const RASTER_SIDE: usize = 32;

/// Number of pixels in one raster, in row-major scan order.
pub const RASTER_AREA: usize = 1024;

/// The palette cap: the builder stops appending once it holds this many
/// entries.
pub const PALETTE_CAP: usize = 9;

/// Channel-difference sum under which a pixel is forced onto the nearest
/// existing palette entry.
pub const MATCH_THRESHOLD: u32 = 128;

/// A raster whose length is not the raster area is rejected outright.
#[derive(Clone, Copy, Debug, PartialEq, Eq, Structural)]
pub enum EncodeError {
    ShapeMismatch,
}

/// The fixed leading bytes of an image payload: the header tag and the
/// sentinel byte.
pub open spec fn spec_image_header() -> Seq<u8> {
    seq![0x00u8, 0x0Au8, 0x0Au8, 0x04u8, 0xAAu8]
}

/// The fixed display-mode bytes that select the 32x32 layout.
pub open spec fn spec_mode_bytes() -> Seq<u8> {
    seq![0x00u8, 0x00u8, 0x03u8]
}

/// The palette's channel bytes, three per entry, in insertion order.
pub open spec fn spec_palette_bytes(palette: Seq<Color>) -> Seq<u8>
    decreases palette.len(),
{
    if palette.len() == 0 {
        Seq::<u8>::empty()
    } else {
        spec_palette_bytes(palette.drop_last()) + spec_rgb_bytes(palette.last())
    }
}

pub proof fn lemma_spec_palette_bytes(palette: Seq<Color>)
    ensures
        spec_palette_bytes(palette).len() == 3 * palette.len(),
        forall|b: int|
            0 <= b < 3 * palette.len() ==> #[trigger] spec_palette_bytes(palette)[b] == (if b % 3
                == 0 {
                palette[b / 3].r
            } else if b % 3 == 1 {
                palette[b / 3].g
            } else {
                palette[b / 3].b
            }),
    decreases palette.len(),
{
    if palette.len() > 0 {
        let prev = palette.drop_last();
        lemma_spec_palette_bytes(prev);
        assert forall|b: int| 0 <= b < 3 * palette.len() implies #[trigger] spec_palette_bytes(
            palette,
        )[b] == (if b % 3 == 0 {
            palette[b / 3].r
        } else if b % 3 == 1 {
            palette[b / 3].g
        } else {
            palette[b / 3].b
        }) by {
            if b < 3 * prev.len() {
                assert(spec_palette_bytes(palette)[b] == spec_palette_bytes(prev)[b]);
                assert(0 <= b / 3 < prev.len());
                assert(prev[b / 3] == palette[b / 3]);
            } else {
                let c = b - 3 * prev.len();
                lemma_fundamental_div_mod_converse(b, 3, prev.len() as int, c);
                assert(spec_palette_bytes(palette)[b] == spec_rgb_bytes(palette.last())[c]);
            }
        }
    }
}

/// The image payload for a raster: header and sentinel, little-endian total
/// length (counting its own two bytes, the mode bytes, the palette length,
/// the palette and the pixel data), mode bytes, little-endian palette
/// length, palette bytes, packed indices.
pub open spec fn spec_image_payload(pixels: Seq<Color>) -> Seq<u8> {
    let bp = build_palette_spec(pixels, PALETTE_CAP as int, MATCH_THRESHOLD as int);
    let palette = bp.0;
    let indices = bp.1;
    let width = spec_bit_width(palette.len());
    let packed = pack_spec(indices, width);
    let total = ((7 + 3 * palette.len() + packed.len()) % 0x10000) as u16;
    spec_image_header() + spec_le16(total) + spec_mode_bytes() + spec_le16(
        (palette.len() % 0x10000) as u16,
    ) + spec_palette_bytes(palette) + packed
}

/// Builds the image payload for a full raster; a raster of any other length
/// is rejected with `ShapeMismatch`.
pub fn encode_frame(pixels: &Vec<Color>) -> (r: Result<Vec<u8>, EncodeError>)
    ensures
        pixels@.len() == RASTER_AREA ==> r is Ok && r->Ok_0@ == spec_image_payload(pixels@),
        pixels@.len() != RASTER_AREA ==> r is Err && r->Err_0 == EncodeError::ShapeMismatch,
{
    if pixels.len() != RASTER_AREA {
        return Err(EncodeError::ShapeMismatch);
    }
    let bp = build_palette(pixels, PALETTE_CAP, MATCH_THRESHOLD);
    let palette = bp.0;
    let indices = bp.1;
    proof {
        lemma_build_palette_invariants(pixels@, PALETTE_CAP as int, MATCH_THRESHOLD as int);
    }
    let width = bit_width(palette.len());
    let packed = pack_indices(&indices, width);
    proof {
        lemma_stream_bits_len(indices@, width as nat);
        assert(stream_bits(indices@, width as nat).len() <= 8192);
        lemma_div_is_ordered(
            stream_bits(indices@, width as nat).len() as int,
            8192,
            8,
        );
        assert(packed@.len() <= 1024);
    }
    let mut color_data: Vec<u8> = Vec::new();
    let mut i: usize = 0;
    while i < palette.len()
        invariant
            i <= palette@.len(),
            color_data@ == spec_palette_bytes(palette@.take(i as int)),
            color_data@.len() == 3 * i,
        decreases palette@.len() - i,
    {
        let c = palette[i];
        color_data.push(c.r);
        color_data.push(c.g);
        color_data.push(c.b);
        proof {
            assert(palette@.take(i as int + 1).drop_last() =~= palette@.take(i as int));
            assert(palette@.take(i as int + 1).last() == palette@[i as int]);
            assert(color_data@ =~= spec_palette_bytes(palette@.take(i as int + 1)));
        }
        i = i + 1;
    }
    proof {
        assert(palette@.take(palette@.len() as int) =~= palette@);
    }
    let total: usize = 7 + color_data.len() + packed.len();
    let mut payload: Vec<u8> = Vec::new();
    payload.push(0x00);
    payload.push(0x0A);
    payload.push(0x0A);
    payload.push(0x04);
    payload.push(0xAA);
    let mut total_bytes = littlehex(total as u16);
    payload.append(&mut total_bytes);
    payload.push(0x00);
    payload.push(0x00);
    payload.push(0x03);
    let mut plen_bytes = littlehex(palette.len() as u16);
    payload.append(&mut plen_bytes);
    let ghost color_data_s = color_data@;
    payload.append(&mut color_data);
    let ghost packed_s = packed@;
    let mut packed_mut = packed;
    payload.append(&mut packed_mut);
    proof {
        assert((7 + 3 * palette@.len() + packed_s.len()) % 0x10000 == 7 + 3 * palette@.len()
            + packed_s.len());
        assert(palette@.len() % 0x10000 == palette@.len());
        assert(payload@ =~= spec_image_payload(pixels@));
    }
    Ok(payload)
}

/// What the decoder reads from byte `12 + 3k` onward: entry `k` of the
/// transmitted palette.
pub open spec fn spec_parsed_palette(payload: Seq<u8>, plen: int) -> Seq<Color> {
    Seq::new(
        plen as nat,
        |k: int|
            Color {
                r: payload[12 + 3 * k],
                g: payload[13 + 3 * k],
                b: payload[14 + 3 * k],
            },
    )
}

/// The decoder's reading of an image payload: the palette table and the
/// index stream recovered from the packed bytes, or nothing when the header,
/// the mode bytes, the length field or the palette length do not form a
/// well-formed frame of this protocol.
pub open spec fn spec_decode_payload(payload: Seq<u8>) -> Option<(Seq<Color>, Seq<u8>)> {
    if payload.len() < 12 {
        Option::None
    } else if payload.subrange(0, 5) != spec_image_header() {
        Option::None
    } else if payload.subrange(7, 10) != spec_mode_bytes() {
        Option::None
    } else if payload[5] + 256 * payload[6] != payload.len() - 5 {
        Option::None
    } else {
        let plen = payload[10] + 256 * payload[11];
        if plen > 256 || payload.len() < 12 + 3 * plen {
            Option::None
        } else {
            let palette = spec_parsed_palette(payload, plen);
            let packed = payload.skip(12 + 3 * plen);
            let width = spec_bit_width(plen as nat);
            Option::Some((palette, unpack_spec(packed, width)))
        }
    }
}

/// Parses an image payload back into its palette and index stream.
pub fn decode_frame(payload: &Vec<u8>) -> (r: Option<(Vec<Color>, Vec<u8>)>)
    ensures
        r is Some <==> spec_decode_payload(payload@) is Some,
        r is Some ==> (r->Some_0.0@, r->Some_0.1@) == spec_decode_payload(payload@)->Some_0,
{
    if payload.len() < 12 {
        return None;
    }
    if payload[0] != 0x00 || payload[1] != 0x0A || payload[2] != 0x0A || payload[3] != 0x04
        || payload[4] != 0xAA {
        proof {
            assert(payload@.subrange(0, 5) != spec_image_header());
        }
        return None;
    }
    proof {
        assert(payload@.subrange(0, 5) =~= spec_image_header());
    }
    if payload[7] != 0x00 || payload[8] != 0x00 || payload[9] != 0x03 {
        proof {
            assert(payload@.subrange(7, 10) != spec_mode_bytes());
        }
        return None;
    }
    proof {
        assert(payload@.subrange(7, 10) =~= spec_mode_bytes());
    }
    let total: usize = payload[5] as usize + 256 * (payload[6] as usize);
    if total != payload.len() - 5 {
        return None;
    }
    let plen: usize = payload[10] as usize + 256 * (payload[11] as usize);
    if plen > 256 || payload.len() < 12 + 3 * plen {
        return None;
    }
    let mut palette: Vec<Color> = Vec::new();
    let mut k: usize = 0;
    while k < plen
        invariant
            k <= plen,
            plen <= 256,
            12 + 3 * plen <= payload@.len(),
            palette@ == spec_parsed_palette(payload@, plen as int).take(k as int),
        decreases plen - k,
    {
        let c = Color {
            r: payload[12 + 3 * k],
            g: payload[13 + 3 * k],
            b: payload[14 + 3 * k],
        };
        palette.push(c);
        proof {
            assert(palette@ =~= spec_parsed_palette(payload@, plen as int).take(k as int + 1));
        }
        k = k + 1;
    }
    proof {
        assert(spec_parsed_palette(payload@, plen as int).take(plen as int) =~= spec_parsed_palette(
            payload@,
            plen as int,
        ));
    }
    let mut packed: Vec<u8> = Vec::new();
    let mut p: usize = 12 + 3 * plen;
    let ghost start = p as int;
    while p < payload.len()
        invariant
            start == 12 + 3 * plen,
            start <= p <= payload@.len(),
            packed@ == payload@.subrange(start, p as int),
        decreases payload@.len() - p,
    {
        packed.push(payload[p]);
        proof {
            assert(packed@ =~= payload@.subrange(start, p as int + 1));
        }
        p = p + 1;
    }
    proof {
        assert(packed@ =~= payload@.skip(start));
    }
    let width = bit_width(plen);
    let indices: Vec<u8> = if width == 0 {
        Vec::new()
    } else {
        unpack_indices(&packed, width)
    };
    proof {
        if width == 0 {
            assert(indices@ =~= unpack_spec(packed@, 0));
        }
    }
    Some((palette, indices))
}

proof fn lemma_small_bit_width(n: nat)
    requires
        n <= 9,
    ensures
        spec_bit_width(n) <= 4,
{
    let m: nat = if n == 0 {
        1nat
    } else {
        n
    };
    assert(floor_log2(m) <= 3) by {
        reveal_with_fuel(floor_log2, 5);
    }
}

/// The exact length of an image payload for a full raster, and a bound on
/// it small enough for the command length field.
proof fn lemma_image_payload_len(pixels: Seq<Color>)
    requires
        pixels.len() == RASTER_AREA,
    ensures
        ({
            let palette = build_palette_spec(pixels, PALETTE_CAP as int, MATCH_THRESHOLD as int).0;
            let width = spec_bit_width(palette.len());
            spec_image_payload(pixels).len() == 12 + 3 * palette.len() + (RASTER_AREA * width) / 8
        }),
        spec_image_payload(pixels).len() <= 551,
{
    let bp = build_palette_spec(pixels, PALETTE_CAP as int, MATCH_THRESHOLD as int);
    lemma_build_palette_invariants(pixels, PALETTE_CAP as int, MATCH_THRESHOLD as int);
    let width = spec_bit_width(bp.0.len());
    lemma_spec_palette_bytes(bp.0);
    lemma_stream_bits_len(bp.1, width);
    lemma_small_bit_width(bp.0.len());
    assert(stream_bits(bp.1, width).len() <= 4096);
    lemma_div_is_ordered(stream_bits(bp.1, width).len() as int, 4096, 8);
}

/// The full wire frame that updates the display with one raster: the image
/// payload wrapped as an `UpdateImageFrame` command. This is the whole send
/// path but for the transport itself; writing the bytes to the port is the
/// caller's business.
pub fn image_frame_bytes(pixels: &Vec<Color>) -> (r: Result<Vec<u8>, EncodeError>)
    ensures
        pixels@.len() == RASTER_AREA ==> r is Ok && r->Ok_0@ == spec_wire_frame(
            DivoomCommand::UpdateImageFrame.spec_opcode(),
            spec_image_payload(pixels@),
        ),
        pixels@.len() != RASTER_AREA ==> r is Err && r->Err_0 == EncodeError::ShapeMismatch,
{
    match encode_frame(pixels) {
        Ok(payload) => {
            proof {
                lemma_image_payload_len(pixels@);
            }
            Ok(divoom_command_bytes(DivoomCommand::UpdateImageFrame, payload))
        },
        Err(e) => Err(e),
    }
}

/// Law: on a full raster whose distinct colors fit under the palette cap
/// and sit at least the match threshold apart, decoding an encoded frame
/// recovers the palette exactly — the raster's distinct colors in order of
/// first appearance — and the index stream up to the documented truncation
/// of trailing bits short of a byte; every recovered index points at its
/// own pixel's color.
pub proof fn lemma_encode_decode(pixels: Seq<Color>)
    requires
        pixels.len() == RASTER_AREA,
        distinct_colors(pixels).len() <= PALETTE_CAP,
        forall|i: int, j: int|
            0 <= i < pixels.len() && 0 <= j < pixels.len() && pixels[i] != pixels[j]
                ==> #[trigger] color_diff(pixels[i], pixels[j]) >= MATCH_THRESHOLD,
    ensures
        ({
            let payload = spec_image_payload(pixels);
            let palette = distinct_colors(pixels);
            let indices = build_palette_spec(pixels, PALETTE_CAP as int, MATCH_THRESHOLD as int).1;
            let width = spec_bit_width(palette.len());
            let count: int = if width == 0 {
                0
            } else {
                ((RASTER_AREA * width / 8) * 8 / (width as int)) as int
            };
            &&& spec_decode_payload(payload) is Some
            &&& spec_decode_payload(payload)->Some_0.0 == palette
            &&& spec_decode_payload(payload)->Some_0.1 == indices.take(count)
            &&& 0 <= count <= pixels.len()
            &&& forall|i: int|
                0 <= i < count ==> (#[trigger] indices[i] as int) < palette.len()
                    && palette[indices[i] as int] == pixels[i]
        }),
{
    let payload = spec_image_payload(pixels);
    let bp = build_palette_spec(pixels, PALETTE_CAP as int, MATCH_THRESHOLD as int);
    let palette = bp.0;
    let indices = bp.1;
    lemma_build_palette_invariants(pixels, PALETTE_CAP as int, MATCH_THRESHOLD as int);
    lemma_build_palette_lossless(pixels, PALETTE_CAP as int, MATCH_THRESHOLD as int);
    let width = spec_bit_width(palette.len());
    let packed = pack_spec(indices, width);
    lemma_spec_palette_bytes(palette);
    lemma_stream_bits_len(indices, width);
    lemma_small_bit_width(palette.len());
    assert(stream_bits(indices, width).len() <= 4096);
    lemma_div_is_ordered(stream_bits(indices, width).len() as int, 4096, 8);
    assert(packed.len() <= 512);
    let total = 7 + 3 * palette.len() + packed.len();
    assert(payload.len() == 12 + 3 * palette.len() + packed.len());
    // the header, mode, length and palette-length fields parse back
    assert(payload.subrange(0, 5) =~= spec_image_header());
    assert(payload.subrange(7, 10) =~= spec_mode_bytes());
    assert(payload[5] == total % 256 && payload[6] == total / 256);
    assert(payload[5] + 256 * payload[6] == total);
    assert(payload[10] == palette.len() % 256 && payload[11] == palette.len() / 256);
    assert(payload[10] + 256 * payload[11] == palette.len());
    let plen = palette.len() as int;
    // the palette parses back entry for entry
    assert forall|k: int| 0 <= k < plen implies spec_parsed_palette(payload, plen)[k]
        == palette[k] by {
        assert(payload[12 + 3 * k] == spec_palette_bytes(palette)[3 * k]);
        assert(payload[13 + 3 * k] == spec_palette_bytes(palette)[3 * k + 1]);
        assert(payload[14 + 3 * k] == spec_palette_bytes(palette)[3 * k + 2]);
        assert((3 * k) % 3 == 0 && (3 * k) / 3 == k) by (nonlinear_arith);
        assert((3 * k + 1) % 3 == 1 && (3 * k + 1) / 3 == k) by {
            lemma_fundamental_div_mod_converse(3 * k + 1, 3, k, 1);
        }
        assert((3 * k + 2) % 3 == 2 && (3 * k + 2) / 3 == k) by {
            lemma_fundamental_div_mod_converse(3 * k + 2, 3, k, 2);
        }
    }
    assert(spec_parsed_palette(payload, plen) =~= palette);
    // the packed bytes are the payload's tail
    assert(payload.skip(12 + 3 * plen) =~= packed);
    // and unpacking recovers the index stream up to the truncation
    if width == 0 {
        assert(unpack_spec(packed, width) =~= indices.take(0));
    } else {
        assert(width <= 4);
        assert forall|i: int| 0 <= i < indices.len() implies (#[trigger] indices[i] as nat) < pow2(
            width,
        ) by {
            lemma_bit_width_covers(palette.len());
            assert((indices[i] as int) < palette.len());
        }
        lemma_pack_unpack(indices, width);
    }
}

} // verus!
