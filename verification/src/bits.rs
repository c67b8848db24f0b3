//! The bit packer: the protocol's bit-width rule for palette indices, dense
//! MSB-first packing of the index stream into whole bytes, and the inverse
//! used by the decoder.
//!
//! The width rule is not a plain ceiling: it takes `floor(log2(n))` bits and
//! rounds up one bit exactly when the fractional part of `log2(n)` exceeds
//! one tenth. Over the integers that condition is `n^10 > 2^(10*k + 1)` for
//! `k = floor(log2(n))`, which is how it is stated here.

use vstd::prelude::*;
use vstd::arithmetic::power::{
    pow, lemma_pow0, lemma_pow1, lemma_pow_adds, lemma_pow_increases, lemma_pow_multiplies,
    lemma_pow_positive,
};
use vstd::arithmetic::power2::{
    pow2, lemma_pow2, lemma_pow2_adds, lemma_pow2_pos, lemma_pow2_unfold,
    lemma_pow2_strictly_increases, lemma2_to64, lemma2_to64_rest,
};
use vstd::arithmetic::div_mod::{
    lemma_div_denominator, lemma_div_is_ordered, lemma_div_multiples_vanish,
    lemma_fundamental_div_mod, lemma_mod_bound,
};

verus! {

/// `floor(log2(n))` for `n >= 1` (and 0 for `n == 0`).
pub open spec fn floor_log2(n: nat) -> nat
    decreases n,
{
    if n < 2 {
        0
    } else {
        1 + floor_log2(n / 2)
    }
}

/// Whether the fractional part of `log2(m)` exceeds one tenth, stated over
/// the integers: `log2(m) - k > 1/10` exactly when `m^10 > 2^(10*k + 1)`.
pub open spec fn width_rounds_up(m: nat) -> bool {
    pow(m as int, 10) > pow2(10 * floor_log2(m) + 1)
}

/// The number of bits one palette index occupies for a palette of `n`
/// entries: `floor(log2(n))`, plus one when the fractional part of `log2(n)`
/// exceeds one tenth. An empty palette counts as one entry.
pub open spec fn spec_bit_width(n: nat) -> nat {
    let m: nat = if n == 0 {
        1nat
    } else {
        n
    };
    if width_rounds_up(m) {
        floor_log2(m) + 1
    } else {
        floor_log2(m)
    }
}

/// `2^floor_log2(n) <= n < 2^(floor_log2(n) + 1)` for positive `n`.
pub proof fn lemma_floor_log2(n: nat)
    requires
        n >= 1,
    ensures
        pow2(floor_log2(n)) <= n < pow2(floor_log2(n) + 1),
    decreases n,
{
    if n < 2 {
        lemma2_to64();
    } else {
        lemma_floor_log2(n / 2);
        lemma_pow2_unfold(floor_log2(n));
        lemma_pow2_unfold(floor_log2(n) + 1);
    }
}

proof fn lemma_floor_log2_monotonic(n1: nat, n2: nat)
    requires
        n1 <= n2,
    ensures
        floor_log2(n1) <= floor_log2(n2),
    decreases n2,
{
    if n1 >= 2 {
        lemma_floor_log2_monotonic(n1 / 2, n2 / 2);
    }
}

proof fn lemma_pow_base_monotone(b1: nat, b2: nat, e: nat)
    requires
        1 <= b1 <= b2,
    ensures
        1 <= pow(b1 as int, e) <= pow(b2 as int, e),
    decreases e,
{
    reveal(pow);
    lemma_pow_positive(b1 as int, e);
    lemma_pow_positive(b2 as int, e);
    if e > 0 {
        lemma_pow_base_monotone(b1, b2, (e - 1) as nat);
        assert(b1 * pow(b1 as int, (e - 1) as nat) <= b2 * pow(b2 as int, (e - 1) as nat))
            by (nonlinear_arith)
            requires
                1 <= b1 <= b2,
                1 <= pow(b1 as int, (e - 1) as nat) <= pow(b2 as int, (e - 1) as nat),
        ;
    }
}

/// Law: the bit width is monotonic, non-decreasing in the palette length.
pub proof fn lemma_bit_width_monotonic(n1: nat, n2: nat)
    requires
        n1 <= n2,
    ensures
        spec_bit_width(n1) <= spec_bit_width(n2),
{
    let m1: nat = if n1 == 0 {
        1nat
    } else {
        n1
    };
    let m2: nat = if n2 == 0 {
        1nat
    } else {
        n2
    };
    lemma_floor_log2_monotonic(m1, m2);
    let k1 = floor_log2(m1);
    let k2 = floor_log2(m2);
    if k1 == k2 && width_rounds_up(m1) {
        lemma_pow_base_monotone(m1, m2, 10);
    }
}

/// For palettes of at most 16 entries every index fits in the computed
/// width: `n <= 2^spec_bit_width(n)`. (This is where the one-tenth rule and
/// a plain ceiling agree; the first palette length for which the rule hands
/// out one bit too few is 17.)
pub proof fn lemma_bit_width_covers(n: nat)
    requires
        n <= 16,
    ensures
        n <= pow2(spec_bit_width(n)),
{
    let m: nat = if n == 0 {
        1nat
    } else {
        n
    };
    lemma_floor_log2(m);
    let k = floor_log2(m);
    lemma2_to64();
    if width_rounds_up(m) {
        // one extra bit: m < pow2(k + 1) by the floor_log2 bounds
    } else {
        // no extra bit: show m <= pow2(k), by contradiction
        if m > pow2(k) {
            // m < pow2(k + 1) <= 32, so k <= 3; in every case m^10 exceeds
            // 2^(10k + 1), contradicting the failed rounding test
            assert(pow2(k) < m < pow2(k + 1));
            assert(k <= 3) by {
                if k >= 4 {
                    if k > 4 {
                        lemma_pow2_strictly_increases(4, k);
                    }
                    assert(pow2(k) >= 16);
                }
            }
            if k == 0 {
                assert(false);
            } else if k == 1 {
                assert(m >= 3);
                lemma_pow_base_monotone(3, m, 10);
                assert(pow(3, 10) == 59049) by {
                    reveal_with_fuel(pow, 11);
                }
                assert(pow2(11) == 2048);
            } else if k == 2 {
                assert(m >= 5);
                lemma_pow_base_monotone(5, m, 10);
                assert(pow(5, 10) == 9765625) by {
                    reveal_with_fuel(pow, 11);
                }
                assert(pow2(21) == 0x200000);
            } else {
                assert(m >= 9);
                lemma_pow_base_monotone(9, m, 10);
                assert(pow(9, 10) == 3486784401) by {
                    reveal_with_fuel(pow, 11);
                }
                assert(pow2(31) == 0x80000000);
            }
        }
    }
}

/// The bit width for a palette of `palette_len` entries, computed with
/// integer arithmetic only: `k = floor(log2(n))` by repeated halving, then
/// the `n^10 > 2^(10k + 1)` test for the rounding bit.
pub fn bit_width(palette_len: usize) -> (w: u8)
    requires
        palette_len <= 256,
    ensures
        w as nat == spec_bit_width(palette_len as nat),
        w <= 8,
{
    let m: u128 = if palette_len == 0 {
        1
    } else {
        palette_len as u128
    };
    let ghost mn = m as nat;
    // k = floor_log2(m)
    let mut k: u8 = 0;
    let mut t: u128 = m;
    proof {
        lemma2_to64();
    }
    while t >= 2
        invariant
            1 <= t <= m <= 256,
            floor_log2(mn) == k as nat + floor_log2(t as nat),
            mn == m as nat,
            pow2(k as nat) * t <= m,
            k <= 8,
        decreases t,
    {
        proof {
            lemma_pow2_unfold(k as nat + 1);
            lemma_pow2_pos(k as nat);
            let tn = t as int;
            assert(2 * (tn / 2) <= tn);
            assert(pow2((k + 1) as nat) * (tn / 2) <= pow2(k as nat) * tn) by (nonlinear_arith)
                requires
                    pow2((k + 1) as nat) == 2 * pow2(k as nat),
                    2 * (tn / 2) <= tn,
                    pow2(k as nat) >= 0,
            ;
            assert(pow2(k as nat) * 2 <= pow2(k as nat) * tn) by (nonlinear_arith)
                requires
                    tn >= 2,
                    pow2(k as nat) > 0,
            ;
            assert(pow2((k + 1) as nat) <= 256);
            if k as nat + 1 > 8 {
                lemma2_to64();
                lemma_pow2_strictly_increases(8, k as nat + 1);
                assert(false);
            }
        }
        t = t / 2;
        k = k + 1;
    }
    proof {
        assert(floor_log2(t as nat) == 0);
        assert(floor_log2(mn) == k as nat);
        lemma_pow0(m as int);
        lemma_pow0(256);
    }
    // p = m^10; stays below 256^10 = 2^80
    let mut p: u128 = 1;
    let mut e: u8 = 0;
    while e < 10
        invariant
            e <= 10,
            1 <= m <= 256,
            mn == m as nat,
            p as int == pow(m as int, e as nat),
            p as int <= pow(256, e as nat),
        decreases 10 - e,
    {
        proof {
            lemma_pow_positive(m as int, e as nat);
            lemma_pow_positive(256, e as nat);
            lemma_pow1(m as int);
            lemma_pow1(256);
            lemma_pow_adds(m as int, e as nat, 1);
            lemma_pow_adds(256, e as nat, 1);
            assert(pow(256, e as nat + 1) == pow(256, e as nat) * 256);
            assert(p as int * m as int <= pow(256, e as nat) * 256) by (nonlinear_arith)
                requires
                    0 < p as int <= pow(256, e as nat),
                    0 < m as int <= 256,
            ;
            lemma_pow_increases(256, e as nat + 1, 10);
            assert(pow(256, 10) == pow2(80)) by {
                lemma_pow_multiplies(2, 8, 10);
                lemma_pow2(80);
                assert(pow(2, 8) == 256) by {
                    reveal_with_fuel(pow, 9);
                }
            }
            assert(pow2(80) == 0x100000000000000000000) by {
                lemma_pow2_adds(64, 16);
                lemma2_to64();
                lemma2_to64_rest();
            }
            assert(pow(m as int, e as nat + 1) == pow(m as int, e as nat) * m as int);
        }
        p = p * m;
        e = e + 1;
    }
    // q = 2^(10k + 1); the exponent is at most 81
    let exp: u8 = 10 * k + 1;
    let mut q: u128 = 1;
    let mut j: u8 = 0;
    while j < exp
        invariant
            j <= exp,
            exp <= 81,
            q as nat == pow2(j as nat),
        decreases exp - j,
    {
        proof {
            lemma_pow2_unfold((j + 1) as nat);
            if j as nat + 1 < 81 {
                lemma_pow2_strictly_increases(j as nat + 1, 81);
            }
            assert(pow2(81) == 0x200000000000000000000) by {
                lemma_pow2_adds(64, 17);
                lemma2_to64();
                lemma2_to64_rest();
            }
        }
        q = q * 2;
        j = j + 1;
    }
    if p > q {
        proof {
            // the rounding test cannot fire for a full 256-entry palette
            if k == 8 {
                lemma_floor_log2(mn);
                lemma2_to64();
                lemma2_to64_rest();
                assert(pow2(8) == 256);
                assert(mn >= 256);
                assert(pow(m as int, 10) == pow2(80)) by {
                    lemma_pow_multiplies(2, 8, 10);
                    lemma_pow2(80);
                    assert(pow(2, 8) == 256) by {
                        reveal_with_fuel(pow, 9);
                    }
                }
                assert(pow2(80) < pow2(81)) by {
                    lemma_pow2_strictly_increases(80, 81);
                }
            }
        }
        k + 1
    } else {
        k
    }
}

/// Bit `k` of a byte: whether the `2^k` place of its value is set.
pub open spec fn nth_bit(v: u8, k: nat) -> bool {
    (v as nat / pow2(k)) % 2 == 1
}

/// The low `width` bits of a value, most significant bit first.
pub open spec fn index_bits(v: u8, width: nat) -> Seq<bool> {
    Seq::new(width, |j: int| nth_bit(v, (width - 1 - j) as nat))
}

/// The bits of a whole index stream, concatenated in pixel order.
pub open spec fn stream_bits(indices: Seq<u8>, width: nat) -> Seq<bool>
    decreases indices.len(),
{
    if indices.len() == 0 {
        Seq::<bool>::empty()
    } else {
        stream_bits(indices.drop_last(), width) + index_bits(indices.last(), width)
    }
}

/// The value of a bit string read most-significant-bit first.
pub open spec fn bits_val(bits: Seq<bool>) -> nat
    decreases bits.len(),
{
    if bits.len() == 0 {
        0
    } else {
        2 * bits_val(bits.drop_last()) + (if bits.last() {
            1nat
        } else {
            0nat
        })
    }
}

/// A bit string cut into whole bytes; trailing bits short of a full byte are
/// dropped, not padded.
pub open spec fn packed_bytes(bits: Seq<bool>) -> Seq<u8> {
    Seq::new(bits.len() / 8, |i: int| bits_val(bits.subrange(8 * i, 8 * i + 8)) as u8)
}

/// What the bit packer produces for an index stream at a given width.
pub open spec fn pack_spec(indices: Seq<u8>, width: nat) -> Seq<u8> {
    packed_bytes(stream_bits(indices, width))
}

/// The decoder's reading of a packed byte stream: as many whole `width`-bit
/// groups as the bytes hold, each read most-significant-bit first. At width
/// zero nothing was transmitted and nothing is read.
pub open spec fn unpack_spec(bytes: Seq<u8>, width: nat) -> Seq<u8> {
    if width == 0 {
        Seq::<u8>::empty()
    } else {
        Seq::new(
            bytes.len() * 8 / width,
            |i: int| bits_val(stream_bits(bytes, 8).subrange(width * i, width * i + width)) as u8,
        )
    }
}

pub proof fn lemma_stream_bits_len(indices: Seq<u8>, width: nat)
    ensures
        stream_bits(indices, width).len() == indices.len() * width,
    decreases indices.len(),
{
    if indices.len() > 0 {
        lemma_stream_bits_len(indices.drop_last(), width);
        assert((indices.len() - 1) * width + width == indices.len() * width) by (nonlinear_arith);
    }
}

/// Chunk `i` of a bit stream is exactly the bits of index `i`.
pub proof fn lemma_stream_bits_chunk(indices: Seq<u8>, width: nat, i: int)
    requires
        0 <= i < indices.len(),
    ensures
        stream_bits(indices, width).subrange(width * i, width * i + width) == index_bits(
            indices[i],
            width,
        ),
    decreases indices.len(),
{
    lemma_stream_bits_len(indices, width);
    lemma_stream_bits_len(indices.drop_last(), width);
    let s = stream_bits(indices, width);
    let a = stream_bits(indices.drop_last(), width);
    let b = index_bits(indices.last(), width);
    if i == indices.len() - 1 {
        assert(a.len() == width * i) by (nonlinear_arith)
            requires
                a.len() == (indices.len() - 1) * width,
                i == indices.len() - 1,
        ;
        assert forall|j: int| 0 <= j < width implies #[trigger] s.subrange(
            width * i,
            width * i + width,
        )[j] == b[j] by {
            assert(s[width * i + j] == b[j]);
        }
        assert(s.subrange(width * i, width * i + width) =~= b);
    } else {
        lemma_stream_bits_chunk(indices.drop_last(), width, i);
        assert((i + 1) * width <= (indices.len() - 1) * width) by (nonlinear_arith)
            requires
                i + 1 <= indices.len() - 1,
                width >= 0,
        ;
        assert(width * i + width <= a.len()) by (nonlinear_arith)
            requires
                a.len() == (indices.len() - 1) * width,
                (i + 1) * width <= (indices.len() - 1) * width,
        ;
        assert forall|j: int| 0 <= j < width implies #[trigger] s.subrange(
            width * i,
            width * i + width,
        )[j] == a.subrange(width * i, width * i + width)[j] by {
            assert(s[width * i + j] == a[width * i + j]);
        }
        assert(s.subrange(width * i, width * i + width) =~= a.subrange(
            width * i,
            width * i + width,
        ));
        assert(indices.drop_last()[i] == indices[i]);
    }
}

pub proof fn lemma_bits_val_bound(bits: Seq<bool>)
    ensures
        bits_val(bits) < pow2(bits.len()),
    decreases bits.len(),
{
    if bits.len() == 0 {
        lemma2_to64();
    } else {
        lemma_bits_val_bound(bits.drop_last());
        lemma_pow2_unfold(bits.len());
    }
}

/// Peeling one bit: the last bit of `index_bits` is the value's lowest bit,
/// and the rest are the bits of the value halved.
proof fn lemma_index_bits_step(v: u8, width: nat)
    requires
        width >= 1,
    ensures
        index_bits(v, width).last() == (v % 2 == 1),
        index_bits(v, width).drop_last() == index_bits(v / 2, (width - 1) as nat),
{
    lemma2_to64();
    assert(index_bits(v, width).last() == nth_bit(v, 0));
    assert(v as nat / pow2(0) == v as nat);
    assert forall|j: int| 0 <= j < width - 1 implies index_bits(v, width)[j] == index_bits(
        v / 2,
        (width - 1) as nat,
    )[j] by {
        let s = (width - 2 - j) as nat;
        lemma_pow2_pos(s);
        lemma_div_denominator(v as int, 2, pow2(s) as int);
        lemma_pow2_unfold(s + 1);
        assert((v / 2) as int == v as int / 2);
        assert((v as int / 2) / (pow2(s) as int) == v as int / (2 * pow2(s) as int));
        assert(nth_bit(v / 2, s) == nth_bit(v, s + 1));
    }
    assert(index_bits(v, width).drop_last() =~= index_bits(v / 2, (width - 1) as nat));
}

/// Reading back the bits of a value gives the value.
pub proof fn lemma_bits_val_of_index_bits(v: u8, width: nat)
    requires
        (v as nat) < pow2(width),
    ensures
        bits_val(index_bits(v, width)) == v as nat,
    decreases width,
{
    if width == 0 {
        lemma2_to64();
        assert(index_bits(v, 0) =~= Seq::<bool>::empty());
    } else {
        lemma_index_bits_step(v, width);
        lemma_pow2_unfold(width);
        assert(((v / 2) as nat) < pow2((width - 1) as nat));
        lemma_bits_val_of_index_bits(v / 2, (width - 1) as nat);
    }
}

/// The bits of a bit string's value are the bit string itself (for strings
/// that fit in one byte).
pub proof fn lemma_index_bits_of_bits_val(bits: Seq<bool>)
    requires
        bits.len() <= 8,
    ensures
        bits_val(bits) < 256,
        index_bits(bits_val(bits) as u8, bits.len()) == bits,
    decreases bits.len(),
{
    lemma_bits_val_bound(bits);
    lemma2_to64();
    if bits.len() < 8 {
        lemma_pow2_strictly_increases(bits.len(), 8);
    }
    if bits.len() == 0 {
        assert(index_bits(bits_val(bits) as u8, 0) =~= bits);
    } else {
        let v = bits_val(bits);
        let prev = bits.drop_last();
        lemma_index_bits_of_bits_val(prev);
        lemma_bits_val_bound(prev);
        lemma_index_bits_step(v as u8, bits.len());
        assert((v as u8) / 2 == bits_val(prev));
        assert((v as u8) % 2 == (if bits.last() {
            1u8
        } else {
            0u8
        }));
        assert forall|j: int| 0 <= j < bits.len() implies index_bits(v as u8, bits.len())[j]
            == bits[j] by {
            if j < bits.len() - 1 {
                assert(index_bits(v as u8, bits.len())[j] == index_bits(
                    v as u8,
                    bits.len(),
                ).drop_last()[j]);
                assert(index_bits(bits_val(prev) as u8, prev.len())[j] == prev[j]);
            } else {
                assert(index_bits(v as u8, bits.len())[j] == index_bits(v as u8, bits.len()).last());
            }
        }
        assert(index_bits(v as u8, bits.len()) =~= bits);
    }
}

/// Turning packed bytes back into bits recovers the packed prefix of the
/// input bit string: everything up to the last full byte.
pub proof fn lemma_packed_bytes_bits(bits: Seq<bool>)
    ensures
        packed_bytes(bits).len() == bits.len() / 8,
        stream_bits(packed_bytes(bits), 8) == bits.take(8 * (bits.len() / 8) as int),
{
    let p = packed_bytes(bits);
    let nb = (bits.len() / 8) as int;
    lemma_stream_bits_len(p, 8);
    assert(8 * nb <= bits.len());
    assert forall|x: int| 0 <= x < 8 * nb implies stream_bits(p, 8)[x] == bits[x] by {
        let i = x / 8;
        let r = x % 8;
        lemma_fundamental_div_mod(x, 8);
        lemma_mod_bound(x, 8);
        assert(0 <= i);
        assert(i < nb) by {
            if i >= nb {
                assert(x >= 8 * i);
            }
        }
        lemma_stream_bits_chunk(p, 8, i);
        let g = bits.subrange(8 * i, 8 * i + 8);
        lemma_index_bits_of_bits_val(g);
        assert(p[i] == bits_val(g) as u8);
        assert(index_bits(p[i], 8) == g);
        assert(stream_bits(p, 8)[x] == stream_bits(p, 8).subrange(8 * i, 8 * i + 8)[r]);
        assert(g[r] == bits[8 * i + r]);
    }
    assert(stream_bits(p, 8) =~= bits.take(8 * nb));
}

/// Law: unpacking what was packed recovers the index stream up to the
/// documented truncation — the indices whose bits fell beyond the last full
/// byte are lost. Every index must fit its width.
pub proof fn lemma_pack_unpack(indices: Seq<u8>, width: nat)
    requires
        1 <= width <= 8,
        forall|i: int| 0 <= i < indices.len() ==> (#[trigger] indices[i] as nat) < pow2(width),
    ensures
        ({
            let recovered = unpack_spec(pack_spec(indices, width), width);
            &&& recovered.len() == (indices.len() * width / 8) * 8 / width
            &&& recovered.len() <= indices.len()
            &&& recovered == indices.take(recovered.len() as int)
        }),
{
    let bits = stream_bits(indices, width);
    lemma_stream_bits_len(indices, width);
    let packed = packed_bytes(bits);
    lemma_packed_bytes_bits(bits);
    let nb = (bits.len() / 8) as int;
    let k = (packed.len() * 8 / width) as int;
    assert(k == 8 * nb / width as int);
    // k <= indices.len()
    assert(8 * nb <= indices.len() * width);
    lemma_div_is_ordered(8 * nb, (indices.len() * width) as int, width as int);
    lemma_div_multiples_vanish(indices.len() as int, width as int);
    assert((width * indices.len()) as int / width as int == indices.len());
    assert((indices.len() * width) as int == (width * indices.len()) as int) by (nonlinear_arith);
    assert(k <= indices.len());
    // k * width <= 8 * nb
    lemma_fundamental_div_mod(8 * nb, width as int);
    lemma_mod_bound(8 * nb, width as int);
    assert(width as int * k <= 8 * nb);
    let pbits = stream_bits(packed, 8);
    let recovered = unpack_spec(packed, width);
    assert(recovered.len() == k);
    assert forall|i: int| 0 <= i < k implies recovered[i] == indices[i] by {
        assert((i + 1) * width <= k * width) by (nonlinear_arith)
            requires
                i + 1 <= k,
                width >= 0,
        ;
        assert(k * width == width as int * k) by (nonlinear_arith);
        assert(width * i + width <= 8 * nb) by (nonlinear_arith)
            requires
                (i + 1) * width <= k * width,
                k * width <= 8 * nb,
        ;
        assert forall|j: int| 0 <= j < width implies #[trigger] pbits.subrange(
            width * i,
            width * i + width,
        )[j] == bits.subrange(width * i, width * i + width)[j] by {
            assert(pbits[width * i + j] == bits.take(8 * nb)[width * i + j]);
        }
        assert(pbits.subrange(width * i, width * i + width) =~= bits.subrange(
            width * i,
            width * i + width,
        ));
        lemma_stream_bits_chunk(indices, width, i);
        lemma_bits_val_of_index_bits(indices[i], width);
        assert(recovered[i] == bits_val(pbits.subrange(width * i, width * i + width)) as u8);
    }
    assert(recovered =~= indices.take(k));
}

/// An exact power of two that fits a byte.
fn pow2_u8(e: u8) -> (r: u8)
    requires
        e <= 7,
    ensures
        r as nat == pow2(e as nat),
        r >= 1,
{
    proof {
        lemma2_to64();
    }
    if e == 0 {
        1
    } else if e == 1 {
        2
    } else if e == 2 {
        4
    } else if e == 3 {
        8
    } else if e == 4 {
        16
    } else if e == 5 {
        32
    } else if e == 6 {
        64
    } else {
        128
    }
}

/// Packs each index into exactly `bit_width` bits, most significant bit
/// first, concatenates the bits in pixel order, and slices the stream into
/// whole bytes. Trailing bits short of a full byte are dropped, not padded:
/// with the protocol's blessing, that tail is lost.
pub fn pack_indices(indices: &Vec<u8>, bit_width: u8) -> (r: Vec<u8>)
    requires
        bit_width <= 8,
    ensures
        r@ == pack_spec(indices@, bit_width as nat),
{
    let w = bit_width as usize;
    let ghost wn = bit_width as nat;
    let mut bits: Vec<bool> = Vec::new();
    let mut i: usize = 0;
    while i < indices.len()
        invariant
            i <= indices@.len(),
            w == wn <= 8,
            bits@ == stream_bits(indices@.take(i as int), wn),
        decreases indices@.len() - i,
    {
        let v = indices[i];
        let mut j: usize = 0;
        while j < w
            invariant
                j <= w,
                w == wn <= 8,
                i < indices@.len(),
                v == indices@[i as int],
                bits@ == stream_bits(indices@.take(i as int), wn) + index_bits(v, wn).take(
                    j as int,
                ),
            decreases w - j,
        {
            let shift = (w - 1 - j) as u8;
            let p = pow2_u8(shift);
            let bit = (v / p) % 2 == 1;
            proof {
                assert(bit == nth_bit(v, shift as nat));
                assert(index_bits(v, wn)[j as int] == nth_bit(v, shift as nat));
                assert(index_bits(v, wn).take(j as int + 1) =~= index_bits(v, wn).take(
                    j as int,
                ).push(bit));
                assert(bits@.push(bit) =~= stream_bits(indices@.take(i as int), wn) + index_bits(
                    v,
                    wn,
                ).take(j as int + 1));
            }
            bits.push(bit);
            j = j + 1;
        }
        proof {
            assert(index_bits(v, wn).take(w as int) =~= index_bits(v, wn));
            assert(indices@.take(i as int + 1).drop_last() =~= indices@.take(i as int));
            assert(indices@.take(i as int + 1).last() == v);
            assert(bits@ =~= stream_bits(indices@.take(i as int + 1), wn));
        }
        i = i + 1;
    }
    proof {
        assert(indices@.take(indices@.len() as int) =~= indices@);
    }
    collect_bytes(bits)
}

/// Reads each group of eight bits as one byte, most significant bit first.
fn collect_bytes(bits: Vec<bool>) -> (r: Vec<u8>)
    ensures
        r@ == packed_bytes(bits@),
{
    let total = bits.len();
    let nb = total / 8;
    let mut out: Vec<u8> = Vec::new();
    let mut bi: usize = 0;
    while bi < nb
        invariant
            bi <= nb,
            total == bits@.len(),
            nb == bits@.len() / 8,
            out@.len() == bi,
            forall|m: int|
                0 <= m < bi ==> out@[m] == bits_val(
                    #[trigger] bits@.subrange(8 * m, 8 * m + 8),
                ) as u8,
        decreases nb - bi,
    {
        proof {
            lemma2_to64();
            assert(8 * (bi as int + 1) <= 8 * nb as int);
            assert(8 * nb as int <= bits@.len());
        }
        let mut acc: u8 = 0;
        let mut j: usize = 0;
        while j < 8
            invariant
                j <= 8,
                bi < nb,
                total == bits@.len(),
                nb == bits@.len() / 8,
                8 * (bi as int) + 8 <= bits@.len(),
                acc as nat == bits_val(bits@.subrange(8 * bi as int, 8 * bi as int + j as int)),
                (acc as nat) < pow2(j as nat),
            decreases 8 - j,
        {
            proof {
                assert(8 * (bi as int) + (j as int) < total as int);
            }
            let b = bits[8 * bi + j];
            proof {
                lemma2_to64();
                if (j as nat) < 7 {
                    lemma_pow2_strictly_increases(j as nat, 7);
                }
                let g0 = bits@.subrange(8 * bi as int, 8 * bi as int + j as int);
                let g1 = bits@.subrange(8 * bi as int, 8 * bi as int + j as int + 1);
                assert(g1.drop_last() =~= g0);
                assert(g1.last() == bits@[8 * bi as int + j as int]);
                lemma_pow2_unfold(j as nat + 1);
            }
            acc = 2 * acc + (if b {
                1
            } else {
                0
            });
            j = j + 1;
        }
        out.push(acc);
        bi = bi + 1;
    }
    proof {
        assert(out@ =~= packed_bytes(bits@));
    }
    out
}

/// The inverse of the packer for whole groups: reads as many `bit_width`-bit
/// indices as the byte stream holds, most significant bit first.
pub fn unpack_indices(bytes: &Vec<u8>, bit_width: u8) -> (r: Vec<u8>)
    requires
        1 <= bit_width <= 8,
    ensures
        r@ == unpack_spec(bytes@, bit_width as nat),
{
    let w = bit_width as usize;
    let ghost wn = bit_width as nat;
    let mut bits: Vec<bool> = Vec::new();
    let mut i: usize = 0;
    while i < bytes.len()
        invariant
            i <= bytes@.len(),
            w == wn,
            1 <= wn <= 8,
            bits@ == stream_bits(bytes@.take(i as int), 8),
        decreases bytes@.len() - i,
    {
        let v = bytes[i];
        let mut j: usize = 0;
        while j < 8
            invariant
                j <= 8,
                i < bytes@.len(),
                v == bytes@[i as int],
                bits@ == stream_bits(bytes@.take(i as int), 8) + index_bits(v, 8).take(j as int),
            decreases 8 - j,
        {
            let shift = (7 - j) as u8;
            let p = pow2_u8(shift);
            let bit = (v / p) % 2 == 1;
            proof {
                assert(bit == nth_bit(v, shift as nat));
                assert(index_bits(v, 8)[j as int] == nth_bit(v, shift as nat));
                assert(index_bits(v, 8).take(j as int + 1) =~= index_bits(v, 8).take(
                    j as int,
                ).push(bit));
                assert(bits@.push(bit) =~= stream_bits(bytes@.take(i as int), 8) + index_bits(
                    v,
                    8,
                ).take(j as int + 1));
            }
            bits.push(bit);
            j = j + 1;
        }
        proof {
            assert(index_bits(v, 8).take(8) =~= index_bits(v, 8));
            assert(bytes@.take(i as int + 1).drop_last() =~= bytes@.take(i as int));
            assert(bytes@.take(i as int + 1).last() == v);
            assert(bits@ =~= stream_bits(bytes@.take(i as int + 1), 8));
        }
        i = i + 1;
    }
    proof {
        assert(bytes@.take(bytes@.len() as int) =~= bytes@);
        lemma_stream_bits_len(bytes@, 8);
    }
    let total = bits.len();
    let count = total / w;
    let ghost all_bits = bits@;
    let mut out: Vec<u8> = Vec::new();
    let mut oi: usize = 0;
    proof {
        lemma_fundamental_div_mod(bits@.len() as int, w as int);
        lemma_mod_bound(bits@.len() as int, w as int);
    }
    while oi < count
        invariant
            oi <= count,
            1 <= w == wn <= 8,
            bits@ == all_bits,
            total == all_bits.len(),
            count == all_bits.len() as int / w as int,
            w as int * count <= all_bits.len(),
            out@.len() == oi,
            forall|m: int|
                0 <= m < oi ==> out@[m] == bits_val(
                    #[trigger] all_bits.subrange(wn * m, wn * m + wn),
                ) as u8,
        decreases count - oi,
    {
        proof {
            lemma2_to64();
            assert(w as int * (oi as int + 1) <= w as int * count as int) by (nonlinear_arith)
                requires
                    oi as int + 1 <= count as int,
                    w as int >= 1,
            ;
            assert(wn * (oi as int) + wn == w as int * (oi as int + 1)) by (nonlinear_arith)
                requires
                    w as int == wn,
            ;
            assert(wn * (oi as int) + wn <= all_bits.len());
        }
        let mut acc: u8 = 0;
        let mut j: usize = 0;
        while j < w
            invariant
                j <= w,
                oi < count,
                1 <= w == wn <= 8,
                bits@ == all_bits,
                total == all_bits.len(),
                wn * (oi as int) + wn <= all_bits.len(),
                acc as nat == bits_val(
                    all_bits.subrange(wn * (oi as int), wn * (oi as int) + j as int),
                ),
                (acc as nat) < pow2(j as nat),
            decreases w - j,
        {
            proof {
                assert(w as int * oi as int == wn * (oi as int)) by (nonlinear_arith)
                    requires
                        w as int == wn,
                ;
                assert(w as int * (oi as int) + (j as int) < wn * (oi as int) + wn);
            }
            let b = bits[w * oi + j];
            proof {
                lemma2_to64();
                if (j as nat) < 7 {
                    lemma_pow2_strictly_increases(j as nat, 7);
                }
                let g0 = all_bits.subrange(wn * (oi as int), wn * (oi as int) + j as int);
                let g1 = all_bits.subrange(wn * (oi as int), wn * (oi as int) + j as int + 1);
                assert(g1.drop_last() =~= g0);
                assert(g1.last() == all_bits[wn * (oi as int) + j as int]);
                lemma_pow2_unfold(j as nat + 1);
            }
            acc = 2 * acc + (if b {
                1
            } else {
                0
            });
            j = j + 1;
        }
        out.push(acc);
        oi = oi + 1;
    }
    proof {
        assert(out@ =~= unpack_spec(bytes@, wn));
    }
    out
}

} // verus!
