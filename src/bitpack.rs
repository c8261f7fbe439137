//! Reading and writing fixed-width signed and unsigned fields of a 64-bit word.

use vstd::arithmetic::power2::{lemma2_to64, lemma2_to64_rest, lemma_pow2_pos, lemma_pow2_strictly_increases, lemma_pow2_unfold, pow2};
use vstd::arithmetic::div_mod::lemma_small_mod;
use vstd::bits::{low_bits_mask, lemma_u64_low_bits_mask_is_mod, lemma_u64_pow2_no_overflow, lemma_u64_shl_is_mul, lemma_u64_shr_is_div};
use vstd::prelude::*;

verus! {

/// `n` lies in `[0, 2^width - 1]`.
pub open spec fn fits_unsigned(n: int, width: nat) -> bool {
    0 <= n <= pow2(width) - 1
}

/// `n` lies in `[-2^(width-1), 2^(width-1) - 1]`.
pub open spec fn fits_signed(n: int, width: nat) -> bool {
    &&& width >= 1
    &&& -pow2((width - 1) as nat) <= n <= pow2((width - 1) as nat) - 1
}

/// The `width` bits of `word` that start at bit `lsb`, read as an unsigned number.
pub open spec fn field(word: nat, width: nat, lsb: nat) -> nat {
    (word / pow2(lsb)) % pow2(width)
}

/// Bit `i` of `word` (0 or 1).
pub open spec fn bit(word: nat, i: nat) -> nat {
    field(word, 1, i)
}

/// The two's-complement reading of a `width`-bit pattern.
pub open spec fn to_signed(value: int, width: nat) -> int {
    if value < pow2((width - 1) as nat) {
        value
    } else {
        value - pow2(width)
    }
}

/// The `width`-bit two's-complement pattern of a signed number.
pub open spec fn to_unsigned(value: int, width: nat) -> int {
    if value >= 0 {
        value
    } else {
        value + pow2(width)
    }
}

/// The low `width` bits set, for `width < 64`.
pub open spec fn low_mask(width: u64) -> u64 {
    !(0xffff_ffff_ffff_ffffu64 << width)
}

/// `word` with bits `[lsb, lsb + width)` replaced by `value`.
pub open spec fn splice(word: u64, width: u64, lsb: u64, value: u64) -> u64 {
    if width == 0 {
        word
    } else if width >= 64 {
        value
    } else {
        (word & !(low_mask(width) << lsb)) | (value << lsb)
    }
}

proof fn lemma_mask(width: u64)
    requires
        width < 64,
    ensures
        (1u64 << width) as nat == pow2(width as nat),
        pow2(width as nat) <= 0x8000_0000_0000_0000,
        low_mask(width) as nat == pow2(width as nat) - 1,
        low_mask(width) == low_bits_mask(width as nat) as u64,
{
    lemma_u64_pow2_no_overflow(width as nat);
    lemma_u64_shl_is_mul(1, width);
    lemma2_to64();
    lemma2_to64_rest();
    if width < 63 {
        lemma_pow2_strictly_increases(width as nat, 63);
    }
    assert(!(0xffff_ffff_ffff_ffffu64 << width) == ((1u64 << width) - 1u64) as u64) by (bit_vector)
        requires
            width < 64,
    ;
}

/// Shifting and masking reads a field.
proof fn lemma_field_bits(x: u64, width: u64, lsb: u64)
    requires
        0 < width < 64,
        lsb < 64,
    ensures
        (x >> lsb) & low_mask(width) == field(x as nat, width as nat, lsb as nat),
{
    lemma_u64_shr_is_div(x, lsb);
    lemma_mask(width);
    lemma_u64_low_bits_mask_is_mod(x >> lsb, width as nat);
}

/// Reading a field just written gives back the value written, and every bit
/// outside the field keeps its old value.
pub proof fn lemma_set_then_get(word: u64, width: u64, lsb: u64, value: u64)
    requires
        width + lsb <= 64,
        fits_unsigned(value as int, width as nat),
    ensures
        field(splice(word, width, lsb, value) as nat, width as nat, lsb as nat) == value,
        forall|i: nat|
            i < 64 && !(lsb <= i < lsb + width) ==> #[trigger] bit(
                splice(word, width, lsb, value) as nat,
                i,
            ) == bit(word as nat, i),
{
    lemma2_to64();
    lemma2_to64_rest();
    if width == 0 {
    } else if width == 64 {
        assert(field(value as nat, 64, 0) == value);
    } else {
        let s = splice(word, width, lsb, value);
        let m = low_mask(width);
        lemma_mask(width);
        assert((s >> lsb) & m == value) by (bit_vector)
            requires
                s == (word & !(m << lsb)) | (value << lsb),
                m == !(0xffff_ffff_ffff_ffffu64 << width),
                value <= m,
                width < 64,
                lsb + width <= 64,
        ;
        lemma_field_bits(s, width, lsb);
        assert forall|i: nat| i < 64 && !(lsb <= i < lsb + width) implies #[trigger] bit(
            s as nat,
            i,
        ) == bit(word as nat, i) by {
            let j = i as u64;
            let one = low_mask(1);
            assert((s >> j) & one == (word >> j) & one) by (bit_vector)
                requires
                    s == (word & !(m << lsb)) | (value << lsb),
                    m == !(0xffff_ffff_ffff_ffffu64 << width),
                    one == !(0xffff_ffff_ffff_ffffu64 << 1u64),
                    value <= m,
                    width < 64,
                    lsb + width <= 64,
                    j < 64,
                    j < lsb || j >= lsb + width,
            ;
            lemma_field_bits(s, 1, j);
            lemma_field_bits(word, 1, j);
        }
    }
}

/// Two's-complement encoding then decoding gives back the signed value.
pub proof fn lemma_signed_round_trip(v: int, width: nat)
    requires
        fits_signed(v, width),
    ensures
        fits_unsigned(to_unsigned(v, width), width),
        to_signed(to_unsigned(v, width), width) == v,
{
    lemma_pow2_unfold(width);
    lemma_pow2_pos((width - 1) as nat);
}

/// Two's-complement decoding then encoding gives back the bit pattern.
pub proof fn lemma_unsigned_round_trip(u: int, width: nat)
    requires
        width >= 1,
        fits_unsigned(u, width),
    ensures
        fits_signed(to_signed(u, width), width),
        to_unsigned(to_signed(u, width), width) == u,
{
    lemma_pow2_unfold(width);
    lemma_pow2_pos((width - 1) as nat);
}

/// True iff `n` fits into `width` unsigned bits.
pub fn fitsu(n: u64, width: u64) -> (r: bool)
    requires
        width <= 64,
    ensures
        r == fits_unsigned(n as int, width as nat),
{
    if width >= 64 {
        proof {
            lemma2_to64();
            lemma2_to64_rest();
        }
        true
    } else {
        proof {
            lemma_mask(width);
        }
        n <= (1u64 << width) - 1
    }
}

/// True iff `n` fits into `width` signed (two's-complement) bits.
pub fn fitss(n: i64, width: u64) -> (r: bool)
    requires
        1 <= width <= 64,
    ensures
        r == fits_signed(n as int, width as nat),
{
    proof {
        lemma2_to64();
        lemma2_to64_rest();
    }
    if width >= 64 {
        true
    } else {
        proof {
            lemma_mask((width - 1) as u64);
            lemma_pow2_strictly_increases((width - 1) as nat, 63);
        }
        let half: i64 = (1u64 << (width - 1)) as i64;
        -half <= n && n <= half - 1
    }
}

/// Reads the `width` bits of `word` that start at `lsb` as an unsigned number;
/// a field of width 0 reads as 0.
pub fn getu(word: u64, width: u64, lsb: u64) -> (r: u64)
    requires
        width + lsb <= 64,
    ensures
        r == field(word as nat, width as nat, lsb as nat),
{
    proof {
        lemma2_to64();
        lemma2_to64_rest();
    }
    if width == 0 {
        proof {
            let q = word as nat / pow2(lsb as nat);
            assert(q % 1 == 0) by (nonlinear_arith);
            assert(pow2(0) == 1);
        }
        0
    } else if width >= 64 {
        proof {
            let x = word as nat;
            assert(x / 1 == x) by (nonlinear_arith);
            lemma_small_mod(x, pow2(64));
        }
        word
    } else {
        proof {
            lemma_field_bits(word, width, lsb);
        }
        (word >> lsb) & !(0xffff_ffff_ffff_ffffu64 << width)
    }
}

/// Reads the `width` bits of `word` that start at `lsb` as a two's-complement
/// number; a field of width 0 reads as 0.
pub fn gets(word: u64, width: u64, lsb: u64) -> (r: i64)
    requires
        width + lsb <= 64,
    ensures
        width == 0 ==> r == 0,
        width > 0 ==> r == to_signed(field(word as nat, width as nat, lsb as nat) as int, width as nat),
{
    if width == 0 {
        0
    } else {
        let value = getu(word, width, lsb);
        proof {
            lemma_pow2_pos(width as nat);
        }
        u_to_i(value, width)
    }
}

/// `word` with its `width` bits at `lsb` replaced by `value`; `None` when
/// `value` does not fit into `width` unsigned bits.
pub fn newu(word: u64, width: u64, lsb: u64, value: u64) -> (r: Option<u64>)
    requires
        width + lsb <= 64,
    ensures
        r == (if fits_unsigned(value as int, width as nat) {
            Some(splice(word, width, lsb, value))
        } else {
            None::<u64>
        }),
        r matches Some(w) ==> {
            &&& field(w as nat, width as nat, lsb as nat) == value
            &&& forall|i: nat|
                i < 64 && !(lsb <= i < lsb + width) ==> #[trigger] bit(w as nat, i) == bit(
                    word as nat,
                    i,
                )
        },
{
    if fitsu(value, width) {
        proof {
            lemma_set_then_get(word, width, lsb, value);
        }
        if width == 0 {
            Some(word)
        } else if width >= 64 {
            Some(value)
        } else {
            let mask: u64 = !(0xffff_ffff_ffff_ffffu64 << width);
            Some((word & !(mask << lsb)) | (value << lsb))
        }
    } else {
        None
    }
}

/// `word` with its `width` bits at `lsb` replaced by the two's-complement
/// pattern of `value`; `None` when `value` does not fit into `width` signed bits.
pub fn news(word: u64, width: u64, lsb: u64, value: i64) -> (r: Option<u64>)
    requires
        1 <= width,
        width + lsb <= 64,
    ensures
        r == (if fits_signed(value as int, width as nat) {
            Some(splice(word, width, lsb, to_unsigned(value as int, width as nat) as u64))
        } else {
            None::<u64>
        }),
        r matches Some(w) ==> {
            &&& to_signed(field(w as nat, width as nat, lsb as nat) as int, width as nat) == value
            &&& forall|i: nat|
                i < 64 && !(lsb <= i < lsb + width) ==> #[trigger] bit(w as nat, i) == bit(
                    word as nat,
                    i,
                )
        },
{
    if fitss(value, width) {
        let u = i_to_u(value, width);
        proof {
            lemma_signed_round_trip(value as int, width as nat);
        }
        newu(word, width, lsb, u)
    } else {
        None
    }
}

/// The `width`-bit two's-complement pattern of `value`.
pub fn i_to_u(value: i64, width: u64) -> (r: u64)
    requires
        1 <= width <= 64,
        fits_signed(value as int, width as nat),
    ensures
        r == to_unsigned(value as int, width as nat),
{
    proof {
        lemma2_to64();
        lemma2_to64_rest();
        lemma_pow2_unfold(width as nat);
    }
    if value >= 0 {
        value as u64
    } else {
        let low: u64 = if width >= 64 {
            0xffff_ffff_ffff_ffffu64
        } else {
            proof {
                lemma_mask(width);
            }
            (1u64 << width) - 1
        };
        let magnitude: u64 = (-(value + 1)) as u64;
        low - magnitude
    }
}

/// The two's-complement reading of the `width`-bit pattern `value`.
pub fn u_to_i(value: u64, width: u64) -> (r: i64)
    requires
        1 <= width <= 64,
        fits_unsigned(value as int, width as nat),
    ensures
        r == to_signed(value as int, width as nat),
{
    proof {
        lemma2_to64();
        lemma2_to64_rest();
        lemma_pow2_unfold(width as nat);
        lemma_mask((width - 1) as u64);
    }
    let half: u64 = 1u64 << (width - 1);
    if value < half {
        value as i64
    } else {
        let low: u64 = if width >= 64 {
            0xffff_ffff_ffff_ffffu64
        } else {
            proof {
                lemma_mask(width);
            }
            (1u64 << width) - 1
        };
        let gap: u64 = low - value;
        -(gap as i64) - 1
    }
}

} // verus!
