//! One 32-bit big-endian codeword per 2x2 block of quantized coefficients.

use crate::bitpack::{
    field, fits_signed, fits_unsigned, gets, getu, lemma_signed_round_trip, lemma_unsigned_round_trip, newu, news, splice,
    to_signed, to_unsigned,
};
use vstd::arithmetic::power2::{lemma2_to64, pow2};
use vstd::prelude::*;

verus! {

/// The quantized coefficients of one block, in order: the average luma `a`
/// (9 bits), the luma differences `b`, `c`, `d` (5 signed bits each), and the
/// chroma table indices of the averaged `pb` and `pr` (4 bits each).
pub type QBlock = (u64, i64, i64, i64, u64, u64);

/// Every coefficient of `q` lies in the domain of its field.
pub open spec fn block_in_range(q: QBlock) -> bool {
    &&& fits_unsigned(q.0 as int, 9)
    &&& fits_signed(q.1 as int, 5)
    &&& fits_signed(q.2 as int, 5)
    &&& fits_signed(q.3 as int, 5)
    &&& fits_unsigned(q.4 as int, 4)
    &&& fits_unsigned(q.5 as int, 4)
}

/// The codeword of `q`: `a` in bits 23..32, `b` in 18..23, `c` in 13..18,
/// `d` in 8..13, the `pb` index in 4..8 and the `pr` index in 0..4.
pub open spec fn block_word(q: QBlock) -> int {
    q.0 * 0x80_0000 + to_unsigned(q.1 as int, 5) * 0x4_0000 + to_unsigned(q.2 as int, 5) * 0x2000
        + to_unsigned(q.3 as int, 5) * 0x100 + q.4 * 0x10 + q.5
}

/// The four bytes of a 32-bit word, most significant first.
pub open spec fn word_bytes(w: int) -> Seq<u8> {
    seq![
        (w / 0x100_0000 % 0x100) as u8,
        (w / 0x1_0000 % 0x100) as u8,
        (w / 0x100 % 0x100) as u8,
        (w % 0x100) as u8,
    ]
}

/// The 32-bit word whose bytes, most significant first, are `b`.
pub open spec fn bytes_word(b: Seq<u8>) -> int {
    b[0] * 0x100_0000 + b[1] * 0x1_0000 + b[2] * 0x100 + b[3]
}

/// The coefficients that the fields of codeword `w` hold.
pub open spec fn word_block(w: int) -> QBlock {
    (
        field(w as nat, 9, 23) as u64,
        to_signed(field(w as nat, 5, 18) as int, 5) as i64,
        to_signed(field(w as nat, 5, 13) as int, 5) as i64,
        to_signed(field(w as nat, 5, 8) as int, 5) as i64,
        field(w as nat, 4, 4) as u64,
        field(w as nat, 4, 0) as u64,
    )
}

proof fn lemma_layout(a: u64, b: u64, c: u64, d: u64, e: u64, f: u64)
    requires
        a < 512,
        b < 32,
        c < 32,
        d < 32,
        e < 16,
        f < 16,
    ensures
        ({
            let w = a * 0x80_0000 + b * 0x4_0000 + c * 0x2000 + d * 0x100 + e * 0x10 + f;
            &&& w < 0x1_0000_0000
            &&& w / 0x80_0000 % 512 == a
            &&& w / 0x4_0000 % 32 == b
            &&& w / 0x2000 % 32 == c
            &&& w / 0x100 % 32 == d
            &&& w / 0x10 % 16 == e
            &&& w % 16 == f
        }),
{
    let w: u64 = (a * 0x80_0000 + b * 0x4_0000 + c * 0x2000 + d * 0x100 + e * 0x10 + f) as u64;
    assert(w < 0x1_0000_0000 && w / 0x80_0000 % 512 == a && w / 0x4_0000 % 32 == b && w / 0x2000
        % 32 == c && w / 0x100 % 32 == d && w / 0x10 % 16 == e && w % 16 == f) by (bit_vector)
        requires
            w == a * 0x80_0000 + b * 0x4_0000 + c * 0x2000 + d * 0x100 + e * 0x10 + f,
            a < 512,
            b < 32,
            c < 32,
            d < 32,
            e < 16,
            f < 16,
    ;
}

proof fn lemma_bytes_round_trip(w: u64)
    requires
        w < 0x1_0000_0000,
    ensures
        bytes_word(word_bytes(w as int)) == w,
{
    assert(w / 0x100_0000 % 0x100 * 0x100_0000 + w / 0x1_0000 % 0x100 * 0x1_0000 + w / 0x100 % 0x100
        * 0x100 + w % 0x100 == w) by (bit_vector)
        requires
            w < 0x1_0000_0000,
    ;
}

/// Unpacking the bytes of a packed block gives back the block, for every block
/// whose coefficients lie in their fields' domains.
pub proof fn lemma_pack_then_unpack(q: QBlock)
    requires
        block_in_range(q),
    ensures
        word_block(bytes_word(word_bytes(block_word(q)))) == q,
{
    lemma2_to64();
    lemma_signed_round_trip(q.1 as int, 5);
    lemma_signed_round_trip(q.2 as int, 5);
    lemma_signed_round_trip(q.3 as int, 5);
    let b = to_unsigned(q.1 as int, 5) as u64;
    let c = to_unsigned(q.2 as int, 5) as u64;
    let d = to_unsigned(q.3 as int, 5) as u64;
    lemma_layout(q.0, b, c, d, q.4, q.5);
    lemma_bytes_round_trip(block_word(q) as u64);
}

/// Packing the block that four bytes unpack to gives back the four bytes:
/// the fields cover all 32 bits of a codeword.
pub proof fn lemma_unpack_then_pack(bytes: Seq<u8>)
    requires
        bytes.len() == 4,
    ensures
        block_in_range(word_block(bytes_word(bytes))),
        word_bytes(block_word(word_block(bytes_word(bytes)))) == bytes,
{
    lemma2_to64();
    let (b0, b1, b2, b3) = (bytes[0], bytes[1], bytes[2], bytes[3]);
    let w: u64 = (b0 * 0x100_0000 + b1 * 0x1_0000 + b2 * 0x100 + b3) as u64;
    assert(w < 0x1_0000_0000 && w == w / 0x80_0000 % 512 * 0x80_0000 + w / 0x4_0000 % 32 * 0x4_0000 + w
        / 0x2000 % 32 * 0x2000 + w / 0x100 % 32 * 0x100 + w / 0x10 % 16 * 0x10 + w % 16 && w
        / 0x100_0000 % 0x100 == b0 && w / 0x1_0000 % 0x100 == b1 && w / 0x100 % 0x100 == b2 && w
        % 0x100 == b3) by (bit_vector)
        requires
            w == b0 * 0x100_0000 + b1 * 0x1_0000 + b2 * 0x100 + b3,
            b0 < 0x100,
            b1 < 0x100,
            b2 < 0x100,
            b3 < 0x100,
    ;
    lemma_unsigned_round_trip((w / 0x4_0000 % 32) as int, 5);
    lemma_unsigned_round_trip((w / 0x2000 % 32) as int, 5);
    lemma_unsigned_round_trip((w / 0x100 % 32) as int, 5);
    assert(word_bytes(block_word(word_block(bytes_word(bytes)))) =~= bytes);
}

/// Packs one block into its four codeword bytes.
fn pack_block(q: QBlock) -> (r: [u8; 4])
    requires
        block_in_range(q),
    ensures
        r@ == word_bytes(block_word(q)),
{
    proof {
        lemma2_to64();
        lemma_signed_round_trip(q.1 as int, 5);
        lemma_signed_round_trip(q.2 as int, 5);
        lemma_signed_round_trip(q.3 as int, 5);
    }
    let w0 = newu(0, 9, 23, q.0).unwrap();
    let w1 = news(w0, 5, 18, q.1).unwrap();
    let w2 = news(w1, 5, 13, q.2).unwrap();
    let w3 = news(w2, 5, 8, q.3).unwrap();
    let w4 = newu(w3, 4, 4, q.4).unwrap();
    let w = newu(w4, 4, 0, q.5).unwrap();
    proof {
        let a = q.0;
        let b = to_unsigned(q.1 as int, 5) as u64;
        let c = to_unsigned(q.2 as int, 5) as u64;
        let d = to_unsigned(q.3 as int, 5) as u64;
        let e = q.4;
        let f = q.5;
        lemma_layout(a, b, c, d, e, f);
        assert(w == a * 0x80_0000 + b * 0x4_0000 + c * 0x2000 + d * 0x100 + e * 0x10 + f)
            by (bit_vector)
            requires
                w0 == (0u64 & !(!(0xffff_ffff_ffff_ffffu64 << 9u64) << 23u64)) | (a << 23u64),
                w1 == (w0 & !(!(0xffff_ffff_ffff_ffffu64 << 5u64) << 18u64)) | (b << 18u64),
                w2 == (w1 & !(!(0xffff_ffff_ffff_ffffu64 << 5u64) << 13u64)) | (c << 13u64),
                w3 == (w2 & !(!(0xffff_ffff_ffff_ffffu64 << 5u64) << 8u64)) | (d << 8u64),
                w4 == (w3 & !(!(0xffff_ffff_ffff_ffffu64 << 4u64) << 4u64)) | (e << 4u64),
                w == (w4 & !(!(0xffff_ffff_ffff_ffffu64 << 4u64) << 0u64)) | (f << 0u64),
                a < 512,
                b < 32,
                c < 32,
                d < 32,
                e < 16,
                f < 16,
        ;
    }
    let r = [
        (w / 0x100_0000 % 0x100) as u8,
        (w / 0x1_0000 % 0x100) as u8,
        (w / 0x100 % 0x100) as u8,
        (w % 0x100) as u8,
    ];
    assert(r@ =~= word_bytes(block_word(q)));
    r
}

/// Unpacks the block that four codeword bytes hold.
fn unpack_block(bytes: [u8; 4]) -> (r: QBlock)
    ensures
        r == word_block(bytes_word(bytes@)),
{
    let w: u64 = (bytes[0] as u64) * 0x100_0000 + (bytes[1] as u64) * 0x1_0000 + (bytes[2] as u64)
        * 0x100 + bytes[3] as u64;
    (getu(w, 9, 23), gets(w, 5, 18), gets(w, 5, 13), gets(w, 5, 8), getu(w, 4, 4), getu(w, 4, 0))
}

/// The codewords of the first `comp_w * comp_h` blocks, in row-major block
/// order, each as four bytes, most significant first.
pub fn pack_words(q_blocks: Vec<QBlock>, comp_w: u32, comp_h: u32) -> (r: Vec<[u8; 4]>)
    requires
        comp_w * comp_h <= q_blocks@.len(),
        forall|k: int| 0 <= k < comp_w * comp_h ==> block_in_range(#[trigger] q_blocks@[k]),
    ensures
        r@.len() == comp_w * comp_h,
        forall|k: int|
            0 <= k < comp_w * comp_h ==> #[trigger] r@[k]@ == word_bytes(block_word(q_blocks@[k])),
{
    let len: usize = q_blocks.len();
    assert((comp_w as usize) * (comp_h as usize) <= len);
    let n: usize = (comp_w as usize) * (comp_h as usize);
    let mut codewords: Vec<[u8; 4]> = Vec::new();
    let mut k: usize = 0;
    while k < n
        invariant
            n == comp_w * comp_h,
            n <= q_blocks@.len(),
            k <= n,
            codewords@.len() == k,
            forall|j: int| 0 <= j < n ==> block_in_range(#[trigger] q_blocks@[j]),
            forall|j: int|
                0 <= j < k ==> #[trigger] codewords@[j]@ == word_bytes(block_word(q_blocks@[j])),
        decreases n - k,
    {
        let word = pack_block(q_blocks[k]);
        codewords.push(word);
        k = k + 1;
    }
    codewords
}

/// The quantized blocks that the first `comp_w * comp_h` codewords hold, in
/// the same order.
pub fn unpack_words(codewords: &Vec<[u8; 4]>, comp_w: u32, comp_h: u32) -> (r: Vec<QBlock>)
    requires
        comp_w * comp_h <= codewords@.len(),
    ensures
        r@.len() == comp_w * comp_h,
        forall|k: int|
            0 <= k < comp_w * comp_h ==> #[trigger] r@[k] == word_block(bytes_word(codewords@[k]@)),
{
    let len: usize = codewords.len();
    assert((comp_w as usize) * (comp_h as usize) <= len);
    let n: usize = (comp_w as usize) * (comp_h as usize);
    let mut q_blocks: Vec<QBlock> = Vec::new();
    let mut k: usize = 0;
    while k < n
        invariant
            n == comp_w * comp_h,
            n <= codewords@.len(),
            k <= n,
            q_blocks@.len() == k,
            forall|j: int|
                0 <= j < k ==> #[trigger] q_blocks@[j] == word_block(bytes_word(codewords@[j]@)),
        decreases n - k,
    {
        let q = unpack_block(codewords[k]);
        q_blocks.push(q);
        k = k + 1;
    }
    q_blocks
}

/// The block grid `(width / 2, height / 2)` of a compressed image that
/// declares `width` x `height` pixels and holds `count` codewords; `None` when
/// the count is not one codeword per 2x2 block, or the image is too large to
/// rebuild.
pub fn container_grid(width: usize, height: usize, count: usize) -> (r: Option<(u32, u32)>)
    ensures
        r == (if width <= u32::MAX && height <= u32::MAX && (width / 2) * (height / 2) == count
            && 4 * count <= usize::MAX {
            Some(((width / 2) as u32, (height / 2) as u32))
        } else {
            None::<(u32, u32)>
        }),
{
    if width > 0xffff_ffff || height > 0xffff_ffff || count > usize::MAX / 4 {
        return None;
    }
    let comp_w: u64 = (width / 2) as u64;
    let comp_h: u64 = (height / 2) as u64;
    assert(comp_w * comp_h <= 0xffff_ffff * 0xffff_ffff) by (nonlinear_arith)
        requires
            comp_w <= 0xffff_ffff,
            comp_h <= 0xffff_ffff,
    ;
    if comp_w * comp_h == count as u64 {
        Some((comp_w as u32, comp_h as u32))
    } else {
        None
    }
}

} // verus!
