//! Structural scanner: finds the `,` and `\n` bytes of a CSV buffer that lie
//! outside quoted regions.

use vstd::prelude::*;
use vstd::std_specs::bits::{axiom_u64_trailing_zeros, u64_trailing_zeros};

use crate::laws::{
    lemma_no_quotes_all_separators, lemma_offsets_sound, lemma_reported_iff_even_quotes,
    separator_positions,
};
use crate::portability::{hamming, trailing_zeros};

verus! {

/// The quote byte `"`.
pub const QUOTE: u8 = 34;

/// The field separator `,`.
pub const COMMA: u8 = 44;

/// The record separator `\n`.
pub const NEWLINE: u8 = 10;

/// A byte that ends a field or a record.
pub open spec fn is_separator(b: u8) -> bool {
    b == COMMA || b == NEWLINE
}

/// Number of `"` bytes in `s`.
pub open spec fn quote_count(s: Seq<u8>) -> nat
    decreases s.len(),
{
    if s.len() == 0 {
        0
    } else {
        quote_count(s.drop_last()) + if s.last() == QUOTE {
            1nat
        } else {
            0nat
        }
    }
}

/// Whether the position just after `s` lies inside a quoted region, when the
/// region state before `s` was `q0`: every `"` toggles the state.
pub open spec fn inside_quote(s: Seq<u8>, q0: bool) -> bool {
    q0 != (quote_count(s) % 2 == 1)
}

/// Offsets, shifted by `base`, of the separators of `s` that lie outside quoted
/// regions, in increasing order, when `s` starts in region state `q0`.
pub open spec fn offsets_from(s: Seq<u8>, q0: bool, base: int) -> Seq<u32>
    decreases s.len(),
{
    if s.len() == 0 {
        Seq::empty()
    } else {
        let p = s.drop_last();
        offsets_from(p, q0, base) + if is_separator(s.last()) && !inside_quote(p, q0) {
            seq![(base + p.len()) as u32]
        } else {
            Seq::empty()
        }
    }
}

/// The structural offsets of a whole document, which starts outside any quote.
pub open spec fn structural_offsets(s: Seq<u8>) -> Seq<u32> {
    offsets_from(s, false, 0)
}

/// Bit `j` of `m` is set (bit 0 is the lowest).
pub open spec fn bit(m: u64, j: int) -> bool {
    (m >> (j as u64)) & 1u64 == 1u64
}

/// `base + j` for each set bit `j < k` of `m`, in increasing order.
pub open spec fn mask_offsets(m: u64, base: int, k: int) -> Seq<u32>
    decreases k,
{
    if k <= 0 {
        Seq::empty()
    } else {
        mask_offsets(m, base, k - 1) + if bit(m, k - 1) {
            seq![(base + k - 1) as u32]
        } else {
            Seq::empty()
        }
    }
}

proof fn lemma_clear_lowest_bit(bits: u64, t: u64, j: u64)
    requires
        t < 64,
        j < 64,
        bits << ((64 - t) as u64) == 0,
        (bits >> t) & 1u64 == 1u64,
    ensures
        ((bits & ((bits - 1) as u64)) >> j) & 1u64 == if j == t {
            0u64
        } else {
            (bits >> j) & 1u64
        },
        bits & ((bits - 1) as u64) < bits,
{
    assert(((bits & ((bits - 1) as u64)) >> j) & 1u64 == if j == t {
        0u64
    } else {
        (bits >> j) & 1u64
    }) by (bit_vector)
        requires
            t < 64,
            j < 64,
            bits << ((64 - t) as u64) == 0,
            (bits >> t) & 1u64 == 1u64,
    ;
    assert(bits & ((bits - 1) as u64) < bits) by (bit_vector)
        requires
            (bits >> t) & 1u64 == 1u64,
    ;
}

/// Removing the lowest set bit `t` of `bits` removes exactly `base + t` from the
/// front of its offsets.
proof fn lemma_mask_offsets_lowest(bits: u64, base: int, k: int)
    requires
        bits != 0,
        0 <= k <= 64,
    ensures
        k <= u64_trailing_zeros(bits) ==> mask_offsets(bits, base, k) == Seq::<u32>::empty()
            && mask_offsets(bits & ((bits - 1) as u64), base, k) == Seq::<u32>::empty(),
        k > u64_trailing_zeros(bits) ==> mask_offsets(bits, base, k) == seq![
            (base + u64_trailing_zeros(bits)) as u32,
        ] + mask_offsets(bits & ((bits - 1) as u64), base, k),
    decreases k,
{
    let t = u64_trailing_zeros(bits) as u64;
    let next = bits & ((bits - 1) as u64);
    axiom_u64_trailing_zeros(bits);
    if k > 0 {
        lemma_mask_offsets_lowest(bits, base, k - 1);
        let j = (k - 1) as u64;
        assert((64 - t) as u64 == vstd::prelude::sub(64u64, t));
        lemma_clear_lowest_bit(bits, t, j);
        if k - 1 < t {
            assert((bits >> j) & 1u64 == 0u64);
        } else if k - 1 > t {
            assert(seq![(base + t) as u32] + mask_offsets(next, base, k - 1) + (if bit(next, k - 1) {
                seq![(base + k - 1) as u32]
            } else {
                Seq::<u32>::empty()
            }) == seq![(base + t) as u32] + (mask_offsets(next, base, k - 1) + if bit(next, k - 1) {
                seq![(base + k - 1) as u32]
            } else {
                Seq::<u32>::empty()
            }));
        } else {
            assert(mask_offsets(next, base, k) == mask_offsets(next, base, k - 1));
        }
    }
}

proof fn lemma_mask_offsets_zero(base: int, k: int)
    requires
        0 <= k <= 64,
    ensures
        mask_offsets(0u64, base, k) == Seq::<u32>::empty(),
    decreases k,
{
    if k > 0 {
        lemma_mask_offsets_zero(base, k - 1);
        let j = (k - 1) as u64;
        assert((0u64 >> j) & 1u64 == 0u64) by (bit_vector);
    }
}

/// Append `idx + j` for each set bit `j` of `bits`, in increasing order.
fn flatten_bits(base_ptr: &mut Vec<u32>, idx: u32, bits: u64)
    requires
        forall|j: int| 0 <= j < 64 && #[trigger] bit(bits, j) ==> idx + j < 0x1_0000_0000,
    ensures
        final(base_ptr)@ == old(base_ptr)@ + mask_offsets(bits, idx as int, 64),
{
    if bits == 0 {
        proof {
            lemma_mask_offsets_zero(idx as int, 64);
        }
        assert(base_ptr@ == old(base_ptr)@ + Seq::<u32>::empty());
        return;
    }
    let cnt = hamming(bits);
    base_ptr.reserve(cnt as usize);
    let ghost start = base_ptr@;
    let ghost whole = bits;
    let mut bits = bits;
    while bits != 0
        invariant
            forall|j: int| 0 <= j < 64 && #[trigger] bit(whole, j) ==> idx + j < 0x1_0000_0000,
            forall|j: int| 0 <= j < 64 && #[trigger] bit(bits, j) ==> bit(whole, j),
            start + mask_offsets(whole, idx as int, 64) == base_ptr@ + mask_offsets(
                bits,
                idx as int,
                64,
            ),
        decreases bits,
    {
        let t = trailing_zeros(bits);
        proof {
            axiom_u64_trailing_zeros(bits);
            lemma_mask_offsets_lowest(bits, idx as int, 64);
            assert((64 - t as u64) as u64 == vstd::prelude::sub(64u64, t as u64));
            lemma_clear_lowest_bit(bits, t as u64, 0);
            assert(bit(bits, t as int));
            assert(bit(whole, t as int));
        }
        let ghost old_bits = bits;
        let ghost before = base_ptr@;
        base_ptr.push(idx + t);
        let ghost rest = mask_offsets(bits & ((bits - 1) as u64), idx as int, 64);
        assert(before + (seq![(idx + t) as u32] + rest) == base_ptr@ + rest);
        bits = bits & (bits - 1);
        assert forall|j: int| 0 <= j < 64 && #[trigger] bit(bits, j) implies bit(whole, j) by {
            lemma_clear_lowest_bit(old_bits, t as u64, j as u64);
            assert(bit(old_bits, j));
        }
    }
    proof {
        lemma_mask_offsets_zero(idx as int, 64);
    }
    assert(base_ptr@ + Seq::<u32>::empty() == base_ptr@);
}

/// Bit `j` of the low 64 bits of the carry-less product of `a` and `b`, over the
/// terms `i < k` only: the exclusive or of `bit(b, i) && bit(a, j - i)`.
pub open spec fn clmul_bit(a: u64, b: u64, j: int, k: int) -> bool
    decreases k,
{
    if k <= 0 {
        false
    } else {
        clmul_bit(a, b, j, k - 1) != (k - 1 <= j && bit(b, k - 1) && bit(a, j - (k - 1)))
    }
}

/// Parity of the set bits of `q` at positions `0..=j`.
pub open spec fn prefix_parity(q: u64, j: int) -> bool
    decreases j + 1,
{
    if j < 0 {
        false
    } else {
        prefix_parity(q, j - 1) != bit(q, j)
    }
}

/// The carried region state as a word: all ones inside a quote, else zero.
pub open spec fn carry_word(inside: bool) -> u64 {
    if inside {
        0xffff_ffff_ffff_ffffu64
    } else {
        0u64
    }
}

proof fn lemma_xor_shifted(r: u64, a: u64, i: u64, j: u64)
    requires
        i < 64,
        j < 64,
    ensures
        (((r ^ (a << i)) >> j) & 1u64 == 1u64) == (((r >> j) & 1u64 == 1u64) != (i <= j && (a
            >> ((j - i) as u64)) & 1u64 == 1u64)),
{
    assert((((r ^ (a << i)) >> j) & 1u64 == 1u64) == (((r >> j) & 1u64 == 1u64) != (i <= j && (a
        >> ((j - i) as u64)) & 1u64 == 1u64))) by (bit_vector)
        requires
            i < 64,
            j < 64,
    ;
}

proof fn lemma_zero_bits()
    ensures
        forall|j: int| 0 <= j < 64 ==> !#[trigger] bit(0u64, j),
{
    assert forall|j: int| 0 <= j < 64 implies !#[trigger] bit(0u64, j) by {
        let jj = j as u64;
        assert((0u64 >> jj) & 1u64 == 0u64) by (bit_vector);
    }
}

/// Bit `j` of the 16-bit word `m`.
pub open spec fn bit16(m: u16, j: int) -> bool {
    (m >> (j as u16)) & 1u16 == 1u16
}

proof fn lemma_set_bit16(r: u16, j: u16, k: u16)
    requires
        j < 16,
        k < 16,
    ensures
        (((r | (1u16 << j)) >> k) & 1u16 == 1u16) == (k == j || (r >> k) & 1u16 == 1u16),
{
    assert((((r | (1u16 << j)) >> k) & 1u16 == 1u16) == (k == j || (r >> k) & 1u16 == 1u16))
        by (bit_vector)
        requires
            j < 16,
            k < 16,
    ;
}

proof fn lemma_pack_bit(m0: u16, m1: u16, m2: u16, m3: u16, j: u64)
    requires
        j < 64,
    ensures
        ((((m0 as u64) | ((m1 as u64) << 16u64) | ((m2 as u64) << 32u64) | ((m3 as u64) << 48u64))
            >> j) & 1u64 == 1u64) == if j < 16 {
            (m0 >> (j as u16)) & 1u16 == 1u16
        } else if j < 32 {
            (m1 >> ((j - 16) as u16)) & 1u16 == 1u16
        } else if j < 48 {
            (m2 >> ((j - 32) as u16)) & 1u16 == 1u16
        } else {
            (m3 >> ((j - 48) as u16)) & 1u16 == 1u16
        },
{
    assert(((((m0 as u64) | ((m1 as u64) << 16u64) | ((m2 as u64) << 32u64) | ((m3 as u64)
        << 48u64)) >> j) & 1u64 == 1u64) == if j < 16 {
        (m0 >> (j as u16)) & 1u16 == 1u16
    } else if j < 32 {
        (m1 >> ((j - 16) as u16)) & 1u16 == 1u16
    } else if j < 48 {
        (m2 >> ((j - 32) as u16)) & 1u16 == 1u16
    } else {
        (m3 >> ((j - 48) as u16)) & 1u16 == 1u16
    }) by (bit_vector)
        requires
            j < 64,
    ;
}

/// Mask of the positions `j < 16` where `buf[p + j] == mask`.
fn movemask(buf: &[u8], p: usize, mask: u8) -> (r: u16)
    requires
        p + 16 <= buf@.len(),
    ensures
        forall|j: int| 0 <= j < 16 ==> #[trigger] bit16(r, j) == (buf@[p + j] == mask),
{
    let n = buf.len();
    let mut r: u16 = 0;
    let mut j: u16 = 0;
    assert forall|k: int| 0 <= k < 16 implies !#[trigger] bit16(0u16, k) by {
        let kk = k as u16;
        assert((0u16 >> kk) & 1u16 == 0u16) by (bit_vector);
    }
    while j < 16
        invariant
            n == buf@.len(),
            p + 16 <= buf@.len(),
            j <= 16,
            forall|k: int| 0 <= k < j ==> #[trigger] bit16(r, k) == (buf@[p + k] == mask),
            forall|k: int| j <= k < 16 ==> !#[trigger] bit16(r, k),
        decreases 16 - j,
    {
        if buf[p + j as usize] == mask {
            let ghost old_r = r;
            r = r | (1u16 << j);
            assert forall|k: int| 0 <= k < 16 implies #[trigger] bit16(r, k) == (k == j || bit16(
                old_r,
                k,
            )) by {
                lemma_set_bit16(old_r, j, k as u16);
            }
        }
        j = j + 1;
    }
    r
}

/// Pack four 16-bit submasks into bits `[0..16)`, `[16..32)`, `[32..48)` and
/// `[48..64)` of one word.
fn movemask_bulk(m0: u16, m1: u16, m2: u16, m3: u16) -> (r: u64)
    ensures
        forall|j: int|
            0 <= j < 64 ==> #[trigger] bit(r, j) == if j < 16 {
                bit16(m0, j)
            } else if j < 32 {
                bit16(m1, j - 16)
            } else if j < 48 {
                bit16(m2, j - 32)
            } else {
                bit16(m3, j - 48)
            },
{
    let r = (m0 as u64) | ((m1 as u64) << 16u64) | ((m2 as u64) << 32u64) | ((m3 as u64) << 48u64);
    assert forall|j: int| 0 <= j < 64 implies #[trigger] bit(r, j) == if j < 16 {
        bit16(m0, j)
    } else if j < 32 {
        bit16(m1, j - 16)
    } else if j < 48 {
        bit16(m2, j - 32)
    } else {
        bit16(m3, j - 48)
    } by {
        lemma_pack_bit(m0, m1, m2, m3, j as u64);
    }
    r
}

/// Mask of the positions `j < 64` where `buf[idx + j] == mask`, built from
/// four 16-byte submasks.
fn cmp_mask_against_input(buf: &[u8], idx: usize, mask: u8) -> (r: u64)
    requires
        idx + 64 <= buf@.len(),
    ensures
        forall|j: int| 0 <= j < 64 ==> #[trigger] bit(r, j) == (buf@[idx + j] == mask),
{
    let n = buf.len();
    assert(idx + 64 <= n);
    let m0 = movemask(buf, idx, mask);
    let m1 = movemask(buf, idx + 16, mask);
    let m2 = movemask(buf, idx + 32, mask);
    let m3 = movemask(buf, idx + 48, mask);
    let r = movemask_bulk(m0, m1, m2, m3);
    assert forall|j: int| 0 <= j < 64 implies #[trigger] bit(r, j) == (buf@[idx + j] == mask) by {
        if j < 16 {
            assert(bit16(m0, j) == (buf@[idx + j] == mask));
        } else if j < 32 {
            assert(bit16(m1, j - 16) == (buf@[idx + 16 + (j - 16)] == mask));
        } else if j < 48 {
            assert(bit16(m2, j - 32) == (buf@[idx + 32 + (j - 32)] == mask));
        } else {
            assert(bit16(m3, j - 48) == (buf@[idx + 48 + (j - 48)] == mask));
        }
    }
    r
}

/// Low 64 bits of the carry-less (GF(2) polynomial) product of `a` and `b`.
fn clmul_low64(a: u64, b: u64) -> (r: u64)
    ensures
        forall|j: int| 0 <= j < 64 ==> #[trigger] bit(r, j) == clmul_bit(a, b, j, 64),
{
    let mut r: u64 = 0;
    let mut i: u64 = 0;
    proof {
        lemma_zero_bits();
    }
    while i < 64
        invariant
            i <= 64,
            forall|j: int| 0 <= j < 64 ==> #[trigger] bit(r, j) == clmul_bit(a, b, j, i as int),
        decreases 64 - i,
    {
        let ghost old_r = r;
        if (b >> i) & 1 == 1 {
            r = r ^ (a << i);
        }
        assert forall|j: int| 0 <= j < 64 implies #[trigger] bit(r, j) == clmul_bit(
            a,
            b,
            j,
            i + 1,
        ) by {
            assert(clmul_bit(a, b, j, i + 1) == (clmul_bit(a, b, j, i as int) != (i <= j && bit(
                b,
                i as int,
            ) && bit(a, j - i))));
            assert(bit(old_r, j) == clmul_bit(a, b, j, i as int));
            if (b >> i) & 1 == 1 {
                lemma_xor_shifted(old_r, a, i, j as u64);
                assert(bit(b, i as int));
                assert(r == old_r ^ (a << i));
                assert(i <= j ==> bit(a, j - i) == ((a >> ((j as u64 - i) as u64)) & 1u64 == 1u64));
                assert(bit(r, j) == (bit(old_r, j) != (i <= j && bit(a, j - i))));
            } else {
                assert(!bit(b, i as int));
            }
        }
        i = i + 1;
    }
    r
}

proof fn lemma_clmul_all_ones(q: u64, j: int, k: int)
    requires
        0 <= j < 64,
        0 <= k <= 64,
    ensures
        k <= j + 1 ==> clmul_bit(q, 0xffff_ffff_ffff_ffffu64, j, k) == (prefix_parity(q, j)
            != prefix_parity(q, j - k)),
        k > j + 1 ==> clmul_bit(q, 0xffff_ffff_ffff_ffffu64, j, k) == prefix_parity(q, j),
    decreases k,
{
    if k > 0 {
        lemma_clmul_all_ones(q, j, k - 1);
        let i = (k - 1) as u64;
        assert((0xffff_ffff_ffff_ffffu64 >> i) & 1u64 == 1u64) by (bit_vector)
            requires
                i < 64,
        ;
        if k <= j + 1 {
            assert(prefix_parity(q, j - (k - 1)) == (prefix_parity(q, j - k) != bit(
                q,
                j - (k - 1),
            )));
        }
    }
}

/// Turn the quote bits of a block into the bits of the positions inside a
/// quoted region (an opening quote counts as inside), and carry the state at
/// the block's last byte to the next block.
fn find_quote_mask(quote_bits: u64, prev_iter_inside_quote: &mut u64) -> (r: u64)
    requires
        *old(prev_iter_inside_quote) == carry_word(false) || *old(prev_iter_inside_quote)
            == carry_word(true),
    ensures
        forall|j: int|
            0 <= j < 64 ==> #[trigger] bit(r, j) == ((*old(prev_iter_inside_quote) != 0)
                != prefix_parity(quote_bits, j)),
        *final(prev_iter_inside_quote) == carry_word(
            (*old(prev_iter_inside_quote) != 0) != prefix_parity(quote_bits, 63),
        ),
{
    let r0 = clmul_low64(quote_bits, 0xffff_ffff_ffff_ffffu64);
    let carry_in = *prev_iter_inside_quote;
    let quote_mask = r0 ^ carry_in;
    assert forall|j: int| 0 <= j < 64 implies #[trigger] bit(quote_mask, j) == ((carry_in != 0)
        != prefix_parity(quote_bits, j)) by {
        lemma_clmul_all_ones(quote_bits, j, 64);
        let jj = j as u64;
        assert(bit(r0, j) == prefix_parity(quote_bits, j));
        if carry_in == 0 {
            assert(((r0 ^ 0u64) >> jj) & 1u64 == (r0 >> jj) & 1u64) by (bit_vector);
        } else {
            assert((((r0 ^ 0xffff_ffff_ffff_ffffu64) >> jj) & 1u64 == 1u64) == !((r0 >> jj) & 1u64
                == 1u64)) by (bit_vector)
                requires
                    jj < 64,
            ;
        }
    }
    let signed: i64 = (#[verifier::truncate] (quote_mask as i64));
    *prev_iter_inside_quote = (#[verifier::truncate] ((signed >> 63) as u64));
    assert(((quote_mask as i64) >> 63) as u64 == if (quote_mask >> 63u64) & 1u64 == 1u64 {
        0xffff_ffff_ffff_ffffu64
    } else {
        0u64
    }) by (bit_vector);
    assert(bit(quote_mask, 63) == ((carry_in != 0) != prefix_parity(quote_bits, 63)));
    quote_mask
}

/// Quote counts add up over a concatenation.
pub proof fn lemma_quote_count_concat(x: Seq<u8>, y: Seq<u8>)
    ensures
        quote_count(x + y) == quote_count(x) + quote_count(y),
    decreases y.len(),
{
    if y.len() > 0 {
        lemma_quote_count_concat(x, y.drop_last());
        assert((x + y).drop_last() == x + y.drop_last());
    } else {
        assert(x + y == x);
    }
}

/// The region state after `x + y` is the state after `y` started from the state
/// after `x`.
pub proof fn lemma_inside_quote_concat(x: Seq<u8>, y: Seq<u8>, q0: bool)
    ensures
        inside_quote(x + y, q0) == inside_quote(y, inside_quote(x, q0)),
{
    lemma_quote_count_concat(x, y);
}

/// Offsets of a concatenation: those of `x`, then those of `y` scanned from the
/// state after `x` and shifted by the length of `x`.
pub proof fn lemma_offsets_concat(x: Seq<u8>, y: Seq<u8>, q0: bool, base: int)
    ensures
        offsets_from(x + y, q0, base) == offsets_from(x, q0, base) + offsets_from(
            y,
            inside_quote(x, q0),
            base + x.len(),
        ),
    decreases y.len(),
{
    if y.len() == 0 {
        assert(x + y == x);
        assert(offsets_from(x, q0, base) + Seq::<u32>::empty() == offsets_from(x, q0, base));
    } else {
        let yp = y.drop_last();
        lemma_offsets_concat(x, yp, q0, base);
        assert((x + y).drop_last() == x + yp);
        lemma_inside_quote_concat(x, yp, q0);
        let tail = if is_separator(y.last()) && !inside_quote(yp, inside_quote(x, q0)) {
            seq![(base + x.len() + yp.len()) as u32]
        } else {
            Seq::<u32>::empty()
        };
        assert(offsets_from(x, q0, base) + offsets_from(yp, inside_quote(x, q0), base + x.len())
            + tail == offsets_from(x, q0, base) + (offsets_from(
            yp,
            inside_quote(x, q0),
            base + x.len(),
        ) + tail));
    }
}

/// The structural offsets of `s[0..b]` extend those of `s[0..a]` by those of
/// `s[a..b]`, scanned from the state at `a`.
pub proof fn lemma_offsets_extend(s: Seq<u8>, a: int, b: int)
    requires
        0 <= a <= b <= s.len(),
    ensures
        structural_offsets(s.subrange(0, b)) == structural_offsets(s.subrange(0, a))
            + offsets_from(s.subrange(a, b), inside_quote(s.subrange(0, a), false), a),
{
    assert(s.subrange(0, b) == s.subrange(0, a) + s.subrange(a, b));
    lemma_offsets_concat(s.subrange(0, a), s.subrange(a, b), false, 0);
}

proof fn lemma_prefix_parity_quotes(t: Seq<u8>, q: u64, j: int)
    requires
        t.len() == 64,
        0 <= j < 64,
        forall|k: int| 0 <= k < 64 ==> #[trigger] bit(q, k) == (t[k] == QUOTE),
    ensures
        prefix_parity(q, j) == (quote_count(t.subrange(0, j + 1)) % 2 == 1),
    decreases j,
{
    let u = t.subrange(0, j + 1);
    assert(u.drop_last() == t.subrange(0, j));
    assert(u.last() == t[j]);
    assert(bit(q, j) == (t[j] == QUOTE));
    assert(quote_count(u) == quote_count(t.subrange(0, j)) + if t[j] == QUOTE {
        1nat
    } else {
        0nat
    });
    assert(prefix_parity(q, j) == (prefix_parity(q, j - 1) != bit(q, j)));
    if j > 0 {
        lemma_prefix_parity_quotes(t, q, j - 1);
    } else {
        assert(quote_count(t.subrange(0, 0)) == 0);
        assert(!prefix_parity(q, -1));
    }
}

proof fn lemma_structural_bit(e: u64, c: u64, m: u64, j: u64)
    requires
        j < 64,
    ensures
        ((((e | c) & !m) >> j) & 1u64 == 1u64) == (((e >> j) & 1u64 == 1u64 || (c >> j) & 1u64
            == 1u64) && !((m >> j) & 1u64 == 1u64)),
{
    assert(((((e | c) & !m) >> j) & 1u64 == 1u64) == (((e >> j) & 1u64 == 1u64 || (c >> j) & 1u64
        == 1u64) && !((m >> j) & 1u64 == 1u64))) by (bit_vector)
        requires
            j < 64,
    ;
}

/// Structural mask of the block `buf[idx..idx + 64]`: bit `j` is set iff the
/// byte at `idx + j` is a separator outside quotes. The region state is carried
/// in and out as a word.
fn block_mask(buf: &[u8], idx: usize, prev_iter_inside_quote: &mut u64) -> (r: u64)
    requires
        idx + 64 <= buf@.len(),
        *old(prev_iter_inside_quote) == carry_word(
            inside_quote(buf@.subrange(0, idx as int), false),
        ),
    ensures
        forall|j: int|
            0 <= j < 64 ==> #[trigger] bit(r, j) == (is_separator(buf@[idx + j]) && !inside_quote(
                buf@.subrange(0, idx + j),
                false,
            )),
        *final(prev_iter_inside_quote) == carry_word(
            inside_quote(buf@.subrange(0, idx + 64), false),
        ),
{
    let ghost cin = inside_quote(buf@.subrange(0, idx as int), false);
    let ghost t = buf@.subrange(idx as int, idx + 64);
    let quote_bits = cmp_mask_against_input(buf, idx, QUOTE);
    let quote_mask = find_quote_mask(quote_bits, prev_iter_inside_quote);
    let sep = cmp_mask_against_input(buf, idx, COMMA);
    let end = cmp_mask_against_input(buf, idx, NEWLINE);
    let r = (end | sep) & !quote_mask;
    assert forall|j: int| 0 <= j < 64 implies #[trigger] bit(quote_mask, j) == inside_quote(
        buf@.subrange(0, idx + j + 1),
        false,
    ) by {
        assert forall|k: int| 0 <= k < 64 implies #[trigger] bit(quote_bits, k) == (t[k]
            == QUOTE) by {
            assert(t[k] == buf@[idx + k]);
        }
        lemma_prefix_parity_quotes(t, quote_bits, j);
        assert(buf@.subrange(0, idx + j + 1) == buf@.subrange(0, idx as int) + t.subrange(
            0,
            j + 1,
        ));
        lemma_inside_quote_concat(buf@.subrange(0, idx as int), t.subrange(0, j + 1), false);
    }
    assert forall|j: int| 0 <= j < 64 implies #[trigger] bit(r, j) == (is_separator(buf@[idx + j])
        && !inside_quote(buf@.subrange(0, idx + j), false)) by {
        lemma_structural_bit(end, sep, quote_mask, j as u64);
        assert(bit(end, j) == (buf@[idx + j] == NEWLINE));
        assert(bit(sep, j) == (buf@[idx + j] == COMMA));
        let u = buf@.subrange(0, idx + j + 1);
        assert(u.drop_last() == buf@.subrange(0, idx + j));
        assert(u.last() == buf@[idx + j]);
        assert(bit(quote_mask, j) == inside_quote(u, false));
        assert(quote_count(u) == quote_count(u.drop_last()) + if u.last() == QUOTE {
            1nat
        } else {
            0nat
        });
    }
    proof {
        assert(buf@.subrange(0, idx + 64) == buf@.subrange(0, idx as int) + t);
        assert(t.subrange(0, 64) == t);
        lemma_inside_quote_concat(buf@.subrange(0, idx as int), t, false);
        assert forall|k: int| 0 <= k < 64 implies #[trigger] bit(quote_bits, k) == (t[k]
            == QUOTE) by {
            assert(t[k] == buf@[idx + k]);
        }
        lemma_prefix_parity_quotes(t, quote_bits, 63);
    }
    r
}

/// The offsets of the set bits of a block's structural mask are the structural
/// offsets of the block.
proof fn lemma_block_offsets(s: Seq<u8>, idx: int, m: u64, k: int)
    requires
        0 <= idx,
        idx + 64 <= s.len(),
        0 <= k <= 64,
        forall|j: int|
            0 <= j < 64 ==> #[trigger] bit(m, j) == (is_separator(s[idx + j]) && !inside_quote(
                s.subrange(0, idx + j),
                false,
            )),
    ensures
        mask_offsets(m, idx, k) == offsets_from(
            s.subrange(idx, idx + k),
            inside_quote(s.subrange(0, idx), false),
            idx,
        ),
    decreases k,
{
    if k > 0 {
        lemma_block_offsets(s, idx, m, k - 1);
        let y = s.subrange(idx, idx + k);
        assert(y.drop_last() == s.subrange(idx, idx + k - 1));
        assert(s.subrange(0, idx + k - 1) == s.subrange(0, idx) + s.subrange(idx, idx + k - 1));
        lemma_inside_quote_concat(s.subrange(0, idx), s.subrange(idx, idx + k - 1), false);
    } else {
        assert(s.subrange(idx, idx).len() == 0);
    }
}

/// Separator offsets of a parsed CSV buffer.
pub struct ParsedCsv {
    pub indexes: Vec<u32>,
}

impl ParsedCsv {
    /// Create an empty `ParsedCsv` with room for `capacity` offsets.
    pub fn with_capacity(capacity: usize) -> (r: Self)
        ensures
            r.indexes@ == Seq::<u32>::empty(),
    {
        ParsedCsv { indexes: Vec::with_capacity(capacity) }
    }
}

/// Scan `buf` byte by byte, starting in region state `in_quote`, and append the
/// offset (shifted by `offset`) of each separator outside quotes.
pub fn process_tail_scalar(buf: &[u8], offset: usize, pcsv: &mut ParsedCsv, in_quote: bool)
    requires
        offset + buf@.len() <= 0x1_0000_0000,
    ensures
        final(pcsv).indexes@ == old(pcsv).indexes@ + offsets_from(buf@, in_quote, offset as int),
{
    let mut in_quote = in_quote;
    let ghost q0 = in_quote;
    let ghost start = pcsv.indexes@;
    let mut i: usize = 0;
    while i < buf.len()
        invariant
            i <= buf@.len(),
            offset + buf@.len() <= 0x1_0000_0000,
            in_quote == inside_quote(buf@.subrange(0, i as int), q0),
            pcsv.indexes@ == start + offsets_from(buf@.subrange(0, i as int), q0, offset as int),
        decreases buf@.len() - i,
    {
        let byte = buf[i];
        let ghost prev = buf@.subrange(0, i as int);
        let ghost next = buf@.subrange(0, i + 1);
        assert(next.drop_last() == prev);
        if byte == QUOTE {
            in_quote = !in_quote;
        } else if (byte == COMMA || byte == NEWLINE) && !in_quote {
            pcsv.indexes.push((offset + i) as u32);
        }
        proof {
            assert(pcsv.indexes@ == start + offsets_from(next, q0, offset as int));
        }
        i = i + 1;
    }
    assert(buf@.subrange(0, buf@.len() as int) == buf@);
}

/// The structural offsets of `s[0..idx + 64]` are those of `s[0..idx]` followed
/// by the offsets of the set bits of the block's structural mask.
proof fn lemma_block_step(s: Seq<u8>, idx: int, m: u64)
    requires
        0 <= idx,
        idx + 64 <= s.len(),
        forall|j: int|
            0 <= j < 64 ==> #[trigger] bit(m, j) == (is_separator(s[idx + j]) && !inside_quote(
                s.subrange(0, idx + j),
                false,
            )),
    ensures
        structural_offsets(s.subrange(0, idx + 64)) == structural_offsets(s.subrange(0, idx))
            + mask_offsets(m, idx, 64),
{
    lemma_block_offsets(s, idx, m, 64);
    lemma_offsets_extend(s, idx, idx + 64);
}

/// Block path: whole 64-byte blocks are scanned word-parallel, four blocks per
/// step while at least four remain (all masks of a step are built before any is
/// flattened), then one at a time; the bytes after the last whole block are
/// scanned byte by byte from the carried region state.
#[verifier::rlimit(40)]
pub fn find_indexes_blocks(buf: &[u8], pcsv: &mut ParsedCsv) -> (r: bool)
    requires
        buf@.len() < 0x1_0000_0000,
    ensures
        r,
        final(pcsv).indexes@ == old(pcsv).indexes@ + structural_offsets(buf@),
{
    let len = buf.len();
    let ghost start = pcsv.indexes@;
    let mut prev_iter_inside_quote: u64 = 0;
    let mut idx: usize = 0;
    proof {
        assert(buf@.subrange(0, 0).len() == 0);
        assert(quote_count(buf@.subrange(0, 0)) == 0);
        assert(structural_offsets(buf@.subrange(0, 0)) == Seq::<u32>::empty());
        assert(start == start + Seq::<u32>::empty());
    }
    while len - idx >= 256
        invariant
            len == buf@.len(),
            len < 0x1_0000_0000,
            idx <= len,
            prev_iter_inside_quote == carry_word(inside_quote(buf@.subrange(0, idx as int), false)),
            pcsv.indexes@ == start + structural_offsets(buf@.subrange(0, idx as int)),
        decreases len - idx,
    {
        let m0 = block_mask(buf, idx, &mut prev_iter_inside_quote);
        let m1 = block_mask(buf, idx + 64, &mut prev_iter_inside_quote);
        let m2 = block_mask(buf, idx + 128, &mut prev_iter_inside_quote);
        let m3 = block_mask(buf, idx + 192, &mut prev_iter_inside_quote);
        let ghost p0 = structural_offsets(buf@.subrange(0, idx as int));
        let ghost p1 = structural_offsets(buf@.subrange(0, idx + 64));
        let ghost p2 = structural_offsets(buf@.subrange(0, idx + 128));
        let ghost p3 = structural_offsets(buf@.subrange(0, idx + 192));
        let ghost p4 = structural_offsets(buf@.subrange(0, idx + 256));
        proof {
            lemma_block_step(buf@, idx as int, m0);
            lemma_block_step(buf@, idx + 64, m1);
            lemma_block_step(buf@, idx + 128, m2);
            lemma_block_step(buf@, idx + 192, m3);
        }
        flatten_bits(&mut pcsv.indexes, idx as u32, m0);
        assert(pcsv.indexes@ =~= start + p1);
        flatten_bits(&mut pcsv.indexes, (idx + 64) as u32, m1);
        assert(pcsv.indexes@ =~= start + p2);
        flatten_bits(&mut pcsv.indexes, (idx + 128) as u32, m2);
        assert(pcsv.indexes@ =~= start + p3);
        flatten_bits(&mut pcsv.indexes, (idx + 192) as u32, m3);
        assert(pcsv.indexes@ =~= start + p4);
        idx = idx + 256;
    }
    while len - idx >= 64
        invariant
            len == buf@.len(),
            len < 0x1_0000_0000,
            idx <= len,
            prev_iter_inside_quote == carry_word(inside_quote(buf@.subrange(0, idx as int), false)),
            pcsv.indexes@ == start + structural_offsets(buf@.subrange(0, idx as int)),
        decreases len - idx,
    {
        let m = block_mask(buf, idx, &mut prev_iter_inside_quote);
        proof {
            lemma_block_step(buf@, idx as int, m);
        }
        flatten_bits(&mut pcsv.indexes, idx as u32, m);
        assert(pcsv.indexes@ =~= start + structural_offsets(buf@.subrange(0, idx + 64)));
        idx = idx + 64;
    }
    let in_quote_start = prev_iter_inside_quote != 0;
    let tail = vstd::slice::slice_subrange(buf, idx, len);
    process_tail_scalar(tail, idx, pcsv, in_quote_start);
    proof {
        lemma_offsets_extend(buf@, idx as int, len as int);
        assert(buf@.subrange(0, len as int) == buf@);
    }
    assert(pcsv.indexes@ =~= start + structural_offsets(buf@));
    true
}

/// Scalar path: the whole buffer byte by byte.
pub fn find_indexes_fallback(buf: &[u8], pcsv: &mut ParsedCsv) -> (r: bool)
    requires
        buf@.len() < 0x1_0000_0000,
    ensures
        r,
        final(pcsv).indexes@ == old(pcsv).indexes@ + structural_offsets(buf@),
{
    process_tail_scalar(buf, 0, pcsv, false);
    true
}

/// Append the structural offsets of `buf` to `pcsv`: the block path for inputs
/// of at least one whole block, the scalar path for shorter ones.
pub fn find_indexes(buf: &[u8], pcsv: &mut ParsedCsv) -> (r: bool)
    requires
        buf@.len() < 0x1_0000_0000,
    ensures
        r,
        final(pcsv).indexes@ == old(pcsv).indexes@ + structural_offsets(buf@),
{
    if buf.len() < 64 {
        find_indexes_fallback(buf, pcsv)
    } else {
        find_indexes_blocks(buf, pcsv)
    }
}

/// Parse a CSV buffer: the offsets of its separators outside quoted regions.
pub fn parse_csv(buf: &[u8]) -> (r: ParsedCsv)
    requires
        buf@.len() < 0x1_0000_0000,
    ensures
        r.indexes@ == structural_offsets(buf@),
        forall|i: int|
            0 <= i < r.indexes@.len() ==> #[trigger] r.indexes@[i] < buf@.len() && is_separator(
                buf@[r.indexes@[i] as int],
            ),
        forall|i: int, j: int| 0 <= i < j < r.indexes@.len() ==> r.indexes@[i] < r.indexes@[j],
        forall|o: int|
            0 <= o < buf@.len() && is_separator(#[trigger] buf@[o]) ==> (r.indexes@.contains(
                o as u32,
            ) <==> quote_count(buf@.subrange(0, o)) % 2 == 0),
        quote_count(buf@) == 0 ==> r.indexes@ == separator_positions(buf@, 0),
{
    let mut pcsv = ParsedCsv::with_capacity(buf.len() / 10);
    find_indexes(buf, &mut pcsv);
    assert(pcsv.indexes@ =~= structural_offsets(buf@));
    proof {
        lemma_offsets_sound(buf@, false, 0);
        assert forall|o: int|
            0 <= o < buf@.len() && is_separator(#[trigger] buf@[o]) implies (
            pcsv.indexes@.contains(o as u32) <==> quote_count(buf@.subrange(0, o)) % 2 == 0) by {
            lemma_reported_iff_even_quotes(buf@, o);
        }
        if quote_count(buf@) == 0 {
            lemma_no_quotes_all_separators(buf@, 0);
        }
    }
    pcsv
}

} // verus!
