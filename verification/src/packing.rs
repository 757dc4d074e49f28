//! The packed form of an index array: fixed-width bit fields laid one after
//! another, least significant bit first, over a sequence of 64-bit words. A
//! field may begin in one word and end in the next.

use vstd::arithmetic::div_mod::lemma_fundamental_div_mod_converse;
use vstd::arithmetic::power2::{lemma_pow2_unfold, lemma_pow2_pos, lemma_pow2_strictly_increases, pow2};
use crate::error::DecodeError;
use vstd::prelude::*;

verus! {

/// Bit `b` of the word `w`, counted from the least significant one.
pub open spec fn bit(w: u64, b: u64) -> bool {
    (w >> b) & 1 == 1
}

/// The word whose `bits` lowest bits are set and no other.
pub open spec fn low_mask(bits: u64) -> u64 {
    if bits >= 64 {
        0xffff_ffff_ffff_ffffu64
    } else {
        ((1u64 << bits) - 1) as u64
    }
}

proof fn lemma_bit_zero(b: u64)
    by (bit_vector)
    requires
        b < 64,
    ensures
        !bit(0u64, b),
{
}

proof fn lemma_bit_or_shl(w: u64, v: u64, off: u64, b: u64)
    by (bit_vector)
    requires
        off < 64,
        b < 64,
    ensures
        bit(w | (v << off), b) == (bit(w, b) || (b >= off && bit(v, (b - off) as u64))),
{
}

proof fn lemma_bit_or_shr(w: u64, v: u64, s: u64, b: u64)
    by (bit_vector)
    requires
        s < 64,
        b < 64,
    ensures
        bit(w | (v >> s), b) == (bit(w, b) || (b + s < 64 && bit(v, (b + s) as u64))),
{
}

proof fn lemma_bit_mask(x: u64, bits: u64, c: u64)
    by (bit_vector)
    requires
        1 <= bits <= 64,
        c < 64,
    ensures
        bit(x & low_mask(bits), c) == (c < bits && bit(x, c)),
{
}

proof fn lemma_bit_field(w: u64, off: u64, bits: u64, c: u64)
    by (bit_vector)
    requires
        off < 64,
        1 <= bits <= 64,
        off + bits <= 64,
        c < 64,
    ensures
        bit((w >> off) & low_mask(bits), c) == (c < bits && bit(w, (c + off) as u64)),
{
}

proof fn lemma_bit_straddle(w1: u64, w2: u64, off: u64, bits: u64, c: u64)
    by (bit_vector)
    requires
        off < 64,
        1 <= bits <= 64,
        off + bits > 64,
        c < 64,
    ensures
        bit(
            ((w1 >> off) & low_mask((64 - off) as u64)) | ((w2 & low_mask(
                (bits - (64 - off)) as u64,
            )) << ((64 - off) as u64)),
            c,
        ) == (c < bits && if c < 64 - off {
            bit(w1, (c + off) as u64)
        } else {
            bit(w2, (c - (64 - off)) as u64)
        }),
{
}

proof fn lemma_shift_top(x: u64, y: u64)
    by (bit_vector)
    requires
        bit(x, 63) == bit(y, 63),
    ensures
        x >> 63 == y >> 63,
{
}

proof fn lemma_shift_step(x: u64, y: u64, n: u64)
    by (bit_vector)
    requires
        n < 63,
        x >> ((n + 1) as u64) == y >> ((n + 1) as u64),
        bit(x, n) == bit(y, n),
    ensures
        x >> n == y >> n,
{
}

proof fn lemma_shift_none(x: u64)
    by (bit_vector)
    ensures
        x >> 0 == x,
{
}

proof fn lemma_shifts_equal(x: u64, y: u64, n: u64)
    requires
        n < 64,
        forall|b: u64| b < 64 ==> #[trigger] bit(x, b) == bit(y, b),
    ensures
        x >> n == y >> n,
    decreases 64 - n,
{
    if n == 63 {
        lemma_shift_top(x, y);
    } else {
        lemma_shifts_equal(x, y, (n + 1) as u64);
        lemma_shift_step(x, y, n);
    }
}

/// Two words with the same bits are the same word.
pub proof fn lemma_bits_equal(x: u64, y: u64)
    requires
        forall|b: u64| b < 64 ==> #[trigger] bit(x, b) == bit(y, b),
    ensures
        x == y,
{
    lemma_shifts_equal(x, y, 0);
    lemma_shift_none(x);
    lemma_shift_none(y);
}

proof fn lemma_signed_word(w: u64)
    by (bit_vector)
    ensures
        (w as i64) as u64 == w,
{
}

proof fn lemma_mask_is(bits: u64)
    by (bit_vector)
    requires
        1 <= bits < 64,
    ensures
        1u64 << bits >= 1,
{
}

proof fn lemma_field_bound(x: u64, bits: u64)
    by (bit_vector)
    requires
        1 <= bits <= 64,
    ensures
        x & low_mask(bits) <= low_mask(bits),
        bits <= 32 ==> low_mask(bits) <= 0xffff_ffffu64,
{
}

proof fn lemma_straddle_bound(w1: u64, w2: u64, off: u64, bits: u64)
    by (bit_vector)
    requires
        off < 64,
        1 <= bits <= 64,
        off + bits > 64,
    ensures
        ((w1 >> off) & low_mask((64 - off) as u64)) | ((w2 & low_mask(
            (bits - (64 - off)) as u64,
        )) << ((64 - off) as u64)) <= low_mask(bits),
{
}

proof fn lemma_below_shift_has_no_high_bit(v: u64, bits: u64, c: u64)
    by (bit_vector)
    requires
        bits < 64,
        v < 1u64 << bits,
        bits <= c < 64,
    ensures
        !bit(v, c),
{
}

proof fn lemma_shift_one(bits: u64)
    by (bit_vector)
    requires
        1 <= bits < 64,
    ensures
        1u64 << bits == 2 * (1u64 << ((bits - 1) as u64)),
        1u64 << 0 == 1,
{
}

/// `1 << bits` is two to the power `bits`.
proof fn lemma_shift_is_pow2(bits: u64)
    requires
        bits < 64,
    ensures
        (1u64 << bits) == pow2(bits as nat),
    decreases bits,
{
    if bits == 0 {
        lemma_shift_one(1);
        assert(pow2(0) == 1) by {
            vstd::arithmetic::power2::lemma2_to64();
        }
    } else {
        lemma_shift_is_pow2((bits - 1) as u64);
        lemma_shift_one(bits);
        lemma_pow2_unfold(bits as nat);
    }
}

/// A value below two to the power `bits` has no bit set at `bits` or above.
pub proof fn lemma_small_value_bits(v: u64, bits: nat, c: u64)
    requires
        v < pow2(bits),
        bits <= c < 64,
    ensures
        !bit(v, c),
{
    lemma_shift_is_pow2(bits as u64);
    lemma_below_shift_has_no_high_bit(v, bits as u64, c);
}

/// The number of bits that one index into a table of `size` entries takes:
/// the least `b`, from `from` on and at most 64, with `size <= 2^b`.
pub open spec fn bits_from(size: nat, from: nat) -> nat
    decreases 64 - from,
{
    if from >= 64 || size <= pow2(from) {
        from
    } else {
        bits_from(size, from + 1)
    }
}

/// The width of the bit fields for a palette of `size` entries: the
/// logarithm of `size` to the base 2, rounded up, and never less than 1.
pub open spec fn bits_needed(size: nat) -> nat {
    bits_from(size, 1)
}

/// `bits_needed` is the least width, from 1 on, whose fields hold every
/// index below `size`.
pub proof fn lemma_bits_needed(size: nat)
    requires
        size <= pow2(64),
    ensures
        1 <= bits_needed(size) <= 64,
        size <= pow2(bits_needed(size)),
        bits_needed(size) > 1 ==> pow2((bits_needed(size) - 1) as nat) < size,
{
    lemma_bits_from(size, 1);
}

proof fn lemma_bits_from(size: nat, from: nat)
    requires
        size <= pow2(64),
        1 <= from <= 64,
        from > 1 ==> pow2((from - 1) as nat) < size,
    ensures
        from <= bits_from(size, from) <= 64,
        size <= pow2(bits_from(size, from)),
        bits_from(size, from) > 1 ==> pow2((bits_from(size, from) - 1) as nat) < size,
    decreases 64 - from,
{
    if from >= 64 || size <= pow2(from) {
    } else {
        lemma_bits_from(size, from + 1);
    }
}

/// The number of bits per index for a palette of `palette_size` entries.
pub fn calculate_bits_per_block(palette_size: usize) -> (r: usize)
    ensures
        r == bits_needed(palette_size as nat),
        1 <= r <= 64,
        r <= usize::BITS,
        palette_size <= pow2(r as nat),
        r > 1 ==> pow2((r - 1) as nat) < palette_size,
{
    let mut bits: usize = 1;
    let mut capacity: u128 = 2;
    proof {
        vstd::arithmetic::power2::lemma2_to64();
        vstd::arithmetic::power2::lemma2_to64_rest();
    }
    while capacity < palette_size as u128
        invariant
            1 <= bits <= 64,
            bits <= usize::BITS,
            capacity == pow2(bits as nat),
            pow2(64) == 0x1_0000_0000_0000_0000,
            pow2(32) == 0x1_0000_0000,
            bits > 1 ==> pow2((bits - 1) as nat) < palette_size,
            bits_from(palette_size as nat, bits as nat) == bits_needed(palette_size as nat),
        decreases 64 - bits,
    {
        proof {
            lemma_pow2_unfold((bits + 1) as nat);
            if bits >= 64 {
                assert(false);
            }
            if bits >= usize::BITS {
                assert(usize::BITS == 32);
                lemma_pow2_strictly_increases(32, bits as nat);
                assert(false);
            }
        }
        bits += 1;
        capacity = capacity * 2;
    }
    proof {
        lemma_bits_from(palette_size as nat, bits as nat);
    }
    bits
}

/// Bit `k` of a sequence of words read as one stream of bits.
pub open spec fn word_bit(words: Seq<u64>, k: int) -> bool {
    bit(words[k / 64], (k % 64) as u64)
}

/// Bit `k` of a sequence of signed words read as one stream of bits.
pub open spec fn stream_bit(words: Seq<i64>, k: int) -> bool {
    bit(words[k / 64] as u64, (k % 64) as u64)
}

/// The number of 64-bit words that `count` fields of `bits` bits take.
pub open spec fn packed_len(count: nat, bits: nat) -> nat {
    ((count * bits + 63) / 64) as nat
}

/// `words` is the packed form of `values` with fields of `bits` bits: bit
/// `c` of field `i` is bit `i * bits + c` of the stream, the bits of a value
/// beyond the field are left out, and the bits of the last word that follow
/// the last field are zero.
pub open spec fn is_packing(words: Seq<i64>, values: Seq<usize>, bits: nat) -> bool {
    &&& words.len() == packed_len(values.len(), bits)
    &&& forall|i: int, c: u64|
        0 <= i < values.len() && c < bits ==> stream_bit(words, i * bits + c) == #[trigger] bit(
            values[i] as u64,
            c,
        )
    &&& forall|k: int| values.len() * bits <= k < words.len() * 64 ==> !#[trigger] stream_bit(words, k)
}

/// `values` is what the fields of `bits` bits of `words` hold: bit `c` of
/// value `i` is bit `i * bits + c` of the stream when `c` lies inside the
/// field, and zero otherwise.
pub open spec fn is_unpacking(values: Seq<usize>, words: Seq<i64>, bits: nat) -> bool {
    forall|i: int, c: u64|
        0 <= i < values.len() && c < 64 ==> #[trigger] bit(values[i] as u64, c) == (c < bits
            && stream_bit(words, i * bits + c))
}

/// Where field `i`, bit `c` lies in the stream.
proof fn lemma_field_position(i: int, n: int, bits: int, c: int)
    requires
        0 <= i < n,
        0 <= c < bits,
    ensures
        0 <= i * bits + c < n * bits,
        (i * bits + c) / bits == i,
        (i * bits + c) % bits == c,
        (i + 1) * bits == i * bits + bits,
        (i + 1) * bits <= n * bits,
        0 <= i * bits,
{
    assert(0 <= i * bits && (i + 1) * bits == i * bits + bits && (i + 1) * bits <= n * bits)
        by (nonlinear_arith)
        requires
            0 <= i < n,
            0 < bits,
    ;
    lemma_fundamental_div_mod_converse(i * bits + c, bits, i, c);
}

/// Packs `values` into 64-bit words with fields of `bits` bits.
pub fn pack(values: &Vec<usize>, bits: usize) -> (r: Vec<i64>)
    requires
        1 <= bits <= 64,
    ensures
        is_packing(r@, values@, bits as nat),
{
    let n = values.len();
    proof {
        assert(n * bits <= n * 64) by (nonlinear_arith)
            requires
                0 <= n,
                bits <= 64,
        ;
        assert(0 <= n * bits) by (nonlinear_arith)
            requires
                0 <= n,
                0 <= bits,
        ;
    }
    let len: usize = ((n as u128 * bits as u128 + 63) / 64) as usize;
    let width: u64 = bits as u64;
    let mask: u64 = if bits == 64 {
        0xffff_ffff_ffff_ffffu64
    } else {
        proof {
            lemma_mask_is(width);
        }
        (1u64 << width) - 1
    };
    assert(mask == low_mask(width));
    let mut words: Vec<u64> = Vec::new();
    let mut j: usize = 0;
    while j < len
        invariant
            j <= len,
            words.len() == j,
            forall|q: int| 0 <= q < j ==> #[trigger] words[q] == 0,
        decreases len - j,
    {
        words.push(0u64);
        j += 1;
    }
    proof {
        assert forall|k: int| 0 <= k < 64 * len implies #[trigger] word_bit(words@, k) == (k < 0
            * bits && bit(values[k / (bits as int)] as u64, (k % (bits as int)) as u64)) by {
            lemma_bit_zero((k % 64) as u64);
        }
    }
    let mut i: usize = 0;
    while i < n
        invariant
            i <= n,
            n == values.len(),
            1 <= bits <= 64,
            width == bits,
            mask == low_mask(width),
            words.len() == len,
            len == packed_len(n as nat, bits as nat),
            0 <= n * bits,
            forall|k: int|
                0 <= k < 64 * len ==> #[trigger] word_bit(words@, k) == (k < i * bits && bit(
                    values[k / (bits as int)] as u64,
                    (k % (bits as int)) as u64,
                )),
        decreases n - i,
    {
        proof {
            lemma_field_position(i as int, n as int, bits as int, 0);
        }
        let bit_index: u128 = i as u128 * bits as u128;
        let start: usize = (bit_index / 64) as usize;
        let off: u64 = (bit_index % 64) as u64;
        let value: u64 = (values[i] as u64) & mask;
        let ghost before = words@;
        let w = words[start];
        words.set(start, w | (value << off));
        let straddles = off + width > 64;
        let ghost mut w2 = 0u64;
        if straddles {
            let next = words[start + 1];
            proof {
                w2 = next;
            }
            words.set(start + 1, next | (value >> (64 - off)));
        }
        proof {
            let b_index = i * bits;
            assert forall|k: int| 0 <= k < 64 * len implies #[trigger] word_bit(words@, k) == (k < (
            i + 1) * bits && bit(
                values[k / (bits as int)] as u64,
                (k % (bits as int)) as u64,
            )) by {
                let q = k / 64;
                let b = (k % 64) as u64;
                assert(word_bit(before, k) == (k < b_index && bit(
                    values[k / (bits as int)] as u64,
                    (k % (bits as int)) as u64,
                )));
                let c = k - b_index;
                if 0 <= c < bits {
                    lemma_field_position(i as int, n as int, bits as int, c);
                    lemma_bit_mask(values[i as int] as u64, width, c as u64);
                }
                if q == start {
                    lemma_bit_or_shl(w, value, off, b);
                    if b >= off && c >= bits {
                        lemma_bit_mask(values[i as int] as u64, width, c as u64);
                    }
                } else if q == start + 1 && straddles {
                    lemma_bit_or_shr(w2, value, (64 - off) as u64, b);
                    if c < 64 && c >= bits {
                        lemma_bit_mask(values[i as int] as u64, width, c as u64);
                    }
                } else {
                    assert(words@[q] == before[q]);
                }
            }
        }
        i += 1;
    }
    let mut out: Vec<i64> = Vec::new();
    let mut j: usize = 0;
    while j < len
        invariant
            j <= len,
            words.len() == len,
            out.len() == j,
            forall|q: int| 0 <= q < j ==> (#[trigger] out[q]) as u64 == words[q],
        decreases len - j,
    {
        proof {
            lemma_signed_word(words[j as int]);
        }
        out.push(#[verifier::truncate] (words[j] as i64));
        j += 1;
    }
    proof {
        assert forall|k: int| 0 <= k < 64 * len implies stream_bit(out@, k) == word_bit(
            words@,
            k,
        ) by {}
        assert forall|i: int, c: u64| 0 <= i < values.len() && c < bits implies stream_bit(
            out@,
            i * bits + c,
        ) == #[trigger] bit(values[i] as u64, c) by {
            lemma_field_position(i, n as int, bits as int, c as int);
            assert(word_bit(words@, i * bits + c) == bit(values[i] as u64, c));
        }
        assert forall|k: int| values.len() * bits <= k < out.len() * 64 implies !#[trigger] stream_bit(
            out@,
            k,
        ) by {
            assert(!word_bit(words@, k));
        }
    }
    out
}

/// Reads `count` fields of `bits` bits from `packed`. The words must be
/// exactly as many as `count` fields take.
pub fn unpack(packed: &[i64], bits: usize, count: usize) -> (r: Option<Vec<usize>>)
    requires
        1 <= bits <= 64,
        bits <= usize::BITS,
    ensures
        match r {
            Some(values) => packed.len() == packed_len(count as nat, bits as nat) && values.len()
                == count && is_unpacking(values@, packed@, bits as nat),
            None => packed.len() != packed_len(count as nat, bits as nat),
        },
{
    proof {
        assert(count * bits <= count * 64) by (nonlinear_arith)
            requires
                0 <= count,
                bits <= 64,
        ;
        assert(0 <= count * bits) by (nonlinear_arith)
            requires
                0 <= count,
                0 <= bits,
        ;
    }
    let len: usize = ((count as u128 * bits as u128 + 63) / 64) as usize;
    if packed.len() != len {
        return None;
    }
    let width: u64 = bits as u64;
    let mask: u64 = if bits == 64 {
        0xffff_ffff_ffff_ffffu64
    } else {
        proof {
            lemma_mask_is(width);
        }
        (1u64 << width) - 1
    };
    let mut values: Vec<usize> = Vec::new();
    let mut i: usize = 0;
    while i < count
        invariant
            i <= count,
            1 <= bits <= 64,
            bits <= usize::BITS,
            width == bits,
            mask == low_mask(width),
            packed.len() == len,
            len == packed_len(count as nat, bits as nat),
            values.len() == i,
            is_unpacking(values@, packed@, bits as nat),
        decreases count - i,
    {
        proof {
            lemma_field_position(i as int, count as int, bits as int, 0);
        }
        let bit_index: u128 = i as u128 * bits as u128;
        let start: usize = (bit_index / 64) as usize;
        let off: u64 = (bit_index % 64) as u64;
        let w1: u64 = #[verifier::truncate] (packed[start] as u64);
        let value: u64 = if off + width <= 64 {
            proof {
                lemma_field_bound(w1 >> off, width);
                assert forall|c: u64| c < 64 implies #[trigger] bit((w1 >> off) & mask, c) == (c < bits
                    && stream_bit(packed@, i * bits + c)) by {
                    lemma_bit_field(w1, off, width, c);
                }
            }
            (w1 >> off) & mask
        } else {
            let w2: u64 = #[verifier::truncate] (packed[start + 1] as u64);
            let low_bits: u64 = 64 - off;
            let high_bits: u64 = width - low_bits;
            proof {
                lemma_mask_is(low_bits);
                lemma_mask_is(high_bits);
                lemma_straddle_bound(w1, w2, off, width);
                lemma_field_bound(w1, width);
                assert forall|c: u64| c < 64 implies #[trigger] bit(
                    ((w1 >> off) & low_mask(low_bits)) | ((w2 & low_mask(high_bits)) << low_bits),
                    c,
                ) == (c < bits && stream_bit(packed@, i * bits + c)) by {
                    lemma_bit_straddle(w1, w2, off, width, c);
                }
            }
            let low: u64 = (w1 >> off) & ((1u64 << low_bits) - 1);
            let high: u64 = w2 & ((1u64 << high_bits) - 1);
            low | (high << low_bits)
        };
        assert(value <= usize::MAX);
        let ghost before = values@;
        values.push(value as usize);
        proof {
            assert forall|q: int, c: u64| 0 <= q < values.len() && c < 64 implies #[trigger] bit(
                values[q] as u64,
                c,
            ) == (c < bits && stream_bit(packed@, q * bits + c)) by {
                if q < i {
                    assert(values[q] == before[q]);
                }
            }
        }
        i += 1;
    }
    Some(values)
}

/// Unpacking the packed form of values that fit their fields gives the
/// values back.
pub proof fn lemma_pack_unpack(values: Seq<usize>, words: Seq<i64>, decoded: Seq<usize>, bits: nat)
    requires
        1 <= bits <= 64,
        is_packing(words, values, bits),
        decoded.len() == values.len(),
        is_unpacking(decoded, words, bits),
        forall|i: int| 0 <= i < values.len() ==> values[i] < pow2(bits),
    ensures
        decoded == values,
{
    assert forall|i: int| 0 <= i < values.len() implies decoded[i] == values[i] by {
        assert forall|c: u64| c < 64 implies #[trigger] bit(decoded[i] as u64, c) == bit(
            values[i] as u64,
            c,
        ) by {
            if c < bits {
                assert(bit(values[i] as u64, c) == stream_bit(words, i * bits + c));
            } else {
                lemma_small_value_bits(values[i] as u64, bits, c);
            }
        }
        lemma_bits_equal(decoded[i] as u64, values[i] as u64);
    }
    assert(decoded =~= values);
}

/// `value` is what field `i` of `words` holds, the fields being `bits` bits
/// wide.
pub open spec fn field_holds(value: usize, words: Seq<i64>, bits: nat, i: int) -> bool {
    forall|c: u64|
        c < 64 ==> #[trigger] bit(value as u64, c) == (c < bits && stream_bit(words, i * bits + c))
}

/// What `unpack_indices` says of `words`: the indices that the words hold
/// for a palette of `palette_len` entries and `count` voxels, or why the
/// words were rejected.
pub open spec fn unpacks_to(
    words: Seq<i64>,
    palette_len: nat,
    count: nat,
    result: Result<Vec<usize>, DecodeError>,
) -> bool {
    let bits = bits_needed(palette_len);
    match result {
        Ok(values) => {
            &&& words.len() == packed_len(count, bits)
            &&& values.len() == count
            &&& is_unpacking(values@, words, bits)
            &&& forall|i: int| 0 <= i < count ==> #[trigger] values[i] < palette_len
        },
        Err(DecodeError::PackedLength) => words.len() != packed_len(count, bits),
        Err(DecodeError::PaletteIndex) => {
            &&& words.len() == packed_len(count, bits)
            &&& exists|i: int, value: usize|
                0 <= i < count && value >= palette_len && #[trigger] field_holds(
                    value,
                    words,
                    bits,
                    i,
                )
        },
        Err(_) => false,
    }
}

/// The `count` palette indices that `words` hold, with fields as wide as
/// a palette of `palette_len` entries needs. Words that are not exactly
/// as many as the fields take, and fields that do not point into the
/// palette, are rejected.
pub fn unpack_indices(words: &[i64], palette_len: usize, count: usize) -> (r: Result<
    Vec<usize>,
    DecodeError,
>)
    ensures
        unpacks_to(words@, palette_len as nat, count as nat, r),
{
    let bits = calculate_bits_per_block(palette_len);
    let values = match unpack(words, bits, count) {
        Some(v) => v,
        None => {
            return Err(DecodeError::PackedLength);
        },
    };
    let mut i: usize = 0;
    while i < values.len()
        invariant
            i <= values.len(),
            values.len() == count,
            bits == bits_needed(palette_len as nat),
            words.len() == packed_len(count as nat, bits as nat),
            is_unpacking(values@, words@, bits as nat),
            forall|j: int| 0 <= j < i ==> #[trigger] values[j] < palette_len,
        decreases values.len() - i,
    {
        if values[i] >= palette_len {
            proof {
                assert(field_holds(values[i as int], words@, bits as nat, i as int));
            }
            return Err(DecodeError::PaletteIndex);
        }
        i += 1;
    }
    Ok(values)
}

} // verus!
