use vstd::prelude::*;

verus! {

/// Bit vectors are dense arrays of 32-bit words; bit `i` lives in word
/// `i / 32` at position `i % 32`.
pub const BITVEC_BASE_BITS: usize = 32;

/// Whether bit `bit` is set in the word array `words`.
pub open spec fn spec_bit_on(words: Seq<u32>, bit: int) -> bool {
    (words[bit / 32] >> ((bit % 32) as u32)) & 1u32 == 1u32
}

/// The number of 32-bit words needed to hold `n` bits: the ceiling of
/// `n / 32`.
pub open spec fn spec_word_count(n: int) -> int {
    (n + 31) / 32
}

/// The number of 32-bit words backing a bit vector over `elements` slots.
pub fn get_len(elements: usize) -> (r: usize)
    ensures
        r == spec_word_count(elements as int),
{
    let q = elements / BITVEC_BASE_BITS;
    let rem = elements % BITVEC_BASE_BITS;
    proof {
        vstd::arithmetic::div_mod::lemma_fundamental_div_mod(elements as int, 32);
        vstd::arithmetic::div_mod::lemma_mod_bound(elements as int, 32);
        vstd::arithmetic::div_mod::lemma_fundamental_div_mod(elements as int + 31, 32);
        vstd::arithmetic::div_mod::lemma_mod_bound(elements as int + 31, 32);
        assert((elements as int + 31) / 32 == q + (if rem == 0 { 0int } else { 1int }))
            by (nonlinear_arith)
            requires
                elements as int == q * 32 + rem,
                0 <= rem < 32,
                elements as int + 31 == ((elements as int + 31) / 32) * 32 + (elements as int
                    + 31) % 32,
                0 <= (elements as int + 31) % 32 < 32,
        ;
    }
    if rem == 0 {
        q
    } else {
        q + 1
    }
}

/// A zeroed bit vector with room for `len` slots: every bit is off.
pub fn alloc_bit_vec(len: usize) -> (r: Vec<u32>)
    ensures
        r@.len() == spec_word_count(len as int),
        forall|i: int| 0 <= i < r@.len() ==> r@[i] == 0u32,
        forall|i: int| 0 <= i < r@.len() * 32 ==> !spec_bit_on(r@, i),
{
    let words = get_len(len);
    let r: Vec<u32> = vec![0u32; words];
    proof {
        assert forall|i: int| 0 <= i < r@.len() * 32 implies !spec_bit_on(r@, i) by {
            assert(0 <= i / 32 < r@.len()) by (nonlinear_arith)
                requires 0 <= i < r@.len() * 32;
            let j = (i % 32) as u32;
            assert((0u32 >> j) & 1u32 == 0u32) by (bit_vector);
        }
    }
    r
}

/// Grows (or keeps) a bit vector so it covers `new_len` slots; bits carried
/// over keep their value and every newly exposed bit is off.
pub fn realloc(bitvec: &mut Vec<u32>, old_len: usize, new_len: usize) -> (grown: bool)
    requires
        old(bitvec)@.len() == spec_word_count(old_len as int),
    ensures
        final(bitvec)@.len() == spec_word_count(new_len as int),
        forall|i: int|
            0 <= i < old(bitvec)@.len() && i < final(bitvec)@.len() ==> final(bitvec)@[i]
                == old(bitvec)@[i],
        forall|i: int|
            old(bitvec)@.len() <= i < final(bitvec)@.len() ==> final(bitvec)@[i] == 0u32,
{
    let old_size = get_len(old_len);
    let new_size = get_len(new_len);

    if old_size == new_size {
        return false;
    }

    bitvec.resize(new_size, 0u32);
    true
}

/// Clears bit `bit_index`; every other bit keeps its value.
pub fn set_bit_off(bitvec: &mut Vec<u32>, bit_index: usize)
    requires
        bit_index / 32 < old(bitvec)@.len(),
    ensures
        final(bitvec)@.len() == old(bitvec)@.len(),
        !spec_bit_on(final(bitvec)@, bit_index as int),
        forall|i: int|
            0 <= i < final(bitvec)@.len() * 32 && i != bit_index ==> spec_bit_on(
                final(bitvec)@,
                i,
            ) == spec_bit_on(old(bitvec)@, i),
{
    let mask_index = bit_index / BITVEC_BASE_BITS;
    let mask_bit = (bit_index % BITVEC_BASE_BITS) as u32;
    let w = bitvec[mask_index];
    let nw = w & !(1u32 << mask_bit);
    bitvec.set(mask_index, nw);
    proof {
        assert(((w & !(1u32 << mask_bit)) >> mask_bit) & 1u32 == 0u32) by (bit_vector)
            requires mask_bit < 32u32;
        assert forall|j: u32| j < 32 && j != mask_bit implies ((w & !(1u32 << mask_bit)) >> j)
            & 1u32 == (w >> j) & 1u32 by {
            assert(((w & !(1u32 << mask_bit)) >> j) & 1u32 == (w >> j) & 1u32) by (bit_vector)
                requires j < 32u32, mask_bit < 32u32, j != mask_bit;
        }
        lemma_word_update_bits(w, nw, mask_bit, bit_index as int, old(bitvec)@, final(bitvec)@, false);
    }
}

/// Sets bit `bit_index`; every other bit keeps its value.
pub fn set_bit_on(bitvec: &mut Vec<u32>, bit_index: usize)
    requires
        bit_index / 32 < old(bitvec)@.len(),
    ensures
        final(bitvec)@.len() == old(bitvec)@.len(),
        spec_bit_on(final(bitvec)@, bit_index as int),
        forall|i: int|
            0 <= i < final(bitvec)@.len() * 32 && i != bit_index ==> spec_bit_on(
                final(bitvec)@,
                i,
            ) == spec_bit_on(old(bitvec)@, i),
{
    let mask_index = bit_index / BITVEC_BASE_BITS;
    let mask_bit = (bit_index % BITVEC_BASE_BITS) as u32;
    let w = bitvec[mask_index];
    let nw = w | (1u32 << mask_bit);
    bitvec.set(mask_index, nw);
    proof {
        assert(((w | (1u32 << mask_bit)) >> mask_bit) & 1u32 == 1u32) by (bit_vector)
            requires mask_bit < 32u32;
        assert forall|j: u32| j < 32 && j != mask_bit implies ((w | (1u32 << mask_bit)) >> j)
            & 1u32 == (w >> j) & 1u32 by {
            assert(((w | (1u32 << mask_bit)) >> j) & 1u32 == (w >> j) & 1u32) by (bit_vector)
                requires j < 32u32, mask_bit < 32u32, j != mask_bit;
        }
        lemma_word_update_bits(w, nw, mask_bit, bit_index as int, old(bitvec)@, final(bitvec)@, true);
    }
}

/// Flips bit `bit_index`; every other bit keeps its value.
pub fn toggle_bit(bitvec: &mut Vec<u32>, bit_index: usize)
    requires
        bit_index / 32 < old(bitvec)@.len(),
    ensures
        final(bitvec)@.len() == old(bitvec)@.len(),
        spec_bit_on(final(bitvec)@, bit_index as int) == !spec_bit_on(
            old(bitvec)@,
            bit_index as int,
        ),
        forall|i: int|
            0 <= i < final(bitvec)@.len() * 32 && i != bit_index ==> spec_bit_on(
                final(bitvec)@,
                i,
            ) == spec_bit_on(old(bitvec)@, i),
{
    let mask_index = bit_index / BITVEC_BASE_BITS;
    let mask_bit = (bit_index % BITVEC_BASE_BITS) as u32;
    let w = bitvec[mask_index];
    let nw = w ^ (1u32 << mask_bit);
    bitvec.set(mask_index, nw);
    proof {
        assert(((w ^ (1u32 << mask_bit)) >> mask_bit) & 1u32 == (if (w >> mask_bit) & 1u32
            == 1u32 {
            0u32
        } else {
            1u32
        })) by (bit_vector)
            requires mask_bit < 32u32;
        assert forall|j: u32| j < 32 && j != mask_bit implies ((w ^ (1u32 << mask_bit)) >> j)
            & 1u32 == (w >> j) & 1u32 by {
            assert(((w ^ (1u32 << mask_bit)) >> j) & 1u32 == (w >> j) & 1u32) by (bit_vector)
                requires j < 32u32, mask_bit < 32u32, j != mask_bit;
        }
        let was_on = (w >> mask_bit) & 1u32 == 1u32;
        lemma_word_update_bits(
            w,
            nw,
            mask_bit,
            bit_index as int,
            old(bitvec)@,
            final(bitvec)@,
            !was_on,
        );
    }
}

/// Whether bit `bit_index` is set.
pub fn is_bit_on(bitvec: &Vec<u32>, bit_index: usize) -> (r: bool)
    requires
        bit_index / 32 < bitvec@.len(),
    ensures
        r == spec_bit_on(bitvec@, bit_index as int),
{
    let mask_index = bit_index / BITVEC_BASE_BITS;
    let mask_bit = (bit_index % BITVEC_BASE_BITS) as u32;
    let on_mask = 1u32 << mask_bit;
    let r = (bitvec[mask_index] & on_mask) == on_mask;
    proof {
        let w = bitvec@[mask_index as int];
        assert((w & (1u32 << mask_bit)) == (1u32 << mask_bit) <==> ((w >> mask_bit) & 1u32
            == 1u32)) by (bit_vector)
            requires mask_bit < 32u32;
    }
    r
}

/// A slot index below the capacity lies within the word array's bits.
pub proof fn lemma_bit_range(id: int, len: int)
    requires
        0 <= id < len,
    ensures
        id < spec_word_count(len) * 32,
        id / 32 < spec_word_count(len),
{
    vstd::arithmetic::div_mod::lemma_fundamental_div_mod(id, 32);
    vstd::arithmetic::div_mod::lemma_mod_bound(id, 32);
    vstd::arithmetic::div_mod::lemma_fundamental_div_mod(len + 31, 32);
    vstd::arithmetic::div_mod::lemma_mod_bound(len + 31, 32);
    assert(id / 32 < (len + 31) / 32 && id < ((len + 31) / 32) * 32) by (nonlinear_arith)
        requires
            0 <= id < len,
            id == (id / 32) * 32 + id % 32,
            0 <= id % 32 < 32,
            len + 31 == ((len + 31) / 32) * 32 + (len + 31) % 32,
            0 <= (len + 31) % 32 < 32,
    ;
}

/// A zero word carries no set bit.
pub proof fn lemma_zero_word_bit(words: Seq<u32>, i: int)
    requires
        0 <= i,
        i / 32 < words.len(),
        words[i / 32] == 0u32,
    ensures
        !spec_bit_on(words, i),
{
    let j = (i % 32) as u32;
    assert((0u32 >> j) & 1u32 == 0u32) by (bit_vector);
}

/// Bits depend only on their word.
pub proof fn lemma_same_word_same_bit(w1: Seq<u32>, w2: Seq<u32>, i: int)
    requires
        0 <= i,
        i / 32 < w1.len(),
        i / 32 < w2.len(),
        w1[i / 32] == w2[i / 32],
    ensures
        spec_bit_on(w1, i) == spec_bit_on(w2, i),
{
}

/// Relates a bit position to its word index and in-word offset.
pub proof fn lemma_bit_positions(i: int, j: u32, words: nat)
    requires
        0 <= i,
        j == (i % 32) as u32,
    ensures
        i == (i / 32) * 32 + (i % 32),
        0 <= i % 32 < 32,
        j < 32,
        i < words * 32 ==> i / 32 < words,
{
    vstd::arithmetic::div_mod::lemma_fundamental_div_mod(i, 32);
    if i < words * 32 {
        assert(i / 32 < words) by (nonlinear_arith)
            requires 0 <= i < words * 32, i == (i / 32) * 32 + (i % 32), 0 <= i % 32 < 32;
    }
}

/// After replacing word `bit / 32` by `nw` (whose bit `mask_bit` is forced
/// to `value` and whose other bits match `w`), the bit view changes only at
/// position `bit`.
proof fn lemma_word_update_bits(
    w: u32,
    nw: u32,
    mask_bit: u32,
    bit: int,
    old_words: Seq<u32>,
    new_words: Seq<u32>,
    value: bool,
)
    requires
        0 <= bit,
        mask_bit == (bit % 32) as u32,
        bit / 32 < old_words.len(),
        new_words == old_words.update(bit / 32, nw),
        w == old_words[bit / 32],
        ((nw >> mask_bit) & 1u32) == if value { 1u32 } else { 0u32 },
        forall|j: u32| j < 32 && j != mask_bit ==> (nw >> j) & 1u32 == (w >> j) & 1u32,
    ensures
        new_words.len() == old_words.len(),
        spec_bit_on(new_words, bit) == value,
        forall|i: int|
            0 <= i < new_words.len() * 32 && i != bit ==> spec_bit_on(new_words, i)
                == spec_bit_on(old_words, i),
{
    lemma_bit_positions(bit, mask_bit, old_words.len());
    assert forall|i: int|
        0 <= i < new_words.len() * 32 && i != bit implies spec_bit_on(new_words, i)
        == spec_bit_on(old_words, i) by {
        lemma_bit_positions(i, (i % 32) as u32, old_words.len());
        if i / 32 == bit / 32 {
            assert((i % 32) as u32 != mask_bit);
        }
    }
}

} // verus!
