//! The Internet-style one's-complement checksum used to protect sensitive
//! frames: the message is read as 16-bit big-endian words, the word at byte
//! offset 4 (the transmitted checksum field) is replaced by the fixed
//! placeholder `0xCCCC`, a trailing odd byte is zero-padded, the words are
//! summed with end-around carry, and the checksum is the bitwise complement
//! of the final 16-bit sum.

use vstd::prelude::*;

verus! {

/// The placeholder that stands in for the checksum field while the checksum
/// itself is computed: the magic byte repeated.
pub const CHECKSUM_PLACEHOLDER: u16 = 0xCCCC;

/// One's-complement addition: ordinary 16-bit addition with the carry out of
/// bit 15 folded back into the low bits (end-around carry).
pub open spec fn ones_add(a: u16, b: u16) -> u16 {
    if a + b > 0xFFFF {
        (a + b - 0xFFFF) as u16
    } else {
        (a + b) as u16
    }
}

/// The 16-bit big-endian word of `m` at byte offset `i`.  The word at offset
/// 4 is the transmitted checksum field and counts as `CHECKSUM_PLACEHOLDER`;
/// the missing low byte of an odd-length message counts as zero.
pub open spec fn word_at(m: Seq<u8>, i: int) -> u16
    recommends
        0 <= i < m.len(),
{
    if i == 4 {
        CHECKSUM_PLACEHOLDER
    } else {
        let lo: int = if i + 1 < m.len() {
            m[i + 1] as int
        } else {
            0
        };
        (m[i] as int * 256 + lo) as u16
    }
}

/// How many 16-bit words `m` contributes to the sum (an odd-length message is
/// zero-padded to a whole word).
pub open spec fn word_count(m: Seq<u8>) -> nat {
    ((m.len() + 1) / 2) as nat
}

/// The one's-complement sum of the first `k` words of `m`.
pub open spec fn sum_words(m: Seq<u8>, k: nat) -> u16
    recommends
        k <= word_count(m),
    decreases k,
{
    if k == 0 {
        0u16
    } else {
        ones_add(sum_words(m, (k - 1) as nat), word_at(m, 2 * (k - 1)))
    }
}

/// The checksum of `m`: the bitwise complement of the one's-complement sum of
/// all its words, the checksum field counted as the placeholder.
pub open spec fn checksum_of(m: Seq<u8>) -> u16 {
    (0xFFFF - sum_words(m, word_count(m))) as u16
}

/// Computes `checksum_of` over the given message.
pub fn compute_checksum(message: &[u8]) -> (r: u16)
    ensures
        r == checksum_of(message@),
{
    let n: usize = message.len();
    let mut sum: u32 = 0;
    let mut idx: usize = 0;
    let ghost mut w: nat = 0;
    while idx < n
        invariant
            n == message@.len(),
            sum <= 0xFFFF,
            sum == sum_words(message@, w),
            idx <= n,
            (idx == 2 * w && idx <= n) || (idx == n && w == word_count(message@)),
        decreases n - idx,
    {
        let word: u16;
        if idx == 4 {
            word = CHECKSUM_PLACEHOLDER;
        } else {
            let hi: u16 = message[idx] as u16;
            let lo: u16 = if idx + 1 < n {
                message[idx + 1] as u16
            } else {
                0
            };
            word = hi * 256 + lo;
        }
        assert(word == word_at(message@, idx as int));
        sum = sum + word as u32;
        if sum > 0xFFFF {
            sum = sum - 0xFFFF;
        }
        proof {
            w = w + 1;
            assert(sum == sum_words(message@, w));
        }
        if idx + 1 < n {
            idx = idx + 2;
        } else {
            assert(n == idx + 1);
            assert(w == word_count(message@));
            idx = n;
        }
    }
    assert(w == word_count(message@));
    let folded: u16 = sum as u16;
    0xFFFF - folded
}

proof fn lemma_sum_words_agree(m1: Seq<u8>, m2: Seq<u8>, k: nat)
    requires
        m1.len() == m2.len(),
        forall|i: int| 0 <= i < m1.len() && i != 4 && i != 5 ==> m1[i] == m2[i],
        k <= word_count(m1),
    ensures
        sum_words(m1, k) == sum_words(m2, k),
    decreases k,
{
    if k > 0 {
        lemma_sum_words_agree(m1, m2, (k - 1) as nat);
        let j = 2 * (k - 1);
        assert(j < m1.len());
        assert(word_at(m1, j) == word_at(m2, j));
    }
}

/// Two messages of one length that agree everywhere outside the checksum
/// field (bytes 4 and 5) have one checksum: the field itself is counted as
/// the placeholder, so its transmitted contents never enter the sum.
pub proof fn lemma_checksum_ignores_checksum_field(m1: Seq<u8>, m2: Seq<u8>)
    requires
        m1.len() == m2.len(),
        forall|i: int| 0 <= i < m1.len() && i != 4 && i != 5 ==> m1[i] == m2[i],
    ensures
        checksum_of(m1) == checksum_of(m2),
{
    lemma_sum_words_agree(m1, m2, word_count(m1));
}

/// Checks the stated checksum against the one computed over the message;
/// true exactly when they agree.
pub fn verify_checksum(message: &[u8], checksum: u16) -> (r: bool)
    ensures
        r == (checksum_of(message@) == checksum),
{
    let computed: u16 = compute_checksum(message);
    computed == checksum
}

} // verus!
