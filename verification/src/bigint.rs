use crate::heap::BigIntCell;
use vstd::prelude::*;

verus! {

/// The lowest 64-bit word of a magnitude; zero where it has no words.
pub open spec fn low_word(words: Seq<u64>) -> u64 {
    if words.len() == 0 {
        0
    } else {
        words[0]
    }
}

/// The lowest 64 bits of a big integer in two's complement: what is left of it when
/// it is cut to 64 bits.
pub open spec fn low_bits(negative: bool, words: Seq<u64>) -> u64 {
    if negative && low_word(words) != 0 {
        (0x1_0000_0000_0000_0000 - low_word(words)) as u64
    } else {
        low_word(words)
    }
}

/// A 64-bit pattern cut to the width of the unsigned type whose largest value is `max`.
pub open spec fn wrap_unsigned(raw: u64, max: int) -> int {
    raw as int % (max + 1)
}

/// A 64-bit pattern cut to the width of the signed type whose values run from `min`
/// to `max`, read in two's complement.
pub open spec fn wrap_signed(raw: u64, min: int, max: int) -> int {
    let cut = raw as int % (max - min + 1);
    if cut > max {
        cut - (max - min + 1)
    } else {
        cut
    }
}

/// The lowest 64 bits of a big integer in two's complement.
pub fn bigint_low_bits(cell: &BigIntCell) -> (raw: u64)
    ensures
        raw == low_bits(cell.negative, cell.words@),
{
    let word: u64 = if cell.words.len() == 0 {
        0
    } else {
        cell.words[0]
    };
    if cell.negative && word != 0 {
        u64::MAX - word + 1
    } else {
        word
    }
}

} // verus!
