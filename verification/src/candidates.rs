//! Candidate bitmaps: nine bits per cell, bit `d - 1` standing for digit `d`.

use vstd::prelude::*;
use vstd::std_specs::bits::axiom_u16_trailing_zeros;

verus! {

/// The bitmap in which every digit is still possible.
pub const MAYBE_ALL: u16 = 0x1ff;

/// `1` for a true statement, `0` for a false one.
pub open spec fn unit(b: bool) -> int {
    if b {
        1
    } else {
        0
    }
}

/// Whether `digit` is marked in `mask`. Only the digits 1 to 9 can be marked.
pub open spec fn marked(mask: u16, digit: int) -> bool {
    1 <= digit <= 9 && (mask >> ((digit - 1) as u16)) & 1 == 1
}

/// How many of the nine digits are marked in `mask`.
pub open spec fn count(mask: u16) -> int {
    unit(marked(mask, 1)) + unit(marked(mask, 2)) + unit(marked(mask, 3)) + unit(marked(mask, 4)) + unit(
        marked(mask, 5),
    ) + unit(marked(mask, 6)) + unit(marked(mask, 7)) + unit(marked(mask, 8)) + unit(marked(mask, 9))
}

/// The smallest digit marked in `mask`, or 10 where none is.
pub open spec fn least(mask: u16) -> int {
    if marked(mask, 1) {
        1
    } else if marked(mask, 2) {
        2
    } else if marked(mask, 3) {
        3
    } else if marked(mask, 4) {
        4
    } else if marked(mask, 5) {
        5
    } else if marked(mask, 6) {
        6
    } else if marked(mask, 7) {
        7
    } else if marked(mask, 8) {
        8
    } else if marked(mask, 9) {
        9
    } else {
        10
    }
}

/// `mask` with the mark of `digit` taken away.
pub open spec fn cleared(mask: u16, digit: int) -> u16 {
    mask & !(1u16 << ((digit - 1) as u16))
}

/// The bitmap holds nothing above its nine digit bits.
pub open spec fn nine_bit(mask: u16) -> bool {
    mask <= MAYBE_ALL
}

/// The full bitmap marks every digit.
pub proof fn lemma_all_marked()
    ensures
        forall|d: int| 1 <= d <= 9 ==> marked(MAYBE_ALL, d),
        count(MAYBE_ALL) == 9,
{
    assert forall|d: int| 1 <= d <= 9 implies marked(MAYBE_ALL, d) by {
        let k = (d - 1) as u16;
        assert((0x1ffu16 >> k) & 1 == 1) by (bit_vector)
            requires
                k < 9,
        ;
    }
}

/// The empty bitmap marks nothing, and among nine-bit bitmaps only it does so.
pub proof fn lemma_none_marked(mask: u16)
    requires
        nine_bit(mask),
    ensures
        forall|d: int| !marked(0u16, d),
        count(0u16) == 0,
        mask == 0 <==> count(mask) == 0,
        mask != 0 ==> exists|d: int| marked(mask, d),
{
    assert forall|d: int| !marked(0u16, d) by {
        if 1 <= d <= 9 {
            let k = (d - 1) as u16;
            assert((0u16 >> k) & 1 == 0) by (bit_vector);
        }
    }
    assert(mask <= 0x1ff && (mask >> 0) & 1 != 1 && (mask >> 1) & 1 != 1 && (mask >> 2) & 1 != 1
        && (mask >> 3) & 1 != 1 && (mask >> 4) & 1 != 1 && (mask >> 5) & 1 != 1 && (mask >> 6) & 1
        != 1 && (mask >> 7) & 1 != 1 && (mask >> 8) & 1 != 1 ==> mask == 0) by (bit_vector);
    if mask != 0 {
        assert(marked(mask, 1) || marked(mask, 2) || marked(mask, 3) || marked(mask, 4) || marked(
            mask,
            5,
        ) || marked(mask, 6) || marked(mask, 7) || marked(mask, 8) || marked(mask, 9));
    }
}

/// Clearing one digit leaves every other mark as it was.
pub proof fn lemma_cleared(mask: u16, digit: int)
    requires
        1 <= digit <= 9,
    ensures
        forall|e: int| #[trigger] marked(cleared(mask, digit), e) == (marked(mask, e) && e != digit),
        cleared(mask, digit) <= mask,
        count(cleared(mask, digit)) == count(mask) - unit(marked(mask, digit)),
        !marked(mask, digit) ==> cleared(mask, digit) == mask,
        marked(mask, digit) ==> cleared(mask, digit) < mask,
{
    let k = (digit - 1) as u16;
    let c = cleared(mask, digit);
    assert forall|e: int| #[trigger] marked(c, e) == (marked(mask, e) && e != digit) by {
        if 1 <= e <= 9 {
            let j = (e - 1) as u16;
            assert(((mask & !(1u16 << k)) >> j) & 1 == 1 <==> ((mask >> j) & 1 == 1 && j != k))
                by (bit_vector)
                requires
                    k < 9,
                    j < 9,
            ;
        }
    }
    assert(mask & !(1u16 << k) <= mask) by (bit_vector);
    assert((mask >> k) & 1 != 1 ==> mask & !(1u16 << k) == mask) by (bit_vector)
        requires
            k < 9,
    ;
    assert((mask >> k) & 1 == 1 ==> mask & !(1u16 << k) < mask) by (bit_vector)
        requires
            k < 9,
    ;
}

/// Whether `digit` is marked in `mask`.
pub fn contains(mask: u16, digit: usize) -> (r: bool)
    requires
        1 <= digit <= 9,
    ensures
        r == marked(mask, digit as int),
{
    let k: u16 = (digit - 1) as u16;
    assert((mask & (1u16 << k) != 0) == ((mask >> k) & 1 == 1)) by (bit_vector)
        requires
            k < 9,
    ;
    mask & (1u16 << k) != 0
}

/// `mask` without `digit`.
pub fn without(mask: u16, digit: usize) -> (r: u16)
    requires
        1 <= digit <= 9,
    ensures
        r == cleared(mask, digit as int),
{
    let k: u16 = (digit - 1) as u16;
    mask & !(1u16 << k)
}

/// Whether exactly one digit is marked in `mask`.
pub fn is_single(mask: u16) -> (r: bool)
    requires
        nine_bit(mask),
    ensures
        r == (count(mask) == 1),
{
    proof {
        lemma_single(mask);
    }
    mask != 0 && mask & (mask - 1) == 0
}

/// A nine-bit bitmap marks exactly one digit where it is not empty and
/// shares no bit with the number below it.
proof fn lemma_single(mask: u16)
    requires
        nine_bit(mask),
    ensures
        (count(mask) == 1) == (mask != 0 && mask & ((mask - 1) as u16) == 0),
{
    let b0 = (mask >> 0) & 1;
    let b1 = (mask >> 1) & 1;
    let b2 = (mask >> 2) & 1;
    let b3 = (mask >> 3) & 1;
    let b4 = (mask >> 4) & 1;
    let b5 = (mask >> 5) & 1;
    let b6 = (mask >> 6) & 1;
    let b7 = (mask >> 7) & 1;
    let b8 = (mask >> 8) & 1;
    assert(b0 <= 1 && b1 <= 1 && b2 <= 1 && b3 <= 1 && b4 <= 1 && b5 <= 1 && b6 <= 1 && b7 <= 1
        && b8 <= 1) by (bit_vector)
        requires
            b0 == (mask >> 0) & 1,
            b1 == (mask >> 1) & 1,
            b2 == (mask >> 2) & 1,
            b3 == (mask >> 3) & 1,
            b4 == (mask >> 4) & 1,
            b5 == (mask >> 5) & 1,
            b6 == (mask >> 6) & 1,
            b7 == (mask >> 7) & 1,
            b8 == (mask >> 8) & 1,
    ;
    assert((b0 + b1 + b2 + b3 + b4 + b5 + b6 + b7 + b8 == 1) == (mask != 0 && mask & ((mask - 1) as u16)
        == 0)) by (bit_vector)
        requires
            mask <= 0x1ff,
            b0 == (mask >> 0) & 1,
            b1 == (mask >> 1) & 1,
            b2 == (mask >> 2) & 1,
            b3 == (mask >> 3) & 1,
            b4 == (mask >> 4) & 1,
            b5 == (mask >> 5) & 1,
            b6 == (mask >> 6) & 1,
            b7 == (mask >> 7) & 1,
            b8 == (mask >> 8) & 1,
    ;
    assert(count(mask) == b0 + b1 + b2 + b3 + b4 + b5 + b6 + b7 + b8);
}

/// The smallest digit marked in a bitmap that marks at least one.
pub fn lowest(mask: u16) -> (r: usize)
    requires
        nine_bit(mask),
        mask != 0,
    ensures
        r == least(mask),
        marked(mask, r as int),
{
    let di: u32 = mask.trailing_zeros();
    proof {
        axiom_u16_trailing_zeros(mask);
        let t = di as u16;
        assert(t < 9) by {
            assert(mask <= 0x1ff && mask != 0 && (mask >> t) & 1 == 1 ==> t < 9) by (bit_vector);
        }
        assert forall|e: int| marked(mask, e) implies di + 1 <= e by {
            let j = (e - 1) as u16;
            if j < di {
                assert((mask >> j) & 1u16 == 0u16);
            }
        }
        assert(marked(mask, di + 1));
    }
    di as usize + 1
}

} // verus!
