//! What the digits of an identifier say of it.

use vstd::arithmetic::div_mod::lemma_div_denominator;
use vstd::prelude::*;

use crate::ident::{hex_digit, hex_digits, lemma_hex_len, Uuid};

verus! {

/// The number that a hexadecimal digit in lower case stands for.
pub open spec fn digit_value(digit: char) -> int {
    if '0' <= digit <= '9' {
        digit as int - '0' as int
    } else {
        10 + (digit as int - 'a' as int)
    }
}

/// The number that hexadecimal digits stand for.
pub open spec fn hex_value(digits: Seq<char>) -> int
    decreases digits.len(),
{
    if digits.len() == 0 {
        0
    } else {
        hex_value(digits.drop_last()) * 16 + digit_value(digits.last())
    }
}

/// How many numbers so many digits can stand for.
spec fn hex_range(count: nat) -> nat
    decreases count,
{
    if count == 0 {
        1
    } else {
        16 * hex_range((count - 1) as nat)
    }
}

proof fn lemma_digit(digit: nat)
    requires
        digit < 16,
    ensures
        digit_value(hex_digit(digit)) == digit,
        '0' <= hex_digit(digit) <= '9' || 'a' <= hex_digit(digit) <= 'f',
{
}

proof fn lemma_digits_read_back(value: nat, count: nat)
    requires
        value < hex_range(count),
    ensures
        hex_value(hex_digits(value, count)) == value,
    decreases count,
{
    if count > 0 {
        lemma_digits_read_back(value / 16, (count - 1) as nat);
        lemma_digit(value % 16);
        let front = hex_digits(value / 16, (count - 1) as nat);
        assert(hex_digits(value, count).drop_last() =~= front);
    }
}

proof fn lemma_only_digits(value: nat, count: nat)
    ensures
        forall|i: int|
            0 <= i < hex_digits(value, count).len() ==> '0' <= #[trigger] hex_digits(value, count)[i]
                <= '9' || 'a' <= hex_digits(value, count)[i] <= 'f',
    decreases count,
{
    if count > 0 {
        lemma_only_digits(value / 16, (count - 1) as nat);
        lemma_digit(value % 16);
        let front = hex_digits(value / 16, (count - 1) as nat);
        let all = hex_digits(value, count);
        assert forall|i: int| 0 <= i < all.len() implies '0' <= #[trigger] all[i] <= '9' || 'a'
            <= all[i] <= 'f' by {
            if i < front.len() {
                assert(all[i] == front[i]);
            }
        }
    }
}

/// The last digits do not depend on the first.
proof fn lemma_digits_split(value: nat, front: nat, back: nat)
    ensures
        hex_digits(value, front + back) == hex_digits(value / hex_range(back), front) + hex_digits(
            value,
            back,
        ),
        hex_range(back) > 0,
    decreases back,
{
    lemma_hex_len(value / hex_range(back), front);
    if back == 0 {
        assert(hex_digits(value, front) + Seq::<char>::empty() =~= hex_digits(value, front));
        assert(value / 1 == value);
    } else {
        let less = (back - 1) as nat;
        lemma_digits_split(value / 16, front, less);
        lemma_div_denominator(value as int, 16, hex_range(less) as int);
        let head = hex_digits(value / 16 / hex_range(less), front);
        let tail = hex_digits(value / 16, less);
        assert((head + tail).push(hex_digit(value % 16)) =~= head + tail.push(
            hex_digit(value % 16),
        ));
    }
}

proof fn lemma_hex_ranges()
    ensures
        hex_range(12) == 0x1_0000_0000_0000,
        hex_range(16) == 0x1_0000_0000_0000_0000,
        hex_range(20) == 0x1_0000_0000_0000_0000_0000,
        hex_range(24) == 0x1_0000_0000_0000_0000_0000_0000,
        hex_range(32) == 0x1_0000_0000_0000_0000_0000_0000_0000_0000,
{
    reveal_with_fuel(hex_range, 33);
}

/// The digits of an identifier stand for it, so no two identifiers have the same;
/// there are thirty-two of them, in lower case.
pub proof fn law_digits_stand_for_the_identifier(id: Uuid)
    ensures
        id.spec_simple().len() == 32,
        hex_value(id.spec_simple()) == id.value,
        forall|i: int|
            0 <= i < 32 ==> '0' <= #[trigger] id.spec_simple()[i] <= '9' || 'a' <= id.spec_simple()[i]
                <= 'f',
{
    lemma_hex_ranges();
    lemma_hex_len(id.value as nat, 32);
    lemma_digits_read_back(id.value as nat, 32);
    lemma_only_digits(id.value as nat, 32);
}

/// The hyphenated form is the plain digits with hyphens behind the eighth, the
/// twelfth, the sixteenth and the twentieth.
pub proof fn law_hyphens_stand_between_the_digits(id: Uuid)
    ensures
        ({
            let digits = id.spec_simple();
            id.spec_hyphenated() == digits.subrange(0, 8) + seq!['-'] + digits.subrange(8, 12)
                + seq!['-'] + digits.subrange(12, 16) + seq!['-'] + digits.subrange(16, 20) + seq![
                '-',
            ] + digits.subrange(20, 32)
        }),
{
    let value = id.value as nat;
    lemma_hex_ranges();
    lemma_hex_len(value, 32);
    lemma_digits_split(value, 20, 12);
    lemma_digits_split(value / hex_range(12), 16, 4);
    lemma_digits_split(value, 16, 16);
    lemma_digits_split(value / hex_range(16), 12, 4);
    lemma_digits_split(value, 12, 20);
    lemma_digits_split(value / hex_range(20), 8, 4);
    lemma_digits_split(value, 8, 24);
    lemma_hex_len(value / hex_range(24), 8);
    lemma_hex_len(value / hex_range(20), 12);
    lemma_hex_len(value / hex_range(16), 16);
    lemma_hex_len(value / hex_range(12), 20);
    lemma_hex_len(value / hex_range(20), 4);
    lemma_hex_len(value / hex_range(16), 4);
    lemma_hex_len(value / hex_range(12), 4);
    lemma_hex_len(value, 12);
    let digits = id.spec_simple();
    let upto20 = hex_digits(value / hex_range(12), 20);
    let upto16 = hex_digits(value / hex_range(16), 16);
    let upto12 = hex_digits(value / hex_range(20), 12);
    let upto8 = hex_digits(value / hex_range(24), 8);
    assert(digits.subrange(0, 8) =~= upto8);
    assert(digits.take(12) =~= upto12);
    assert(digits.take(16) =~= upto16);
    assert(digits.take(20) =~= upto20);
    assert(digits.subrange(20, 32) =~= hex_digits(value, 12));
    lemma_tail_of(value, 20, 12);
    lemma_tail_of(value, 16, 16);
    lemma_tail_of(value, 12, 20);
    assert(digits.subrange(16, 20) =~= upto20.subrange(16, 20));
    assert(digits.subrange(12, 16) =~= upto16.subrange(12, 16));
    assert(digits.subrange(8, 12) =~= upto12.subrange(8, 12));
}

/// The last four of the first digits.
proof fn lemma_tail_of(value: nat, upto: nat, back: nat)
    requires
        upto >= 4,
    ensures
        hex_digits(value / hex_range(back), upto).len() == upto,
        hex_digits(value / hex_range(back), upto).subrange(upto - 4, upto as int) == hex_digits(
            value / hex_range(back),
            4,
        ),
{
    let first = value / hex_range(back);
    let less = (upto - 4) as nat;
    lemma_digits_split(first, less, 4);
    lemma_hex_len(first, upto);
    lemma_hex_len(first, 4);
    lemma_hex_len(first / hex_range(4), less);
    assert(hex_digits(first, upto).subrange(upto - 4, upto as int) =~= hex_digits(first, 4));
}

} // verus!
