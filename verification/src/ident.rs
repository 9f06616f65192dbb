//! Identifiers of notes, vaults and stored objects.

use vstd::prelude::*;

use crate::bytes::{
    be_bytes, lemma_be_reverse_trip, lemma_be_round_trip, lemma_byte_range_values, push_be,
    read_be,
};

verus! {

/// A 128-bit identifier. Its bytes, the most significant one first, are those
/// of an RFC 9562 identifier.
#[derive(Clone, Copy, Debug, PartialEq, Eq, Structural, Hash)]
pub struct Uuid {
    pub value: u128,
}

/// Whether an identifier is marked as a random one: its version is four, and its
/// variant is that of RFC 9562.
pub open spec fn marked_random(value: nat) -> bool {
    &&& value / 0x1000_0000_0000_0000_0000 % 16 == 4
    &&& value / 0x4000_0000_0000_0000 % 4 == 2
}

/// Trusted: `uuid::Uuid::new_v4` draws a random identifier and `as_u128` reads
/// it as a number. Whatever was drawn, the bits of the version and of the variant
/// are set; of the others nothing is claimed.
#[verifier::external_body]
pub(crate) fn random_identifier() -> (value: u128)
    ensures
        marked_random(value as nat),
{
    uuid::Uuid::new_v4().as_u128()
}

/// The digit of a number under sixteen, in lower case.
pub open spec fn hex_digit(digit: nat) -> char {
    if digit < 10 {
        (('0' as u32) + digit) as char
    } else {
        (('a' as u32) + (digit - 10)) as char
    }
}

/// The `count` hexadecimal digits of `value`, the most significant one first.
pub open spec fn hex_digits(value: nat, count: nat) -> Seq<char>
    decreases count,
{
    if count == 0 {
        Seq::empty()
    } else {
        hex_digits(value / 16, (count - 1) as nat).push(hex_digit(value % 16))
    }
}

pub proof fn lemma_hex_len(value: nat, count: nat)
    ensures
        hex_digits(value, count).len() == count,
    decreases count,
{
    if count > 0 {
        lemma_hex_len(value / 16, (count - 1) as nat);
    }
}

fn digit_char(digit: u8) -> (character: char)
    requires
        digit < 16,
    ensures
        character == hex_digit(digit as nat),
{
    match digit {
        0 => '0',
        1 => '1',
        2 => '2',
        3 => '3',
        4 => '4',
        5 => '5',
        6 => '6',
        7 => '7',
        8 => '8',
        9 => '9',
        10 => 'a',
        11 => 'b',
        12 => 'c',
        13 => 'd',
        14 => 'e',
        _ => 'f',
    }
}

pub fn push_hex(out: &mut String, value: u128, count: usize)
    ensures
        final(out)@ == old(out)@ + hex_digits(value as nat, count as nat),
    decreases count,
{
    if count > 0 {
        push_hex(out, value / 16, count - 1);
        out.push(digit_char((value % 16) as u8));
    }
    proof {
        assert(out@ == old(out)@ + hex_digits(value as nat, count as nat));
    }
}

impl Uuid {
    /// The sixteen bytes of the identifier.
    pub open spec fn spec_bytes(&self) -> Seq<u8> {
        be_bytes(self.value as nat, 16)
    }

    /// The thirty-two digits of the identifier, without hyphens.
    pub open spec fn spec_simple(&self) -> Seq<char> {
        hex_digits(self.value as nat, 32)
    }

    /// A random identifier.
    pub fn new_v4() -> (id: Uuid)
        ensures
            marked_random(id.value as nat),
    {
        Uuid { value: random_identifier() }
    }

    pub fn from_u128(value: u128) -> (id: Uuid)
        ensures
            id.value == value,
    {
        Uuid { value }
    }

    /// The identifier whose sixteen bytes stand in `bytes` from `from` on.
    pub fn read(bytes: &[u8], from: usize) -> (id: Uuid)
        requires
            from + 16 <= bytes@.len(),
        ensures
            id.spec_bytes() == bytes@.subrange(from as int, from + 16),
    {
        let value: u128 = read_be(bytes, from, 16);
        proof {
            lemma_be_reverse_trip(bytes@.subrange(from as int, from + 16));
        }
        Uuid { value }
    }

    /// Appends the sixteen bytes of the identifier.
    pub fn write(&self, out: &mut Vec<u8>)
        ensures
            final(out)@ == old(out)@ + self.spec_bytes(),
    {
        push_be(out, self.value, 16);
    }

    /// The thirty-two digits of the identifier, in lower case and without hyphens.
    pub fn simple(&self) -> (text: String)
        ensures
            text@ == self.spec_simple(),
    {
        let mut text: String = String::new();
        push_hex(&mut text, self.value, 32);
        proof {
            assert(Seq::<char>::empty() + self.spec_simple() == self.spec_simple());
        }
        text
    }

    /// The digits in groups of eight, four, four, four and twelve with hyphens between.
    pub fn hyphenated(&self) -> (text: String)
        ensures
            text@ == self.spec_hyphenated(),
    {
        let mut text: String = String::new();
        push_hex(&mut text, self.value / 0x1_0000_0000_0000_0000_0000_0000, 8);
        text.push('-');
        push_hex(&mut text, self.value / 0x1_0000_0000_0000_0000_0000, 4);
        text.push('-');
        push_hex(&mut text, self.value / 0x1_0000_0000_0000_0000, 4);
        text.push('-');
        push_hex(&mut text, self.value / 0x1_0000_0000_0000, 4);
        text.push('-');
        push_hex(&mut text, self.value, 12);
        proof {
            assert(text@ =~= self.spec_hyphenated());
        }
        text
    }

    /// The digits in groups of eight, four, four, four and twelve with hyphens between.
    pub open spec fn spec_hyphenated(&self) -> Seq<char> {
        let value = self.value as nat;
        hex_digits(value / 0x1_0000_0000_0000_0000_0000_0000, 8) + seq!['-'] + hex_digits(
            value / 0x1_0000_0000_0000_0000_0000,
            4,
        ) + seq!['-'] + hex_digits(value / 0x1_0000_0000_0000_0000, 4) + seq!['-'] + hex_digits(
            value / 0x1_0000_0000_0000,
            4,
        ) + seq!['-'] + hex_digits(value, 12)
    }
}

/// Two identifiers with the same bytes are the same identifier.
pub proof fn lemma_same_bytes(left: Uuid, right: Uuid)
    ensures
        left.spec_bytes().len() == 16,
        left.spec_bytes() == right.spec_bytes() <==> left == right,
{
    lemma_byte_range_values();
    lemma_be_round_trip(left.value as nat, 16);
    lemma_be_round_trip(right.value as nat, 16);
}

} // verus!
