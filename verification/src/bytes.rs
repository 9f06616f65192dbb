//! Big-endian integers and pieces of byte strings.

use vstd::prelude::*;

verus! {

/// The number of values that `count` bytes can hold.
pub open spec fn byte_range(count: nat) -> nat
    decreases count,
{
    if count == 0 {
        1
    } else {
        256 * byte_range((count - 1) as nat)
    }
}

/// The `count` bytes that stand for `value`, the most significant one first.
pub open spec fn be_bytes(value: nat, count: nat) -> Seq<u8>
    decreases count,
{
    if count == 0 {
        Seq::empty()
    } else {
        be_bytes(value / 256, (count - 1) as nat).push((value % 256) as u8)
    }
}

/// The value that the bytes stand for, the most significant one first.
pub open spec fn be_value(bytes: Seq<u8>) -> nat
    decreases bytes.len(),
{
    if bytes.len() == 0 {
        0
    } else {
        be_value(bytes.drop_last()) * 256 + bytes.last() as nat
    }
}

pub proof fn lemma_byte_range_values()
    ensures
        byte_range(2) == 0x1_0000,
        byte_range(4) == 0x1_0000_0000,
        byte_range(8) == 0x1_0000_0000_0000_0000,
        byte_range(16) == 0x1_0000_0000_0000_0000_0000_0000_0000_0000,
{
    reveal_with_fuel(byte_range, 17);
}

pub proof fn lemma_byte_range_monotone(small: nat, large: nat)
    requires
        small <= large,
    ensures
        1 <= byte_range(small) <= byte_range(large),
    decreases large,
{
    if small < large {
        lemma_byte_range_monotone(small, (large - 1) as nat);
    } else if small > 0 {
        lemma_byte_range_monotone((small - 1) as nat, (small - 1) as nat);
    }
}

pub proof fn lemma_be_value_bound(bytes: Seq<u8>)
    ensures
        be_value(bytes) < byte_range(bytes.len()),
    decreases bytes.len(),
{
    if bytes.len() > 0 {
        lemma_be_value_bound(bytes.drop_last());
    }
}

pub proof fn lemma_be_len(value: nat, count: nat)
    ensures
        be_bytes(value, count).len() == count,
    decreases count,
{
    if count > 0 {
        lemma_be_len(value / 256, (count - 1) as nat);
    }
}

/// Writing a value that fits and reading it back gives the value.
pub proof fn lemma_be_round_trip(value: nat, count: nat)
    requires
        value < byte_range(count),
    ensures
        be_bytes(value, count).len() == count,
        be_value(be_bytes(value, count)) == value,
    decreases count,
{
    if count > 0 {
        lemma_be_round_trip(value / 256, (count - 1) as nat);
        let head = be_bytes(value / 256, (count - 1) as nat);
        assert(be_bytes(value, count).drop_last() == head);
    }
}

/// Reading bytes as a value and writing that many bytes again gives the bytes.
pub proof fn lemma_be_reverse_trip(bytes: Seq<u8>)
    ensures
        be_bytes(be_value(bytes), bytes.len()) == bytes,
    decreases bytes.len(),
{
    if bytes.len() > 0 {
        lemma_be_reverse_trip(bytes.drop_last());
        let value = be_value(bytes);
        assert(value / 256 == be_value(bytes.drop_last()));
        assert((value % 256) as u8 == bytes.last());
        assert(bytes.drop_last().push(bytes.last()) == bytes);
    }
}

/// The value of the bytes of `bytes` from `from` on, `count` of them.
pub fn read_be(bytes: &[u8], from: usize, count: usize) -> (value: u128)
    requires
        from + count <= bytes@.len(),
        count <= 16,
    ensures
        value == be_value(bytes@.subrange(from as int, from + count)),
        value < byte_range(count as nat),
{
    let mut value: u128 = 0;
    let mut index: usize = 0;
    while index < count
        invariant
            index <= count <= 16,
            from + count <= bytes.len(),
            value == be_value(bytes@.subrange(from as int, from + index)),
        decreases count - index,
    {
        let ghost done = bytes@.subrange(from as int, from + index);
        let ghost next = bytes@.subrange(from as int, from + index + 1);
        proof {
            lemma_be_value_bound(next);
            lemma_byte_range_monotone(next.len(), 16);
            lemma_byte_range_values();
            assert(next.drop_last() == done);
            assert(next.last() == bytes@[from + index]);
        }
        value = value * 256 + bytes[from + index] as u128;
        index += 1;
    }
    proof {
        lemma_be_value_bound(bytes@.subrange(from as int, from + count));
    }
    value
}

/// Appends the `count` bytes that stand for `value`.
pub fn push_be(out: &mut Vec<u8>, value: u128, count: usize)
    requires
        count <= 16,
    ensures
        final(out)@ == old(out)@ + be_bytes(value as nat, count as nat),
    decreases count,
{
    if count > 0 {
        push_be(out, value / 256, count - 1);
        out.push((value % 256) as u8);
    }
    proof {
        assert(out@ == old(out)@ + be_bytes(value as nat, count as nat));
    }
}

/// The bytes of `bytes` from `from` up to `to`.
pub fn bytes_between(bytes: &[u8], from: usize, to: usize) -> (part: Vec<u8>)
    requires
        from <= to <= bytes@.len(),
    ensures
        part@ == bytes@.subrange(from as int, to as int),
{
    let mut part: Vec<u8> = Vec::new();
    part.extend_from_slice(&bytes[from..to]);
    part
}

/// The sixteen bytes of `bytes` from `from` on.
pub fn take_16(bytes: &[u8], from: usize) -> (part: [u8; 16])
    requires
        from + 16 <= bytes@.len(),
    ensures
        part@ == bytes@.subrange(from as int, from + 16),
{
    let mut part: [u8; 16] = [0u8;16];
    let mut index: usize = 0;
    while index < 16
        invariant
            index <= 16,
            from + 16 <= bytes.len(),
            forall|i: int| 0 <= i < index ==> part@[i] == #[trigger] bytes@[from + i],
        decreases 16 - index,
    {
        part[index] = bytes[from + index];
        index += 1;
    }
    proof {
        assert forall|i: int| 0 <= i < 16 implies part@[i] == bytes@.subrange(
            from as int,
            from + 16,
        )[i] by {
            assert(bytes@[from + i] == part@[i]);
        }
        assert(part@ =~= bytes@.subrange(from as int, from + 16));
    }
    part
}

/// The twenty-four bytes of `bytes` from `from` on.
pub fn take_24(bytes: &[u8], from: usize) -> (part: [u8; 24])
    requires
        from + 24 <= bytes@.len(),
    ensures
        part@ == bytes@.subrange(from as int, from + 24),
{
    let mut part: [u8; 24] = [0u8;24];
    let mut index: usize = 0;
    while index < 24
        invariant
            index <= 24,
            from + 24 <= bytes.len(),
            forall|i: int| 0 <= i < index ==> part@[i] == #[trigger] bytes@[from + i],
        decreases 24 - index,
    {
        part[index] = bytes[from + index];
        index += 1;
    }
    proof {
        assert forall|i: int| 0 <= i < 24 implies part@[i] == bytes@.subrange(
            from as int,
            from + 24,
        )[i] by {
            assert(bytes@[from + i] == part@[i]);
        }
        assert(part@ =~= bytes@.subrange(from as int, from + 24));
    }
    part
}

/// Whether `bytes` starts with `prefix`.
pub fn starts_with(bytes: &[u8], prefix: &[u8]) -> (found: bool)
    ensures
        found == (prefix@.len() <= bytes@.len() && bytes@.take(prefix@.len() as int) == prefix@),
{
    if bytes.len() < prefix.len() {
        return false;
    }
    let mut index: usize = 0;
    while index < prefix.len()
        invariant
            index <= prefix@.len() <= bytes@.len(),
            forall|i: int| 0 <= i < index ==> bytes@[i] == prefix@[i],
        decreases prefix@.len() - index,
    {
        if bytes[index] != prefix[index] {
            proof {
                assert(bytes@.take(prefix@.len() as int)[index as int] != prefix@[index as int]);
            }
            return false;
        }
        index += 1;
    }
    proof {
        assert(bytes@.take(prefix@.len() as int) == prefix@);
    }
    true
}

} // verus!
