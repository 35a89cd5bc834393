//! Byte strings: big-endian numbers, comparison, copying.

use vstd::prelude::*;

verus! {

/// The `width` low-order bytes of `value`, most significant byte first.
pub open spec fn be_bytes(value: nat, width: nat) -> Seq<u8>
    decreases width,
{
    if width == 0 {
        Seq::empty()
    } else {
        be_bytes(value / 256, (width - 1) as nat).push((value % 256) as u8)
    }
}

/// The number that `bytes` spells, most significant byte first.
pub open spec fn be_value(bytes: Seq<u8>) -> nat
    decreases bytes.len(),
{
    if bytes.len() == 0 {
        0
    } else {
        be_value(bytes.drop_last()) * 256 + bytes.last() as nat
    }
}

/// How many numbers fit into `width` bytes.
pub open spec fn be_limit(width: nat) -> nat
    decreases width,
{
    if width == 0 {
        1
    } else {
        256 * be_limit((width - 1) as nat)
    }
}

/// `be_bytes` yields exactly `width` bytes.
pub broadcast proof fn lemma_be_bytes_len(value: nat, width: nat)
    ensures
        #[trigger] be_bytes(value, width).len() == width,
    decreases width,
{
    if width > 0 {
        lemma_be_bytes_len(value / 256, (width - 1) as nat);
    }
}

/// The limits of the widths that occur on the wire.
pub proof fn lemma_be_limits()
    ensures
        be_limit(1) == 0x100,
        be_limit(2) == 0x1_0000,
        be_limit(4) == 0x1_0000_0000,
        be_limit(8) == 0x1_0000_0000_0000_0000,
        be_limit(16) == 0x1_0000_0000_0000_0000_0000_0000_0000_0000,
{
    reveal_with_fuel(be_limit, 17);
}

/// Reading back a number that fits its width gives the number.
pub proof fn lemma_be_round_trip(value: nat, width: nat)
    requires
        value < be_limit(width),
    ensures
        be_value(be_bytes(value, width)) == value,
    decreases width,
{
    if width > 0 {
        lemma_be_round_trip(value / 256, (width - 1) as nat);
        let bytes = be_bytes(value, width);
        assert(bytes.drop_last() =~= be_bytes(value / 256, (width - 1) as nat));
    }
}

/// A byte string spells a number below the limit of its length.
pub proof fn lemma_be_value_bound(bytes: Seq<u8>)
    ensures
        be_value(bytes) < be_limit(bytes.len()),
    decreases bytes.len(),
{
    if bytes.len() > 0 {
        lemma_be_value_bound(bytes.drop_last());
    }
}

/// Writing the number that a byte string spells gives the byte string.
pub proof fn lemma_be_value_round_trip(bytes: Seq<u8>)
    ensures
        be_bytes(be_value(bytes), bytes.len()) == bytes,
    decreases bytes.len(),
{
    if bytes.len() > 0 {
        let front = bytes.drop_last();
        lemma_be_value_round_trip(front);
        let value = be_value(bytes);
        assert(value / 256 == be_value(front));
        assert(value % 256 == bytes.last() as nat);
        assert(front.push(bytes.last()) =~= bytes);
    }
}

/// Appends the `width` low-order bytes of `value`, most significant first.
pub fn push_be(output: &mut Vec<u8>, value: u128, width: usize)
    ensures
        final(output)@ == old(output)@ + be_bytes(value as nat, width as nat),
    decreases width,
{
    if width > 0 {
        push_be(output, value / 256, width - 1);
        output.push((value % 256) as u8);
        assert(output@ =~= old(output)@ + be_bytes(value as nat, width as nat));
    } else {
        assert(output@ =~= old(output)@ + be_bytes(value as nat, 0));
    }
}

/// The number that at most eight bytes spell, most significant first.
pub fn read_be(bytes: &[u8]) -> (value: u64)
    requires
        bytes@.len() <= 8,
    ensures
        value == be_value(bytes@),
{
    let mut value: u64 = 0;
    let mut i: usize = 0;
    proof {
        lemma_be_limits();
        assert(bytes@.take(0) =~= Seq::<u8>::empty());
        assert forall|n: nat| n <= 7 implies be_limit(n) <= 0x100_0000_0000_0000 by {
            reveal_with_fuel(be_limit, 9);
        }
    }
    while i < bytes.len()
        invariant
            i <= bytes@.len() <= 8,
            value == be_value(bytes@.take(i as int)),
            forall|n: nat| n <= 7 ==> be_limit(n) <= 0x100_0000_0000_0000,
        decreases bytes@.len() - i,
    {
        proof {
            lemma_be_value_bound(bytes@.take(i as int));
            assert(be_limit(i as nat) <= 0x100_0000_0000_0000);
            let next = bytes@.take(i + 1);
            assert(next.drop_last() =~= bytes@.take(i as int));
            assert(next.last() == bytes@[i as int]);
        }
        value = value * 256 + bytes[i] as u64;
        i = i + 1;
    }
    assert(bytes@.take(i as int) =~= bytes@);
    value
}

/// Appends `bytes` to `output`.
pub fn append(output: &mut Vec<u8>, bytes: &[u8])
    ensures
        final(output)@ == old(output)@ + bytes@,
{
    output.extend_from_slice(bytes);
    assert(output@ =~= old(output)@ + bytes@);
}

/// An owned copy of `bytes`.
pub fn copied(bytes: &[u8]) -> (copy: Vec<u8>)
    ensures
        copy@ == bytes@,
{
    let mut copy: Vec<u8> = Vec::with_capacity(bytes.len());
    append(&mut copy, bytes);
    assert(copy@ =~= bytes@);
    copy
}

/// Whether two byte strings are the same.
pub fn same_bytes(left: &[u8], right: &[u8]) -> (same: bool)
    ensures
        same == (left@ == right@),
{
    if left.len() != right.len() {
        return false;
    }
    let mut i: usize = 0;
    while i < left.len()
        invariant
            i <= left@.len(),
            left@.len() == right@.len(),
            left@.take(i as int) == right@.take(i as int),
        decreases left@.len() - i,
    {
        if left[i] != right[i] {
            assert(left@[i as int] != right@[i as int]);
            return false;
        }
        proof {
            assert(left@.take(i + 1) =~= left@.take(i as int).push(left@[i as int]));
            assert(right@.take(i + 1) =~= right@.take(i as int).push(right@[i as int]));
        }
        i = i + 1;
    }
    proof {
        assert(left@.take(i as int) =~= left@);
        assert(right@.take(i as int) =~= right@);
    }
    true
}

/// `N` bytes as an array.
pub fn to_array<const N: usize>(bytes: &[u8]) -> (array: [u8; N])
    requires
        bytes@.len() == N,
    ensures
        array@ == bytes@,
{
    let mut array: [u8; N] = [0u8; N];
    let mut i: usize = 0;
    while i < N
        invariant
            i <= N,
            bytes@.len() == N,
            forall|j: int| 0 <= j < i ==> array@[j] == bytes@[j],
        decreases N - i,
    {
        array[i] = bytes[i];
        i = i + 1;
    }
    assert(array@ =~= bytes@);
    array
}

/// Each byte of a written number is its digit to the base 256, the highest first.
pub proof fn law_be_bytes_are_digits(value: nat, width: nat, i: int)
    requires
        0 <= i < width,
    ensures
        be_bytes(value, width).len() == width,
        be_bytes(value, width)[i] as int == (value as int / vstd::arithmetic::power::pow(
            256,
            (width - 1 - i) as nat,
        )) % 256,
    decreases width,
{
    reveal(vstd::arithmetic::power::pow);
    lemma_be_bytes_len(value, width);
    lemma_be_bytes_len(value / 256, (width - 1) as nat);
    if i < width - 1 {
        let inner = (width - 2 - i) as nat;
        law_be_bytes_are_digits(value / 256, (width - 1) as nat, i);
        vstd::arithmetic::power::lemma_pow_positive(256, inner);
        vstd::arithmetic::div_mod::lemma_div_denominator(
            value as int,
            256,
            vstd::arithmetic::power::pow(256, inner),
        );
    } else {
        assert(value as int / 1 == value);
    }
}

/// The number that two byte strings spell together is that of the first, moved up
/// by as many places as the second has, and that of the second.
pub proof fn law_be_value_of_concat(high: Seq<u8>, low: Seq<u8>)
    ensures
        be_value(high + low) == be_value(high) * vstd::arithmetic::power::pow(256, low.len())
            + be_value(low),
        forall|byte: u8| #[trigger] be_value(seq![byte]) == byte,
    decreases low.len(),
{
    reveal(vstd::arithmetic::power::pow);
    assert forall|byte: u8| #[trigger] be_value(seq![byte]) == byte by {
        assert(seq![byte].drop_last() =~= Seq::empty());
        assert(be_value(Seq::<u8>::empty()) == 0);
    }
    if low.len() == 0 {
        assert(high + low =~= high);
    } else {
        let front = low.drop_last();
        law_be_value_of_concat(high, front);
        assert((high + low).drop_last() =~= high + front);
        assert((high + low).last() == low.last());
        let power = vstd::arithmetic::power::pow(256, front.len());
        assert(be_value(high) * power * 256 == be_value(high) * (256 * power)) by (nonlinear_arith);
    }
}

} // verus!
