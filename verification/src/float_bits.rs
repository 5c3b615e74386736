//! Floating-point numbers as their IEEE 754 bit patterns.
//!
//! Comparing two numbers, and telling the finite from the others, needs no
//! arithmetic on them: the patterns, read as integers, are in order. A
//! pattern's top bit is the sign and the rest its magnitude.
use vstd::prelude::*;

verus! {

/// The bits of a 64-bit number.
pub type F64Bits = u64;

/// The bits of a 32-bit number.
pub type F32Bits = u32;

/// The bits of 1.
pub const ONE: u64 = 0x3ff0_0000_0000_0000;

/// The sign bit of a 64-bit number.
pub const SIGN: u64 = 0x8000_0000_0000_0000;

/// The magnitude of a 64-bit infinity: finite magnitudes are below it, those
/// that are not a number above.
pub const INFINITE: u64 = 0x7ff0_0000_0000_0000;

/// The sign bit of a 32-bit number.
pub const SIGN32: u32 = 0x8000_0000;

/// The magnitude of a 32-bit infinity.
pub const INFINITE32: u32 = 0x7f80_0000;

/// The pattern without its sign.
pub open spec fn magnitude(bits: u64) -> int {
    if bits >= SIGN {
        bits - SIGN
    } else {
        bits as int
    }
}

/// The number is finite.
pub open spec fn finite(bits: u64) -> bool {
    magnitude(bits) < INFINITE
}

/// The pattern is a number, possibly an infinite one.
pub open spec fn is_number(bits: u64) -> bool {
    magnitude(bits) <= INFINITE
}

/// A position on the number line: two numbers compare as their positions do,
/// and both zeros stand at 0.
pub open spec fn position(bits: u64) -> int {
    if bits >= SIGN {
        -magnitude(bits)
    } else {
        magnitude(bits)
    }
}

/// A position in IEEE 754's total order, in which negative zero precedes zero
/// and everything that is not a number has a place.
pub open spec fn total_position(bits: u64) -> int {
    if bits >= SIGN {
        -magnitude(bits) - 1
    } else {
        magnitude(bits)
    }
}

/// `a >= b` on numbers; false where one of them is not a number.
pub open spec fn at_least(a: u64, b: u64) -> bool {
    is_number(a) && is_number(b) && position(a) >= position(b)
}

/// The 32-bit number is finite.
pub open spec fn finite32(bits: u32) -> bool {
    if bits >= SIGN32 {
        bits - SIGN32 < INFINITE32
    } else {
        bits < INFINITE32
    }
}

/// The 32-bit pattern is a number, possibly an infinite one.
pub open spec fn is_number32(bits: u32) -> bool {
    if bits >= SIGN32 {
        bits - SIGN32 <= INFINITE32
    } else {
        bits <= INFINITE32
    }
}

/// The position of a 32-bit number on the number line.
pub open spec fn position32(bits: u32) -> int {
    if bits >= SIGN32 {
        -(bits - SIGN32)
    } else {
        bits as int
    }
}

pub fn position_of32(bits: u32) -> (p: i64)
    ensures
        p == position32(bits),
{
    if bits >= SIGN32 {
        -((bits - SIGN32) as i64)
    } else {
        bits as i64
    }
}

pub fn magnitude_of(bits: u64) -> (m: u64)
    ensures
        m == magnitude(bits),
        m < SIGN,
{
    if bits >= SIGN {
        bits - SIGN
    } else {
        bits
    }
}

pub fn is_finite(bits: u64) -> (r: bool)
    ensures
        r == finite(bits),
{
    magnitude_of(bits) < INFINITE
}

pub fn is_finite32(bits: u32) -> (r: bool)
    ensures
        r == finite32(bits),
{
    if bits >= SIGN32 {
        bits - SIGN32 < INFINITE32
    } else {
        bits < INFINITE32
    }
}

pub fn position_of(bits: u64) -> (p: i64)
    ensures
        p == position(bits),
{
    let m = magnitude_of(bits) as i64;
    if bits >= SIGN {
        -m
    } else {
        m
    }
}

pub fn total_position_of(bits: u64) -> (p: i64)
    ensures
        p == total_position(bits),
{
    let m = magnitude_of(bits) as i64;
    if bits >= SIGN {
        -m - 1
    } else {
        m
    }
}

pub fn is_at_least(a: u64, b: u64) -> (r: bool)
    ensures
        r == at_least(a, b),
{
    magnitude_of(a) <= INFINITE && magnitude_of(b) <= INFINITE && position_of(a) >= position_of(b)
}

/// The lowest `n` bytes of `v`, least significant first.
pub open spec fn le_bytes(v: nat, n: nat) -> Seq<u8>
    decreases n,
{
    if n == 0 {
        Seq::empty()
    } else {
        seq![(v % 256) as u8] + le_bytes(v / 256, (n - 1) as nat)
    }
}

/// The number that bytes stand for, least significant first.
pub open spec fn le_value(bytes: Seq<u8>) -> nat
    decreases bytes.len(),
{
    if bytes.len() == 0 {
        0
    } else {
        bytes[0] as nat + 256 * le_value(bytes.drop_first())
    }
}

pub open spec fn pow256(n: nat) -> nat
    decreases n,
{
    if n == 0 {
        1
    } else {
        256 * pow256((n - 1) as nat)
    }
}

/// Bytes of a number stand for that number again.
pub proof fn law_le_bytes_round_trip(v: nat, n: nat)
    requires
        v < pow256(n),
    ensures
        le_bytes(v, n).len() == n,
        le_value(le_bytes(v, n)) == v,
    decreases n,
{
    if n > 0 {
        assert(v / 256 < pow256((n - 1) as nat));
        law_le_bytes_round_trip(v / 256, (n - 1) as nat);
        assert(le_bytes(v, n).drop_first() =~= le_bytes(v / 256, (n - 1) as nat));
    }
}

pub proof fn lemma_le_len(v: nat, n: nat)
    ensures
        le_bytes(v, n).len() == n,
    decreases n,
{
    if n > 0 {
        lemma_le_len(v / 256, (n - 1) as nat);
    }
}

/// Append the lowest `n` bytes of `v`, least significant first.
pub fn push_le(out: &mut Vec<u8>, v: u64, n: usize)
    ensures
        final(out)@ == old(out)@ + le_bytes(v as nat, n as nat),
{
    let mut rest: u64 = v;
    let mut i: usize = 0;
    let ghost start = out@;
    proof {
        assert(start + le_bytes(v as nat, n as nat) =~= out@ + le_bytes(rest as nat, n as nat));
    }
    while i < n
        invariant
            i <= n,
            out@ + le_bytes(rest as nat, (n - i) as nat) == start + le_bytes(v as nat, n as nat),
        decreases n - i,
    {
        let ghost before = out@;
        let ghost tail = le_bytes((rest / 256) as nat, (n - i - 1) as nat);
        let byte = (rest % 256) as u8;
        out.push(byte);
        proof {
            assert(before + (seq![byte] + tail) =~= out@ + tail);
        }
        rest = rest / 256;
        i += 1;
    }
    proof {
        assert(out@ + Seq::<u8>::empty() =~= out@);
    }
}

/// The bytes of a vector of 32-bit numbers.
pub open spec fn vector_bytes(vector: Seq<u32>) -> Seq<u8>
    decreases vector.len(),
{
    if vector.len() == 0 {
        Seq::empty()
    } else {
        vector_bytes(vector.drop_last()) + le_bytes(vector.last() as nat, 4)
    }
}

/// The bytes of a vector, four to a number, least significant first.
pub fn encode_vector(vector: &Vec<u32>) -> (bytes: Vec<u8>)
    ensures
        bytes@ == vector_bytes(vector@),
{
    let mut bytes: Vec<u8> = Vec::new();
    let mut i: usize = 0;
    while i < vector.len()
        invariant
            i <= vector.len(),
            bytes@ == vector_bytes(vector@.take(i as int)),
        decreases vector.len() - i,
    {
        push_le(&mut bytes, vector[i] as u64, 4);
        proof {
            assert(vector@.take(i + 1).drop_last() =~= vector@.take(i as int));
        }
        i += 1;
    }
    proof {
        assert(vector@.take(i as int) =~= vector@);
    }
    bytes
}

/// The numbers that bytes stand for, four bytes to a number.
pub open spec fn bytes_vector(bytes: Seq<u8>) -> Seq<u32>
    decreases bytes.len(),
{
    if bytes.len() < 4 {
        Seq::empty()
    } else {
        seq![le_value(bytes.take(4)) as u32] + bytes_vector(bytes.skip(4))
    }
}

/// The vector that a stored blob holds; none where its length is not a
/// multiple of four.
pub fn decode_vector(bytes: &Vec<u8>) -> (vector: Option<Vec<u32>>)
    ensures
        match vector {
            Some(v) => bytes.len() % 4 == 0 && v@ == bytes_vector(bytes@),
            None => bytes.len() % 4 != 0,
        },
{
    if bytes.len() % 4 != 0 {
        return None;
    }
    let mut vector: Vec<u32> = Vec::new();
    let mut i: usize = 0;
    proof {
        assert(bytes@.skip(0) =~= bytes@);
        assert(vector@ + bytes_vector(bytes@) =~= bytes_vector(bytes@));
    }
    while i < bytes.len()
        invariant
            i <= bytes.len(),
            i % 4 == 0,
            bytes.len() % 4 == 0,
            vector@ + bytes_vector(bytes@.skip(i as int)) == bytes_vector(bytes@),
        decreases bytes.len() - i,
    {
        let ghost rest = bytes@.skip(i as int);
        let ghost before = vector@;
        let value: u32 = bytes[i] as u32 + 256 * (bytes[i + 1] as u32) + 65536 * (bytes[i
            + 2] as u32) + 16777216 * (bytes[i + 3] as u32);
        proof {
            let four = rest.take(4);
            reveal_with_fuel(le_value, 5);
            assert(four.drop_first() =~= rest.subrange(1, 4));
            assert(rest.subrange(1, 4).drop_first() =~= rest.subrange(2, 4));
            assert(rest.subrange(2, 4).drop_first() =~= rest.subrange(3, 4));
            assert(rest.subrange(3, 4).drop_first() =~= Seq::empty());
            assert(le_value(four) == value);
            assert(rest.skip(4) =~= bytes@.skip(i + 4));
        }
        vector.push(value);
        i += 4;
        proof {
            assert(vector@ + bytes_vector(bytes@.skip(i as int)) =~= before + (seq![value]
                + bytes_vector(bytes@.skip(i as int))));
        }
    }
    proof {
        assert(bytes@.skip(i as int) =~= Seq::empty());
        assert(vector@ + Seq::<u32>::empty() =~= vector@);
    }
    Some(vector)
}

proof fn lemma_bytes_vector_append(a: Seq<u8>, b: Seq<u8>)
    requires
        a.len() % 4 == 0,
    ensures
        bytes_vector(a + b) == bytes_vector(a) + bytes_vector(b),
    decreases a.len(),
{
    if a.len() == 0 {
        assert(a + b =~= b);
        assert(bytes_vector(a) + bytes_vector(b) =~= bytes_vector(b));
    } else {
        assert((a + b).take(4) =~= a.take(4));
        assert((a + b).skip(4) =~= a.skip(4) + b);
        lemma_bytes_vector_append(a.skip(4), b);
        assert(bytes_vector(a + b) =~= bytes_vector(a) + bytes_vector(b));
    }
}

/// A vector reads back from its bytes.
pub proof fn law_vector_round_trip(vector: Seq<u32>)
    ensures
        vector_bytes(vector).len() == 4 * vector.len(),
        bytes_vector(vector_bytes(vector)) == vector,
    decreases vector.len(),
{
    if vector.len() > 0 {
        let head = vector.drop_last();
        let tail = le_bytes(vector.last() as nat, 4);
        law_vector_round_trip(head);
        assert(pow256(4) == 0x1_0000_0000) by {
            reveal_with_fuel(pow256, 5);
        }
        law_le_bytes_round_trip(vector.last() as nat, 4);
        lemma_bytes_vector_append(vector_bytes(head), tail);
        assert(tail.take(4) =~= tail);
        assert(tail.skip(4) =~= Seq::empty());
        reveal_with_fuel(bytes_vector, 2);
        assert(bytes_vector(tail) =~= seq![vector.last()]);
        assert(vector =~= head + seq![vector.last()]);
    } else {
        assert(vector =~= Seq::empty());
    }
}

/// The total order agrees with comparison wherever the two numbers compare as
/// different.
pub proof fn law_total_order_extends_comparison(a: u64, b: u64)
    ensures
        position(a) < position(b) ==> total_position(a) < total_position(b),
        total_position(a) == total_position(b) ==> a == b,
{
}

/// Patterns compare as the numbers do: positive ones as integers, negative ones
/// the other way round, a negative one below a positive one, and the two zeros
/// are equal. What is not a number compares with nothing.
pub proof fn law_patterns_compare_as_numbers(a: u64, b: u64)
    ensures
        is_number(a) <==> a <= 0x7ff0_0000_0000_0000 || 0x8000_0000_0000_0000 <= a
            <= 0xfff0_0000_0000_0000,
        finite(a) <==> a < 0x7ff0_0000_0000_0000 || 0x8000_0000_0000_0000 <= a
            < 0xfff0_0000_0000_0000,
        at_least(a, b) ==> is_number(a) && is_number(b),
        is_number(a) && is_number(b) ==> {
            &&& a < 0x8000_0000_0000_0000 && b < 0x8000_0000_0000_0000 ==> (at_least(a, b) <==> a
                >= b)
            &&& a >= 0x8000_0000_0000_0000 && b >= 0x8000_0000_0000_0000 ==> (at_least(a, b) <==> a
                <= b)
            &&& a < 0x8000_0000_0000_0000 && b >= 0x8000_0000_0000_0000 ==> at_least(a, b) && (
            at_least(b, a) <==> a == 0 && b == 0x8000_0000_0000_0000)
        },
        a < 0x8000_0000_0000_0000 && b < 0x8000_0000_0000_0000 ==> (total_position(a)
            < total_position(b) <==> a < b),
        a >= 0x8000_0000_0000_0000 && b >= 0x8000_0000_0000_0000 ==> (total_position(a)
            < total_position(b) <==> a > b),
        a < 0x8000_0000_0000_0000 && b >= 0x8000_0000_0000_0000 ==> total_position(b)
            < total_position(a),
{
}

/// The same of 32-bit patterns.
pub proof fn law_short_patterns_compare_as_numbers(a: u32, b: u32)
    ensures
        is_number32(a) <==> a <= 0x7f80_0000 || 0x8000_0000 <= a <= 0xff80_0000,
        finite32(a) <==> a < 0x7f80_0000 || 0x8000_0000 <= a < 0xff80_0000,
        a < 0x8000_0000 && b < 0x8000_0000 ==> (position32(a) < position32(b) <==> a < b),
        a >= 0x8000_0000 && b >= 0x8000_0000 ==> (position32(a) < position32(b) <==> a > b),
        a < 0x8000_0000 && b >= 0x8000_0000 ==> position32(b) <= position32(a) && (position32(a)
            == position32(b) <==> a == 0 && b == 0x8000_0000),
{
}

} // verus!
