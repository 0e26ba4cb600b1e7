//! Numbers as little-endian bytes: the first byte counts ones, the next 256s,
//! and so on.

use vstd::prelude::*;

verus! {

/// The number that little-endian bytes stand for.
pub open spec fn le_value(bytes: Seq<u8>) -> nat
    decreases bytes.len(),
{
    if bytes.len() == 0 {
        0
    } else {
        bytes[0] as nat + 256 * le_value(bytes.drop_first())
    }
}

/// The lowest `width` little-endian bytes of a number.
pub open spec fn le_bytes(value: nat, width: nat) -> Seq<u8>
    decreases width,
{
    if width == 0 {
        Seq::empty()
    } else {
        seq![(value % 256) as u8] + le_bytes(value / 256, (width - 1) as nat)
    }
}

/// 256 to the power of `e`.
pub open spec fn pow256(e: nat) -> nat
    decreases e,
{
    if e == 0 {
        1
    } else {
        256 * pow256((e - 1) as nat)
    }
}

/// `width` bytes stand for a number below 256 to the power of `width`.
pub proof fn lemma_le_value_bound(bytes: Seq<u8>)
    ensures
        le_value(bytes) < pow256(bytes.len()),
    decreases bytes.len(),
{
    if bytes.len() > 0 {
        lemma_le_value_bound(bytes.drop_first());
    }
}

/// The bytes of a number are as many as asked for, and stand for the number where
/// it is below 256 to the power of their count.
pub proof fn lemma_le_bytes_value(value: nat, width: nat)
    ensures
        le_bytes(value, width).len() == width,
        value < pow256(width) ==> le_value(le_bytes(value, width)) == value,
    decreases width,
{
    if width > 0 {
        lemma_le_bytes_value(value / 256, (width - 1) as nat);
        let bytes = le_bytes(value, width);
        assert(bytes.drop_first() =~= le_bytes(value / 256, (width - 1) as nat));
    }
}

/// Bytes are the bytes of the number they stand for.
pub proof fn lemma_le_value_bytes(bytes: Seq<u8>)
    ensures
        le_bytes(le_value(bytes), bytes.len()) == bytes,
    decreases bytes.len(),
{
    if bytes.len() > 0 {
        let rest = bytes.drop_first();
        lemma_le_value_bytes(rest);
        let value = le_value(bytes);
        assert(value % 256 == bytes[0] as nat);
        assert(value / 256 == le_value(rest));
        assert(le_bytes(value, bytes.len()) =~= bytes);
    } else {
        assert(le_bytes(le_value(bytes), 0) =~= bytes);
    }
}

/// Bytes stand for zero exactly where each of them is zero.
pub proof fn lemma_le_value_zero(bytes: Seq<u8>)
    ensures
        le_value(bytes) == 0 <==> forall|i: int| 0 <= i < bytes.len() ==> bytes[i] == 0,
    decreases bytes.len(),
{
    if bytes.len() > 0 {
        let rest = bytes.drop_first();
        lemma_le_value_zero(rest);
        if le_value(bytes) == 0 {
            assert forall|i: int| 0 <= i < bytes.len() implies bytes[i] == 0 by {
                if i > 0 {
                    assert(rest[i - 1] == bytes[i]);
                }
            }
        }
        if forall|i: int| 0 <= i < bytes.len() ==> bytes[i] == 0 {
            assert forall|i: int| 0 <= i < rest.len() implies rest[i] == 0 by {
                assert(rest[i] == bytes[i + 1]);
            }
        }
    }
}

/// The eight bytes of a `u64`.
pub open spec fn spec_u64_bytes(value: u64) -> Seq<u8> {
    le_bytes(value as nat, 8)
}

/// The four bytes of a `u32`.
pub open spec fn spec_u32_bytes(value: u32) -> Seq<u8> {
    le_bytes(value as nat, 4)
}

/// A `u64` is the number that its eight bytes stand for, and a `u32` the number
/// that its four bytes stand for.
pub proof fn lemma_fixed_width(a: u64, b: u32)
    ensures
        spec_u64_bytes(a).len() == 8,
        le_value(spec_u64_bytes(a)) == a,
        spec_u32_bytes(b).len() == 4,
        le_value(spec_u32_bytes(b)) == b,
{
    reveal_with_fuel(pow256, 9);
    lemma_le_bytes_value(a as nat, 8);
    lemma_le_bytes_value(b as nat, 4);
}

/// Writes a number as `width` bytes, of which it needs no more.
fn encode(value: u64, width: usize) -> (bytes: Vec<u8>)
    ensures
        bytes@ == le_bytes(value as nat, width as nat),
{
    let mut bytes: Vec<u8> = Vec::new();
    let mut rest = value;
    let mut i: usize = 0;
    while i < width
        invariant
            i <= width,
            bytes@.len() == i,
            le_bytes(value as nat, width as nat) == bytes@ + le_bytes(
                rest as nat,
                (width - i) as nat,
            ),
        decreases width - i,
    {
        let ghost before = bytes@;
        bytes.push((rest % 256) as u8);
        proof {
            assert(before + le_bytes(rest as nat, (width - i) as nat) =~= bytes@ + le_bytes(
                (rest / 256) as nat,
                (width - i - 1) as nat,
            ));
        }
        rest = rest / 256;
        i = i + 1;
    }
    assert(bytes@ + le_bytes(rest as nat, 0) =~= bytes@);
    bytes
}

/// Writes a `u64` as eight bytes.
pub fn u64_to_bytes(value: u64) -> (bytes: Vec<u8>)
    ensures
        bytes@ == spec_u64_bytes(value),
        bytes@.len() == 8,
{
    proof {
        lemma_le_bytes_value(value as nat, 8);
    }
    encode(value, 8)
}

/// Writes a `u32` as four bytes.
pub fn u32_to_bytes(value: u32) -> (bytes: Vec<u8>)
    ensures
        bytes@ == spec_u32_bytes(value),
        bytes@.len() == 4,
{
    proof {
        lemma_le_bytes_value(value as nat, 4);
    }
    encode(value as u64, 4)
}

/// Reads the number that the bytes from `start` up to `end` stand for, no more
/// than eight.
fn decode(bytes: &[u8], start: usize, end: usize) -> (value: u64)
    requires
        start <= end <= bytes@.len(),
        end - start <= 8,
    ensures
        value == le_value(bytes@.subrange(start as int, end as int)),
{
    let mut value: u64 = 0;
    let mut i = end;
    while i > start
        invariant
            start <= i <= end <= bytes@.len(),
            end - start <= 8,
            value == le_value(bytes@.subrange(i as int, end as int)),
        decreases i,
    {
        i = i - 1;
        proof {
            let tail = bytes@.subrange(i as int, end as int);
            assert(tail.drop_first() =~= bytes@.subrange(i + 1, end as int));
            lemma_le_value_bound(tail.drop_first());
            lemma_pow256_grows((end - i - 1) as nat, 7);
            reveal_with_fuel(pow256, 9);
        }
        value = value * 256 + bytes[i] as u64;
    }
    value
}

/// A higher power of 256 is no smaller.
pub proof fn lemma_pow256_grows(a: nat, b: nat)
    requires
        a <= b,
    ensures
        pow256(a) <= pow256(b),
    decreases b,
{
    if a < b {
        lemma_pow256_grows(a, (b - 1) as nat);
    }
}

/// Reads the `u64` that the eight bytes from `start` on stand for.
pub fn u64_from_bytes(bytes: &[u8], start: usize) -> (value: u64)
    requires
        start + 8 <= bytes@.len(),
    ensures
        value == le_value(bytes@.subrange(start as int, start + 8)),
{
    let len = bytes.len();
    assert(start + 8 <= len);
    decode(bytes, start, start + 8)
}

/// Reads the `u32` that the four bytes from `start` on stand for.
pub fn u32_from_bytes(bytes: &[u8], start: usize) -> (value: u32)
    requires
        start + 4 <= bytes@.len(),
    ensures
        value == le_value(bytes@.subrange(start as int, start + 4)),
{
    proof {
        lemma_le_value_bound(bytes@.subrange(start as int, start + 4));
        reveal_with_fuel(pow256, 5);
    }
    let len = bytes.len();
    assert(start + 4 <= len);
    decode(bytes, start, start + 4) as u32
}

} // verus!
