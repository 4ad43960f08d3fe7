//! Byte orders and the positional reading of integers in byte sequences.
//!
//! An unsigned integer of `width` bytes is a number below `256^width`; its
//! bytes are its base-256 digits, least significant first in little-endian
//! order and most significant first in big-endian order.

use vstd::prelude::*;
use vstd::arithmetic::div_mod::{
    lemma_div_denominator, lemma_fundamental_div_mod, lemma_mod_breakdown, lemma_small_mod,
};

verus! {

/// A concrete order of the bytes of a multi-byte integer.
#[derive(Clone, Copy, Debug, PartialEq, Eq, Structural)]
pub enum ByteOrder {
    /// Most significant byte first.
    Big,
    /// Least significant byte first.
    Little,
}

/// The byte order asked for by a record or a field.
#[derive(Clone, Copy, Debug, PartialEq, Eq, Structural)]
pub enum Endian {
    /// Always big-endian.
    Big,
    /// Always little-endian.
    Little,
    /// No conversion: the order of the machine the record lives on.
    Default,
}

impl Endian {
    /// The concrete order that this directive stands for on a machine whose
    /// own order is `native`.
    pub open spec fn resolve(self, native: ByteOrder) -> ByteOrder {
        match self {
            Endian::Big => ByteOrder::Big,
            Endian::Little => ByteOrder::Little,
            Endian::Default => native,
        }
    }

    /// Computes [`Endian::resolve`].
    pub fn byte_order(self, native: ByteOrder) -> (order: ByteOrder)
        ensures
            order == self.resolve(native),
    {
        match self {
            Endian::Big => ByteOrder::Big,
            Endian::Little => ByteOrder::Little,
            Endian::Default => native,
        }
    }
}

/// `256^n`.
pub open spec fn pow256(n: nat) -> nat
    decreases n,
{
    if n == 0 {
        1
    } else {
        256 * pow256((n - 1) as nat)
    }
}

/// The number whose little-endian digits are `bytes`.
pub open spec fn le_value(bytes: Seq<u8>) -> nat
    decreases bytes.len(),
{
    if bytes.len() == 0 {
        0
    } else {
        bytes[0] as nat + 256 * le_value(bytes.drop_first())
    }
}

/// The number whose big-endian digits are `bytes`.
pub open spec fn be_value(bytes: Seq<u8>) -> nat
    decreases bytes.len(),
{
    if bytes.len() == 0 {
        0
    } else {
        256 * be_value(bytes.drop_last()) + bytes.last() as nat
    }
}

/// The number that `bytes` spell in the given order.
pub open spec fn value_of(bytes: Seq<u8>, order: ByteOrder) -> nat {
    match order {
        ByteOrder::Big => be_value(bytes),
        ByteOrder::Little => le_value(bytes),
    }
}

/// The base-256 digit of `value` with weight `256^k`.
pub open spec fn digit(value: nat, k: nat) -> u8 {
    ((value / pow256(k)) % 256) as u8
}

/// The `width` low digits of `value`, laid out in the given order. Digits
/// above `width` are dropped, so the bytes spell `value % 256^width`.
pub open spec fn bytes_of(value: nat, width: nat, order: ByteOrder) -> Seq<u8> {
    Seq::new(
        width,
        |k: int|
            match order {
                ByteOrder::Little => digit(value, k as nat),
                ByteOrder::Big => digit(value, (width - 1 - k) as nat),
            },
    )
}

/// `base` with `patch` laid over it from index `offset` on. Where the patch
/// reaches past the end of `base` the result is longer than `base`.
pub open spec fn overlay(base: Seq<u8>, offset: int, patch: Seq<u8>) -> Seq<u8> {
    Seq::new(
        if offset + patch.len() > base.len() {
            (offset + patch.len()) as nat
        } else {
            base.len()
        },
        |i: int|
            if offset <= i < offset + patch.len() {
                patch[i - offset]
            } else {
                base[i]
            },
    )
}

/// Powers of 256 are positive.
pub proof fn lemma_pow256_positive(n: nat)
    ensures
        pow256(n) > 0,
    decreases n,
{
    if n > 0 {
        lemma_pow256_positive((n - 1) as nat);
    }
}

/// Powers of 256 grow with the exponent.
pub proof fn lemma_pow256_monotonic(a: nat, b: nat)
    requires
        a <= b,
    ensures
        pow256(a) <= pow256(b),
    decreases b,
{
    if a < b {
        lemma_pow256_monotonic(a, (b - 1) as nat);
        lemma_pow256_positive((b - 1) as nat);
    }
}

/// The powers of 256 that bound the machine's integer types.
pub proof fn lemma_pow256_values()
    ensures
        pow256(0) == 1,
        pow256(1) == 0x100,
        pow256(2) == 0x1_0000,
        pow256(4) == 0x1_0000_0000,
        pow256(8) == 0x1_0000_0000_0000_0000,
        pow256(16) == 0x1_0000_0000_0000_0000_0000_0000_0000_0000,
{
    reveal_with_fuel(pow256, 17);
}

/// The digits of `value / 256` are those of `value`, one place down.
pub proof fn lemma_digit_shift(value: nat, k: nat)
    ensures
        digit(value / 256, k) == digit(value, k + 1),
{
    lemma_pow256_positive(k);
    lemma_div_denominator(value as int, 256, pow256(k) as int);
    assert(256 * pow256(k) == pow256(k + 1));
}

/// Dropping the least significant byte of an encoding leaves the encoding
/// of the value divided by 256.
proof fn lemma_bytes_of_step(value: nat, width: nat, order: ByteOrder)
    requires
        width > 0,
    ensures
        order == ByteOrder::Little ==> {
            &&& bytes_of(value, width, order)[0] == (value % 256) as u8
            &&& bytes_of(value, width, order).drop_first() == bytes_of(
                value / 256,
                (width - 1) as nat,
                order,
            )
        },
        order == ByteOrder::Big ==> {
            &&& bytes_of(value, width, order).last() == (value % 256) as u8
            &&& bytes_of(value, width, order).drop_last() == bytes_of(
                value / 256,
                (width - 1) as nat,
                order,
            )
        },
{
    let full = bytes_of(value, width, order);
    let rest = bytes_of(value / 256, (width - 1) as nat, order);
    assert(pow256(0) == 1);
    assert(digit(value, 0) == (value % 256) as u8);
    match order {
        ByteOrder::Little => {
            assert forall|k: int| 0 <= k < width - 1 implies full.drop_first()[k] == rest[k] by {
                lemma_digit_shift(value, k as nat);
            }
            assert(full.drop_first() =~= rest);
        },
        ByteOrder::Big => {
            assert forall|k: int| 0 <= k < width - 1 implies full.drop_last()[k] == rest[k] by {
                lemma_digit_shift(value, (width - 2 - k) as nat);
            }
            assert(full.drop_last() =~= rest);
        },
    }
}

/// A sequence of `n` bytes spells a number below `256^n`.
pub proof fn lemma_value_bound(bytes: Seq<u8>, order: ByteOrder)
    ensures
        value_of(bytes, order) < pow256(bytes.len()),
    decreases bytes.len(),
{
    if bytes.len() > 0 {
        match order {
            ByteOrder::Little => lemma_value_bound(bytes.drop_first(), order),
            ByteOrder::Big => lemma_value_bound(bytes.drop_last(), order),
        }
    }
}

/// Reading back an encoding gives the value, reduced to the width.
pub proof fn lemma_value_of_bytes(value: nat, width: nat, order: ByteOrder)
    ensures
        value_of(bytes_of(value, width, order), order) == value % pow256(width),
    decreases width,
{
    if width > 0 {
        let rest = (width - 1) as nat;
        lemma_bytes_of_step(value, width, order);
        lemma_value_of_bytes(value / 256, rest, order);
        lemma_pow256_positive(rest);
        lemma_mod_breakdown(value as int, 256, pow256(rest) as int);
    }
}

/// A value that fits the width survives encoding and decoding.
pub proof fn lemma_decode_encode(value: nat, width: nat, order: ByteOrder)
    requires
        value < pow256(width),
    ensures
        bytes_of(value, width, order).len() == width,
        value_of(bytes_of(value, width, order), order) == value,
{
    lemma_value_of_bytes(value, width, order);
    lemma_small_mod(value, pow256(width));
}

/// Every byte sequence is the encoding of the number it spells.
pub proof fn lemma_encode_decode(bytes: Seq<u8>, order: ByteOrder)
    ensures
        bytes_of(value_of(bytes, order), bytes.len(), order) == bytes,
    decreases bytes.len(),
{
    let value = value_of(bytes, order);
    let full = bytes_of(value, bytes.len(), order);
    if bytes.len() > 0 {
        lemma_bytes_of_step(value, bytes.len(), order);
        match order {
            ByteOrder::Little => {
                let tail = bytes.drop_first();
                lemma_encode_decode(tail, order);
                lemma_fundamental_div_mod(value as int, 256);
                assert(value / 256 == le_value(tail) && value % 256 == bytes[0]);
                assert forall|k: int| 0 <= k < bytes.len() implies full[k] == bytes[k] by {
                    if k > 0 {
                        assert(full[k] == full.drop_first()[k - 1]);
                        assert(bytes[k] == tail[k - 1]);
                    }
                }
            },
            ByteOrder::Big => {
                let front = bytes.drop_last();
                lemma_encode_decode(front, order);
                lemma_fundamental_div_mod(value as int, 256);
                assert(value / 256 == be_value(front) && value % 256 == bytes.last());
                assert forall|k: int| 0 <= k < bytes.len() implies full[k] == bytes[k] by {
                    if k < bytes.len() - 1 {
                        assert(full[k] == full.drop_last()[k]);
                        assert(bytes[k] == front[k]);
                    }
                }
            },
        }
    }
    assert(full =~= bytes);
}

/// Reads the `width` bytes of `bytes` from `offset` on as one unsigned
/// integer in the given order.
pub fn decode(bytes: &[u8], offset: usize, width: usize, order: ByteOrder) -> (value: u128)
    requires
        width <= 16,
        offset + width <= bytes@.len(),
    ensures
        value == value_of(bytes@.subrange(offset as int, offset + width), order),
        value < pow256(width as nat),
{
    let ghost field = bytes@.subrange(offset as int, offset + width);
    let mut acc: u128 = 0;
    let mut k: usize = 0;
    assert(pow256(0) == 1);
    while k < width
        invariant
            k <= width <= 16,
            offset + width <= bytes.len(),
            field == bytes@.subrange(offset as int, offset + width),
            order == ByteOrder::Big ==> acc == be_value(field.subrange(0, k as int)),
            order == ByteOrder::Little ==> acc == le_value(field.subrange(width - k, width as int)),
            acc < pow256(k as nat),
        decreases width - k,
    {
        let index: usize = match order {
            ByteOrder::Big => offset + k,
            ByteOrder::Little => offset + (width - 1 - k),
        };
        let byte: u8 = bytes[index];
        proof {
            lemma_pow256_monotonic((k + 1) as nat, 16);
            lemma_pow256_values();
            match order {
                ByteOrder::Big => {
                    let next = field.subrange(0, k + 1);
                    assert(next.drop_last() == field.subrange(0, k as int));
                    assert(next.last() == byte);
                },
                ByteOrder::Little => {
                    let next = field.subrange(width - k - 1, width as int);
                    assert(next.drop_first() == field.subrange(width - k, width as int));
                    assert(next[0] == byte);
                },
            }
        }
        acc = acc * 256 + byte as u128;
        k = k + 1;
    }
    proof {
        assert(field.subrange(0, width as int) == field);
    }
    acc
}

/// Writes the `width` low bytes of `value` into `buffer` from `offset` on,
/// in the given order, and leaves every other byte as it was.
pub fn encode(buffer: &mut [u8], offset: usize, width: usize, value: u128, order: ByteOrder)
    requires
        offset + width <= old(buffer)@.len(),
    ensures
        final(buffer)@ == overlay(old(buffer)@, offset as int, bytes_of(value as nat, width as nat, order)),
        final(buffer)@.len() == old(buffer)@.len(),
{
    let ghost image = bytes_of(value as nat, width as nat, order);
    let mut rest: u128 = value;
    let mut k: usize = 0;
    assert(pow256(0) == 1);
    while k < width
        invariant
            k <= width,
            offset + width <= buffer.len(),
            buffer@.len() == old(buffer)@.len(),
            image == bytes_of(value as nat, width as nat, order),
            rest == value as nat / pow256(k as nat),
            forall|i: int|
                0 <= i < buffer@.len() ==> buffer@[i] == if order == ByteOrder::Little && offset
                    <= i < offset + k {
                    image[i - offset]
                } else if order == ByteOrder::Big && offset + width - k <= i < offset + width {
                    image[i - offset]
                } else {
                    old(buffer)@[i]
                },
        decreases width - k,
    {
        let index: usize = match order {
            ByteOrder::Little => offset + k,
            ByteOrder::Big => offset + (width - 1 - k),
        };
        proof {
            lemma_pow256_positive(k as nat);
            lemma_div_denominator(value as int, pow256(k as nat) as int, 256);
            assert(pow256(k as nat) * 256 == pow256((k + 1) as nat));
        }
        buffer[index] = (rest % 256) as u8;
        rest = rest / 256;
        k = k + 1;
    }
    assert(buffer@ =~= overlay(old(buffer)@, offset as int, image));
}

/// Copies `source` into `target` from `offset` on and leaves every other
/// byte as it was.
pub fn overwrite(target: &mut [u8], offset: usize, source: &[u8])
    requires
        offset + source@.len() <= old(target)@.len(),
    ensures
        final(target)@ == overlay(old(target)@, offset as int, source@),
        final(target)@.len() == old(target)@.len(),
{
    let mut k: usize = 0;
    while k < source.len()
        invariant
            k <= source.len(),
            offset + source.len() <= target.len(),
            target@.len() == old(target)@.len(),
            forall|i: int|
                0 <= i < target@.len() ==> target@[i] == if offset <= i < offset + k {
                    source@[i - offset]
                } else {
                    old(target)@[i]
                },
        decreases source.len() - k,
    {
        target[offset + k] = source[k];
        k = k + 1;
    }
    assert(target@ =~= overlay(old(target)@, offset as int, source@));
}

/// The bytes of `value` as this machine keeps them in memory, from
/// `u16::to_ne_bytes`. Which of the two orders a machine uses is not known
/// here, so the contract only claims that it is one of them.
#[verifier::external_body]
fn native_bytes(value: u16) -> (bytes: [u8; 2])
    ensures
        bytes@ == bytes_of(value as nat, 2, ByteOrder::Big) || bytes@ == bytes_of(
            value as nat,
            2,
            ByteOrder::Little,
        ),
{
    value.to_ne_bytes()
}

/// The byte order of the machine that runs this code, from [`probe_order`].
pub fn native_order() -> (order: ByteOrder) {
    probe_order(native_bytes(1))
}

/// The byte order that shows in the two bytes of the 16-bit number 1:
/// little-endian if the first byte is the 1, big-endian if not.
pub open spec fn spec_probe_order(probe: Seq<u8>) -> ByteOrder {
    if probe[0] == 1 {
        ByteOrder::Little
    } else {
        ByteOrder::Big
    }
}

/// Computes [`spec_probe_order`]. Handed the bytes that a machine keeps the
/// 16-bit number 1 in, it tells the machine's byte order.
pub fn probe_order(probe: [u8; 2]) -> (order: ByteOrder)
    ensures
        order == spec_probe_order(probe@),
{
    if probe[0] == 1 {
        ByteOrder::Little
    } else {
        ByteOrder::Big
    }
}

/// The probe tells the two orders apart: from the bytes of 1 in either
/// order it reads that order.
pub proof fn lemma_probe_tells_order(order: ByteOrder)
    ensures
        spec_probe_order(bytes_of(1, 2, order)) == order,
{
    lemma_pow256_values();
}

} // verus!
