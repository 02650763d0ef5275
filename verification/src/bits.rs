//! Flags packed eight to a byte, the first one in the highest bit.
use vstd::arithmetic::div_mod::{lemma_div_denominator, lemma_fundamental_div_mod};
use vstd::prelude::*;

verus! {

/// The bit at a place of a byte; place 0 is the most significant one.
pub open spec fn bit_at(byte: u8, place: int) -> bool {
    (byte >> ((7 - place) as u8)) & 1u8 == 1u8
}

/// The flags in the bytes.
pub open spec fn unpacked(data: Seq<u8>) -> Seq<bool> {
    Seq::new(8 * data.len(), |i: int| bit_at(data[i / 8], i % 8))
}

/// The flag at a place; false beyond the end.
pub open spec fn flag_at(flags: Seq<bool>, at: int) -> bool {
    0 <= at < flags.len() && flags[at]
}

/// What a flag adds to its byte.
pub open spec fn weight(flag: bool, value: u8) -> u8 {
    if flag {
        value
    } else {
        0
    }
}

/// The byte that holds the eight flags from `at` on.
pub open spec fn byte_of(flags: Seq<bool>, at: int) -> u8 {
    weight(flag_at(flags, at), 128) | weight(flag_at(flags, at + 1), 64) | weight(
        flag_at(flags, at + 2),
        32,
    ) | weight(flag_at(flags, at + 3), 16) | weight(flag_at(flags, at + 4), 8) | weight(
        flag_at(flags, at + 5),
        4,
    ) | weight(flag_at(flags, at + 6), 2) | weight(flag_at(flags, at + 7), 1)
}

/// So many bytes with the flags in them; bits without a flag are not set.
pub open spec fn packed(flags: Seq<bool>, count: nat) -> Seq<u8> {
    Seq::new(count, |j: int| byte_of(flags, 8 * j))
}

/// The eight bits of a byte are the flags that it was made of.
pub proof fn lemma_byte_of(flags: Seq<bool>, at: int, place: int)
    requires
        0 <= place < 8,
    ensures
        bit_at(byte_of(flags, at), place) == flag_at(flags, at + place),
{
    let a = flag_at(flags, at);
    let b = flag_at(flags, at + 1);
    let c = flag_at(flags, at + 2);
    let d = flag_at(flags, at + 3);
    let e = flag_at(flags, at + 4);
    let f = flag_at(flags, at + 5);
    let g = flag_at(flags, at + 6);
    let h = flag_at(flags, at + 7);
    let byte = byte_of(flags, at);
    assert(byte == (if a { 128u8 } else { 0u8 }) | (if b { 64u8 } else { 0u8 }) | (if c {
        32u8
    } else {
        0u8
    }) | (if d { 16u8 } else { 0u8 }) | (if e { 8u8 } else { 0u8 }) | (if f { 4u8 } else { 0u8 })
        | (if g { 2u8 } else { 0u8 }) | (if h { 1u8 } else { 0u8 }));
    assert(((byte >> 7u8) & 1u8 == 1u8) == a && ((byte >> 6u8) & 1u8 == 1u8) == b && ((byte >> 5u8)
        & 1u8 == 1u8) == c && ((byte >> 4u8) & 1u8 == 1u8) == d && ((byte >> 3u8) & 1u8 == 1u8) == e
        && ((byte >> 2u8) & 1u8 == 1u8) == f && ((byte >> 1u8) & 1u8 == 1u8) == g && ((byte
        >> 0u8) & 1u8 == 1u8) == h) by (bit_vector)
        requires
            byte == (if a { 128u8 } else { 0u8 }) | (if b { 64u8 } else { 0u8 }) | (if c {
                32u8
            } else {
                0u8
            }) | (if d { 16u8 } else { 0u8 }) | (if e { 8u8 } else { 0u8 }) | (if f {
                4u8
            } else {
                0u8
            }) | (if g { 2u8 } else { 0u8 }) | (if h { 1u8 } else { 0u8 }),
    ;
}

/// Flags that are packed into enough bytes come out of them again, with flags
/// that are not set behind them.
pub proof fn lemma_unpack_packed(flags: Seq<bool>, count: nat)
    ensures
        unpacked(packed(flags, count)).len() == 8 * count,
        forall|i: int|
            0 <= i < 8 * count ==> #[trigger] unpacked(packed(flags, count))[i] == flag_at(flags, i),
{
    assert forall|i: int| 0 <= i < 8 * count implies #[trigger] unpacked(packed(flags, count))[i]
        == flag_at(flags, i) by {
        lemma_byte_of(flags, 8 * (i / 8), i % 8);
    }
}

/// Bytes whose flags are packed again are the same bytes.
pub proof fn lemma_pack_unpacked(data: Seq<u8>)
    ensures
        packed(unpacked(data), data.len()) == data,
{
    let flags = unpacked(data);
    assert forall|j: int| 0 <= j < data.len() implies packed(flags, data.len())[j] == data[j] by {
        let byte = data[j];
        assert forall|k: int| 0 <= k < 8 implies #[trigger] flag_at(flags, 8 * j + k) == bit_at(
            byte,
            k,
        ) by {}
        assert(flag_at(flags, 8 * j + 0) == bit_at(byte, 0));
        let again = packed(flags, data.len())[j];
        assert(again == (if (byte >> 7u8) & 1u8 == 1u8 { 128u8 } else { 0u8 }) | (if (byte >> 6u8)
            & 1u8 == 1u8 { 64u8 } else { 0u8 }) | (if (byte >> 5u8) & 1u8 == 1u8 {
            32u8
        } else {
            0u8
        }) | (if (byte >> 4u8) & 1u8 == 1u8 { 16u8 } else { 0u8 }) | (if (byte >> 3u8) & 1u8
            == 1u8 { 8u8 } else { 0u8 }) | (if (byte >> 2u8) & 1u8 == 1u8 { 4u8 } else { 0u8 }) | (
        if (byte >> 1u8) & 1u8 == 1u8 { 2u8 } else { 0u8 }) | (if (byte >> 0u8) & 1u8 == 1u8 {
            1u8
        } else {
            0u8
        }));
        assert(again == byte) by (bit_vector)
            requires
                again == (if (byte >> 7u8) & 1u8 == 1u8 { 128u8 } else { 0u8 }) | (if (byte
                    >> 6u8) & 1u8 == 1u8 { 64u8 } else { 0u8 }) | (if (byte >> 5u8) & 1u8 == 1u8 {
                    32u8
                } else {
                    0u8
                }) | (if (byte >> 4u8) & 1u8 == 1u8 { 16u8 } else { 0u8 }) | (if (byte >> 3u8)
                    & 1u8 == 1u8 { 8u8 } else { 0u8 }) | (if (byte >> 2u8) & 1u8 == 1u8 {
                    4u8
                } else {
                    0u8
                }) | (if (byte >> 1u8) & 1u8 == 1u8 { 2u8 } else { 0u8 }) | (if (byte >> 0u8)
                    & 1u8 == 1u8 { 1u8 } else { 0u8 }),
        ;
    }
    assert(packed(flags, data.len()) =~= data);
}

/// The distance between neighbouring single-precision numbers at `n`: the
/// smallest power of two by which `n` has at most 24 bits.
pub open spec fn single_unit(n: nat) -> nat
    decreases n,
{
    if n < 0x100_0000 {
        1
    } else {
        2 * single_unit(n / 2)
    }
}

/// The number in single precision: the nearest one with 24 significant bits,
/// and the even one of two that are equally near.
pub open spec fn single(n: nat) -> nat {
    let unit = single_unit(n);
    let low = n / unit;
    let rest = n % unit;
    if 2 * rest > unit || (2 * rest == unit && low % 2 == 1) {
        (low + 1) * unit
    } else {
        low * unit
    }
}

/// How many bytes the flags take: an eighth of their number, which is taken in
/// single precision, rounded up.
pub open spec fn byte_count(flags: nat) -> nat {
    (single(flags) + 7) / 8
}

/// Up to 2^24 flags take just the bytes that they need.
pub proof fn lemma_byte_count(flags: nat)
    requires
        flags <= 0x100_0000,
    ensures
        single(flags) == flags,
        flags <= 8 * byte_count(flags) < flags + 8,
{
    if flags == 0x100_0000 {
        assert(single_unit(0x80_0000) == 1);
        assert(single_unit(flags) == 2);
    } else {
        assert(single_unit(flags) == 1);
        assert(flags / 1 == flags);
        assert(flags * 1 == flags);
    }
}

/// A number in single precision is at most twice the number.
proof fn lemma_single_bound(n: nat)
    ensures
        single_unit(n) >= 1,
        n >= 1 ==> single_unit(n) <= n,
        single(n) <= 2 * n,
    decreases n,
{
    lemma_single_unit_bound(n);
    let unit = single_unit(n) as int;
    lemma_fundamental_div_mod(n as int, unit);
    let low = n as int / unit;
    assert((low + 1) * unit == low * unit + unit) by (nonlinear_arith);
    assert(unit * low == low * unit) by (nonlinear_arith);
}

proof fn lemma_single_unit_bound(n: nat)
    ensures
        single_unit(n) >= 1,
        n >= 1 ==> single_unit(n) <= n,
    decreases n,
{
    if n >= 0x100_0000 {
        lemma_single_unit_bound(n / 2);
    }
}

/// How many bytes so many flags take.
pub fn flag_bytes(flags: usize) -> (count: usize)
    ensures
        count == byte_count(flags as nat),
{
    let n: u128 = flags as u128;
    let mut unit: u128 = 1;
    let mut low: u128 = n;
    proof {
        lemma_single_bound(flags as nat);
    }
    while low >= 0x100_0000
        invariant
            n == flags,
            unit >= 1,
            low == n / unit,
            unit * single_unit(low as nat) == single_unit(n as nat),
            single_unit(n as nat) <= n || n == 0,
            n <= usize::MAX <= u64::MAX,
        decreases low,
    {
        proof {
            lemma_div_denominator(n as int, unit as int, 2);
            let inner = single_unit((low / 2) as nat) as int;
            lemma_single_bound((low / 2) as nat);
            assert(unit * (2 * inner) == (2 * unit) * inner) by (nonlinear_arith);
            assert(2 * unit <= (2 * unit) * inner) by (nonlinear_arith)
                requires
                    inner >= 1,
                    unit >= 1,
            ;
        }
        low = low / 2;
        unit = unit * 2;
    }
    proof {
        lemma_fundamental_div_mod(n as int, unit as int);
        let l = low as int;
        let u = unit as int;
        assert((l + 1) * u == l * u + u) by (nonlinear_arith);
        assert(u * l == l * u) by (nonlinear_arith);
        assert(l * u <= n);
        assert(single_unit(low as nat) == 1);
        assert(unit * 1 == unit);
        assert(unit == single_unit(n as nat));
        assert(n % unit == (n as nat) % (unit as nat));
        assert(n / unit == (n as nat) / (unit as nat));
    }
    let rest: u128 = n % unit;
    let rounded: u128 = if 2 * rest > unit || (2 * rest == unit && low % 2 == 1) {
        (low + 1) * unit
    } else {
        low * unit
    };
    ((rounded + 7) / 8) as usize
}

/// What the flag `offset` places behind `at` adds to its byte.
fn flag_weight(flags: &Vec<bool>, at: usize, offset: usize, value: u8) -> (byte: u8)
    ensures
        byte == weight(flag_at(flags@, at + offset), value),
{
    if at < flags.len() && offset < flags.len() - at && flags[at + offset] {
        value
    } else {
        0
    }
}

/// Packs flags into bytes.
pub fn pack(flags: &Vec<bool>) -> (data: Vec<u8>)
    ensures
        data@ == packed(flags@, byte_count(flags@.len())),
{
    let count: usize = flag_bytes(flags.len());
    let mut data: Vec<u8> = Vec::with_capacity(count);
    let mut i: usize = 0;
    assert(data@ =~= packed(flags@, 0));
    while i < count
        invariant
            i <= count,
            data@ == packed(flags@, i as nat),
        decreases count - i,
    {
        let byte: u8 = if i <= flags.len() / 8 {
            let at: usize = 8 * i;
            flag_weight(flags, at, 0, 128) | flag_weight(flags, at, 1, 64) | flag_weight(
                flags,
                at,
                2,
                32,
            ) | flag_weight(flags, at, 3, 16) | flag_weight(flags, at, 4, 8) | flag_weight(
                flags,
                at,
                5,
                4,
            ) | flag_weight(flags, at, 6, 2) | flag_weight(flags, at, 7, 1)
        } else {
            assert(0u8 | 0u8 == 0u8) by (bit_vector);
            0
        };
        data.push(byte);
        i = i + 1;
        assert(data@ =~= packed(flags@, i as nat));
    }
    data
}

/// The flags in the bytes.
pub fn unpack(data: &[u8]) -> (flags: Vec<bool>)
    ensures
        flags@ == unpacked(data@),
{
    let mut flags: Vec<bool> = Vec::new();
    let mut i: usize = 0;
    while i < data.len()
        invariant
            i <= data@.len(),
            flags@ == unpacked(data@.take(i as int)),
        decreases data@.len() - i,
    {
        let byte: u8 = data[i];
        let mut bit: u8 = 8;
        while bit > 0
            invariant
                i < data@.len(),
                byte == data@[i as int],
                bit <= 8,
                flags@.len() == 8 * i + (8 - bit),
                forall|k: int|
                    0 <= k < flags@.len() ==> #[trigger] flags@[k] == bit_at(data@[k / 8], k % 8),
            decreases bit,
        {
            bit = bit - 1;
            flags.push((byte >> bit) & 1 == 1);
        }
        i = i + 1;
        assert(flags@ =~= unpacked(data@.take(i as int)));
    }
    assert(data@.take(i as int) =~= data@);
    flags
}

} // verus!
