//! Variable-length integers.
//!
//! A number is written in base 128, the least significant digit first, one digit per byte.
//! The last byte of a number is marked by its top bit.
use vstd::prelude::*;

verus! {

/// The bit that marks the last byte of a number.
pub const STOP_BIT: u8 = 128;

/// The longest encoding of a 32-bit number, in bytes.
pub const MAX_VINT32_LEN: usize = 5;

/// The longest encoding of a 64-bit number, in bytes.
pub const MAX_VINT64_LEN: usize = 10;

/// True when `bytes` starts with a number whose last byte is marked.
pub open spec fn vint_complete(bytes: Seq<u8>) -> bool
    decreases bytes.len(),
{
    bytes.len() > 0 && (bytes[0] >= STOP_BIT || vint_complete(bytes.drop_first()))
}

/// How many bytes the number at the start of `bytes` takes.
pub open spec fn vint_len(bytes: Seq<u8>) -> nat
    decreases bytes.len(),
{
    if bytes.len() == 0 {
        0
    } else if bytes[0] >= STOP_BIT {
        1
    } else {
        1 + vint_len(bytes.drop_first())
    }
}

/// The number at the start of `bytes`.
pub open spec fn vint_value(bytes: Seq<u8>) -> nat
    decreases bytes.len(),
{
    if bytes.len() == 0 {
        0
    } else if bytes[0] >= STOP_BIT {
        (bytes[0] - STOP_BIT) as nat
    } else {
        bytes[0] as nat + 128 * vint_value(bytes.drop_first())
    }
}

/// What follows the number at the start of `bytes`.
pub open spec fn after_vint(bytes: Seq<u8>) -> Seq<u8> {
    bytes.skip(vint_len(bytes) as int)
}

/// True when `bytes` starts with a number that is short enough for 32 bits.
pub open spec fn vint32_ok(bytes: Seq<u8>) -> bool {
    vint_complete(bytes) && vint_len(bytes) <= MAX_VINT32_LEN
}

/// The low 32 bits of the number at the start of `bytes`.
pub open spec fn vint32(bytes: Seq<u8>) -> u32 {
    (vint_value(bytes) % 0x1_0000_0000) as u32
}

/// True when `bytes` starts with a number that is short enough for 64 bits.
pub open spec fn vint64_ok(bytes: Seq<u8>) -> bool {
    vint_complete(bytes) && vint_len(bytes) <= MAX_VINT64_LEN
}

/// The low 64 bits of the number at the start of `bytes`.
pub open spec fn vint64(bytes: Seq<u8>) -> u64 {
    (vint_value(bytes) % 0x1_0000_0000_0000_0000) as u64
}

/// True when `bytes` starts with `count` numbers, each short enough for 32 bits.
pub open spec fn vints_ok(bytes: Seq<u8>, count: nat) -> bool
    decreases count,
{
    count == 0 || (vint32_ok(bytes) && vints_ok(after_vint(bytes), (count - 1) as nat))
}

/// The `count` numbers at the start of `bytes`.
pub open spec fn vints(bytes: Seq<u8>, count: nat) -> Seq<u32>
    decreases count,
{
    if count == 0 {
        Seq::empty()
    } else {
        seq![vint32(bytes)] + vints(after_vint(bytes), (count - 1) as nat)
    }
}

/// What follows the `count` numbers at the start of `bytes`.
pub open spec fn after_vints(bytes: Seq<u8>, count: nat) -> Seq<u8>
    decreases count,
{
    if count == 0 {
        bytes
    } else {
        after_vints(after_vint(bytes), (count - 1) as nat)
    }
}

/// True when `bytes`, up to its end or to the `limit`-th number, is a run of numbers,
/// each short enough for 32 bits.
pub open spec fn vint_run_ok(bytes: Seq<u8>, limit: nat) -> bool
    decreases limit,
{
    limit == 0 || bytes.len() == 0 || (vint32_ok(bytes) && vint_run_ok(
        after_vint(bytes),
        (limit - 1) as nat,
    ))
}

/// The numbers in `bytes`, up to its end but no more than `limit`.
pub open spec fn vint_run(bytes: Seq<u8>, limit: nat) -> Seq<u32>
    decreases limit,
{
    if limit == 0 || bytes.len() == 0 {
        Seq::empty()
    } else {
        seq![vint32(bytes)] + vint_run(after_vint(bytes), (limit - 1) as nat)
    }
}

/// The encoding of `value`.
pub open spec fn encode_vint(value: nat) -> Seq<u8>
    decreases value,
{
    if value < 128 {
        seq![(value + STOP_BIT) as u8]
    } else {
        seq![(value % 128) as u8] + encode_vint(value / 128)
    }
}

/// The encodings of `values`, one after the other.
pub open spec fn encode_vints(values: Seq<u32>) -> Seq<u8>
    decreases values.len(),
{
    if values.len() == 0 {
        Seq::empty()
    } else {
        encode_vint(values[0] as nat) + encode_vints(values.drop_first())
    }
}

/// A complete number lies within the bytes it is read from, and takes at least one of them.
pub proof fn lemma_vint_len(bytes: Seq<u8>)
    requires
        vint_complete(bytes),
    ensures
        1 <= vint_len(bytes) <= bytes.len(),
    decreases bytes.len(),
{
    if bytes[0] < STOP_BIT {
        lemma_vint_len(bytes.drop_first());
    }
}

/// A number ends with the first byte whose top bit is set, and its digits are the other bits
/// of its bytes, the first byte being the least significant. Where no byte has its top bit
/// set, there is no number.
pub proof fn lemma_digits(bytes: Seq<u8>, last: int)
    ensures
        0 <= last < bytes.len() && bytes[last] >= 128 && (forall|i: int|
            #![trigger bytes[i]]
            0 <= i < last ==> bytes[i] < 128) ==> {
            &&& vint_complete(bytes)
            &&& vint_len(bytes) == last + 1
            &&& after_vint(bytes) == bytes.subrange(last + 1, bytes.len() as int)
            &&& vint_value(bytes) == bytes.take(last + 1).fold_right(
                |byte: u8, higher: int| byte % 128 + 128 * higher,
                0,
            )
        },
        (forall|i: int| #![trigger bytes[i]] 0 <= i < bytes.len() ==> bytes[i] < 128)
            ==> !vint_complete(bytes),
    decreases bytes.len(),
{
    let digit = |byte: u8, higher: int| byte % 128 + 128 * higher;
    if bytes.len() > 0 {
        let rest = bytes.drop_first();
        lemma_digits(rest, last - 1);
        assert(forall|i: int|
            #![trigger rest[i]]
            0 <= i < rest.len() ==> rest[i] == bytes[i + 1]);
        if 0 <= last < bytes.len() && bytes[last] >= 128 && (forall|i: int|
            #![trigger bytes[i]]
            0 <= i < last ==> bytes[i] < 128) {
            let all = bytes.take(last + 1);
            all.lemma_fold_right_alt(digit, 0);
            if last == 0 {
                reveal_with_fuel(Seq::<_>::fold_right_alt, 2);
                assert(all.subrange(1, 1).len() == 0);
            } else {
                assert(bytes[0] < 128);
                assert(rest[last - 1] == bytes[last]);
                assert forall|i: int| #![trigger rest[i]] 0 <= i < last - 1 implies rest[i]
                    < 128 by {
                    assert(bytes[i + 1] < 128);
                }
                let higher = rest.take(last);
                higher.lemma_fold_right_alt(digit, 0);
                assert(all.subrange(1, last + 1) =~= higher);
                assert(all.fold_right_alt(digit, 0) == digit(
                    bytes[0],
                    higher.fold_right_alt(digit, 0),
                ));
            }
            assert(after_vint(bytes) =~= bytes.subrange(last + 1, bytes.len() as int));
        }
        if forall|i: int| #![trigger bytes[i]] 0 <= i < bytes.len() ==> bytes[i] < 128 {
            assert(bytes[0] < 128);
            assert forall|i: int| #![trigger rest[i]] 0 <= i < rest.len() implies rest[i]
                < 128 by {
                assert(bytes[i + 1] < 128);
            }
        }
    }
}

/// A number that fits 32 bits ends within five bytes, one that fits 64 bits within ten.
pub proof fn lemma_lengths(bytes: Seq<u8>)
    ensures
        vint32_ok(bytes) <==> exists|i: int|
            #![trigger bytes[i]]
            0 <= i < 5 && i < bytes.len() && bytes[i] >= 128,
        vint64_ok(bytes) <==> exists|i: int|
            #![trigger bytes[i]]
            0 <= i < 10 && i < bytes.len() && bytes[i] >= 128,
        vint32(bytes) == vint_value(bytes) % 0x1_0000_0000,
        vint64(bytes) == vint_value(bytes) % 0x1_0000_0000_0000_0000,
{
    if exists|i: int| #![trigger bytes[i]] 0 <= i < bytes.len() && bytes[i] >= 128 {
        let some = choose|i: int| #![trigger bytes[i]] 0 <= i < bytes.len() && bytes[i] >= 128;
        let first = lemma_first_stop(bytes, some);
        lemma_digits(bytes, first);
    } else {
        lemma_digits(bytes, 0);
    }
}

/// The first byte whose top bit is set, where there is one.
proof fn lemma_first_stop(bytes: Seq<u8>, some: int) -> (first: int)
    requires
        0 <= some < bytes.len(),
        bytes[some] >= 128,
    ensures
        0 <= first <= some,
        bytes[first] >= 128,
        forall|i: int| #![trigger bytes[i]] 0 <= i < first ==> bytes[i] < 128,
    decreases some,
{
    if exists|i: int| #![trigger bytes[i]] 0 <= i < some && bytes[i] >= 128 {
        let earlier = choose|i: int| #![trigger bytes[i]] 0 <= i < some && bytes[i] >= 128;
        lemma_first_stop(bytes, earlier)
    } else {
        some
    }
}

/// Several numbers follow each other: each is the one at the start of what follows those
/// before it.
pub proof fn lemma_numbers_in_turn(bytes: Seq<u8>, count: nat)
    ensures
        vints(bytes, count).len() == count,
        after_vints(bytes, 0) == bytes,
        after_vints(bytes, count + 1) == after_vint(after_vints(bytes, count)),
        vints(bytes, count + 1) == vints(bytes, count).push(vint32(after_vints(bytes, count))),
        vints_ok(bytes, 0),
        vints_ok(bytes, count + 1) <==> vints_ok(bytes, count) && vint32_ok(
            after_vints(bytes, count),
        ),
    decreases count,
{
    if count == 0 {
        reveal_with_fuel(vints, 2);
        reveal_with_fuel(after_vints, 2);
        reveal_with_fuel(vints_ok, 2);
        assert(vints(bytes, 1) =~= vints(bytes, 0).push(vint32(bytes)));
    } else {
        let rest = after_vint(bytes);
        lemma_numbers_in_turn(rest, (count - 1) as nat);
        assert(vints(bytes, count + 1) =~= vints(bytes, count).push(
            vint32(after_vints(bytes, count)),
        ));
    }
}

/// A run of numbers goes on until the bytes end or there are as many as the limit: the numbers
/// are those that follow each other.
pub proof fn lemma_run(bytes: Seq<u8>, limit: nat)
    requires
        vint_run_ok(bytes, limit),
    ensures
        ({
            let count = vint_run(bytes, limit).len();
            &&& vint_run(bytes, limit) == vints(bytes, count)
            &&& vints_ok(bytes, count)
            &&& count <= limit
            &&& count < limit ==> after_vints(bytes, count).len() == 0
            &&& forall|i: nat|
                #![trigger after_vints(bytes, i)]
                i < count ==> after_vints(bytes, i).len() > 0
        }),
    decreases limit,
{
    let count = vint_run(bytes, limit).len();
    if limit > 0 && bytes.len() > 0 {
        let rest = after_vint(bytes);
        lemma_run(rest, (limit - 1) as nat);
        assert(count == vint_run(rest, (limit - 1) as nat).len() + 1);
        assert(vint_run(bytes, limit) =~= vints(bytes, count));
        assert forall|i: nat|
            #![trigger after_vints(bytes, i)]
            i < count implies after_vints(bytes, i).len() > 0 by {
            if i > 0 {
                assert(after_vints(rest, (i - 1) as nat).len() > 0);
            }
        }
    }
}

/// The encodings of numbers stand one after the other.
pub proof fn lemma_encodings(values: Seq<u32>, value: nat)
    ensures
        encode_vints(values) == values.flat_map(|value: u32| encode_vint(value as nat)),
        value < 128 ==> encode_vint(value) == seq![(value + 128) as u8],
        value >= 128 ==> encode_vint(value) == seq![(value % 128) as u8] + encode_vint(value / 128),
    decreases values.len(),
{
    let encode = |value: u32| encode_vint(value as nat);
    if values.len() > 0 {
        let rest = values.drop_first();
        lemma_encodings(rest, value);
        let mapped = values.map_values(encode);
        assert(mapped.drop_first() =~= rest.map_values(encode));
        assert(mapped.first() == encode_vint(values[0] as nat));
    }
}

/// A number is read back from its encoding, whatever follows it.
pub proof fn lemma_vint_roundtrip(value: nat, rest: Seq<u8>)
    ensures
        vint_complete(encode_vint(value) + rest),
        vint_value(encode_vint(value) + rest) == value,
        vint_len(encode_vint(value) + rest) == encode_vint(value).len(),
        after_vint(encode_vint(value) + rest) == rest,
    decreases value,
{
    let bytes = encode_vint(value) + rest;
    if value >= 128 {
        let tail = encode_vint(value / 128) + rest;
        lemma_vint_roundtrip(value / 128, rest);
        assert(bytes.drop_first() =~= tail);
        assert(value == value % 128 + 128 * (value / 128));
    }
    assert(bytes.skip(encode_vint(value).len() as int) =~= rest);
}

/// The encoding of a 32-bit number is no longer than [`MAX_VINT32_LEN`].
pub proof fn lemma_encode_vint32_len(value: u32)
    ensures
        1 <= encode_vint(value as nat).len() <= MAX_VINT32_LEN,
{
    reveal_with_fuel(encode_vint, 5);
}

/// The encoding of a 64-bit number is no longer than [`MAX_VINT64_LEN`].
pub proof fn lemma_encode_vint64_len(value: u64)
    ensures
        1 <= encode_vint(value as nat).len() <= MAX_VINT64_LEN,
{
    reveal_with_fuel(encode_vint, 10);
}

/// 32-bit numbers are read back from their encodings, whatever follows them.
pub proof fn lemma_vints_roundtrip(values: Seq<u32>, rest: Seq<u8>)
    ensures
        vints_ok(encode_vints(values) + rest, values.len()),
        vints(encode_vints(values) + rest, values.len()) == values,
        after_vints(encode_vints(values) + rest, values.len()) == rest,
    decreases values.len(),
{
    let bytes = encode_vints(values) + rest;
    if values.len() > 0 {
        let tail = encode_vints(values.drop_first()) + rest;
        lemma_vints_roundtrip(values.drop_first(), rest);
        lemma_vint_roundtrip(values[0] as nat, tail);
        lemma_encode_vint32_len(values[0]);
        assert(bytes =~= encode_vint(values[0] as nat) + tail);
        assert(seq![values[0]] + values.drop_first() =~= values);
    } else {
        assert(bytes =~= rest);
    }
}

/// 32-bit numbers are read back from their encodings as a run, when it is long enough.
pub proof fn lemma_vint_run_roundtrip(values: Seq<u32>, limit: nat)
    requires
        values.len() <= limit,
    ensures
        vint_run_ok(encode_vints(values), limit),
        vint_run(encode_vints(values), limit) == values,
    decreases values.len(),
{
    let bytes = encode_vints(values);
    if values.len() > 0 {
        let tail = encode_vints(values.drop_first());
        lemma_vint_run_roundtrip(values.drop_first(), (limit - 1) as nat);
        lemma_vint_roundtrip(values[0] as nat, tail);
        lemma_encode_vint32_len(values[0]);
        assert(seq![values[0]] + values.drop_first() =~= values);
    } else {
        assert(values =~= Seq::<u32>::empty());
    }
}

proof fn lemma_step(mult: nat, digit: nat, rest: nat)
    ensures
        mult * (digit + 128 * rest) == mult * digit + (mult * 128) * rest,
{
    assert(mult * (digit + 128 * rest) == mult * digit + (mult * 128) * rest) by (nonlinear_arith);
}

/// Reads the 32-bit number at the start of `data`, and moves `data` past it.
pub fn read_u32_vint(data: &mut &[u8]) -> (value: u32)
    requires
        vint32_ok(old(data)@),
    ensures
        value == vint32(old(data)@),
        final(data)@ == after_vint(old(data)@),
{
    let bytes: &[u8] = *data;
    let mut at: usize = 0;
    let mut sum: u64 = 0;
    let mut mult: u64 = 1;
    proof {
        assert(bytes@.skip(0) =~= bytes@);
        lemma_vint_len(bytes@);
    }
    while bytes[at] < STOP_BIT
        invariant
            at < bytes@.len(),
            at < MAX_VINT32_LEN,
            vint_len(bytes@) <= MAX_VINT32_LEN,
            vint_complete(bytes@.skip(at as int)),
            at + vint_len(bytes@.skip(at as int)) == vint_len(bytes@),
            vint_value(bytes@) == sum + mult * vint_value(bytes@.skip(at as int)),
            mult == 1 && at == 0 || mult == 0x80 && at == 1 || mult == 0x4000 && at == 2 || mult
                == 0x20_0000 && at == 3 || mult == 0x1000_0000 && at == 4,
            sum < mult,
        decreases bytes@.len() - at,
    {
        let ghost rest = bytes@.skip(at as int);
        let digit: u8 = bytes[at];
        proof {
            assert(rest.drop_first() =~= bytes@.skip(at + 1));
            lemma_step(mult as nat, digit as nat, vint_value(rest.drop_first()));
            lemma_vint_len(rest.drop_first());
        }
        sum = sum + mult * (digit as u64);
        mult = mult * 128;
        at = at + 1;
    }
    proof {
        lemma_step(mult as nat, (bytes@[at as int] - STOP_BIT) as nat, 0);
    }
    sum = sum + mult * ((bytes[at] - STOP_BIT) as u64);
    *data = &bytes[at + 1..bytes.len()];
    (sum % 0x1_0000_0000) as u32
}

/// Reads the 64-bit number at the start of `data`. Gives the number and the number of
/// bytes that it took, or nothing when `data` does not start with such a number.
pub fn read_u64_vint(data: &[u8]) -> (result: Option<(u64, usize)>)
    ensures
        match result {
            Some((value, len)) => vint64_ok(data@) && value == vint64(data@) && len == vint_len(
                data@,
            ) && len <= data@.len(),
            None => !vint64_ok(data@),
        },
{
    let mut at: usize = 0;
    let mut sum: u128 = 0;
    let mut mult: u128 = 1;
    let ghost whole = data@;
    proof {
        assert(data@.skip(0) =~= data@);
    }
    while at < data.len() && at < MAX_VINT64_LEN
        invariant
            whole == data@,
            at <= data@.len(),
            at <= MAX_VINT64_LEN,
            vint_complete(data@) == vint_complete(data@.skip(at as int)),
            vint_len(data@) == at + vint_len(data@.skip(at as int)),
            vint_value(data@) == sum + mult * vint_value(data@.skip(at as int)),
            sum < mult,
            mult == pow128(at as nat),
        decreases data@.len() - at,
    {
        let ghost rest = data@.skip(at as int);
        let byte: u8 = data[at];
        proof {
            reveal_with_fuel(pow128, 12);
            assert(rest.drop_first() =~= data@.skip(at + 1));
            assert(mult <= 0x8000_0000_0000_0000);
            assert(mult * 255 <= 0x8000_0000_0000_0000 * 255);
        }
        if byte >= STOP_BIT {
            proof {
                lemma_step(mult as nat, (byte - STOP_BIT) as nat, 0);
                lemma_bound(mult as nat, (byte - STOP_BIT) as nat);
                lemma_vint_len(rest);
            }
            sum = sum + mult * ((byte - STOP_BIT) as u128);
            return Some(((sum % 0x1_0000_0000_0000_0000) as u64, at + 1));
        }
        proof {
            lemma_step(mult as nat, byte as nat, vint_value(rest.drop_first()));
            lemma_bound(mult as nat, byte as nat);
        }
        sum = sum + mult * (byte as u128);
        mult = mult * 128;
        at = at + 1;
    }
    proof {
        let rest = data@.skip(at as int);
        if vint_complete(rest) {
            lemma_vint_len(rest);
        }
    }
    None
}

spec fn pow128(exponent: nat) -> nat
    decreases exponent,
{
    if exponent == 0 {
        1
    } else {
        pow128((exponent - 1) as nat) * 128
    }
}

proof fn lemma_bound(mult: nat, digit: nat)
    requires
        digit < 128,
        mult <= 0x8000_0000_0000_0000,
    ensures
        mult * digit + mult <= mult * 128,
        mult * digit <= 0x8000_0000_0000_0000 * 127,
{
    assert(mult * digit + mult <= mult * 128) by (nonlinear_arith)
        requires
            digit < 128,
    ;
    assert(mult * digit <= 0x8000_0000_0000_0000 * 127) by (nonlinear_arith)
        requires
            digit < 128,
            mult <= 0x8000_0000_0000_0000,
    ;
}

} // verus!
