//! Variable-length integers: zigzag coding of the sign, then seven bits to a
//! byte, least significant first, the high bit set on all bytes but the last.

use vstd::prelude::*;
use crate::error::ErrorKind;

verus! {

/// The most bytes that a 64-bit number takes.
pub const MAX_VARINT_LEN: u8 = 10;

/// The natural number that stands for `n`: 0, -1, 1, -2, ... become 0, 1, 2, 3, ...
pub open spec fn zigzag(n: int) -> nat {
    if n >= 0 {
        (2 * n) as nat
    } else {
        (-2 * n - 1) as nat
    }
}

/// The integer that `z` stands for.
pub open spec fn unzigzag(z: nat) -> int {
    if z % 2 == 0 {
        z as int / 2
    } else {
        -(z as int / 2) - 1
    }
}

/// Zigzag coding loses nothing, in either direction.
pub proof fn lemma_zigzag_inverse(n: int, z: nat)
    ensures
        unzigzag(zigzag(n)) == n,
        zigzag(unzigzag(z)) == z,
        i64::MIN <= n <= i64::MAX <==> zigzag(n) <= u64::MAX,
{
}

/// The bytes of a natural number: seven bits each, least significant first.
pub open spec fn varint_bytes(z: nat) -> Seq<u8>
    decreases z,
{
    if z < 128 {
        seq![z as u8]
    } else {
        seq![(128 + z % 128) as u8] + varint_bytes(z / 128)
    }
}

/// The bytes of an integer.
pub open spec fn long_bytes(n: int) -> Seq<u8> {
    varint_bytes(zigzag(n))
}

/// Reads a natural number of at most `budget` bytes at `pos`: the number and
/// the position behind it. The input may end too early, the number may take
/// more than `budget` bytes or not fit into 64 bits.
pub open spec fn parse_varint(bytes: Seq<u8>, pos: int, budget: nat) -> Result<
    (u64, int),
    ErrorKind,
>
    decreases budget,
{
    if budget == 0 {
        Err(ErrorKind::MalformedPayload)
    } else if pos < 0 || pos >= bytes.len() {
        Err(ErrorKind::TruncatedFrame)
    } else if bytes[pos] < 128 {
        Ok((bytes[pos] as u64, pos + 1))
    } else {
        match parse_varint(bytes, pos + 1, (budget - 1) as nat) {
            Err(kind) => Err(kind),
            Ok((high, next)) => if high >= 0x200_0000_0000_0000 {
                Err(ErrorKind::MalformedPayload)
            } else {
                Ok(((bytes[pos] - 128 + 128 * high) as u64, next))
            },
        }
    }
}

/// Reads an integer at `pos`.
pub open spec fn parse_long(bytes: Seq<u8>, pos: int) -> Result<(i64, int), ErrorKind> {
    match parse_varint(bytes, pos, MAX_VARINT_LEN as nat) {
        Err(kind) => Err(kind),
        Ok((z, next)) => Ok((unzigzag(z as nat) as i64, next)),
    }
}

/// A number that was read ends behind where it starts, within the input.
pub proof fn lemma_parse_varint_advances(bytes: Seq<u8>, pos: int, budget: nat)
    ensures
        parse_varint(bytes, pos, budget) matches Ok((_, next)) ==> pos < next <= bytes.len(),
    decreases budget,
{
    if budget > 0 && 0 <= pos < bytes.len() && bytes[pos] >= 128 {
        lemma_parse_varint_advances(bytes, pos + 1, (budget - 1) as nat);
    }
}

/// The number of bytes that `z` takes.
pub open spec fn varint_len(z: nat) -> nat
    decreases z,
{
    if z < 128 {
        1
    } else {
        1 + varint_len(z / 128)
    }
}

/// A number of 64 bits takes at most ten bytes.
pub proof fn lemma_varint_len(z: nat)
    ensures
        varint_bytes(z).len() == varint_len(z),
        z <= u64::MAX ==> varint_len(z) <= 10,
    decreases z,
{
    if z >= 128 {
        lemma_varint_len(z / 128);
    }
    if z <= u64::MAX {
        reveal_with_fuel(varint_len, 11);
    }
}

/// Reading gives back the number whose bytes stand at `pos`.
pub proof fn lemma_varint_round_trip(z: nat, bytes: Seq<u8>, pos: int, budget: nat)
    requires
        z <= u64::MAX,
        varint_len(z) <= budget,
        0 <= pos,
        pos + varint_bytes(z).len() <= bytes.len(),
        bytes.subrange(pos, pos + varint_bytes(z).len()) == varint_bytes(z),
    ensures
        parse_varint(bytes, pos, budget) == Ok::<(u64, int), ErrorKind>(
            (z as u64, pos + varint_bytes(z).len()),
        ),
    decreases z,
{
    let own = varint_bytes(z);
    assert(bytes[pos] == own[0]) by {
        assert(bytes.subrange(pos, pos + own.len())[0] == bytes[pos]);
    }
    if z >= 128 {
        let rest = varint_bytes(z / 128);
        assert(bytes.subrange(pos + 1, pos + 1 + rest.len()) =~= rest) by {
            assert forall|i: int| 0 <= i < rest.len() implies bytes[pos + 1 + i] == rest[i] by {
                assert(bytes.subrange(pos, pos + own.len())[i + 1] == bytes[pos + 1 + i]);
                assert(own[i + 1] == rest[i]);
            }
        }
        lemma_varint_round_trip(z / 128, bytes, pos + 1, (budget - 1) as nat);
    }
}

/// Reading gives back the integer whose bytes stand at `pos`.
pub proof fn lemma_long_round_trip(n: int, bytes: Seq<u8>, pos: int)
    requires
        i64::MIN <= n <= i64::MAX,
        0 <= pos,
        pos + long_bytes(n).len() <= bytes.len(),
        bytes.subrange(pos, pos + long_bytes(n).len()) == long_bytes(n),
    ensures
        parse_long(bytes, pos) == Ok::<(i64, int), ErrorKind>(
            (n as i64, pos + long_bytes(n).len()),
        ),
        long_bytes(n).len() >= 1,
{
    lemma_zigzag_inverse(n, 0);
    lemma_varint_len(zigzag(n));
    lemma_varint_round_trip(zigzag(n), bytes, pos, MAX_VARINT_LEN as nat);
}

/// Appends the bytes of `z`.
pub fn write_varint(z: u128, out: &mut Vec<u8>)
    ensures
        final(out)@ == old(out)@ + varint_bytes(z as nat),
{
    let mut rest = z;
    while rest >= 128
        invariant
            out@ + varint_bytes(rest as nat) == old(out)@ + varint_bytes(z as nat),
        decreases rest,
    {
        let ghost before = out@;
        out.push((128 + rest % 128) as u8);
        assert(out@ + varint_bytes((rest / 128) as nat) =~= before + varint_bytes(rest as nat));
        rest = rest / 128;
    }
    let ghost before = out@;
    out.push(rest as u8);
    assert(out@ =~= before + varint_bytes(rest as nat));
}

/// Appends the bytes of the integer `n`.
pub fn write_long(n: i64, out: &mut Vec<u8>)
    ensures
        final(out)@ == old(out)@ + long_bytes(n as int),
{
    let z: u128 = if n >= 0 {
        2 * (n as u128)
    } else {
        2 * ((-(n + 1)) as u128) + 1
    };
    write_varint(z, out);
}

/// Appends the bytes of the length `n`.
pub fn write_length(n: usize, out: &mut Vec<u8>)
    ensures
        final(out)@ == old(out)@ + long_bytes(n as int),
{
    write_varint(2 * (n as u128), out);
}

fn read_varint(bytes: &[u8], pos: usize, budget: u8) -> (r: Result<(u64, usize), ErrorKind>)
    ensures
        match r {
            Ok((z, next)) => parse_varint(bytes@, pos as int, budget as nat) == Ok::<
                (u64, int),
                ErrorKind,
            >((z, next as int)),
            Err(kind) => parse_varint(bytes@, pos as int, budget as nat) == Err::<
                (u64, int),
                ErrorKind,
            >(kind),
        },
    decreases budget,
{
    if budget == 0 {
        return Err(ErrorKind::MalformedPayload);
    }
    if pos >= bytes.len() {
        return Err(ErrorKind::TruncatedFrame);
    }
    let byte = bytes[pos];
    if byte < 128 {
        return Ok((byte as u64, pos + 1));
    }
    match read_varint(bytes, pos + 1, budget - 1) {
        Err(kind) => Err(kind),
        Ok((high, next)) => {
            if high >= 0x200_0000_0000_0000 {
                Err(ErrorKind::MalformedPayload)
            } else {
                Ok(((byte - 128) as u64 + 128 * high, next))
            }
        },
    }
}

/// Reads an integer at `pos`: the integer and the position behind it.
pub fn read_long(bytes: &[u8], pos: usize) -> (r: Result<(i64, usize), ErrorKind>)
    ensures
        match r {
            Ok((n, next)) => parse_long(bytes@, pos as int) == Ok::<(i64, int), ErrorKind>(
                (n, next as int),
            ) && pos < next <= bytes.len(),
            Err(kind) => parse_long(bytes@, pos as int) == Err::<(i64, int), ErrorKind>(kind),
        },
{
    proof {
        lemma_parse_varint_advances(bytes@, pos as int, MAX_VARINT_LEN as nat);
    }
    match read_varint(bytes, pos, MAX_VARINT_LEN) {
        Err(kind) => Err(kind),
        Ok((z, next)) => {
            let n: i64 = if z % 2 == 0 {
                (z / 2) as i64
            } else {
                -((z / 2) as i64) - 1
            };
            Ok((n, next))
        },
    }
}

} // verus!
