//! Fixed-width big-endian integers in byte buffers.

use vstd::arithmetic::div_mod::{lemma_breakdown, lemma_small_mod};
use vstd::arithmetic::power::{lemma_pow0, lemma_pow_positive, pow};
use vstd::prelude::*;

verus! {

/// An offset or a length does not describe bytes that lie inside the buffer.
#[derive(Clone, Copy, Debug, PartialEq, Eq, Structural)]
pub struct BoundsError;

/// The widest integer, in bytes, that the codec reads or writes.
pub const MAX_WIDTH: usize = 4;

/// The number that `bytes` spell as an unsigned big-endian integer.
pub open spec fn be_value(bytes: Seq<u8>) -> nat
    decreases bytes.len(),
{
    if bytes.len() == 0 {
        0
    } else {
        256 * be_value(bytes.drop_last()) + bytes.last() as nat
    }
}

/// The `len` low-order bytes of `value`, most significant first.
pub open spec fn be_bytes(value: nat, len: nat) -> Seq<u8>
    decreases len,
{
    if len == 0 {
        Seq::empty()
    } else {
        be_bytes(value / 256, (len - 1) as nat).push((value % 256) as u8)
    }
}

/// Whether the `len` bytes from `start` on lie inside `bytes`.
pub open spec fn in_bounds(bytes: Seq<u8>, start: int, len: int) -> bool {
    0 <= start && 0 <= len && start + len <= bytes.len()
}

/// What reading `len` bytes at `start` as a big-endian integer gives.
pub open spec fn read_int_spec(bytes: Seq<u8>, start: int, len: int) -> Result<nat, BoundsError> {
    if in_bounds(bytes, start, len) {
        Ok(be_value(bytes.subrange(start, start + len)))
    } else {
        Err(BoundsError)
    }
}

/// `bytes` with the `len` bytes from `start` on replaced by the big-endian
/// form of `value`, cut down to its `len` low-order bytes.
pub open spec fn write_int_spec(bytes: Seq<u8>, start: int, len: int, value: nat) -> Seq<u8> {
    bytes.subrange(0, start) + be_bytes(value, len as nat) + bytes.subrange(
        start + len,
        bytes.len() as int,
    )
}

/// `be_bytes` yields exactly `len` bytes.
pub proof fn lemma_be_bytes_len(value: nat, len: nat)
    ensures
        be_bytes(value, len).len() == len,
    decreases len,
{
    if len > 0 {
        lemma_be_bytes_len(value / 256, (len - 1) as nat);
    }
}

/// A big-endian integer of `n` bytes is below `256^n`.
pub proof fn lemma_be_value_bound(bytes: Seq<u8>)
    ensures
        be_value(bytes) < pow(256, bytes.len()),
    decreases bytes.len(),
{
    reveal(pow);
    if bytes.len() > 0 {
        lemma_be_value_bound(bytes.drop_last());
    }
}

/// The first powers of 256, up to the widest integer of the codec.
pub proof fn lemma_pow256_values()
    ensures
        pow(256, 0) == 1,
        pow(256, 1) == 0x100,
        pow(256, 2) == 0x1_0000,
        pow(256, 3) == 0x100_0000,
        pow(256, 4) == 0x1_0000_0000,
{
    reveal_with_fuel(pow, 5);
}

/// Reading back what `be_bytes` wrote yields `value` modulo `256^len`.
pub proof fn lemma_be_value_of_be_bytes(value: nat, len: nat)
    ensures
        be_value(be_bytes(value, len)) == value % (pow(256, len) as nat),
    decreases len,
{
    reveal(pow);
    if len == 0 {
        lemma_pow0(256);
    } else {
        let shorter = (len - 1) as nat;
        lemma_be_value_of_be_bytes(value / 256, shorter);
        lemma_pow_positive(256, shorter);
        lemma_breakdown(value as int, 256, pow(256, shorter));
        assert(be_bytes(value, len).drop_last() =~= be_bytes(value / 256, shorter));
    }
}

/// An integer that fits `len` bytes reads back as it was written.
pub proof fn lemma_be_round_trip(value: nat, len: nat)
    requires
        value < pow(256, len),
    ensures
        be_value(be_bytes(value, len)) == value,
{
    lemma_be_value_of_be_bytes(value, len);
    lemma_small_mod(value, pow(256, len) as nat);
}

/// `be_bytes` looks at `value` modulo `256^len` only.
pub proof fn lemma_be_bytes_of_remainder(value: nat, len: nat)
    ensures
        be_bytes(value % (pow(256, len) as nat), len) == be_bytes(value, len),
    decreases len,
{
    reveal(pow);
    if len > 0 {
        let shorter = (len - 1) as nat;
        lemma_pow_positive(256, shorter);
        lemma_breakdown(value as int, 256, pow(256, shorter));
        lemma_be_bytes_of_remainder(value / 256, shorter);
    }
}

/// Truncation law: an integer written with `write_int` and read back with
/// `read_int` at the same place comes out modulo `256^len`. The rest of the
/// buffer is as it was.
pub proof fn lemma_read_after_write(bytes: Seq<u8>, start: int, len: int, value: nat)
    requires
        in_bounds(bytes, start, len),
    ensures
        read_int_spec(write_int_spec(bytes, start, len, value), start, len) == Ok::<
            nat,
            BoundsError,
        >(value % (pow(256, len as nat) as nat)),
        write_int_spec(bytes, start, len, value).len() == bytes.len(),
        forall|i: int|
            0 <= i < bytes.len() && !(start <= i < start + len) ==> write_int_spec(
                bytes,
                start,
                len,
                value,
            )[i] == bytes[i],
{
    lemma_be_bytes_len(value, len as nat);
    lemma_be_value_of_be_bytes(value, len as nat);
    assert(write_int_spec(bytes, start, len, value).subrange(start, start + len) =~= be_bytes(
        value,
        len as nat,
    ));
}

/// Reads the `len` bytes of `buffer` from `start` on as an unsigned
/// big-endian integer. Fails when those bytes do not all lie inside `buffer`.
pub fn read_int(buffer: &Vec<u8>, start: usize, len: usize) -> (r: Result<u32, BoundsError>)
    requires
        1 <= len <= MAX_WIDTH,
    ensures
        match r {
            Ok(v) => read_int_spec(buffer@, start as int, len as int) == Ok::<nat, BoundsError>(
                v as nat,
            ),
            Err(e) => read_int_spec(buffer@, start as int, len as int) == Err::<nat, BoundsError>(
                e,
            ),
        },
{
    let n = buffer.len();
    if len > n || start > n - len {
        return Err(BoundsError);
    }
    let mut value: u32 = 0;
    let mut i: usize = 0;
    while i < len
        invariant
            i <= len <= 4,
            start + len <= n,
            n == buffer.len(),
            value == be_value(buffer@.subrange(start as int, start + i)),
        decreases len - i,
    {
        proof {
            lemma_be_value_bound(buffer@.subrange(start as int, start + i));
            lemma_pow256_values();
            assert(buffer@.subrange(start as int, start + i + 1).drop_last()
                =~= buffer@.subrange(start as int, start + i));
        }
        value = value * 256 + buffer[start + i] as u32;
        i += 1;
    }
    Ok(value)
}

/// Writes the `len` low-order bytes of `value` into `buffer` from `start` on,
/// most significant first, and hands the buffer back. Higher bytes of `value`
/// are dropped without notice.
pub fn write_int(buffer: Vec<u8>, start: usize, len: usize, value: u32) -> (out: Vec<u8>)
    requires
        1 <= len <= MAX_WIDTH,
        in_bounds(buffer@, start as int, len as int),
    ensures
        out@ == write_int_spec(buffer@, start as int, len as int, value as nat),
        out@.len() == buffer@.len(),
{
    let mut buffer = buffer;
    let ghost before = buffer@;
    let mut rest: u32 = value;
    let mut i: usize = len;
    while i > 0
        invariant
            i <= len,
            start + len <= buffer.len() == before.len(),
            buffer@.subrange(0, start + i) == before.subrange(0, start + i),
            buffer@.subrange(start + len, before.len() as int) == before.subrange(
                start + len,
                before.len() as int,
            ),
            be_bytes(value as nat, len as nat) == be_bytes(rest as nat, i as nat)
                + buffer@.subrange(start + i, start + len),
        decreases i,
    {
        i -= 1;
        buffer.set(start + i, (rest % 256) as u8);
        rest = rest / 256;
    }
    proof {
        lemma_be_bytes_len(value as nat, len as nat);
    }
    buffer
}

} // verus!
