//! The layout of one stored object: a header of key and value length, the
//! value, and padding up to the record alignment.

use vstd::bytes::{
    lemma_auto_spec_u32_to_from_le_bytes, lemma_auto_spec_u64_to_from_le_bytes,
    spec_u32_from_le_bytes, spec_u32_to_le_bytes, spec_u64_from_le_bytes, spec_u64_to_le_bytes,
    u32_from_le_bytes, u32_to_le_bytes, u64_from_le_bytes, u64_to_le_bytes,
};
use vstd::prelude::*;
use vstd::slice::slice_subrange;

verus! {

/// Bytes of the header: the key (8) and the length of the value (4).
pub const HEADER_SIZE: usize = 12;

/// Records start at multiples of this many bytes.
pub const RECORD_ALIGN: usize = 8;

/// The longest value a record can describe.
pub const VALUE_LIMIT: usize = 0xffff_ffff;

/// Bytes that a record with a value of `len` bytes takes in a segment:
/// header and value, rounded up to the record alignment.
pub open spec fn record_size(len: nat) -> nat {
    ((len + 12 + 7) / 8 * 8) as nat
}

/// The bytes of the record of `key` and `value`.
pub open spec fn encode(key: u64, value: Seq<u8>) -> Seq<u8> {
    spec_u64_to_le_bytes(key) + spec_u32_to_le_bytes(value.len() as u32) + value + Seq::new(
        (record_size(value.len()) - 12 - value.len()) as nat,
        |i: int| 0u8,
    )
}

/// The key in the header that starts at `at`.
pub open spec fn stored_key(data: Seq<u8>, at: int) -> u64 {
    spec_u64_from_le_bytes(data.subrange(at, at + 8))
}

/// The value length in the header that starts at `at`.
pub open spec fn stored_len(data: Seq<u8>, at: int) -> u32 {
    spec_u32_from_le_bytes(data.subrange(at + 8, at + 12))
}

/// The value of the record that starts at `at`.
pub open spec fn stored_value(data: Seq<u8>, at: int) -> Seq<u8> {
    data.subrange(at + 12, at + 12 + stored_len(data, at))
}

/// Whether `data` holds at `at` the record of `key` and `value`.
pub open spec fn holds_record(data: Seq<u8>, at: int, key: u64, value: Seq<u8>) -> bool {
    &&& 0 <= at
    &&& 1 <= value.len() <= VALUE_LIMIT
    &&& at + record_size(value.len()) <= data.len()
    &&& data.subrange(at, at + record_size(value.len())) == encode(key, value)
}

/// A record's size is a multiple of the alignment that has room for the
/// header and the value, with less than one alignment unit to spare.
pub proof fn lemma_record_size(len: nat)
    ensures
        record_size(len) % 8 == 0,
        len + 12 <= record_size(len) < len + 12 + 8,
        record_size(len) >= 16,
{
}

/// Decoding a record that was encoded gives back its key and its value.
pub proof fn lemma_decode_encoded(data: Seq<u8>, at: int, key: u64, value: Seq<u8>)
    requires
        holds_record(data, at, key, value),
    ensures
        stored_key(data, at) == key,
        stored_len(data, at) == value.len(),
        stored_value(data, at) == value,
{
    lemma_auto_spec_u64_to_from_le_bytes();
    lemma_auto_spec_u32_to_from_le_bytes();
    lemma_record_size(value.len());
    let bytes = encode(key, value);
    let size = record_size(value.len()) as int;
    let part = data.subrange(at, at + size);
    assert(part == bytes);
    assert(spec_u64_to_le_bytes(key).len() == 8);
    assert(spec_u32_to_le_bytes(value.len() as u32).len() == 4);
    assert(data.subrange(at, at + 8) =~= part.subrange(0, 8));
    assert(bytes.subrange(0, 8) =~= spec_u64_to_le_bytes(key));
    assert(data.subrange(at + 8, at + 12) =~= part.subrange(8, 12));
    assert(bytes.subrange(8, 12) =~= spec_u32_to_le_bytes(value.len() as u32));
    assert(data.subrange(at + 12, at + 12 + value.len()) =~= part.subrange(
        12,
        12 + value.len() as int,
    ));
    assert(bytes.subrange(12, 12 + value.len() as int) =~= value);
}

/// A record stays where it is when bytes are appended.
pub proof fn lemma_record_kept(data: Seq<u8>, more: Seq<u8>, at: int, key: u64, value: Seq<u8>)
    requires
        holds_record(data, at, key, value),
    ensures
        holds_record(data + more, at, key, value),
{
    let size = record_size(value.len()) as int;
    assert((data + more).subrange(at, at + size) =~= data.subrange(at, at + size));
}

/// An appended record starts where the bytes before it end.
pub proof fn lemma_record_appended(data: Seq<u8>, key: u64, value: Seq<u8>)
    requires
        1 <= value.len() <= VALUE_LIMIT,
    ensures
        encode(key, value).len() == record_size(value.len()),
        holds_record(data + encode(key, value), data.len() as int, key, value),
{
    lemma_auto_spec_u64_to_from_le_bytes();
    lemma_auto_spec_u32_to_from_le_bytes();
    lemma_record_size(value.len());
    let bytes = encode(key, value);
    assert(bytes.len() == record_size(value.len()));
    assert((data + bytes).subrange(data.len() as int, (data.len() + bytes.len()) as int) =~= bytes);
}

/// Bytes that a record with a value of `len` bytes takes in a segment.
pub fn size_of_record(len: usize) -> (size: usize)
    requires
        record_size(len as nat) <= usize::MAX,
    ensures
        size == record_size(len as nat),
        len + 12 <= size,
{
    assert(usize::MAX % 8 == 7) by {
        assert(usize::MAX == 0xffff_ffff || usize::MAX == 0xffff_ffff_ffff_ffff);
    }
    (len + 12 + 7) / 8 * 8
}

fn push_all(data: &mut Vec<u8>, bytes: &[u8])
    requires
        old(data)@.len() + bytes@.len() <= usize::MAX,
    ensures
        final(data)@ == old(data)@ + bytes@,
{
    let mut i: usize = 0;
    while i < bytes.len()
        invariant
            i <= bytes@.len(),
            data@ == old(data)@ + bytes@.subrange(0, i as int),
        decreases bytes@.len() - i,
    {
        data.push(bytes[i]);
        i = i + 1;
        assert(data@ =~= old(data)@ + bytes@.subrange(0, i as int));
    }
    assert(bytes@.subrange(0, bytes@.len() as int) =~= bytes@);
}

/// Appends the record of `key` and `value` to `data`.
pub fn write_record(data: &mut Vec<u8>, key: u64, value: &[u8])
    requires
        1 <= value@.len() <= VALUE_LIMIT,
        old(data)@.len() + record_size(value@.len()) <= usize::MAX,
    ensures
        final(data)@ == old(data)@ + encode(key, value@),
{
    let len = value.len();
    let size = size_of_record(len);
    let key_bytes = u64_to_le_bytes(key);
    let len_bytes = u32_to_le_bytes(len as u32);
    push_all(data, key_bytes.as_slice());
    push_all(data, len_bytes.as_slice());
    push_all(data, value);
    let pad = size - 12 - len;
    let mut i: usize = 0;
    while i < pad
        invariant
            i <= pad,
            pad < 8,
            data@.len() + (pad - i) <= usize::MAX,
            data@ == old(data)@ + spec_u64_to_le_bytes(key) + spec_u32_to_le_bytes(len as u32)
                + value@ + Seq::new(i as nat, |k: int| 0u8),
        decreases pad - i,
    {
        data.push(0u8);
        i = i + 1;
        assert(data@ =~= old(data)@ + spec_u64_to_le_bytes(key) + spec_u32_to_le_bytes(len as u32)
            + value@ + Seq::new(i as nat, |k: int| 0u8));
    }
    assert(data@ =~= old(data)@ + encode(key, value@));
}

/// Reads the key from the header that starts at `at`.
pub fn read_key(data: &[u8], at: usize) -> (key: u64)
    requires
        at + 12 <= data@.len(),
    ensures
        key == stored_key(data@, at as int),
{
    let _ = data.len();
    u64_from_le_bytes(slice_subrange(data, at, at + 8))
}

/// Reads the value length from the header that starts at `at`.
pub fn read_len(data: &[u8], at: usize) -> (len: u32)
    requires
        at + 12 <= data@.len(),
    ensures
        len == stored_len(data@, at as int),
{
    let _ = data.len();
    u32_from_le_bytes(slice_subrange(data, at + 8, at + 12))
}

/// Copies to the front of `out` the first `len` bytes of the value of the
/// record that starts at `at`.
pub fn copy_value(data: &[u8], at: usize, len: usize, out: &mut [u8])
    requires
        at + 12 + len <= data@.len(),
        len <= old(out)@.len(),
    ensures
        final(out)@.len() == old(out)@.len(),
        final(out)@.subrange(0, len as int) == data@.subrange(at + 12, at + 12 + len),
        final(out)@.subrange(len as int, old(out)@.len() as int) == old(out)@.subrange(
            len as int,
            old(out)@.len() as int,
        ),
{
    let _ = data.len();
    let mut i: usize = 0;
    while i < len
        invariant
            i <= len,
            at + 12 + len <= data@.len() <= usize::MAX,
            out@.len() == old(out)@.len(),
            len <= out@.len(),
            forall|k: int| 0 <= k < i ==> out@[k] == data@[at + 12 + k],
            forall|k: int| i <= k < out@.len() ==> out@[k] == old(out)@[k],
        decreases len - i,
    {
        out[i] = data[at + 12 + i];
        i = i + 1;
    }
    assert(out@.subrange(0, len as int) =~= data@.subrange(at + 12, at + 12 + len));
    assert(out@.subrange(len as int, out@.len() as int) =~= old(out)@.subrange(
        len as int,
        out@.len() as int,
    ));
}

} // verus!
