//! MessagePack primitives: the byte layout of the values that commands are
//! made of, writers that produce it and readers that take it apart again.

use vstd::prelude::*;
use vstd::utf8::encode_utf8;

verus! {

/// Big-endian bytes of a 16-bit quantity.
pub open spec fn be16(v: int) -> Seq<u8> {
    seq![((v / 0x100) % 0x100) as u8, (v % 0x100) as u8]
}

/// Big-endian bytes of a 32-bit quantity.
pub open spec fn be32(v: int) -> Seq<u8> {
    seq![
        ((v / 0x100_0000) % 0x100) as u8,
        ((v / 0x1_0000) % 0x100) as u8,
        ((v / 0x100) % 0x100) as u8,
        (v % 0x100) as u8,
    ]
}

/// Big-endian bytes of a 64-bit quantity.
pub open spec fn be64(v: int) -> Seq<u8> {
    be32(v / 0x1_0000_0000) + be32(v % 0x1_0000_0000)
}

/// Header that announces a map of `len` entries.
pub open spec fn map_len_bytes(len: u32) -> Seq<u8> {
    if len < 16 {
        seq![(0x80 + len) as u8]
    } else if len < 0x1_0000 {
        seq![0xdeu8] + be16(len as int)
    } else {
        seq![0xdfu8] + be32(len as int)
    }
}

/// Header that announces a string of `len` bytes.
pub open spec fn str_len_bytes(len: u32) -> Seq<u8> {
    if len < 32 {
        seq![(0xa0 + len) as u8]
    } else if len < 0x100 {
        seq![0xd9u8, len as u8]
    } else if len < 0x1_0000 {
        seq![0xdau8] + be16(len as int)
    } else {
        seq![0xdbu8] + be32(len as int)
    }
}

/// A string on the wire: its length header, then its UTF-8 bytes.
pub open spec fn str_bytes(utf8: Seq<u8>) -> Seq<u8>
    recommends
        utf8.len() <= u32::MAX,
{
    str_len_bytes(utf8.len() as u32) + utf8
}

/// An unsigned integer on the wire, in the shortest form that holds it.
pub open spec fn uint_bytes(v: u64) -> Seq<u8> {
    if v < 0x80 {
        seq![v as u8]
    } else if v < 0x100 {
        seq![0xccu8, v as u8]
    } else if v < 0x1_0000 {
        seq![0xcdu8] + be16(v as int)
    } else if v < 0x1_0000_0000 {
        seq![0xceu8] + be32(v as int)
    } else {
        seq![0xcfu8] + be64(v as int)
    }
}

/// Header that announces an array of `len` elements.
pub open spec fn array_len_bytes(len: u32) -> Seq<u8> {
    if len < 16 {
        seq![(0x90 + len) as u8]
    } else if len < 0x1_0000 {
        seq![0xdcu8] + be16(len as int)
    } else {
        seq![0xddu8] + be32(len as int)
    }
}

/// Header that announces a byte string of `len` bytes.
pub open spec fn bin_len_bytes(len: u32) -> Seq<u8> {
    if len < 0x100 {
        seq![0xc4u8, len as u8]
    } else if len < 0x1_0000 {
        seq![0xc5u8] + be16(len as int)
    } else {
        seq![0xc6u8] + be32(len as int)
    }
}

/// A byte string on the wire: its length header, then the bytes.
pub open spec fn bin_bytes(data: Seq<u8>) -> Seq<u8>
    recommends
        data.len() <= u32::MAX,
{
    bin_len_bytes(data.len() as u32) + data
}

/// A boolean on the wire.
pub open spec fn bool_bytes(b: bool) -> Seq<u8> {
    if b {
        seq![0xc3u8]
    } else {
        seq![0xc2u8]
    }
}

/// Appends a map header. Calls `rmp::encode::write_map_len`, which picks the
/// fixmap, map16 or map32 marker by the size of `len` and writes the length
/// big-endian behind the two long markers. Writing into a `Vec` cannot fail.
#[verifier::external_body]
pub(crate) fn write_map_len(buf: &mut Vec<u8>, len: u32)
    ensures
        final(buf)@ == old(buf)@ + map_len_bytes(len),
{
    rmp::encode::write_map_len(buf, len).unwrap();
}

/// Appends an array header. Calls `rmp::encode::write_array_len`, which
/// picks the fixarray, array16 or array32 marker by the size of `len` and
/// writes the length big-endian behind the two long markers.
#[verifier::external_body]
pub(crate) fn write_array_len(buf: &mut Vec<u8>, len: u32)
    ensures
        final(buf)@ == old(buf)@ + array_len_bytes(len),
{
    rmp::encode::write_array_len(buf, len).unwrap();
}

/// Appends a byte string. Calls `rmp::encode::write_bin`, which writes the
/// bin8, bin16 or bin32 header for the length and then the bytes. The
/// length is cast to 32 bits there, so longer data is left out.
#[verifier::external_body]
pub(crate) fn write_bin(buf: &mut Vec<u8>, data: &[u8])
    requires
        data@.len() <= u32::MAX,
    ensures
        final(buf)@ == old(buf)@ + bin_bytes(data@),
{
    rmp::encode::write_bin(buf, data).unwrap();
}

/// Appends a string. Calls `rmp::encode::write_str`, which writes the
/// fixstr, str8, str16 or str32 header for the byte length and then the
/// string's UTF-8 bytes. The length is cast to 32 bits there, so longer
/// strings are left out.
#[verifier::external_body]
pub(crate) fn write_str(buf: &mut Vec<u8>, s: &str)
    requires
        encode_utf8(s@).len() <= u32::MAX,
    ensures
        final(buf)@ == old(buf)@ + str_bytes(encode_utf8(s@)),
{
    rmp::encode::write_str(buf, s).unwrap();
}

/// Appends an unsigned integer. Calls `rmp::encode::write_uint`, which uses
/// a positive fixint below 128 and otherwise the narrowest of the u8, u16,
/// u32 and u64 forms, big-endian.
#[verifier::external_body]
pub(crate) fn write_uint(buf: &mut Vec<u8>, v: u64)
    ensures
        final(buf)@ == old(buf)@ + uint_bytes(v),
{
    rmp::encode::write_uint(buf, v).unwrap();
}

/// Appends a boolean. Calls `rmp::encode::write_bool`, which writes the
/// single marker byte for true or false.
#[verifier::external_body]
pub(crate) fn write_bool(buf: &mut Vec<u8>, b: bool)
    ensures
        final(buf)@ == old(buf)@ + bool_bytes(b),
{
    rmp::encode::write_bool(buf, b).unwrap();
}

} // verus!
