//! Reading argument maps back from their bytes.

use vstd::prelude::*;
use vstd::utf8::{decode_utf8, encode_utf8, valid_utf8};
use crate::args::{
    args_bytes, args_encodable, entries_bytes, pair_bytes, pair_fits, pairs_bytes, pairs_of,
    texts_bytes, texts_of, Arg, ArgMap, ArgModel, ArgValue, ValueModel,
};
use crate::codec::{fits_str, lemma_ascii_fits, text_bytes, ResponseHeader};
use crate::wire::{
    array_len_bytes, be16, be32, be64, bin_bytes, bin_len_bytes, bool_bytes, map_len_bytes,
    str_len_bytes, uint_bytes,
};

verus! {

/// The number that the two bytes from index `i` spell, big-endian.
pub open spec fn be16_at(b: Seq<u8>, i: int) -> int {
    b[i] as int * 0x100 + b[i + 1] as int
}

/// The number that the four bytes from index `i` spell, big-endian.
pub open spec fn be32_at(b: Seq<u8>, i: int) -> int {
    b[i] as int * 0x100_0000 + b[i + 1] as int * 0x1_0000 + b[i + 2] as int * 0x100 + b[i
        + 3] as int
}

/// The number that the eight bytes from index `i` spell, big-endian.
pub open spec fn be64_at(b: Seq<u8>, i: int) -> int {
    be32_at(b, i) * 0x1_0000_0000 + be32_at(b, i + 4)
}

/// Reads a map header at the start of `b`: the number of entries and the
/// number of bytes the header takes.
pub open spec fn parse_map_len(b: Seq<u8>) -> Option<(u32, nat)> {
    if b.len() == 0 {
        None
    } else if 0x80 <= b[0] <= 0x8f {
        Some(((b[0] - 0x80) as u32, 1))
    } else if b[0] == 0xde && b.len() >= 3 {
        Some((be16_at(b, 1) as u32, 3))
    } else if b[0] == 0xdf && b.len() >= 5 {
        Some((be32_at(b, 1) as u32, 5))
    } else {
        None
    }
}

/// Reads a string header at the start of `b`: the byte length of the
/// string and the number of bytes the header takes.
pub open spec fn parse_str_len(b: Seq<u8>) -> Option<(u32, nat)> {
    if b.len() == 0 {
        None
    } else if 0xa0 <= b[0] <= 0xbf {
        Some(((b[0] - 0xa0) as u32, 1))
    } else if b[0] == 0xd9 && b.len() >= 2 {
        Some((b[1] as u32, 2))
    } else if b[0] == 0xda && b.len() >= 3 {
        Some((be16_at(b, 1) as u32, 3))
    } else if b[0] == 0xdb && b.len() >= 5 {
        Some((be32_at(b, 1) as u32, 5))
    } else {
        None
    }
}

/// Reads a string at the start of `b`. The bytes must be valid UTF-8.
pub open spec fn parse_text(b: Seq<u8>) -> Option<(Seq<char>, nat)> {
    match parse_str_len(b) {
        Some((n, h)) => {
            if b.len() >= h + n && valid_utf8(b.subrange(h as int, h + n)) {
                Some((decode_utf8(b.subrange(h as int, h + n)), (h + n) as nat))
            } else {
                None
            }
        },
        None => None,
    }
}

/// Reads an unsigned integer at the start of `b`, in any of its widths.
pub open spec fn parse_uint(b: Seq<u8>) -> Option<(u64, nat)> {
    if b.len() == 0 {
        None
    } else if b[0] < 0x80 {
        Some((b[0] as u64, 1))
    } else if b[0] == 0xcc && b.len() >= 2 {
        Some((b[1] as u64, 2))
    } else if b[0] == 0xcd && b.len() >= 3 {
        Some((be16_at(b, 1) as u64, 3))
    } else if b[0] == 0xce && b.len() >= 5 {
        Some((be32_at(b, 1) as u64, 5))
    } else if b[0] == 0xcf && b.len() >= 9 {
        Some((be64_at(b, 1) as u64, 9))
    } else {
        None
    }
}

/// Reads a boolean at the start of `b`.
pub open spec fn parse_bool(b: Seq<u8>) -> Option<(bool, nat)> {
    if b.len() == 0 {
        None
    } else if b[0] == 0xc3 {
        Some((true, 1))
    } else if b[0] == 0xc2 {
        Some((false, 1))
    } else {
        None
    }
}

/// Reads the header of a byte string at the start of `b`: the number of
/// bytes and the number of bytes the header takes.
pub open spec fn parse_bin_len(b: Seq<u8>) -> Option<(u32, nat)> {
    if b.len() == 0 {
        None
    } else if b[0] == 0xc4 && b.len() >= 2 {
        Some((b[1] as u32, 2))
    } else if b[0] == 0xc5 && b.len() >= 3 {
        Some((be16_at(b, 1) as u32, 3))
    } else if b[0] == 0xc6 && b.len() >= 5 {
        Some((be32_at(b, 1) as u32, 5))
    } else {
        None
    }
}

/// Reads a byte string at the start of `b`.
pub open spec fn parse_bin(b: Seq<u8>) -> Option<(Seq<u8>, nat)> {
    match parse_bin_len(b) {
        Some((n, h)) => {
            if b.len() >= h + n {
                Some((b.subrange(h as int, h + n), (h + n) as nat))
            } else {
                None
            }
        },
        None => None,
    }
}

/// Reads an array header at the start of `b`: the number of elements and
/// the number of bytes the header takes.
pub open spec fn parse_array_len(b: Seq<u8>) -> Option<(u32, nat)> {
    if b.len() == 0 {
        None
    } else if 0x90 <= b[0] <= 0x9f {
        Some(((b[0] - 0x90) as u32, 1))
    } else if b[0] == 0xdc && b.len() >= 3 {
        Some((be16_at(b, 1) as u32, 3))
    } else if b[0] == 0xdd && b.len() >= 5 {
        Some((be32_at(b, 1) as u32, 5))
    } else {
        None
    }
}

/// Reads `n` strings at the start of `b`.
pub open spec fn parse_texts(b: Seq<u8>, n: nat) -> Option<(Seq<Seq<char>>, nat)>
    decreases n,
{
    if n == 0 {
        Some((Seq::empty(), 0))
    } else {
        match parse_text(b) {
            Some((s, used)) => match parse_texts(b.skip(used as int), (n - 1) as nat) {
                Some((rest, more)) => Some((seq![s] + rest, (used + more) as nat)),
                None => None,
            },
            None => None,
        }
    }
}

/// Reads a list of strings at the start of `b`: an array header, then as
/// many strings as it announces.
#[verifier::opaque]
pub open spec fn parse_list(b: Seq<u8>) -> Option<(Seq<Seq<char>>, nat)> {
    match parse_array_len(b) {
        Some((n, h)) => match parse_texts(b.skip(h as int), n as nat) {
            Some((list, used)) => Some((list, (h + used) as nat)),
            None => None,
        },
        None => None,
    }
}

/// Reads a pair of strings at the start of `b`.
#[verifier::opaque]
pub open spec fn parse_pair(b: Seq<u8>) -> Option<((Seq<char>, Seq<char>), nat)> {
    match parse_text(b) {
        Some((name, k)) => match parse_text(b.skip(k as int)) {
            Some((value, v)) => Some(((name, value), (k + v) as nat)),
            None => None,
        },
        None => None,
    }
}

/// Reads `n` pairs of strings at the start of `b`.
pub open spec fn parse_pairs(b: Seq<u8>, n: nat) -> Option<(Seq<(Seq<char>, Seq<char>)>, nat)>
    decreases n,
{
    if n == 0 {
        Some((Seq::empty(), 0))
    } else {
        match parse_pair(b) {
            Some((p, used)) => match parse_pairs(b.skip(used as int), (n - 1) as nat) {
                Some((rest, more)) => Some((seq![p] + rest, (used + more) as nat)),
                None => None,
            },
            None => None,
        }
    }
}

/// Reads a string map at the start of `b`: a map header, then as many
/// pairs of strings as it announces.
#[verifier::opaque]
pub open spec fn parse_dict(b: Seq<u8>) -> Option<(Seq<(Seq<char>, Seq<char>)>, nat)> {
    match parse_map_len(b) {
        Some((n, h)) => match parse_pairs(b.skip(h as int), n as nat) {
            Some((pairs, used)) => Some((pairs, (h + used) as nat)),
            None => None,
        },
        None => None,
    }
}

/// Reads an argument value at the start of `b`: a boolean, an unsigned
/// integer, a string, a byte string, a list of strings or a string map,
/// whichever its first byte announces.
#[verifier::opaque]
pub open spec fn parse_value(b: Seq<u8>) -> Option<(ValueModel, nat)> {
    match parse_bool(b) {
        Some((v, n)) => Some((ValueModel::Bool(v), n)),
        None => match parse_uint(b) {
            Some((v, n)) => Some((ValueModel::UInt(v), n)),
            None => match parse_text(b) {
                Some((v, n)) => Some((ValueModel::Str(v), n)),
                None => match parse_bin(b) {
                    Some((v, n)) => Some((ValueModel::Bytes(v), n)),
                    None => match parse_list(b) {
                        Some((v, n)) => Some((ValueModel::StrList(v), n)),
                        None => match parse_dict(b) {
                            Some((v, n)) => Some((ValueModel::StrMap(v), n)),
                            None => None,
                        },
                    },
                },
            },
        },
    }
}

/// Reads one entry at the start of `b`: a string key, then a value.
#[verifier::opaque]
pub open spec fn parse_entry(b: Seq<u8>) -> Option<(ArgModel, nat)> {
    match parse_text(b) {
        Some((key, k)) => match parse_value(b.skip(k as int)) {
            Some((value, v)) => Some((ArgModel { key, value }, (k + v) as nat)),
            None => None,
        },
        None => None,
    }
}

/// Reads `n` entries at the start of `b`.
pub open spec fn parse_entries(b: Seq<u8>, n: nat) -> Option<(Seq<ArgModel>, nat)>
    decreases n,
{
    if n == 0 {
        Some((Seq::empty(), 0))
    } else {
        match parse_entry(b) {
            Some((arg, used)) => match parse_entries(b.skip(used as int), (n - 1) as nat) {
                Some((rest, more)) => Some((seq![arg] + rest, (used + more) as nat)),
                None => None,
            },
            None => None,
        }
    }
}

/// What a reading of further entries amounts to once `done` has been read
/// over `offset` bytes.
pub open spec fn resume<T>(done: Seq<T>, offset: nat, p: Option<(Seq<T>, nat)>) -> Option<
    (Seq<T>, nat),
> {
    match p {
        Some((rest, more)) => Some((done + rest, (offset + more) as nat)),
        None => None,
    }
}

/// Reading `n` entries is reading one and then the others behind it.
proof fn lemma_resume_step(done: Seq<ArgModel>, offset: nat, b: Seq<u8>, n: nat)
    requires
        n > 0,
    ensures
        match parse_entry(b) {
            Some((arg, used)) => resume(done, offset, parse_entries(b, n)) == resume(
                done.push(arg),
                (offset + used) as nat,
                parse_entries(b.skip(used as int), (n - 1) as nat),
            ),
            None => parse_entries(b, n) is None,
        },
{
    match parse_entry(b) {
        Some((arg, used)) => {
            match parse_entries(b.skip(used as int), (n - 1) as nat) {
                Some((rest, more)) => {
                    assert(done + (seq![arg] + rest) =~= done.push(arg) + rest);
                },
                None => {},
            }
        },
        None => {},
    }
}

/// Reading `n` strings is reading one and then the others behind it.
proof fn lemma_texts_step(done: Seq<Seq<char>>, offset: nat, b: Seq<u8>, n: nat)
    requires
        n > 0,
    ensures
        match parse_text(b) {
            Some((s, used)) => resume(done, offset, parse_texts(b, n)) == resume(
                done.push(s),
                (offset + used) as nat,
                parse_texts(b.skip(used as int), (n - 1) as nat),
            ),
            None => parse_texts(b, n) is None,
        },
{
    match parse_text(b) {
        Some((s, used)) => {
            match parse_texts(b.skip(used as int), (n - 1) as nat) {
                Some((rest, more)) => {
                    assert(done + (seq![s] + rest) =~= done.push(s) + rest);
                },
                None => {},
            }
        },
        None => {},
    }
}

/// Reading `n` pairs is reading one and then the others behind it.
proof fn lemma_pairs_step(done: Seq<(Seq<char>, Seq<char>)>, offset: nat, b: Seq<u8>, n: nat)
    requires
        n > 0,
    ensures
        match parse_pair(b) {
            Some((p, used)) => resume(done, offset, parse_pairs(b, n)) == resume(
                done.push(p),
                (offset + used) as nat,
                parse_pairs(b.skip(used as int), (n - 1) as nat),
            ),
            None => parse_pairs(b, n) is None,
        },
{
    match parse_pair(b) {
        Some((p, used)) => {
            match parse_pairs(b.skip(used as int), (n - 1) as nat) {
                Some((rest, more)) => {
                    assert(done + (seq![p] + rest) =~= done.push(p) + rest);
                },
                None => {},
            }
        },
        None => {},
    }
}

/// Reads an argument map that fills `b` exactly.
pub open spec fn parse_args(b: Seq<u8>) -> Option<Seq<ArgModel>> {
    match parse_map_len(b) {
        Some((n, h)) => match parse_entries(b.skip(h as int), n as nat) {
            Some((args, used)) => if h + used == b.len() {
                Some(args)
            } else {
                None
            },
            None => None,
        },
        None => None,
    }
}

/// A reading at the start of the bytes from `pos` on, as a reading of the
/// whole buffer: the value and the position behind it.
pub open spec fn at<T>(p: Option<(T, nat)>, pos: usize) -> Option<(T, int)> {
    match p {
        Some((v, n)) => Some((v, pos + n)),
        None => None,
    }
}

/// An executable reading, with its end position as a mathematical integer.
pub open spec fn got<T>(r: Option<(T, usize)>) -> Option<(T, int)> {
    match r {
        Some((v, e)) => Some((v, e as int)),
        None => None,
    }
}

fn read_be16(buf: &[u8], pos: usize) -> (v: u32)
    requires
        pos + 2 <= buf@.len(),
    ensures
        v == be16_at(buf@, pos as int),
{
    let hi: u32 = buf[pos] as u32;
    let lo: u32 = buf[pos + 1] as u32;
    hi * 0x100 + lo
}

fn read_be32(buf: &[u8], pos: usize) -> (v: u32)
    requires
        pos + 4 <= buf@.len(),
    ensures
        v == be32_at(buf@, pos as int),
{
    let a: u32 = buf[pos] as u32;
    let b: u32 = buf[pos + 1] as u32;
    let c: u32 = buf[pos + 2] as u32;
    let d: u32 = buf[pos + 3] as u32;
    a * 0x100_0000 + b * 0x1_0000 + c * 0x100 + d
}

fn read_be64(buf: &[u8], pos: usize) -> (v: u64)
    requires
        pos + 8 <= buf@.len(),
    ensures
        v == be64_at(buf@, pos as int),
{
    assert(pos + 8 <= buf.len());
    let hi: u64 = read_be32(buf, pos) as u64;
    let lo: u64 = read_be32(buf, pos + 4) as u64;
    hi * 0x1_0000_0000 + lo
}

/// Reads a map header at `pos`.
pub fn read_map_len(buf: &[u8], pos: usize) -> (r: Option<(u32, usize)>)
    requires
        pos <= buf@.len(),
    ensures
        got(r) == at(parse_map_len(buf@.skip(pos as int)), pos),
        r matches Some((_, end)) ==> pos < end <= buf@.len(),
{
    let len = buf.len();
    if pos >= len {
        return None;
    }
    let m = buf[pos];
    let left = len - pos;
    if 0x80 <= m && m <= 0x8f {
        Some(((m - 0x80) as u32, pos + 1))
    } else if m == 0xde && left >= 3 {
        Some((read_be16(buf, pos + 1), pos + 3))
    } else if m == 0xdf && left >= 5 {
        Some((read_be32(buf, pos + 1), pos + 5))
    } else {
        None
    }
}

/// Reads a string header at `pos`.
pub fn read_str_len(buf: &[u8], pos: usize) -> (r: Option<(u32, usize)>)
    requires
        pos <= buf@.len(),
    ensures
        got(r) == at(parse_str_len(buf@.skip(pos as int)), pos),
        r matches Some((_, end)) ==> pos < end <= buf@.len(),
{
    let len = buf.len();
    if pos >= len {
        return None;
    }
    let m = buf[pos];
    let left = len - pos;
    if 0xa0 <= m && m <= 0xbf {
        Some(((m - 0xa0) as u32, pos + 1))
    } else if m == 0xd9 && left >= 2 {
        Some((buf[pos + 1] as u32, pos + 2))
    } else if m == 0xda && left >= 3 {
        Some((read_be16(buf, pos + 1), pos + 3))
    } else if m == 0xdb && left >= 5 {
        Some((read_be32(buf, pos + 1), pos + 5))
    } else {
        None
    }
}

/// Reads an unsigned integer at `pos`.
pub fn read_uint(buf: &[u8], pos: usize) -> (r: Option<(u64, usize)>)
    requires
        pos <= buf@.len(),
    ensures
        got(r) == at(parse_uint(buf@.skip(pos as int)), pos),
        r matches Some((_, end)) ==> pos < end <= buf@.len(),
{
    let len = buf.len();
    if pos >= len {
        return None;
    }
    let m = buf[pos];
    let left = len - pos;
    if m < 0x80 {
        Some((m as u64, pos + 1))
    } else if m == 0xcc && left >= 2 {
        Some((buf[pos + 1] as u64, pos + 2))
    } else if m == 0xcd && left >= 3 {
        Some((read_be16(buf, pos + 1) as u64, pos + 3))
    } else if m == 0xce && left >= 5 {
        Some((read_be32(buf, pos + 1) as u64, pos + 5))
    } else if m == 0xcf && left >= 9 {
        Some((read_be64(buf, pos + 1), pos + 9))
    } else {
        None
    }
}

/// Reads a boolean at `pos`.
pub fn read_bool(buf: &[u8], pos: usize) -> (r: Option<(bool, usize)>)
    requires
        pos <= buf@.len(),
    ensures
        got(r) == at(parse_bool(buf@.skip(pos as int)), pos),
        r matches Some((_, end)) ==> pos < end <= buf@.len(),
{
    if pos >= buf.len() {
        return None;
    }
    let m = buf[pos];
    if m == 0xc3 {
        Some((true, pos + 1))
    } else if m == 0xc2 {
        Some((false, pos + 1))
    } else {
        None
    }
}

/// Copies the bytes of `buf` from `from` up to `to`.
fn copy_range(buf: &[u8], from: usize, to: usize) -> (out: Vec<u8>)
    requires
        from <= to <= buf@.len(),
    ensures
        out@ == buf@.subrange(from as int, to as int),
{
    let mut out: Vec<u8> = Vec::new();
    let mut i: usize = from;
    while i < to
        invariant
            from <= i <= to <= buf@.len(),
            out@ == buf@.subrange(from as int, i as int),
        decreases to - i,
    {
        out.push(buf[i]);
        assert(out@ =~= buf@.subrange(from as int, i + 1));
        i = i + 1;
    }
    out
}

/// Makes a string of bytes that are valid UTF-8. Calls `String::from_utf8`,
/// which checks the bytes and, when they are valid, keeps them as the
/// string's contents.
#[verifier::external_body]
fn string_from_utf8(bytes: Vec<u8>) -> (s: Option<String>)
    ensures
        s is Some <==> valid_utf8(bytes@),
        s matches Some(t) ==> t@ == decode_utf8(bytes@),
{
    String::from_utf8(bytes).ok()
}

/// Reads a string at `pos`.
pub fn read_text(buf: &[u8], pos: usize) -> (r: Option<(String, usize)>)
    requires
        pos <= buf@.len(),
    ensures
        match (r, parse_text(buf@.skip(pos as int))) {
            (Some((s, end)), Some((t, n))) => s@ == t && end == pos + n,
            (None, None) => true,
            _ => false,
        },
        r matches Some((_, end)) ==> pos < end <= buf@.len(),
{
    match read_str_len(buf, pos) {
        Some((n, start)) => {
            let n = n as usize;
            if buf.len() - start < n {
                return None;
            }
            let bytes = copy_range(buf, start, start + n);
            assert(bytes@ =~= buf@.skip(pos as int).subrange(start - pos, start - pos + n));
            match string_from_utf8(bytes) {
                Some(s) => Some((s, start + n)),
                None => None,
            }
        },
        None => None,
    }
}

/// Reads the header of a byte string at `pos`.
pub fn read_bin_len(buf: &[u8], pos: usize) -> (r: Option<(u32, usize)>)
    requires
        pos <= buf@.len(),
    ensures
        got(r) == at(parse_bin_len(buf@.skip(pos as int)), pos),
        r matches Some((_, end)) ==> pos < end <= buf@.len(),
{
    let len = buf.len();
    if pos >= len {
        return None;
    }
    let m = buf[pos];
    let left = len - pos;
    if m == 0xc4 && left >= 2 {
        Some((buf[pos + 1] as u32, pos + 2))
    } else if m == 0xc5 && left >= 3 {
        Some((read_be16(buf, pos + 1), pos + 3))
    } else if m == 0xc6 && left >= 5 {
        Some((read_be32(buf, pos + 1), pos + 5))
    } else {
        None
    }
}

/// Reads a byte string at `pos`.
pub fn read_bin(buf: &[u8], pos: usize) -> (r: Option<(Vec<u8>, usize)>)
    requires
        pos <= buf@.len(),
    ensures
        match (r, parse_bin(buf@.skip(pos as int))) {
            (Some((d, end)), Some((m, n))) => d@ == m && end == pos + n,
            (None, None) => true,
            _ => false,
        },
        r matches Some((_, end)) ==> pos < end <= buf@.len(),
{
    match read_bin_len(buf, pos) {
        Some((n, start)) => {
            let n = n as usize;
            if buf.len() - start < n {
                return None;
            }
            let bytes = copy_range(buf, start, start + n);
            assert(bytes@ =~= buf@.skip(pos as int).subrange(start - pos, start - pos + n));
            Some((bytes, start + n))
        },
        None => None,
    }
}

/// Reads an array header at `pos`.
pub fn read_array_len(buf: &[u8], pos: usize) -> (r: Option<(u32, usize)>)
    requires
        pos <= buf@.len(),
    ensures
        got(r) == at(parse_array_len(buf@.skip(pos as int)), pos),
        r matches Some((_, end)) ==> pos < end <= buf@.len(),
{
    let len = buf.len();
    if pos >= len {
        return None;
    }
    let m = buf[pos];
    let left = len - pos;
    if 0x90 <= m && m <= 0x9f {
        Some(((m - 0x90) as u32, pos + 1))
    } else if m == 0xdc && left >= 3 {
        Some((read_be16(buf, pos + 1), pos + 3))
    } else if m == 0xdd && left >= 5 {
        Some((read_be32(buf, pos + 1), pos + 5))
    } else {
        None
    }
}

/// Reads a list of strings at `pos`.
pub fn read_list(buf: &[u8], pos: usize) -> (r: Option<(Vec<String>, usize)>)
    requires
        pos <= buf@.len(),
    ensures
        match (r, parse_list(buf@.skip(pos as int))) {
            (Some((l, end)), Some((m, n))) => texts_of(l@) == m && end == pos + n,
            (None, None) => true,
            _ => false,
        },
        r matches Some((_, end)) ==> pos < end <= buf@.len(),
{
    reveal(parse_list);
    let (n, start) = match read_array_len(buf, pos) {
        Some(header) => header,
        None => { return None; },
    };
    let ghost b = buf@.skip(pos as int);
    assert(b.skip(start - pos) =~= buf@.skip(start as int));
    let ghost whole = parse_texts(buf@.skip(start as int), n as nat);
    let mut list: Vec<String> = Vec::new();
    let mut at: usize = start;
    let mut i: u32 = 0;
    let ghost mut done: Seq<Seq<char>> = Seq::empty();
    proof {
        assert(done =~= texts_of(list@));
        match whole {
            Some((rest, more)) => {
                assert(done + rest =~= rest);
            },
            None => {},
        }
    }
    while i < n
        invariant
            i <= n,
            pos < start <= at <= buf@.len(),
            done == texts_of(list@),
            b == buf@.skip(pos as int),
            parse_array_len(b) == Some((n, (start - pos) as nat)),
            whole == parse_texts(b.skip(start - pos), n as nat),
            whole == resume(
                done,
                (at - start) as nat,
                parse_texts(buf@.skip(at as int), (n - i) as nat),
            ),
        decreases n - i,
    {
        proof {
            reveal(parse_list);
            lemma_texts_step(done, (at - start) as nat, buf@.skip(at as int), (n - i) as nat);
        }
        match read_text(buf, at) {
            Some((s, end)) => {
                proof {
                    assert(buf@.skip(at as int).skip(end - at) =~= buf@.skip(end as int));
                    assert(texts_of(list@.push(s)) =~= done.push(s@));
                    done = done.push(s@);
                }
                list.push(s);
                at = end;
                i = i + 1;
            },
            None => {
                return None;
            },
        }
    }
    assert(done + Seq::<Seq<char>>::empty() =~= done);
    Some((list, at))
}

/// Reads a pair of strings at `pos`.
pub fn read_pair(buf: &[u8], pos: usize) -> (r: Option<((String, String), usize)>)
    requires
        pos <= buf@.len(),
    ensures
        match (r, parse_pair(buf@.skip(pos as int))) {
            (Some((p, end)), Some((m, n))) => (p.0@, p.1@) == m && end == pos + n,
            (None, None) => true,
            _ => false,
        },
        r matches Some((_, end)) ==> pos < end <= buf@.len(),
{
    reveal(parse_pair);
    match read_text(buf, pos) {
        Some((name, mid)) => {
            assert(buf@.skip(pos as int).skip(mid - pos) =~= buf@.skip(mid as int));
            match read_text(buf, mid) {
                Some((value, end)) => Some(((name, value), end)),
                None => None,
            }
        },
        None => None,
    }
}

/// Reads a string map at `pos`.
pub fn read_dict(buf: &[u8], pos: usize) -> (r: Option<(Vec<(String, String)>, usize)>)
    requires
        pos <= buf@.len(),
    ensures
        match (r, parse_dict(buf@.skip(pos as int))) {
            (Some((d, end)), Some((m, n))) => pairs_of(d@) == m && end == pos + n,
            (None, None) => true,
            _ => false,
        },
        r matches Some((_, end)) ==> pos < end <= buf@.len(),
{
    reveal(parse_dict);
    let (n, start) = match read_map_len(buf, pos) {
        Some(header) => header,
        None => { return None; },
    };
    let ghost b = buf@.skip(pos as int);
    assert(b.skip(start - pos) =~= buf@.skip(start as int));
    let ghost whole = parse_pairs(buf@.skip(start as int), n as nat);
    let mut pairs: Vec<(String, String)> = Vec::new();
    let mut at: usize = start;
    let mut i: u32 = 0;
    let ghost mut done: Seq<(Seq<char>, Seq<char>)> = Seq::empty();
    proof {
        assert(done =~= pairs_of(pairs@));
        match whole {
            Some((rest, more)) => {
                assert(done + rest =~= rest);
            },
            None => {},
        }
    }
    while i < n
        invariant
            i <= n,
            pos < start <= at <= buf@.len(),
            done == pairs_of(pairs@),
            b == buf@.skip(pos as int),
            parse_map_len(b) == Some((n, (start - pos) as nat)),
            whole == parse_pairs(b.skip(start - pos), n as nat),
            whole == resume(
                done,
                (at - start) as nat,
                parse_pairs(buf@.skip(at as int), (n - i) as nat),
            ),
        decreases n - i,
    {
        proof {
            reveal(parse_dict);
            lemma_pairs_step(done, (at - start) as nat, buf@.skip(at as int), (n - i) as nat);
        }
        match read_pair(buf, at) {
            Some((p, end)) => {
                proof {
                    assert(buf@.skip(at as int).skip(end - at) =~= buf@.skip(end as int));
                    assert(pairs_of(pairs@.push(p)) =~= done.push((p.0@, p.1@)));
                    done = done.push((p.0@, p.1@));
                }
                pairs.push(p);
                at = end;
                i = i + 1;
            },
            None => {
                return None;
            },
        }
    }
    assert(done + Seq::<(Seq<char>, Seq<char>)>::empty() =~= done);
    Some((pairs, at))
}

/// Reads an argument value at `pos`.
pub fn read_value(buf: &[u8], pos: usize) -> (r: Option<(ArgValue, usize)>)
    requires
        pos <= buf@.len(),
    ensures
        match (r, parse_value(buf@.skip(pos as int))) {
            (Some((v, end)), Some((m, n))) => v@ == m && end == pos + n,
            (None, None) => true,
            _ => false,
        },
        r matches Some((_, end)) ==> pos < end <= buf@.len(),
{
    reveal(parse_value);
    if let Some((b, end)) = read_bool(buf, pos) {
        return Some((ArgValue::Bool(b), end));
    }
    if let Some((n, end)) = read_uint(buf, pos) {
        return Some((ArgValue::UInt(n), end));
    }
    if let Some((s, end)) = read_text(buf, pos) {
        return Some((ArgValue::Str(s), end));
    }
    if let Some((d, end)) = read_bin(buf, pos) {
        return Some((ArgValue::Bytes(d), end));
    }
    if let Some((l, end)) = read_list(buf, pos) {
        return Some((ArgValue::StrList(l), end));
    }
    match read_dict(buf, pos) {
        Some((m, end)) => Some((ArgValue::StrMap(m), end)),
        None => None,
    }
}

/// Reads one entry at `pos`.
pub fn read_entry(buf: &[u8], pos: usize) -> (r: Option<(Arg, usize)>)
    requires
        pos <= buf@.len(),
    ensures
        match (r, parse_entry(buf@.skip(pos as int))) {
            (Some((a, end)), Some((m, n))) => a@ == m && end == pos + n,
            (None, None) => true,
            _ => false,
        },
        r matches Some((_, end)) ==> pos < end <= buf@.len(),
{
    reveal(parse_entry);
    match read_text(buf, pos) {
        Some((key, mid)) => {
            assert(buf@.skip(pos as int).skip(mid - pos) =~= buf@.skip(mid as int));
            match read_value(buf, mid) {
                Some((value, end)) => Some((Arg { key, value }, end)),
                None => None,
            }
        },
        None => None,
    }
}

impl ArgMap {
    /// Decodes an argument map that fills `buf` exactly: a map header, then
    /// as many entries as it announces, each a string key and a value.
    /// `None` when the bytes are anything else.
    pub fn decode(buf: &[u8]) -> (r: Option<ArgMap>)
        ensures
            match (r, parse_args(buf@)) {
                (Some(m), Some(args)) => m@ == args,
                (None, None) => true,
                _ => false,
            },
    {
        let (n, start) = match read_map_len(buf, 0) {
            Some(header) => header,
            None => { return None; },
        };
        assert(buf@.skip(0) =~= buf@);
        let ghost whole = parse_entries(buf@.skip(start as int), n as nat);
        let mut entries: Vec<Arg> = Vec::new();
        let mut pos: usize = start;
        let mut i: u32 = 0;
        let ghost mut done: Seq<ArgModel> = Seq::empty();
        proof {
            assert(done =~= entries@.map_values(|a: Arg| a@));
            match whole {
                Some((rest, more)) => {
                    assert(done + rest =~= rest);
                },
                None => {},
            }
        }
        while i < n
            invariant
                i <= n,
                start <= pos <= buf@.len(),
                done == entries@.map_values(|a: Arg| a@),
                parse_map_len(buf@) == Some((n, start as nat)),
                whole == parse_entries(buf@.skip(start as int), n as nat),
                whole == resume(
                    done,
                    (pos - start) as nat,
                    parse_entries(buf@.skip(pos as int), (n - i) as nat),
                ),
            decreases n - i,
        {
            proof {
                lemma_resume_step(
                    done,
                    (pos - start) as nat,
                    buf@.skip(pos as int),
                    (n - i) as nat,
                );
            }
            match read_entry(buf, pos) {
                Some((arg, end)) => {
                    proof {
                        assert(buf@.skip(pos as int).skip(end - pos) =~= buf@.skip(end as int));
                        assert(entries@.push(arg).map_values(|a: Arg| a@) =~= done.push(arg@));
                        done = done.push(arg@);
                    }
                    entries.push(arg);
                    pos = end;
                    i = i + 1;
                },
                None => {
                    return None;
                },
            }
        }
        assert(done + Seq::<ArgModel>::empty() =~= done);
        if pos == buf.len() {
            Some(ArgMap { entries })
        } else {
            None
        }
    }
}

/// Four big-endian bytes spell the number they were made from.
pub proof fn lemma_be32_round_trip(v: int, pre: Seq<u8>, rest: Seq<u8>)
    requires
        0 <= v < 0x1_0000_0000,
    ensures
        be32_at(pre + be32(v) + rest, pre.len() as int) == v,
{
    let b = pre + be32(v) + rest;
    let p = pre.len() as int;
    assert(b[p] == be32(v)[0] && b[p + 1] == be32(v)[1] && b[p + 2] == be32(v)[2] && b[p + 3]
        == be32(v)[3]);
    let r1 = v / 0x100;
    let r2 = r1 / 0x100;
    let r3 = r2 / 0x100;
    assert(r2 == v / 0x1_0000);
    assert(r3 == v / 0x100_0000);
    assert(v == r3 * 0x100_0000 + (r2 % 0x100) * 0x1_0000 + (r1 % 0x100) * 0x100 + v % 0x100);
}

/// Two big-endian bytes spell the number they were made from.
pub proof fn lemma_be16_round_trip(v: int, pre: Seq<u8>, rest: Seq<u8>)
    requires
        0 <= v < 0x1_0000,
    ensures
        be16_at(pre + be16(v) + rest, pre.len() as int) == v,
{
    let b = pre + be16(v) + rest;
    let p = pre.len() as int;
    assert(b[p] == be16(v)[0] && b[p + 1] == be16(v)[1]);
}

/// Eight big-endian bytes spell the number they were made from.
pub proof fn lemma_be64_round_trip(v: int, pre: Seq<u8>, rest: Seq<u8>)
    requires
        0 <= v < 0x1_0000_0000_0000_0000,
    ensures
        be64_at(pre + be64(v) + rest, pre.len() as int) == v,
{
    let hi = v / 0x1_0000_0000;
    let lo = v % 0x1_0000_0000;
    let b = pre + be64(v) + rest;
    lemma_be32_round_trip(hi, pre, be32(lo) + rest);
    lemma_be32_round_trip(lo, pre + be32(hi), rest);
    assert(b =~= pre + be32(hi) + (be32(lo) + rest));
    assert(b =~= (pre + be32(hi)) + be32(lo) + rest);
}

/// A map header is read back as the length it was written for.
pub proof fn lemma_map_len_round_trip(len: u32, rest: Seq<u8>)
    ensures
        parse_map_len(map_len_bytes(len) + rest) == Some((len, map_len_bytes(len).len())),
{
    if len < 16 {
    } else if len < 0x1_0000 {
        lemma_be16_round_trip(len as int, seq![0xdeu8], rest);
    } else {
        lemma_be32_round_trip(len as int, seq![0xdfu8], rest);
    }
}

/// A string header is read back as the length it was written for.
pub proof fn lemma_str_len_round_trip(len: u32, rest: Seq<u8>)
    ensures
        parse_str_len(str_len_bytes(len) + rest) == Some((len, str_len_bytes(len).len())),
{
    if len < 32 {
    } else if len < 0x100 {
    } else if len < 0x1_0000 {
        lemma_be16_round_trip(len as int, seq![0xdau8], rest);
    } else {
        lemma_be32_round_trip(len as int, seq![0xdbu8], rest);
    }
}

/// An unsigned integer is read back as written, whatever follows it.
pub proof fn lemma_uint_round_trip(v: u64, rest: Seq<u8>)
    ensures
        parse_uint(uint_bytes(v) + rest) == Some((v, uint_bytes(v).len())),
        parse_bool(uint_bytes(v) + rest) is None,
{
    if v < 0x80 {
    } else if v < 0x100 {
    } else if v < 0x1_0000 {
        lemma_be16_round_trip(v as int, seq![0xcdu8], rest);
    } else if v < 0x1_0000_0000 {
        lemma_be32_round_trip(v as int, seq![0xceu8], rest);
    } else {
        lemma_be64_round_trip(v as int, seq![0xcfu8], rest);
    }
}

/// A string is read back as written, whatever follows it, and is taken for
/// neither a boolean nor an integer.
pub proof fn lemma_text_round_trip(s: Seq<char>, rest: Seq<u8>)
    requires
        fits_str(s),
    ensures
        parse_text(text_bytes(s) + rest) == Some((s, text_bytes(s).len())),
        parse_bool(text_bytes(s) + rest) is None,
        parse_uint(text_bytes(s) + rest) is None,
{
    let utf8 = encode_utf8(s);
    let len = utf8.len() as u32;
    let head = str_len_bytes(len);
    let b = text_bytes(s) + rest;
    assert(b =~= head + (utf8 + rest));
    lemma_str_len_round_trip(len, utf8 + rest);
    assert(b.subrange(head.len() as int, head.len() + len) =~= utf8);
    vstd::utf8::encode_utf8_valid_utf8(s);
    vstd::utf8::encode_utf8_decode_utf8(s);
    assert(b[0] == head[0]);
}

/// A byte string is read back as written, whatever follows it, and is
/// taken for nothing else.
pub proof fn lemma_bin_round_trip(data: Seq<u8>, rest: Seq<u8>)
    requires
        data.len() <= u32::MAX,
    ensures
        parse_bin(bin_bytes(data) + rest) == Some((data, bin_bytes(data).len())),
        parse_bool(bin_bytes(data) + rest) is None,
        parse_uint(bin_bytes(data) + rest) is None,
        parse_text(bin_bytes(data) + rest) is None,
{
    let len = data.len() as u32;
    let head = bin_len_bytes(len);
    let b = bin_bytes(data) + rest;
    assert(b =~= head + (data + rest));
    if len < 0x100 {
    } else if len < 0x1_0000 {
        lemma_be16_round_trip(len as int, seq![0xc5u8], data + rest);
    } else {
        lemma_be32_round_trip(len as int, seq![0xc6u8], data + rest);
    }
    assert(b[0] == head[0]);
    assert(parse_bin_len(b) == Some((len, head.len())));
    assert(b.subrange(head.len() as int, head.len() + len) =~= data);
}

/// An array header is read back as the length it was written for.
pub proof fn lemma_array_len_round_trip(len: u32, rest: Seq<u8>)
    ensures
        parse_array_len(array_len_bytes(len) + rest) == Some((len, array_len_bytes(len).len())),
        (array_len_bytes(len) + rest)[0] == array_len_bytes(len)[0],
        0x90 <= array_len_bytes(len)[0] <= 0x9f || array_len_bytes(len)[0] == 0xdc
            || array_len_bytes(len)[0] == 0xdd,
{
    if len < 16 {
    } else if len < 0x1_0000 {
        lemma_be16_round_trip(len as int, seq![0xdcu8], rest);
    } else {
        lemma_be32_round_trip(len as int, seq![0xddu8], rest);
    }
}

/// The strings of a list are read back as written, whatever follows them.
pub proof fn lemma_texts_round_trip(list: Seq<Seq<char>>, rest: Seq<u8>)
    requires
        forall|i: int| 0 <= i < list.len() ==> fits_str(#[trigger] list[i]),
    ensures
        parse_texts(texts_bytes(list) + rest, list.len()) == Some((list, texts_bytes(list).len())),
    decreases list.len(),
{
    if list.len() == 0 {
        assert(list =~= Seq::<Seq<char>>::empty());
    } else {
        let first = list[0];
        let tail = list.drop_first();
        let b = texts_bytes(list) + rest;
        let after = texts_bytes(tail) + rest;
        assert(b =~= text_bytes(first) + after);
        lemma_text_round_trip(first, after);
        assert(b.skip(text_bytes(first).len() as int) =~= after);
        assert forall|i: int| 0 <= i < tail.len() implies fits_str(#[trigger] tail[i]) by {
            assert(tail[i] == list[i + 1]);
        }
        lemma_texts_round_trip(tail, rest);
        assert(seq![first] + tail =~= list);
        assert(texts_bytes(list).len() == text_bytes(first).len() + texts_bytes(tail).len());
    }
}

/// A list of strings is read back as written, whatever follows it, and is
/// taken for nothing else.
pub proof fn lemma_list_round_trip(list: Seq<Seq<char>>, rest: Seq<u8>)
    requires
        ValueModel::StrList(list).encodable(),
    ensures
        parse_list(ValueModel::StrList(list).bytes() + rest) == Some(
            (list, ValueModel::StrList(list).bytes().len()),
        ),
        parse_bool(ValueModel::StrList(list).bytes() + rest) is None,
        parse_uint(ValueModel::StrList(list).bytes() + rest) is None,
        parse_text(ValueModel::StrList(list).bytes() + rest) is None,
        parse_bin(ValueModel::StrList(list).bytes() + rest) is None,
{
    reveal(parse_list);
    let len = list.len() as u32;
    let head = array_len_bytes(len);
    let b = ValueModel::StrList(list).bytes() + rest;
    assert(b =~= head + (texts_bytes(list) + rest));
    lemma_array_len_round_trip(len, texts_bytes(list) + rest);
    assert(b.skip(head.len() as int) =~= texts_bytes(list) + rest);
    lemma_texts_round_trip(list, rest);
}

/// A pair of strings is read back as written, whatever follows it.
pub proof fn lemma_pair_round_trip(p: (Seq<char>, Seq<char>), rest: Seq<u8>)
    requires
        pair_fits(p),
    ensures
        parse_pair(pair_bytes(p) + rest) == Some((p, pair_bytes(p).len())),
{
    reveal(parse_pair);
    let name = text_bytes(p.0);
    let b = pair_bytes(p) + rest;
    assert(b =~= name + (text_bytes(p.1) + rest));
    lemma_text_round_trip(p.0, text_bytes(p.1) + rest);
    assert(b.skip(name.len() as int) =~= text_bytes(p.1) + rest);
    lemma_text_round_trip(p.1, rest);
}

/// The pairs of a string map are read back as written, whatever follows
/// them.
pub proof fn lemma_pairs_round_trip(pairs: Seq<(Seq<char>, Seq<char>)>, rest: Seq<u8>)
    requires
        forall|i: int| 0 <= i < pairs.len() ==> pair_fits(#[trigger] pairs[i]),
    ensures
        parse_pairs(pairs_bytes(pairs) + rest, pairs.len()) == Some(
            (pairs, pairs_bytes(pairs).len()),
        ),
    decreases pairs.len(),
{
    if pairs.len() == 0 {
        assert(pairs =~= Seq::<(Seq<char>, Seq<char>)>::empty());
    } else {
        let first = pairs[0];
        let tail = pairs.drop_first();
        let b = pairs_bytes(pairs) + rest;
        let after = pairs_bytes(tail) + rest;
        assert(b =~= pair_bytes(first) + after);
        lemma_pair_round_trip(first, after);
        assert(b.skip(pair_bytes(first).len() as int) =~= after);
        assert forall|i: int| 0 <= i < tail.len() implies pair_fits(#[trigger] tail[i]) by {
            assert(tail[i] == pairs[i + 1]);
        }
        lemma_pairs_round_trip(tail, rest);
        assert(seq![first] + tail =~= pairs);
        assert(pairs_bytes(pairs).len() == pair_bytes(first).len() + pairs_bytes(tail).len());
    }
}

/// A string map is read back as written, whatever follows it, and is taken
/// for nothing else.
pub proof fn lemma_dict_round_trip(pairs: Seq<(Seq<char>, Seq<char>)>, rest: Seq<u8>)
    requires
        ValueModel::StrMap(pairs).encodable(),
    ensures
        parse_dict(ValueModel::StrMap(pairs).bytes() + rest) == Some(
            (pairs, ValueModel::StrMap(pairs).bytes().len()),
        ),
        parse_bool(ValueModel::StrMap(pairs).bytes() + rest) is None,
        parse_uint(ValueModel::StrMap(pairs).bytes() + rest) is None,
        parse_text(ValueModel::StrMap(pairs).bytes() + rest) is None,
        parse_bin(ValueModel::StrMap(pairs).bytes() + rest) is None,
        parse_list(ValueModel::StrMap(pairs).bytes() + rest) is None,
{
    reveal(parse_dict);
    reveal(parse_list);
    let len = pairs.len() as u32;
    let head = map_len_bytes(len);
    let b = ValueModel::StrMap(pairs).bytes() + rest;
    assert(b =~= head + (pairs_bytes(pairs) + rest));
    lemma_map_len_round_trip(len, pairs_bytes(pairs) + rest);
    assert(b[0] == head[0]);
    assert(b.skip(head.len() as int) =~= pairs_bytes(pairs) + rest);
    lemma_pairs_round_trip(pairs, rest);
}

/// A value is read back as written, whatever follows it.
pub proof fn lemma_value_round_trip(v: ValueModel, rest: Seq<u8>)
    requires
        v.encodable(),
    ensures
        parse_value(v.bytes() + rest) == Some((v, v.bytes().len())),
{
    reveal(parse_value);
    match v {
        ValueModel::Bool(b) => {
            assert((bool_bytes(b) + rest)[0] == bool_bytes(b)[0]);
        },
        ValueModel::Bytes(d) => {
            lemma_bin_round_trip(d, rest);
        },
        ValueModel::StrList(l) => {
            lemma_list_round_trip(l, rest);
        },
        ValueModel::StrMap(m) => {
            lemma_dict_round_trip(m, rest);
        },
        ValueModel::UInt(n) => {
            lemma_uint_round_trip(n, rest);
        },
        ValueModel::Str(s) => {
            lemma_text_round_trip(s, rest);
        },
    }
}

/// An entry is read back as written, whatever follows it.
pub proof fn lemma_entry_round_trip(arg: ArgModel, rest: Seq<u8>)
    requires
        arg.encodable(),
    ensures
        parse_entry(arg.bytes() + rest) == Some((arg, arg.bytes().len())),
{
    reveal(parse_entry);
    let key = text_bytes(arg.key);
    let b = arg.bytes() + rest;
    assert(b =~= key + (arg.value.bytes() + rest));
    lemma_text_round_trip(arg.key, arg.value.bytes() + rest);
    assert(b.skip(key.len() as int) =~= arg.value.bytes() + rest);
    lemma_value_round_trip(arg.value, rest);
}

/// The entries of a map are read back as written, whatever follows them.
pub proof fn lemma_entries_round_trip(args: Seq<ArgModel>, rest: Seq<u8>)
    requires
        forall|i: int| 0 <= i < args.len() ==> (#[trigger] args[i]).encodable(),
    ensures
        parse_entries(entries_bytes(args) + rest, args.len()) == Some(
            (args, entries_bytes(args).len()),
        ),
    decreases args.len(),
{
    if args.len() == 0 {
        assert(args =~= Seq::<ArgModel>::empty());
    } else {
        let first = args[0];
        let tail = args.drop_first();
        let b = entries_bytes(args) + rest;
        let after = entries_bytes(tail) + rest;
        assert(b =~= first.bytes() + after);
        lemma_entry_round_trip(first, after);
        assert(b.skip(first.bytes().len() as int) =~= after);
        assert forall|i: int| 0 <= i < tail.len() implies (#[trigger] tail[i]).encodable() by {
            assert(tail[i] == args[i + 1]);
        }
        lemma_entries_round_trip(tail, rest);
        lemma_resume_step(Seq::empty(), 0, b, args.len());
        assert(Seq::<ArgModel>::empty().push(first) + tail =~= args);
        assert(Seq::<ArgModel>::empty() + args =~= args);
        assert(parse_entries(b, args.len()) == resume(
            Seq::empty(),
            0,
            parse_entries(b, args.len()),
        )) by {
            match parse_entries(b, args.len()) {
                Some((r, m)) => {
                    assert(Seq::<ArgModel>::empty() + r =~= r);
                },
                None => {},
            }
        }
        assert(entries_bytes(args).len() == first.bytes().len() + entries_bytes(tail).len());
    }
}

/// Decoding what was encoded gives the map that was encoded: the same
/// arguments with the same values, in the order they were declared, and no
/// argument that was absent.
pub proof fn lemma_decode_encode(args: Seq<ArgModel>)
    requires
        args_encodable(args),
    ensures
        parse_args(args_bytes(args)) == Some(args),
{
    let head = map_len_bytes(args.len() as u32);
    let b = args_bytes(args);
    lemma_map_len_round_trip(args.len() as u32, entries_bytes(args));
    assert(b.skip(head.len() as int) =~= entries_bytes(args));
    assert(entries_bytes(args) + Seq::<u8>::empty() =~= entries_bytes(args));
    lemma_entries_round_trip(args, Seq::empty());
}

/// The response header on the wire: a map of two entries, `Seq` and then
/// `Error`.
pub open spec fn response_header_bytes(seq: u64, error: Seq<char>) -> Seq<u8> {
    map_len_bytes(2) + text_bytes("Seq"@) + uint_bytes(seq) + text_bytes("Error"@) + text_bytes(
        error,
    )
}

/// Reads a string at the start of `b` and holds it against `expected`.
#[verifier::opaque]
pub open spec fn parse_key(b: Seq<u8>, expected: Seq<char>) -> Option<nat> {
    match parse_text(b) {
        Some((key, n)) => if key == expected {
            Some(n)
        } else {
            None
        },
        None => None,
    }
}

/// Reads the entry `Seq` at the start of `b`: the key, then the number.
#[verifier::opaque]
pub open spec fn parse_seq_field(b: Seq<u8>) -> Option<(u64, nat)> {
    match parse_key(b, "Seq"@) {
        Some(k) => match parse_uint(b.skip(k as int)) {
            Some((seq, v)) => Some((seq, (k + v) as nat)),
            None => None,
        },
        None => None,
    }
}

/// Reads the entry `Error` at the start of `b`: the key, then the string.
#[verifier::opaque]
pub open spec fn parse_error_field(b: Seq<u8>) -> Option<(Seq<char>, nat)> {
    match parse_key(b, "Error"@) {
        Some(k) => match parse_text(b.skip(k as int)) {
            Some((error, v)) => Some((error, (k + v) as nat)),
            None => None,
        },
        None => None,
    }
}

/// Reads a response header at the start of `b`: a map of the two entries
/// `Seq` and `Error`, in this order. Gives the sequence number, the error
/// string and the number of bytes the header takes. What follows is the
/// body.
#[verifier::opaque]
pub open spec fn parse_response_header(b: Seq<u8>) -> Option<((u64, Seq<char>), nat)> {
    match parse_map_len(b) {
        Some((n, h)) => match parse_seq_field(b.skip(h as int)) {
            Some((seq, f1)) => match parse_error_field(b.skip((h + f1) as int)) {
                Some((error, f2)) => if n == 2 {
                    Some(((seq, error), (h + f1 + f2) as nat))
                } else {
                    None
                },
                None => None,
            },
            None => None,
        },
        None => None,
    }
}

/// Reads a string at `pos` that must spell `expected`.
fn read_key(buf: &[u8], pos: usize, expected: &str) -> (r: Option<usize>)
    requires
        pos <= buf@.len(),
    ensures
        match (r, parse_key(buf@.skip(pos as int), expected@)) {
            (Some(end), Some(n)) => end == pos + n,
            (None, None) => true,
            _ => false,
        },
        r matches Some(end) ==> pos < end <= buf@.len(),
{
    reveal(parse_key);
    match read_text(buf, pos) {
        Some((key, end)) => {
            let wanted = expected.to_owned();
            if key == wanted {
                Some(end)
            } else {
                None
            }
        },
        None => None,
    }
}

/// Reads the entry `Seq` at `pos`.
fn read_seq_field(buf: &[u8], pos: usize) -> (r: Option<(u64, usize)>)
    requires
        pos <= buf@.len(),
    ensures
        got(r) == at(parse_seq_field(buf@.skip(pos as int)), pos),
        r matches Some((_, end)) ==> pos < end <= buf@.len(),
{
    reveal(parse_seq_field);
    match read_key(buf, pos, "Seq") {
        Some(mid) => {
            assert(buf@.skip(pos as int).skip(mid - pos) =~= buf@.skip(mid as int));
            read_uint(buf, mid)
        },
        None => None,
    }
}

/// Reads the entry `Error` at `pos`.
fn read_error_field(buf: &[u8], pos: usize) -> (r: Option<(String, usize)>)
    requires
        pos <= buf@.len(),
    ensures
        match (r, parse_error_field(buf@.skip(pos as int))) {
            (Some((s, end)), Some((t, n))) => s@ == t && end == pos + n,
            (None, None) => true,
            _ => false,
        },
        r matches Some((_, end)) ==> pos < end <= buf@.len(),
{
    reveal(parse_error_field);
    match read_key(buf, pos, "Error") {
        Some(mid) => {
            assert(buf@.skip(pos as int).skip(mid - pos) =~= buf@.skip(mid as int));
            read_text(buf, mid)
        },
        None => None,
    }
}

impl ResponseHeader {
    /// Decodes the response header that starts at `pos`. Returns the header
    /// and the position of the body behind it; `None` when the bytes from
    /// `pos` on do not begin with a whole header.
    pub fn decode(buf: &[u8], pos: usize) -> (r: Option<(ResponseHeader, usize)>)
        requires
            pos <= buf@.len(),
        ensures
            match (r, parse_response_header(buf@.skip(pos as int))) {
                (Some((header, end)), Some(((seq, error), n))) => {
                    &&& header.seq == seq
                    &&& header.error@ == error
                    &&& end == pos + n
                    &&& end <= buf@.len()
                },
                (None, None) => true,
                _ => false,
            },
    {
        reveal(parse_response_header);
        let ghost b = buf@.skip(pos as int);
        let (n, p1) = match read_map_len(buf, pos) {
            Some(x) => x,
            None => { return None; },
        };
        assert(b.skip(p1 - pos) =~= buf@.skip(p1 as int));
        let (seq, p2) = match read_seq_field(buf, p1) {
            Some(x) => x,
            None => { return None; },
        };
        assert(b.skip(p2 - pos) =~= buf@.skip(p2 as int));
        let (error, p3) = match read_error_field(buf, p2) {
            Some(x) => x,
            None => { return None; },
        };
        if n != 2 {
            return None;
        }
        Some((ResponseHeader { seq, error }, p3))
    }
}

/// A key is recognised where it was written.
proof fn lemma_key_round_trip(key: Seq<char>, rest: Seq<u8>)
    requires
        fits_str(key),
    ensures
        parse_key(text_bytes(key) + rest, key) == Some(text_bytes(key).len()),
{
    reveal(parse_key);
    lemma_text_round_trip(key, rest);
}

/// The entry `Seq` is read back as written.
proof fn lemma_seq_field_round_trip(seq: u64, rest: Seq<u8>)
    ensures
        parse_seq_field(text_bytes("Seq"@) + uint_bytes(seq) + rest) == Some(
            (seq, (text_bytes("Seq"@) + uint_bytes(seq)).len()),
        ),
{
    reveal(parse_seq_field);
    reveal_strlit("Seq");
    lemma_ascii_fits("Seq");
    let k = text_bytes("Seq"@);
    let b = k + uint_bytes(seq) + rest;
    assert(b =~= k + (uint_bytes(seq) + rest));
    lemma_key_round_trip("Seq"@, uint_bytes(seq) + rest);
    assert(b.skip(k.len() as int) =~= uint_bytes(seq) + rest);
    lemma_uint_round_trip(seq, rest);
}

/// The entry `Error` is read back as written.
proof fn lemma_error_field_round_trip(error: Seq<char>, rest: Seq<u8>)
    requires
        fits_str(error),
    ensures
        parse_error_field(text_bytes("Error"@) + text_bytes(error) + rest) == Some(
            (error, (text_bytes("Error"@) + text_bytes(error)).len()),
        ),
{
    reveal(parse_error_field);
    reveal_strlit("Error");
    lemma_ascii_fits("Error");
    let k = text_bytes("Error"@);
    let b = k + text_bytes(error) + rest;
    assert(b =~= k + (text_bytes(error) + rest));
    lemma_key_round_trip("Error"@, text_bytes(error) + rest);
    assert(b.skip(k.len() as int) =~= text_bytes(error) + rest);
    lemma_text_round_trip(error, rest);
}

/// A response header is read back as written, and the reading stops where
/// the body begins.
pub proof fn lemma_response_header_round_trip(seq: u64, error: Seq<char>, body: Seq<u8>)
    requires
        fits_str(error),
    ensures
        parse_response_header(response_header_bytes(seq, error) + body) == Some(
            ((seq, error), response_header_bytes(seq, error).len()),
        ),
{
    reveal(parse_response_header);
    let h = map_len_bytes(2);
    let f1 = text_bytes("Seq"@) + uint_bytes(seq);
    let f2 = text_bytes("Error"@) + text_bytes(error);
    let b = response_header_bytes(seq, error) + body;
    assert(b =~= h + (f1 + (f2 + body)));
    lemma_map_len_round_trip(2, f1 + (f2 + body));
    assert(b.skip(h.len() as int) =~= f1 + (f2 + body));
    lemma_seq_field_round_trip(seq, f2 + body);
    assert(f1 + (f2 + body) =~= text_bytes("Seq"@) + uint_bytes(seq) + (f2 + body));
    assert(b.skip((h.len() + f1.len()) as int) =~= f2 + body);
    lemma_error_field_round_trip(error, body);
    assert(f2 + body =~= text_bytes("Error"@) + text_bytes(error) + body);
    assert(response_header_bytes(seq, error).len() == h.len() + f1.len() + f2.len());
}

} // verus!
