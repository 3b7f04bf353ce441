//! Data as bytes: little-endian numbers, text with its length in front, and how they are
//! read back.

use vstd::bytes::{
    lemma_auto_spec_u32_to_from_le_bytes, lemma_auto_spec_u64_to_from_le_bytes,
    spec_u32_from_le_bytes, spec_u32_to_le_bytes, spec_u64_from_le_bytes, spec_u64_to_le_bytes,
    u32_from_le_bytes, u32_to_le_bytes, u64_from_le_bytes, u64_to_le_bytes,
};
use crate::text::{owned, push_wide_decimal, decimal};
use vstd::prelude::*;
use vstd::slice::slice_subrange;
use vstd::string::*;
use vstd::utf8::{
    decode_utf8, encode_utf8, encode_utf8_decode_utf8, encode_utf8_valid_utf8, valid_utf8,
};

verus! {

/// The longest text and the largest filter that are read, in bytes: a corrupted length
/// must not have memory set aside for it.
pub const MAX_PREALLOC: usize = 0x100_0000;

/// Why bytes could not be written or read.
#[derive(Debug, Clone, Copy, PartialEq, Eq, Structural)]
pub enum FormatError {
    Truncated,
    TextTooLong,
    NotUtf8,
    BadMagic,
    UnsupportedVersion { expected: u8, got: u8 },
    HeaderChecksum,
    RunTooShort,
    FooterLength,
    RunLayout,
    FilterTooLarge,
    InvalidArity(u8),
    InvalidTag(u8),
    RunKeyMissing,
    ManifestKeyMissing,
    ManifestTooShort,
    ManifestChecksum,
    Compression,
    Decompression,
    Encryption,
    BlobTooShort,
    Decryption,
}

impl FormatError {
    pub open spec fn text(self) -> Seq<char> {
        match self {
            FormatError::Truncated => "failed to fill whole buffer"@,
            FormatError::TextTooLong => "string too long"@,
            FormatError::NotUtf8 => "invalid utf-8 sequence"@,
            FormatError::BadMagic => "bad magic"@,
            FormatError::UnsupportedVersion { expected, got } => "unsupported version: expected "@
                + decimal(expected as nat) + ", got "@ + decimal(got as nat),
            FormatError::HeaderChecksum => "header checksum mismatch"@,
            FormatError::RunTooShort => "run file too short"@,
            FormatError::FooterLength => "invalid run footer length"@,
            FormatError::RunLayout => "invalid run layout"@,
            FormatError::FilterTooLarge => "bloom filter too large"@,
            FormatError::InvalidArity(n) => "invalid run entry arity: "@ + decimal(n as nat),
            FormatError::InvalidTag(n) => "invalid value tag: "@ + decimal(n as nat),
            FormatError::RunKeyMissing => "run is encrypted but no key configured"@,
            FormatError::ManifestKeyMissing => "manifest is encrypted but no key configured"@,
            FormatError::ManifestTooShort => "manifest body too short"@,
            FormatError::ManifestChecksum => "manifest body checksum mismatch"@,
            FormatError::Compression => "compression failed"@,
            FormatError::Decompression => "decompression failed"@,
            FormatError::Encryption => "encryption failed"@,
            FormatError::BlobTooShort => "encrypted blob too short"@,
            FormatError::Decryption => "decryption failed: wrong key or corrupted data"@,
        }
    }

    /// The error in words.
    pub fn message(&self) -> (r: String)
        ensures
            r@ == self.text(),
    {
        match *self {
            FormatError::Truncated => owned("failed to fill whole buffer"),
            FormatError::TextTooLong => owned("string too long"),
            FormatError::NotUtf8 => owned("invalid utf-8 sequence"),
            FormatError::BadMagic => owned("bad magic"),
            FormatError::UnsupportedVersion { expected, got } => {
                let mut out = owned("unsupported version: expected ");
                push_wide_decimal(&mut out, expected as u128);
                out.append(", got ");
                push_wide_decimal(&mut out, got as u128);
                out
            },
            FormatError::HeaderChecksum => owned("header checksum mismatch"),
            FormatError::RunTooShort => owned("run file too short"),
            FormatError::FooterLength => owned("invalid run footer length"),
            FormatError::RunLayout => owned("invalid run layout"),
            FormatError::FilterTooLarge => owned("bloom filter too large"),
            FormatError::InvalidArity(n) => {
                let mut out = owned("invalid run entry arity: ");
                push_wide_decimal(&mut out, n as u128);
                out
            },
            FormatError::InvalidTag(n) => {
                let mut out = owned("invalid value tag: ");
                push_wide_decimal(&mut out, n as u128);
                out
            },
            FormatError::RunKeyMissing => owned("run is encrypted but no key configured"),
            FormatError::ManifestKeyMissing => owned("manifest is encrypted but no key configured"),
            FormatError::ManifestTooShort => owned("manifest body too short"),
            FormatError::ManifestChecksum => owned("manifest body checksum mismatch"),
            FormatError::Compression => owned("compression failed"),
            FormatError::Decompression => owned("decompression failed"),
            FormatError::Encryption => owned("encryption failed"),
            FormatError::BlobTooShort => owned("encrypted blob too short"),
            FormatError::Decryption => owned("decryption failed: wrong key or corrupted data"),
        }
    }
}

/// What was read at a place, and where it ends.
pub type Taken<T> = Result<(T, int), FormatError>;

/// `piece` stands in `b` at `at`.
pub open spec fn holds_at(b: Seq<u8>, at: int, piece: Seq<u8>) -> bool {
    &&& 0 <= at
    &&& at + piece.len() <= b.len()
    &&& b.subrange(at, at + piece.len()) == piece
}

/// The parts of a piece stand one behind the other.
pub proof fn lemma_holds_parts(b: Seq<u8>, at: int, x: Seq<u8>, y: Seq<u8>)
    ensures
        holds_at(b, at, x + y) <==> holds_at(b, at, x) && holds_at(b, at + x.len(), y),
{
    if holds_at(b, at, x + y) {
        let z = b.subrange(at, at + (x + y).len());
        assert(b.subrange(at, at + x.len()) =~= x) by {
            assert forall|i: int| 0 <= i < x.len() implies b[at + i] == x[i] by {
                assert(z[i] == (x + y)[i]);
            }
        }
        assert(b.subrange(at + x.len(), at + x.len() + y.len()) =~= y) by {
            assert forall|i: int| 0 <= i < y.len() implies b[at + x.len() + i] == y[i] by {
                assert(z[x.len() + i] == (x + y)[x.len() + i]);
            }
        }
    }
    if holds_at(b, at, x) && holds_at(b, at + x.len(), y) {
        assert(b.subrange(at, at + (x + y).len()) =~= x + y) by {
            assert forall|i: int| 0 <= i < (x + y).len() implies b[at + i] == (x + y)[i] by {
                if i < x.len() {
                    assert(b.subrange(at, at + x.len())[i] == x[i]);
                } else {
                    assert(b.subrange(at + x.len(), at + x.len() + y.len())[i - x.len()] == y[i
                        - x.len()]);
                }
            }
        }
    }
}

/// Bytes hold themselves.
pub proof fn lemma_holds_all(b: Seq<u8>)
    ensures
        holds_at(b, 0, b),
{
    assert(b.subrange(0, b.len() as int) =~= b);
}

pub open spec fn le32(n: u32) -> Seq<u8> {
    spec_u32_to_le_bytes(n)
}

pub open spec fn le64(n: u64) -> Seq<u8> {
    spec_u64_to_le_bytes(n)
}

/// A signed number, in two's complement.
pub open spec fn le_signed(n: i64) -> Seq<u8> {
    le64(n as u64)
}

/// A text: the number of its bytes, then the bytes.
pub open spec fn le_text(s: Seq<char>) -> Seq<u8> {
    le32(encode_utf8(s).len() as u32) + encode_utf8(s)
}

/// A text that can be read back.
pub open spec fn text_fits(s: Seq<char>) -> bool {
    encode_utf8(s).len() <= MAX_PREALLOC
}

pub open spec fn take_byte(b: Seq<u8>, at: int) -> Taken<u8> {
    if at + 1 <= b.len() {
        Ok((b[at], at + 1))
    } else {
        Err(FormatError::Truncated)
    }
}

pub open spec fn take_u32(b: Seq<u8>, at: int) -> Taken<u32> {
    if at + 4 <= b.len() {
        Ok((spec_u32_from_le_bytes(b.subrange(at, at + 4)), at + 4))
    } else {
        Err(FormatError::Truncated)
    }
}

pub open spec fn take_u64(b: Seq<u8>, at: int) -> Taken<u64> {
    if at + 8 <= b.len() {
        Ok((spec_u64_from_le_bytes(b.subrange(at, at + 8)), at + 8))
    } else {
        Err(FormatError::Truncated)
    }
}

pub open spec fn take_i64(b: Seq<u8>, at: int) -> Taken<i64> {
    match take_u64(b, at) {
        Ok((n, next)) => Ok((n as i64, next)),
        Err(e) => Err(e),
    }
}

pub open spec fn take_raw(b: Seq<u8>, at: int, n: int) -> Taken<Seq<u8>> {
    if at + n <= b.len() {
        Ok((b.subrange(at, at + n), at + n))
    } else {
        Err(FormatError::Truncated)
    }
}

pub open spec fn take_text(b: Seq<u8>, at: int) -> Taken<Seq<char>> {
    match take_u32(b, at) {
        Err(e) => Err(e),
        Ok((n, from)) => if n > MAX_PREALLOC {
            Err(FormatError::TextTooLong)
        } else {
            match take_raw(b, from, n as int) {
                Err(e) => Err(e),
                Ok((raw, next)) => if valid_utf8(raw) {
                    Ok((decode_utf8(raw), next))
                } else {
                    Err(FormatError::NotUtf8)
                },
            }
        },
    }
}

/// `n` items, one behind the other.
pub open spec fn take_many<T>(
    item: spec_fn(Seq<u8>, int) -> Taken<T>,
    b: Seq<u8>,
    at: int,
    n: nat,
) -> Taken<Seq<T>>
    decreases n,
{
    if n == 0 {
        Ok((Seq::empty(), at))
    } else {
        match take_many(item, b, at, (n - 1) as nat) {
            Err(e) => Err(e),
            Ok((front, p)) => match item(b, p) {
                Err(e) => Err(e),
                Ok((x, q)) => Ok((front.push(x), q)),
            },
        }
    }
}

/// A failure to read an item is a failure to read the list.
pub proof fn lemma_take_many_fails<T>(
    item: spec_fn(Seq<u8>, int) -> Taken<T>,
    b: Seq<u8>,
    at: int,
    i: nat,
    n: nat,
)
    requires
        i <= n,
        take_many(item, b, at, i) is Err,
    ensures
        take_many(item, b, at, n) == take_many(item, b, at, i),
    decreases n,
{
    if i < n {
        lemma_take_many_fails(item, b, at, i, (n - 1) as nat);
    }
}

/// The bytes of a list of items.
pub open spec fn laid_out<T>(enc: spec_fn(T) -> Seq<u8>, items: Seq<T>) -> Seq<u8>
    decreases items.len(),
{
    if items.len() == 0 {
        Seq::empty()
    } else {
        laid_out(enc, items.drop_last()) + enc(items.last())
    }
}

/// Where its bytes stand, the item is read.
pub open spec fn reads_back<T>(
    item: spec_fn(Seq<u8>, int) -> Taken<T>,
    enc: spec_fn(T) -> Seq<u8>,
    x: T,
) -> bool {
    forall|b: Seq<u8>, at: int| #[trigger]
        holds_at(b, at, enc(x)) ==> item(b, at) == Ok::<(T, int), FormatError>(
            (x, at + enc(x).len()),
        )
}

/// Where the bytes of a list stand, the list is read.
pub proof fn lemma_take_laid_out<T>(
    item: spec_fn(Seq<u8>, int) -> Taken<T>,
    enc: spec_fn(T) -> Seq<u8>,
    items: Seq<T>,
    b: Seq<u8>,
    at: int,
)
    requires
        holds_at(b, at, laid_out(enc, items)),
        forall|i: int| 0 <= i < items.len() ==> reads_back(item, enc, #[trigger] items[i]),
    ensures
        take_many(item, b, at, items.len()) == Ok::<(Seq<T>, int), FormatError>(
            (items, at + laid_out(enc, items).len()),
        ),
    decreases items.len(),
{
    if items.len() > 0 {
        let front = items.drop_last();
        lemma_holds_parts(b, at, laid_out(enc, front), enc(items.last()));
        assert forall|i: int| 0 <= i < front.len() implies reads_back(
            item,
            enc,
            #[trigger] front[i],
        ) by {
            assert(reads_back(item, enc, items[i]));
        }
        lemma_take_laid_out(item, enc, front, b, at);
        assert(reads_back(item, enc, items[items.len() - 1]));
        assert(front.push(items.last()) =~= items);
    } else {
        assert(items =~= Seq::empty());
    }
}

pub proof fn lemma_u32_back(b: Seq<u8>, at: int, n: u32)
    requires
        holds_at(b, at, le32(n)),
    ensures
        take_u32(b, at) == Ok::<(u32, int), FormatError>((n, at + 4)),
        le32(n).len() == 4,
{
    lemma_auto_spec_u32_to_from_le_bytes();
}

pub proof fn lemma_u64_back(b: Seq<u8>, at: int, n: u64)
    requires
        holds_at(b, at, le64(n)),
    ensures
        take_u64(b, at) == Ok::<(u64, int), FormatError>((n, at + 8)),
        le64(n).len() == 8,
{
    lemma_auto_spec_u64_to_from_le_bytes();
}

pub proof fn lemma_i64_back(b: Seq<u8>, at: int, n: i64)
    requires
        holds_at(b, at, le_signed(n)),
    ensures
        take_i64(b, at) == Ok::<(i64, int), FormatError>((n, at + 8)),
        le_signed(n).len() == 8,
{
    lemma_u64_back(b, at, n as u64);
    assert((n as u64) as i64 == n) by (bit_vector);
}

pub proof fn lemma_text_back(b: Seq<u8>, at: int, s: Seq<char>)
    requires
        holds_at(b, at, le_text(s)),
        text_fits(s),
    ensures
        take_text(b, at) == Ok::<(Seq<char>, int), FormatError>((s, at + le_text(s).len())),
{
    let raw = encode_utf8(s);
    lemma_holds_parts(b, at, le32(raw.len() as u32), raw);
    lemma_u32_back(b, at, raw.len() as u32);
    encode_utf8_valid_utf8(s);
    encode_utf8_decode_utf8(s);
}

/// `String::from_utf8`: the text whose UTF-8 form the bytes are, where they are one.
#[verifier::external_body]
fn text_of_bytes(raw: Vec<u8>) -> (r: Option<String>)
    ensures
        r is Some <==> valid_utf8(raw@),
        r matches Some(s) ==> s@ == decode_utf8(raw@),
{
    String::from_utf8(raw).ok()
}

pub fn put_bytes(out: &mut Vec<u8>, piece: &[u8])
    ensures
        final(out)@ == old(out)@ + piece@,
{
    let ghost before = out@;
    let mut i: usize = 0;
    while i < piece.len()
        invariant
            i <= piece@.len(),
            out@ =~= before + piece@.take(i as int),
        decreases piece@.len() - i,
    {
        out.push(piece[i]);
        i = i + 1;
    }
    assert(piece@.take(piece@.len() as int) =~= piece@);
}

pub fn put_u32(out: &mut Vec<u8>, n: u32)
    ensures
        final(out)@ == old(out)@ + le32(n),
{
    let mut piece = u32_to_le_bytes(n);
    out.append(&mut piece);
}

pub fn put_u64(out: &mut Vec<u8>, n: u64)
    ensures
        final(out)@ == old(out)@ + le64(n),
{
    let mut piece = u64_to_le_bytes(n);
    out.append(&mut piece);
}

pub fn put_i64(out: &mut Vec<u8>, n: i64)
    ensures
        final(out)@ == old(out)@ + le_signed(n),
{
    put_u64(out, n as u64);
}

pub fn put_text(out: &mut Vec<u8>, s: &str)
    ensures
        final(out)@ == old(out)@ + le_text(s@),
{
    let ghost before = out@;
    let raw = s.as_bytes();
    put_u32(out, raw.len() as u32);
    put_bytes(out, raw);
    assert(out@ =~= before + le_text(s@));
}

/// What was read and where it ends.
pub open spec fn took<T>(r: Result<(T, usize), FormatError>, t: Taken<T>) -> bool {
    match t {
        Ok((x, next)) => r is Ok && r->Ok_0.0 == x && r->Ok_0.1 == next,
        Err(e) => r is Err && r->Err_0 == e,
    }
}

pub fn read_byte(b: &Vec<u8>, at: usize) -> (r: Result<(u8, usize), FormatError>)
    requires
        at <= b@.len(),
    ensures
        took(r, take_byte(b@, at as int)),
        r matches Ok((_, next)) ==> at <= next <= b@.len(),
{
    if b.len() - at < 1 {
        return Err(FormatError::Truncated);
    }
    Ok((b[at], at + 1))
}

pub fn read_u32(b: &Vec<u8>, at: usize) -> (r: Result<(u32, usize), FormatError>)
    requires
        at <= b@.len(),
    ensures
        took(r, take_u32(b@, at as int)),
        r matches Ok((_, next)) ==> at <= next <= b@.len(),
{
    if b.len() - at < 4 {
        return Err(FormatError::Truncated);
    }
    Ok((u32_from_le_bytes(slice_subrange(b.as_slice(), at, at + 4)), at + 4))
}

pub fn read_u64(b: &Vec<u8>, at: usize) -> (r: Result<(u64, usize), FormatError>)
    requires
        at <= b@.len(),
    ensures
        took(r, take_u64(b@, at as int)),
        r matches Ok((_, next)) ==> at <= next <= b@.len(),
{
    if b.len() - at < 8 {
        return Err(FormatError::Truncated);
    }
    Ok((u64_from_le_bytes(slice_subrange(b.as_slice(), at, at + 8)), at + 8))
}

pub fn read_i64(b: &Vec<u8>, at: usize) -> (r: Result<(i64, usize), FormatError>)
    requires
        at <= b@.len(),
    ensures
        took(r, take_i64(b@, at as int)),
        r matches Ok((_, next)) ==> at <= next <= b@.len(),
{
    match read_u64(b, at) {
        Ok((n, next)) => Ok((n as i64, next)),
        Err(e) => Err(e),
    }
}

/// A copy of the bytes from one place to another.
pub fn cut(b: &Vec<u8>, from: usize, to: usize) -> (r: Vec<u8>)
    requires
        from <= to <= b@.len(),
    ensures
        r@ == b@.subrange(from as int, to as int),
{
    let mut out: Vec<u8> = Vec::new();
    put_bytes(&mut out, slice_subrange(b.as_slice(), from, to));
    assert(out@ =~= b@.subrange(from as int, to as int));
    out
}

pub fn read_raw(b: &Vec<u8>, at: usize, n: usize) -> (r: Result<(Vec<u8>, usize), FormatError>)
    requires
        at <= b@.len(),
    ensures
        match take_raw(b@, at as int, n as int) {
            Ok((raw, next)) => r is Ok && r->Ok_0.0@ == raw && r->Ok_0.1 == next && next
                <= b@.len(),
            Err(e) => r is Err && r->Err_0 == e,
        },
{
    if b.len() - at < n {
        return Err(FormatError::Truncated);
    }
    Ok((cut(b, at, at + n), at + n))
}

pub fn read_text(b: &Vec<u8>, at: usize) -> (r: Result<(String, usize), FormatError>)
    requires
        at <= b@.len(),
    ensures
        match take_text(b@, at as int) {
            Ok((s, next)) => r is Ok && r->Ok_0.0@ == s && r->Ok_0.1 == next && at <= next
                <= b@.len(),
            Err(e) => r is Err && r->Err_0 == e,
        },
{
    let (n, from) = match read_u32(b, at) {
        Ok(x) => x,
        Err(e) => {
            return Err(e);
        },
    };
    if n as u64 > MAX_PREALLOC as u64 {
        return Err(FormatError::TextTooLong);
    }
    let (raw, next) = match read_raw(b, from, n as usize) {
        Ok(x) => x,
        Err(e) => {
            return Err(e);
        },
    };
    match text_of_bytes(raw) {
        Some(s) => Ok((s, next)),
        None => Err(FormatError::NotUtf8),
    }
}

} // verus!
