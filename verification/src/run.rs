//! Run files: the immutable files that hold flushed layers.
//!
//! A run file is a header, a compressed body of entries, a footer that tells of each lens
//! what the body can hold of it, and the length of the footer. With a key, body and footer
//! are encrypted.

use crate::bloom::{
    bloom_bucket_of, bloom_bucket_width, bloom_insert_interval, bucket_of, bucket_width,
    filter_size, has_bit, law_few_buckets, law_filter_reads_back, law_no_point_denied, picked,
    touches, word_bytes, words_from, Bloom, BloomV,
};
use crate::bytes::{
    cut, holds_at, laid_out, le32, le64, le_signed, le_text, lemma_holds_all, lemma_holds_parts,
    lemma_i64_back, lemma_take_laid_out, lemma_take_many_fails, lemma_text_back, lemma_u32_back,
    lemma_u64_back, put_bytes, put_i64, put_text, put_u32, put_u64, read_byte, read_i64, read_raw,
    read_text, read_u32, read_u64, reads_back, take_byte, take_i64, take_many, take_raw, take_text,
    take_u32, take_u64, text_fits, FormatError, Taken, MAX_PREALLOC,
};
use crate::codec::Codec;
use crate::crypto::{blob_of, decrypt, encrypt, plain_of, MESSAGE_LIMIT, NONCE_LEN};
use crate::model::{Bound, LayerId, Timestamp};
use crate::names::{listed, lists_keys, NameMap};
use crate::text::same_text;
use vstd::bytes::spec_u32_from_le_bytes;
use vstd::prelude::*;
use vstd::slice::slice_subrange;

verus! {

pub const RUN_VERSION: u8 = 2;

/// The version of files whose filters go by buckets of another width. They are read without
/// their filters.
pub const FIRST_RUN_VERSION: u8 = 1;

pub const FLAG_ENCRYPTED: u8 = 1;

/// A header is a magic word, a version, flags and a checksum.
pub const HEADER_LEN: usize = 10;

/// The most axes that an entry may have.
pub const MAX_AXES: u8 = 64;

pub open spec fn run_magic() -> Seq<u8> {
    seq![0x54u8, 0x41, 0x55, 0x52]
}

/// The CRC-32 checksum of bytes.
pub uninterp spec fn crc32(data: Seq<u8>) -> u32;

/// `crc32fast::hash`: the CRC-32 checksum of the bytes.
#[verifier::external_body]
pub(crate) fn checksum(data: &[u8]) -> (r: u32)
    ensures
        r == crc32(data@),
{
    crc32fast::hash(data)
}

/// The zstd frame that a level makes of bytes; nothing where compression fails.
pub uninterp spec fn packed(plain: Seq<u8>, level: i32) -> Option<Seq<u8>>;

/// What zstd frames hold; nothing where the bytes are none.
pub uninterp spec fn unpacked(frame: Seq<u8>) -> Option<Seq<u8>>;

/// `zstd::encode_all`: a frame from which the bytes are read back.
#[verifier::external_body]
fn compress(plain: &Vec<u8>, level: i32) -> (r: Option<Vec<u8>>)
    ensures
        r is Some <==> packed(plain@, level) is Some,
        r matches Some(frame) ==> packed(plain@, level) == Some(frame@) && unpacked(frame@)
            == Some(plain@),
{
    zstd::encode_all(plain.as_slice(), level).ok()
}

/// `zstd::decode_all`: what the frames hold.
#[verifier::external_body]
fn decompress(frame: &Vec<u8>) -> (r: Option<Vec<u8>>)
    ensures
        r is Some <==> unpacked(frame@) is Some,
        r matches Some(plain) ==> unpacked(frame@) == Some(plain@),
{
    zstd::decode_all(frame.as_slice()).ok()
}

/// A header.
pub open spec fn header_bytes(magic: Seq<u8>, version: u8, flags: u8) -> Seq<u8> {
    let front = magic + seq![version, flags];
    front + le32(crc32(front))
}

/// The flags in the header of a file.
pub open spec fn header_flags(file: Seq<u8>, magic: Seq<u8>, version: u8) -> Result<
    u8,
    FormatError,
> {
    if file.len() < HEADER_LEN {
        Err(FormatError::Truncated)
    } else if file.take(4) != magic {
        Err(FormatError::BadMagic)
    } else if file[4] != version {
        Err(FormatError::UnsupportedVersion { expected: version, got: file[4] })
    } else if crc32(file.take(6)) != spec_u32_from_le_bytes(file.subrange(6, 10)) {
        Err(FormatError::HeaderChecksum)
    } else {
        Ok(file[5])
    }
}

pub proof fn lemma_header_back(file: Seq<u8>, magic: Seq<u8>, version: u8, flags: u8)
    requires
        magic.len() == 4,
        holds_at(file, 0, header_bytes(magic, version, flags)),
    ensures
        header_bytes(magic, version, flags).len() == HEADER_LEN,
        header_flags(file, magic, version) == Ok::<u8, FormatError>(flags),
{
    let front = magic + seq![version, flags];
    lemma_holds_parts(file, 0, front, le32(crc32(front)));
    lemma_u32_back(file, 6, crc32(front));
    assert(file.take(6) =~= front);
    assert(file.take(4) =~= magic) by {
        assert forall|i: int| 0 <= i < 4 implies file[i] == magic[i] by {
            assert(file.take(6)[i] == front[i]);
        }
    }
    assert(file.take(6)[4] == front[4]);
    assert(file.take(6)[5] == front[5]);
}

/// A header as bytes.
pub fn write_header(magic: &[u8], version: u8, flags: u8) -> (r: Vec<u8>)
    ensures
        r@ == header_bytes(magic@, version, flags),
{
    let mut out: Vec<u8> = Vec::new();
    put_bytes(&mut out, magic);
    out.push(version);
    out.push(flags);
    assert(out@ =~= magic@ + seq![version, flags]);
    let crc: u32 = checksum(out.as_slice());
    put_u32(&mut out, crc);
    out
}

fn same_bytes(a: &[u8], b: &[u8]) -> (r: bool)
    ensures
        r == (a@ == b@),
{
    if a.len() != b.len() {
        return false;
    }
    let mut i: usize = 0;
    while i < a.len()
        invariant
            i <= a@.len(),
            a@.len() == b@.len(),
            forall|k: int| 0 <= k < i ==> a@[k] == b@[k],
        decreases a@.len() - i,
    {
        if a[i] != b[i] {
            return false;
        }
        i = i + 1;
    }
    assert(a@ =~= b@);
    true
}

/// The flags in the header of a file.
pub fn read_header(file: &Vec<u8>, magic: &[u8], version: u8) -> (r: Result<u8, FormatError>)
    ensures
        r == header_flags(file@, magic@, version),
        r is Ok ==> file@.len() >= HEADER_LEN,
{
    if file.len() < HEADER_LEN {
        return Err(FormatError::Truncated);
    }
    let word = slice_subrange(file.as_slice(), 0, 4);
    assert(word@ =~= file@.take(4));
    if !same_bytes(word, magic) {
        return Err(FormatError::BadMagic);
    }
    if file[4] != version {
        return Err(FormatError::UnsupportedVersion { expected: version, got: file[4] });
    }
    let front = slice_subrange(file.as_slice(), 0, 6);
    assert(front@ =~= file@.take(6));
    match read_u32(file, 6) {
        Ok((stored, _)) => if checksum(front) != stored {
            Err(FormatError::HeaderChecksum)
        } else {
            Ok(file[5])
        },
        Err(e) => Err(e),
    }
}

pub open spec fn key_bytes(key: Option<[u8; 32]>) -> Option<Seq<u8>> {
    match key {
        Some(k) => Some(k@),
        None => None,
    }
}

/// `out` carries the bytes under the key, where there is one.
pub open spec fn shielded(key: Option<Seq<u8>>, plain: Seq<u8>, out: Seq<u8>) -> bool {
    match key {
        None => out == plain,
        Some(k) => out == blob_of(k, out.take(NONCE_LEN as int), plain) && plain_of(k, out) == Ok::<
            Seq<u8>,
            FormatError,
        >(plain),
    }
}

/// What stored bytes carry, as the flags of the file say.
pub open spec fn unshielded(
    flags: u8,
    key: Option<Seq<u8>>,
    stored: Seq<u8>,
    missing: FormatError,
) -> Result<Seq<u8>, FormatError> {
    if flags & FLAG_ENCRYPTED != 0 {
        match key {
            None => Err(missing),
            Some(k) => plain_of(k, stored),
        }
    } else {
        Ok(stored)
    }
}

pub open spec fn flags_for(key: Option<Seq<u8>>) -> u8 {
    if key is Some {
        FLAG_ENCRYPTED
    } else {
        0
    }
}

pub proof fn lemma_unshielded(key: Option<Seq<u8>>, plain: Seq<u8>, out: Seq<u8>, missing: FormatError)
    requires
        shielded(key, plain, out),
    ensures
        unshielded(flags_for(key), key, out, missing) == Ok::<Seq<u8>, FormatError>(plain),
{
    assert(1u8 & 1u8 != 0) by (bit_vector);
    assert(0u8 & 1u8 == 0) by (bit_vector);
}

/// Encrypts bytes where there is a key.
pub fn shield(key: &Option<[u8; 32]>, plain: Vec<u8>) -> (r: Result<Vec<u8>, FormatError>)
    ensures
        match r {
            Ok(out) => shielded(key_bytes(*key), plain@, out@) && (key is Some ==> plain@.len()
                <= MESSAGE_LIMIT),
            Err(e) => key is Some && plain@.len() > MESSAGE_LIMIT && e == FormatError::Encryption,
        },
{
    match key {
        Some(k) => encrypt(k, plain.as_slice()),
        None => Ok(plain),
    }
}

/// Decrypts stored bytes where the flags say that they are encrypted.
pub fn unshield(flags: u8, key: &Option<[u8; 32]>, stored: Vec<u8>, missing: FormatError) -> (r:
    Result<Vec<u8>, FormatError>)
    ensures
        match unshielded(flags, key_bytes(*key), stored@, missing) {
            Ok(plain) => r is Ok && r->Ok_0@ == plain,
            Err(e) => r is Err && r->Err_0 == e,
        },
{
    if flags & FLAG_ENCRYPTED != 0 {
        match key {
            None => Err(missing),
            Some(k) => decrypt(k, &stored),
        }
    } else {
        Ok(stored)
    }
}

/// One tau of a stored layer.
#[derive(Debug)]
pub struct RunEntry<V> {
    pub lens: String,
    pub layer_id: LayerId,
    pub written_at: i64,
    /// The epoch of the lens when the entry was written; entries of past epochs are dead.
    pub epoch: u64,
    pub coords: Vec<Bound>,
    pub value: V,
}

#[verifier::ext_equal]
pub struct EntryV<T> {
    pub lens: Seq<char>,
    pub layer_id: LayerId,
    pub written_at: i64,
    pub epoch: u64,
    pub coords: Seq<Bound>,
    pub value: T,
}

impl<V: View> View for RunEntry<V> {
    type V = EntryV<V::V>;

    open spec fn view(&self) -> EntryV<V::V> {
        EntryV {
            lens: self.lens@,
            layer_id: self.layer_id,
            written_at: self.written_at,
            epoch: self.epoch,
            coords: self.coords@,
            value: self.value@,
        }
    }
}

pub open spec fn entry_views<V: View>(entries: Seq<RunEntry<V>>) -> Seq<EntryV<V::V>> {
    entries.map_values(|e: RunEntry<V>| e@)
}

pub open spec fn bound_bytes(c: Bound) -> Seq<u8> {
    le_signed(c.lo) + le_signed(c.hi)
}

pub open spec fn take_bound(b: Seq<u8>, at: int) -> Taken<Bound> {
    match take_i64(b, at) {
        Err(e) => Err(e),
        Ok((lo, p)) => match take_i64(b, p) {
            Err(e) => Err(e),
            Ok((hi, q)) => Ok((Bound { hi, lo }, q)),
        },
    }
}

pub open spec fn coords_bytes(coords: Seq<Bound>) -> Seq<u8> {
    laid_out(|c: Bound| bound_bytes(c), coords)
}

pub open spec fn take_coords(b: Seq<u8>, at: int, n: nat) -> Taken<Seq<Bound>> {
    take_many(|s: Seq<u8>, p: int| take_bound(s, p), b, at, n)
}

/// What stands before the coordinates of an entry.
pub open spec fn entry_front<T>(e: EntryV<T>) -> Seq<u8> {
    le_text(e.lens) + (le64(e.layer_id) + (le_signed(e.written_at) + (le64(e.epoch)
        + seq![e.coords.len() as u8])))
}

/// An entry as bytes.
pub open spec fn entry_bytes<V: Codec>(e: EntryV<V::V>) -> Seq<u8> {
    entry_front(e) + (coords_bytes(e.coords) + V::encoding(e.value))
}

/// The front of an entry: the lens, the layer, the write time, the epoch, and the number
/// of axes.
pub open spec fn take_front(b: Seq<u8>, at: int) -> Taken<(Seq<char>, u64, i64, u64, u8)> {
    match take_text(b, at) {
        Err(e) => Err(e),
        Ok((lens, p1)) => match take_u64(b, p1) {
            Err(e) => Err(e),
            Ok((layer_id, p2)) => match take_i64(b, p2) {
                Err(e) => Err(e),
                Ok((written_at, p3)) => match take_u64(b, p3) {
                    Err(e) => Err(e),
                    Ok((epoch, p4)) => match take_byte(b, p4) {
                        Err(e) => Err(e),
                        Ok((arity, p5)) => Ok(((lens, layer_id, written_at, epoch, arity), p5)),
                    },
                },
            },
        },
    }
}

pub open spec fn take_entry<V: Codec>(b: Seq<u8>, at: int) -> Taken<EntryV<V::V>> {
    match take_front(b, at) {
        Err(e) => Err(e),
        Ok(((lens, layer_id, written_at, epoch, arity), p)) => if arity == 0 || arity > MAX_AXES {
            Err(FormatError::InvalidArity(arity))
        } else {
            match take_coords(b, p, arity as nat) {
                Err(e) => Err(e),
                Ok((coords, q)) => match V::decoding(b, q) {
                    Err(e) => Err(e),
                    Ok((value, next)) => Ok(
                        (EntryV { lens, layer_id, written_at, epoch, coords, value }, next),
                    ),
                },
            }
        },
    }
}

/// The entry is not too large to be read back.
pub open spec fn entry_fits<V: Codec>(e: EntryV<V::V>) -> bool {
    text_fits(e.lens) && 0 < e.coords.len() <= MAX_AXES && V::fits(e.value)
}

proof fn lemma_bounds_back(b: Seq<u8>, at: int, coords: Seq<Bound>)
    requires
        holds_at(b, at, coords_bytes(coords)),
    ensures
        take_coords(b, at, coords.len()) == Ok::<(Seq<Bound>, int), FormatError>(
            (coords, at + coords_bytes(coords).len()),
        ),
{
    let item = |s: Seq<u8>, p: int| take_bound(s, p);
    let enc = |c: Bound| bound_bytes(c);
    assert forall|i: int| 0 <= i < coords.len() implies reads_back(
        item,
        enc,
        #[trigger] coords[i],
    ) by {
        let c = coords[i];
        assert forall|s: Seq<u8>, p: int| #[trigger] holds_at(s, p, enc(c)) implies item(s, p)
            == Ok::<(Bound, int), FormatError>((c, p + enc(c).len())) by {
            lemma_holds_parts(s, p, le_signed(c.lo), le_signed(c.hi));
            lemma_i64_back(s, p, c.lo);
            lemma_i64_back(s, p + 8, c.hi);
        }
    }
    lemma_take_laid_out(item, enc, coords, b, at);
}

proof fn lemma_front_back<T>(b: Seq<u8>, at: int, e: EntryV<T>)
    requires
        holds_at(b, at, entry_front(e)),
        text_fits(e.lens),
        e.coords.len() <= MAX_AXES,
    ensures
        take_front(b, at) == Ok::<((Seq<char>, u64, i64, u64, u8), int), FormatError>(
            (
                (e.lens, e.layer_id, e.written_at, e.epoch, e.coords.len() as u8),
                at + entry_front(e).len(),
            ),
        ),
{
    let arity = seq![e.coords.len() as u8];
    let d = le64(e.epoch) + arity;
    let c = le_signed(e.written_at) + d;
    let x = le64(e.layer_id) + c;
    lemma_holds_parts(b, at, le_text(e.lens), x);
    lemma_text_back(b, at, e.lens);
    let p1 = at + le_text(e.lens).len();
    lemma_holds_parts(b, p1, le64(e.layer_id), c);
    lemma_u64_back(b, p1, e.layer_id);
    lemma_holds_parts(b, p1 + 8, le_signed(e.written_at), d);
    lemma_i64_back(b, p1 + 8, e.written_at);
    lemma_holds_parts(b, p1 + 16, le64(e.epoch), arity);
    lemma_u64_back(b, p1 + 16, e.epoch);
    assert(b.subrange(p1 + 24, p1 + 25)[0] == arity[0]);
}

/// An entry survives being written and read.
pub proof fn law_entry_reads_back<V: Codec>(b: Seq<u8>, at: int, e: EntryV<V::V>)
    requires
        holds_at(b, at, entry_bytes::<V>(e)),
        entry_fits::<V>(e),
    ensures
        take_entry::<V>(b, at) == Ok::<(EntryV<V::V>, int), FormatError>(
            (e, at + entry_bytes::<V>(e).len()),
        ),
{
    lemma_holds_parts(b, at, entry_front(e), coords_bytes(e.coords) + V::encoding(e.value));
    lemma_front_back(b, at, e);
    let p = at + entry_front(e).len();
    lemma_holds_parts(b, p, coords_bytes(e.coords), V::encoding(e.value));
    lemma_bounds_back(b, p, e.coords);
    V::reads_back(e.value, b, p + coords_bytes(e.coords).len());
}

/// The entries of a run as bytes.
pub open spec fn body_bytes<V: Codec>(entries: Seq<EntryV<V::V>>) -> Seq<u8> {
    le32(entries.len() as u32) + laid_out(|e: EntryV<V::V>| entry_bytes::<V>(e), entries)
}

pub open spec fn take_entries<V: Codec>(b: Seq<u8>, at: int, n: nat) -> Taken<Seq<EntryV<V::V>>> {
    take_many(|s: Seq<u8>, p: int| take_entry::<V>(s, p), b, at, n)
}

pub open spec fn take_body<V: Codec>(b: Seq<u8>) -> Result<Seq<EntryV<V::V>>, FormatError> {
    match take_u32(b, 0) {
        Err(e) => Err(e),
        Ok((n, p)) => match take_entries::<V>(b, p, n as nat) {
            Err(e) => Err(e),
            Ok((entries, _)) => Ok(entries),
        },
    }
}

/// The body is not too large to be read back.
pub open spec fn body_fits<V: Codec>(entries: Seq<EntryV<V::V>>) -> bool {
    entries.len() <= u32::MAX && forall|i: int|
        0 <= i < entries.len() ==> entry_fits::<V>(#[trigger] entries[i])
}

proof fn lemma_body_back<V: Codec>(entries: Seq<EntryV<V::V>>)
    requires
        body_fits::<V>(entries),
    ensures
        take_body::<V>(body_bytes::<V>(entries)) == Ok::<Seq<EntryV<V::V>>, FormatError>(entries),
{
    let b = body_bytes::<V>(entries);
    let item = |s: Seq<u8>, p: int| take_entry::<V>(s, p);
    let enc = |e: EntryV<V::V>| entry_bytes::<V>(e);
    lemma_holds_all(b);
    lemma_holds_parts(b, 0, le32(entries.len() as u32), laid_out(enc, entries));
    lemma_u32_back(b, 0, entries.len() as u32);
    assert forall|i: int| 0 <= i < entries.len() implies reads_back(
        item,
        enc,
        #[trigger] entries[i],
    ) by {
        let e = entries[i];
        assert forall|s: Seq<u8>, p: int| #[trigger] holds_at(s, p, enc(e)) implies item(s, p)
            == Ok::<(EntryV<V::V>, int), FormatError>((e, p + enc(e).len())) by {
            law_entry_reads_back::<V>(s, p, e);
        }
    }
    lemma_take_laid_out(item, enc, entries, b, 4);
}

fn write_coords(out: &mut Vec<u8>, coords: &Vec<Bound>)
    ensures
        final(out)@ == old(out)@ + coords_bytes(coords@),
{
    let ghost before = out@;
    let ghost enc = |c: Bound| bound_bytes(c);
    let mut i: usize = 0;
    assert(coords@.take(0) =~= Seq::empty());
    assert(out@ =~= before + laid_out(enc, coords@.take(0)));
    while i < coords.len()
        invariant
            i <= coords@.len(),
            enc == (|c: Bound| bound_bytes(c)),
            out@ == before + laid_out(enc, coords@.take(i as int)),
        decreases coords@.len() - i,
    {
        let ghost next = coords@.take(i + 1);
        put_i64(out, coords[i].lo);
        put_i64(out, coords[i].hi);
        proof {
            assert(next.drop_last() =~= coords@.take(i as int));
            assert(next.last() == coords@[i as int]);
            assert(out@ =~= before + laid_out(enc, next));
        }
        i = i + 1;
    }
    assert(coords@.take(coords@.len() as int) =~= coords@);
}

/// Appends an entry as bytes.
pub fn write_run_entry<V: Codec>(out: &mut Vec<u8>, e: &RunEntry<V>)
    ensures
        final(out)@ == old(out)@ + entry_bytes::<V>(e@),
{
    let ghost before = out@;
    put_text(out, e.lens.as_str());
    put_u64(out, e.layer_id);
    put_i64(out, e.written_at);
    put_u64(out, e.epoch);
    out.push(e.coords.len() as u8);
    assert(out@ =~= before + entry_front(e@));
    write_coords(out, &e.coords);
    e.value.write_encoded(out);
    assert(out@ =~= before + entry_bytes::<V>(e@));
}

fn read_coords(b: &Vec<u8>, at: usize, n: usize) -> (r: Result<(Vec<Bound>, usize), FormatError>)
    requires
        at <= b@.len(),
    ensures
        match take_coords(b@, at as int, n as nat) {
            Ok((coords, next)) => r is Ok && r->Ok_0.0@ == coords && r->Ok_0.1 == next && next
                <= b@.len(),
            Err(e) => r is Err && r->Err_0 == e,
        },
{
    let ghost item = |s: Seq<u8>, p: int| take_bound(s, p);
    let mut out: Vec<Bound> = Vec::new();
    let mut p: usize = at;
    let mut i: usize = 0;
    while i < n
        invariant
            i <= n,
            p <= b@.len(),
            item == (|s: Seq<u8>, p: int| take_bound(s, p)),
            take_many(item, b@, at as int, i as nat) == Ok::<(Seq<Bound>, int), FormatError>(
                (out@, p as int),
            ),
        decreases n - i,
    {
        let (lo, q) = match read_i64(b, p) {
            Ok(x) => x,
            Err(e) => {
                proof {
                    lemma_take_many_fails(item, b@, at as int, (i + 1) as nat, n as nat);
                }
                return Err(e);
            },
        };
        let (hi, next) = match read_i64(b, q) {
            Ok(x) => x,
            Err(e) => {
                proof {
                    lemma_take_many_fails(item, b@, at as int, (i + 1) as nat, n as nat);
                }
                return Err(e);
            },
        };
        out.push(Bound { hi, lo });
        p = next;
        i = i + 1;
    }
    Ok((out, p))
}

/// The entry whose bytes stand at a place.
pub fn read_run_entry<V: Codec>(b: &Vec<u8>, at: usize) -> (r: Result<
    (RunEntry<V>, usize),
    FormatError,
>)
    requires
        at <= b@.len(),
    ensures
        match take_entry::<V>(b@, at as int) {
            Ok((e, next)) => r is Ok && r->Ok_0.0@ == e && r->Ok_0.1 == next && next <= b@.len(),
            Err(e) => r is Err && r->Err_0 == e,
        },
{
    let (lens, p1) = match read_text(b, at) {
        Ok(x) => x,
        Err(e) => {
            return Err(e);
        },
    };
    let (layer_id, p2) = match read_u64(b, p1) {
        Ok(x) => x,
        Err(e) => {
            return Err(e);
        },
    };
    let (written_at, p3) = match read_i64(b, p2) {
        Ok(x) => x,
        Err(e) => {
            return Err(e);
        },
    };
    let (epoch, p4) = match read_u64(b, p3) {
        Ok(x) => x,
        Err(e) => {
            return Err(e);
        },
    };
    let (arity, p5) = match read_byte(b, p4) {
        Ok(x) => x,
        Err(e) => {
            return Err(e);
        },
    };
    if arity == 0 || arity > MAX_AXES {
        return Err(FormatError::InvalidArity(arity));
    }
    let (coords, p6) = match read_coords(b, p5, arity as usize) {
        Ok(x) => x,
        Err(e) => {
            return Err(e);
        },
    };
    let (value, next) = match V::read_encoded(b, p6) {
        Ok(x) => x,
        Err(e) => {
            return Err(e);
        },
    };
    Ok((RunEntry { lens, layer_id, written_at, epoch, coords, value }, next))
}

fn write_body<V: Codec>(entries: &Vec<RunEntry<V>>) -> (r: Vec<u8>)
    ensures
        r@ == body_bytes::<V>(entry_views(entries@)),
{
    let mut out: Vec<u8> = Vec::new();
    put_u32(&mut out, entries.len() as u32);
    let ghost front = out@;
    let ghost enc = |e: EntryV<V::V>| entry_bytes::<V>(e);
    let ghost all = entry_views(entries@);
    let mut i: usize = 0;
    assert(all.take(0) =~= Seq::empty());
    assert(out@ =~= front + laid_out(enc, all.take(0)));
    while i < entries.len()
        invariant
            i <= entries@.len(),
            all == entry_views(entries@),
            enc == (|e: EntryV<V::V>| entry_bytes::<V>(e)),
            out@ == front + laid_out(enc, all.take(i as int)),
        decreases entries@.len() - i,
    {
        let ghost next = all.take(i + 1);
        write_run_entry(&mut out, &entries[i]);
        proof {
            assert(next.drop_last() =~= all.take(i as int));
            assert(next.last() == entries@[i as int]@);
            assert(out@ =~= front + laid_out(enc, next));
        }
        i = i + 1;
    }
    assert(all.take(all.len() as int) =~= all);
    assert(front =~= le32(entries@.len() as u32));
    out
}

fn read_body<V: Codec>(b: &Vec<u8>) -> (r: Result<Vec<RunEntry<V>>, FormatError>)
    ensures
        match take_body::<V>(b@) {
            Ok(entries) => r is Ok && entry_views(r->Ok_0@) == entries,
            Err(e) => r is Err && r->Err_0 == e,
        },
{
    let (n, from) = match read_u32(b, 0) {
        Ok(x) => x,
        Err(e) => {
            return Err(e);
        },
    };
    let ghost item = |s: Seq<u8>, p: int| take_entry::<V>(s, p);
    let mut out: Vec<RunEntry<V>> = Vec::new();
    let mut p: usize = from;
    let mut i: u32 = 0;
    assert(entry_views(out@) =~= Seq::empty());
    while i < n
        invariant
            i <= n,
            p <= b@.len(),
            take_u32(b@, 0) == Ok::<(u32, int), FormatError>((n, from as int)),
            item == (|s: Seq<u8>, p: int| take_entry::<V>(s, p)),
            take_many(item, b@, from as int, i as nat) == Ok::<
                (Seq<EntryV<V::V>>, int),
                FormatError,
            >((entry_views(out@), p as int)),
        decreases n - i,
    {
        match read_run_entry::<V>(b, p) {
            Ok((e, next)) => {
                let ghost before = out@;
                out.push(e);
                proof {
                    assert(entry_views(out@) =~= entry_views(before).push(e@));
                }
                p = next;
            },
            Err(e) => {
                proof {
                    lemma_take_many_fails(item, b@, from as int, (i + 1) as nat, n as nat);
                }
                return Err(e);
            },
        }
        i = i + 1;
    }
    Ok(out)
}

/// What a footer tells of a lens.
#[derive(Debug)]
pub struct LensRunStats {
    /// Least valid-time start of the entries.
    pub min_start: Timestamp,
    /// Greatest valid-time end of the entries.
    pub max_end: Timestamp,
    pub count: usize,
    pub bloom: Bloom,
}

#[verifier::ext_equal]
pub struct StatsV {
    pub min_start: Timestamp,
    pub max_end: Timestamp,
    pub count: usize,
    pub bloom: BloomV,
}

impl View for LensRunStats {
    type V = StatsV;

    open spec fn view(&self) -> StatsV {
        StatsV {
            min_start: self.min_start,
            max_end: self.max_end,
            count: self.count,
            bloom: self.bloom@,
        }
    }
}

/// What a footer tells, by lens.
pub type FooterV = Map<Seq<char>, StatsV>;

pub open spec fn footer_view(stats: Map<Seq<char>, LensRunStats>) -> FooterV {
    stats.map_values(|s: LensRunStats| s@)
}

/// What a footer tells of a lens, as bytes.
pub open spec fn stats_bytes(item: (Seq<char>, StatsV)) -> Seq<u8> {
    let words = word_bytes(item.1.bloom.words);
    le_text(item.0) + (le_signed(item.1.min_start) + (le_signed(item.1.max_end) + (le32(
        item.1.count as u32,
    ) + (le32(item.1.bloom.n_bits as u32) + (le32(words.len() as u32) + words)))))
}

pub open spec fn take_stats(b: Seq<u8>, at: int) -> Taken<(Seq<char>, StatsV)> {
    match take_text(b, at) {
        Err(e) => Err(e),
        Ok((name, p1)) => match take_i64(b, p1) {
            Err(e) => Err(e),
            Ok((min_start, p2)) => match take_i64(b, p2) {
                Err(e) => Err(e),
                Ok((max_end, p3)) => match take_u32(b, p3) {
                    Err(e) => Err(e),
                    Ok((count, p4)) => match take_u32(b, p4) {
                        Err(e) => Err(e),
                        Ok((n_bits, p5)) => match take_u32(b, p5) {
                            Err(e) => Err(e),
                            Ok((len, p6)) => if len > MAX_PREALLOC {
                                Err(FormatError::FilterTooLarge)
                            } else {
                                match take_raw(b, p6, len as int) {
                                    Err(e) => Err(e),
                                    Ok((raw, next)) => Ok(
                                        (
                                            (
                                                name,
                                                StatsV {
                                                    min_start,
                                                    max_end,
                                                    count: count as usize,
                                                    bloom: BloomV {
                                                        words: words_from(n_bits as int, raw),
                                                        n_bits: n_bits as usize,
                                                    },
                                                },
                                            ),
                                            next,
                                        ),
                                    ),
                                }
                            },
                        },
                    },
                },
            },
        },
    }
}

/// What the footer tells of a lens is not too large to be read back.
pub open spec fn stats_fit(item: (Seq<char>, StatsV)) -> bool {
    &&& text_fits(item.0)
    &&& item.1.count <= u32::MAX
    &&& item.1.bloom.wf()
    &&& item.1.bloom.n_bits <= u32::MAX
    &&& 8 * item.1.bloom.words.len() <= MAX_PREALLOC
}

proof fn lemma_stats_back(b: Seq<u8>, at: int, item: (Seq<char>, StatsV))
    requires
        holds_at(b, at, stats_bytes(item)),
        stats_fit(item),
    ensures
        take_stats(b, at) == Ok::<((Seq<char>, StatsV), int), FormatError>(
            (item, at + stats_bytes(item).len()),
        ),
{
    let st = item.1;
    let words = word_bytes(st.bloom.words);
    law_filter_reads_back(st.bloom);
    let p6 = le32(words.len() as u32) + words;
    let p5 = le32(st.bloom.n_bits as u32) + p6;
    let p4 = le32(st.count as u32) + p5;
    let p3 = le_signed(st.max_end) + p4;
    let p2 = le_signed(st.min_start) + p3;
    lemma_holds_parts(b, at, le_text(item.0), p2);
    lemma_text_back(b, at, item.0);
    let q = at + le_text(item.0).len();
    lemma_holds_parts(b, q, le_signed(st.min_start), p3);
    lemma_i64_back(b, q, st.min_start);
    lemma_holds_parts(b, q + 8, le_signed(st.max_end), p4);
    lemma_i64_back(b, q + 8, st.max_end);
    lemma_holds_parts(b, q + 16, le32(st.count as u32), p5);
    lemma_u32_back(b, q + 16, st.count as u32);
    lemma_holds_parts(b, q + 20, le32(st.bloom.n_bits as u32), p6);
    lemma_u32_back(b, q + 20, st.bloom.n_bits as u32);
    lemma_holds_parts(b, q + 24, le32(words.len() as u32), words);
    lemma_u32_back(b, q + 24, words.len() as u32);
    let got = take_stats(b, at);
    assert(got->Ok_0.0.1.bloom.words =~= st.bloom.words);
}

/// A footer as bytes.
pub open spec fn footer_bytes(items: Seq<(Seq<char>, StatsV)>) -> Seq<u8> {
    le32(items.len() as u32) + laid_out(|item: (Seq<char>, StatsV)| stats_bytes(item), items)
}

pub open spec fn take_stats_list(b: Seq<u8>, at: int, n: nat) -> Taken<Seq<(Seq<char>, StatsV)>> {
    take_many(|s: Seq<u8>, p: int| take_stats(s, p), b, at, n)
}

/// A list of lenses and what is told of them, as a map; the last word on a lens counts.
pub open spec fn as_footer(items: Seq<(Seq<char>, StatsV)>) -> FooterV
    decreases items.len(),
{
    if items.len() == 0 {
        Map::empty()
    } else {
        as_footer(items.drop_last()).insert(items.last().0, items.last().1)
    }
}

pub open spec fn take_footer(b: Seq<u8>) -> Result<FooterV, FormatError> {
    match take_u32(b, 0) {
        Err(e) => Err(e),
        Ok((n, p)) => match take_stats_list(b, p, n as nat) {
            Err(e) => Err(e),
            Ok((items, _)) => Ok(as_footer(items)),
        },
    }
}

/// The footer is not too large to be read back.
pub open spec fn footer_fits(items: Seq<(Seq<char>, StatsV)>) -> bool {
    items.len() <= u32::MAX && forall|i: int|
        0 <= i < items.len() ==> stats_fit(#[trigger] items[i])
}

proof fn lemma_footer_back(items: Seq<(Seq<char>, StatsV)>)
    requires
        footer_fits(items),
    ensures
        take_footer(footer_bytes(items)) == Ok::<FooterV, FormatError>(as_footer(items)),
{
    let b = footer_bytes(items);
    let item = |s: Seq<u8>, p: int| take_stats(s, p);
    let enc = |x: (Seq<char>, StatsV)| stats_bytes(x);
    lemma_holds_all(b);
    lemma_holds_parts(b, 0, le32(items.len() as u32), laid_out(enc, items));
    lemma_u32_back(b, 0, items.len() as u32);
    assert forall|i: int| 0 <= i < items.len() implies reads_back(
        item,
        enc,
        #[trigger] items[i],
    ) by {
        let x = items[i];
        assert forall|s: Seq<u8>, p: int| #[trigger] holds_at(s, p, enc(x)) implies item(s, p)
            == Ok::<((Seq<char>, StatsV), int), FormatError>((x, p + enc(x).len())) by {
            lemma_stats_back(s, p, x);
        }
    }
    lemma_take_laid_out(item, enc, items, b, 4);
}

fn read_stats(b: &Vec<u8>, at: usize) -> (r: Result<
    (String, LensRunStats, usize),
    FormatError,
>)
    requires
        at <= b@.len(),
    ensures
        match take_stats(b@, at as int) {
            Ok((item, next)) => r is Ok && r->Ok_0.0@ == item.0 && r->Ok_0.1@ == item.1
                && r->Ok_0.2 == next && next <= b@.len(),
            Err(e) => r is Err && r->Err_0 == e,
        },
{
    let (name, p1) = match read_text(b, at) {
        Ok(x) => x,
        Err(e) => {
            return Err(e);
        },
    };
    let (min_start, p2) = match read_i64(b, p1) {
        Ok(x) => x,
        Err(e) => {
            return Err(e);
        },
    };
    let (max_end, p3) = match read_i64(b, p2) {
        Ok(x) => x,
        Err(e) => {
            return Err(e);
        },
    };
    let (count, p4) = match read_u32(b, p3) {
        Ok(x) => x,
        Err(e) => {
            return Err(e);
        },
    };
    let (n_bits, p5) = match read_u32(b, p4) {
        Ok(x) => x,
        Err(e) => {
            return Err(e);
        },
    };
    let (len, p6) = match read_u32(b, p5) {
        Ok(x) => x,
        Err(e) => {
            return Err(e);
        },
    };
    if len as u64 > MAX_PREALLOC as u64 {
        return Err(FormatError::FilterTooLarge);
    }
    let (raw, next) = match read_raw(b, p6, len as usize) {
        Ok(x) => x,
        Err(e) => {
            return Err(e);
        },
    };
    let bloom = Bloom::from_parts(n_bits as usize, &raw);
    Ok((name, LensRunStats { min_start, max_end, count: count as usize, bloom }, next))
}

/// The filters of a footer are well-formed.
pub open spec fn filters_wf(footer: FooterV) -> bool {
    forall|name: Seq<char>| #[trigger] footer.contains_key(name) ==> footer[name].bloom.wf()
}

/// What a footer tells.
pub fn parse_footer(b: &Vec<u8>) -> (r: Result<NameMap<LensRunStats>, FormatError>)
    ensures
        match take_footer(b@) {
            Ok(footer) => r is Ok && footer_view(r->Ok_0@) == footer && filters_wf(footer),
            Err(e) => r is Err && r->Err_0 == e,
        },
{
    let (n, from) = match read_u32(b, 0) {
        Ok(x) => x,
        Err(e) => {
            return Err(e);
        },
    };
    let ghost item = |s: Seq<u8>, p: int| take_stats(s, p);
    let ghost mut items: Seq<(Seq<char>, StatsV)> = Seq::empty();
    let mut out: NameMap<LensRunStats> = NameMap::new();
    let mut p: usize = from;
    let mut i: u32 = 0;
    assert(footer_view(out@) =~= as_footer(items));
    while i < n
        invariant
            i <= n,
            p <= b@.len(),
            take_u32(b@, 0) == Ok::<(u32, int), FormatError>((n, from as int)),
            item == (|s: Seq<u8>, p: int| take_stats(s, p)),
            take_many(item, b@, from as int, i as nat) == Ok::<
                (Seq<(Seq<char>, StatsV)>, int),
                FormatError,
            >((items, p as int)),
            footer_view(out@) == as_footer(items),
            filters_wf(as_footer(items)),
        decreases n - i,
    {
        match read_stats(b, p) {
            Ok((name, stats, next)) => {
                let ghost before = out@;
                let ghost was = items;
                out.insert(name.as_str(), stats);
                proof {
                    items = was.push((name@, stats@));
                    assert(items.drop_last() =~= was);
                    assert(footer_view(out@) =~= footer_view(before).insert(name@, stats@));
                }
                p = next;
            },
            Err(e) => {
                proof {
                    lemma_take_many_fails(item, b@, from as int, (i + 1) as nat, n as nat);
                }
                return Err(e);
            },
        }
        i = i + 1;
    }
    Ok(out)
}

/// Some entry is of the lens.
pub open spec fn occurs<T>(es: Seq<EntryV<T>>, name: Seq<char>) -> bool {
    exists|i: int| 0 <= i < es.len() && (#[trigger] es[i]).lens == name
}

/// Every entry has a valid-time interval, and it is not empty.
pub open spec fn entries_sound<T>(es: Seq<EntryV<T>>) -> bool {
    forall|i: int|
        0 <= i < es.len() ==> (#[trigger] es[i]).coords.len() > 0 && es[i].coords[0].lo
            < es[i].coords[0].hi
}

/// The least start of the entries of a lens.
pub open spec fn least_start<T>(es: Seq<EntryV<T>>, name: Seq<char>) -> Timestamp
    decreases es.len(),
{
    if es.len() == 0 {
        i64::MAX
    } else {
        let m = least_start(es.drop_last(), name);
        if es.last().lens == name && es.last().coords[0].lo < m {
            es.last().coords[0].lo
        } else {
            m
        }
    }
}

/// The greatest end of the entries of a lens.
pub open spec fn greatest_end<T>(es: Seq<EntryV<T>>, name: Seq<char>) -> Timestamp
    decreases es.len(),
{
    if es.len() == 0 {
        i64::MIN
    } else {
        let m = greatest_end(es.drop_last(), name);
        if es.last().lens == name && es.last().coords[0].hi > m {
            es.last().coords[0].hi
        } else {
            m
        }
    }
}

/// How many entries a lens has.
pub open spec fn entry_count<T>(es: Seq<EntryV<T>>, name: Seq<char>) -> nat
    decreases es.len(),
{
    if es.len() == 0 {
        0
    } else {
        entry_count(es.drop_last(), name) + if es.last().lens == name {
            1nat
        } else {
            0nat
        }
    }
}

/// Some entry of the lens touches a bucket.
pub open spec fn lens_touches<T>(
    es: Seq<EntryV<T>>,
    name: Seq<char>,
    min_start: Timestamp,
    max_end: Timestamp,
) -> spec_fn(i64) -> bool {
    |key: i64|
        exists|i: int|
            0 <= i < es.len() && (#[trigger] es[i]).lens == name && touches(
                key,
                es[i].coords[0].lo,
                es[i].coords[0].hi,
                min_start,
                bucket_width(min_start, max_end),
            )
}

/// What is told of a lens is so.
pub open spec fn describes<T>(st: StatsV, es: Seq<EntryV<T>>, name: Seq<char>) -> bool {
    &&& st.min_start == least_start(es, name)
    &&& st.max_end == greatest_end(es, name)
    &&& st.count == entry_count(es, name)
    &&& st.bloom.wf()
    &&& st.bloom.n_bits == filter_size(entry_count(es, name))
    &&& forall|idx: int|
        0 <= idx < st.bloom.n_bits ==> (#[trigger] has_bit(st.bloom.words, idx) <==> picked(
            lens_touches(es, name, st.min_start, st.max_end),
            idx,
            st.bloom.n_bits,
        ))
}

proof fn lemma_extremes<T>(es: Seq<EntryV<T>>, name: Seq<char>, i: int)
    requires
        0 <= i < es.len(),
        es[i].lens == name,
    ensures
        least_start(es, name) <= es[i].coords[0].lo,
        es[i].coords[0].hi <= greatest_end(es, name),
        entry_count(es, name) > 0,
    decreases es.len(),
{
    if i < es.len() - 1 {
        assert(es.drop_last()[i] == es[i]);
        lemma_extremes(es.drop_last(), name, i);
    }
}

proof fn lemma_count_bound<T>(es: Seq<EntryV<T>>, name: Seq<char>)
    ensures
        entry_count(es, name) <= es.len(),
    decreases es.len(),
{
    if es.len() > 0 {
        lemma_count_bound(es.drop_last(), name);
    }
}

fn span_of<V: Codec>(entries: &Vec<RunEntry<V>>, name: &str) -> (r: (Timestamp, Timestamp, usize))
    requires
        entries_sound(entry_views(entries@)),
    ensures
        r.0 == least_start(entry_views(entries@), name@),
        r.1 == greatest_end(entry_views(entries@), name@),
        r.2 == entry_count(entry_views(entries@), name@),
{
    let ghost es = entry_views(entries@);
    let mut min_start: Timestamp = i64::MAX;
    let mut max_end: Timestamp = i64::MIN;
    let mut count: usize = 0;
    let mut i: usize = 0;
    assert(es.take(0) =~= Seq::empty());
    while i < entries.len()
        invariant
            i <= entries@.len(),
            es == entry_views(entries@),
            entries_sound(es),
            min_start == least_start(es.take(i as int), name@),
            max_end == greatest_end(es.take(i as int), name@),
            count == entry_count(es.take(i as int), name@),
            count <= i,
        decreases entries@.len() - i,
    {
        let e = &entries[i];
        proof {
            assert(es.take(i + 1).drop_last() =~= es.take(i as int));
            assert(es.take(i + 1).last() == e@);
            assert(es[i as int] == e@);
        }
        if same_text(e.lens.as_str(), name) {
            let c: Bound = e.coords[0];
            if c.lo < min_start {
                min_start = c.lo;
            }
            if c.hi > max_end {
                max_end = c.hi;
            }
            count = count + 1;
        }
        i = i + 1;
    }
    assert(es.take(es.len() as int) =~= es);
    (min_start, max_end, count)
}

fn filter_of<V: Codec>(
    entries: &Vec<RunEntry<V>>,
    name: &str,
    min_start: Timestamp,
    max_end: Timestamp,
    count: usize,
) -> (r: Bloom)
    requires
        entries_sound(entry_views(entries@)),
        min_start == least_start(entry_views(entries@), name@),
        max_end == greatest_end(entry_views(entries@), name@),
    ensures
        r@.wf(),
        r@.n_bits == filter_size(count as nat),
        forall|idx: int|
            0 <= idx < r@.n_bits ==> (#[trigger] has_bit(r@.words, idx) <==> picked(
                lens_touches(entry_views(entries@), name@, min_start, max_end),
                idx,
                r@.n_bits,
            )),
{
    let ghost es = entry_views(entries@);
    let width: i64 = bloom_bucket_width(min_start, max_end);
    let mut bloom = Bloom::new(count);
    let mut i: usize = 0;
    proof {
        assert forall|idx: int| 0 <= idx < bloom@.n_bits implies !picked(
            lens_touches(es.take(0), name@, min_start, max_end),
            idx,
            bloom@.n_bits,
        ) by {}
    }
    while i < entries.len()
        invariant
            i <= entries@.len(),
            es == entry_views(entries@),
            entries_sound(es),
            min_start == least_start(es, name@),
            max_end == greatest_end(es, name@),
            width == bucket_width(min_start, max_end),
            width >= 1,
            bloom@.wf(),
            bloom@.n_bits == filter_size(count as nat),
            forall|idx: int|
                0 <= idx < bloom@.n_bits ==> (#[trigger] has_bit(bloom@.words, idx) <==> picked(
                    lens_touches(es.take(i as int), name@, min_start, max_end),
                    idx,
                    bloom@.n_bits,
                )),
        decreases entries@.len() - i,
    {
        let e = &entries[i];
        let ghost some = lens_touches(es.take(i as int), name@, min_start, max_end);
        let ghost more = lens_touches(es.take(i + 1), name@, min_start, max_end);
        let ghost now = bloom@;
        proof {
            assert(es[i as int] == e@);
            assert forall|key: i64| #[trigger] some(key) implies more(key) by {
                let j = choose|j: int|
                    0 <= j < es.take(i as int).len() && (#[trigger] es.take(i as int)[j]).lens
                        == name@ && touches(
                        key,
                        es.take(i as int)[j].coords[0].lo,
                        es.take(i as int)[j].coords[0].hi,
                        min_start,
                        bucket_width(min_start, max_end),
                    );
                assert(es.take(i + 1)[j] == es.take(i as int)[j]);
            }
        }
        if same_text(e.lens.as_str(), name) {
            let c: Bound = e.coords[0];
            proof {
                lemma_extremes(es, name@, i as int);
                law_few_buckets(c.lo as int, min_start, max_end);
                law_few_buckets(c.hi - 1, min_start, max_end);
            }
            let ghost mine = |key: i64| touches(key, c.lo, c.hi, min_start, width as int);
            bloom_insert_interval(&mut bloom, c.lo, c.hi, min_start, width);
            proof {
                assert forall|key: i64| #[trigger] more(key) implies some(key) || mine(key) by {
                    let j = choose|j: int|
                        0 <= j < es.take(i + 1).len() && (#[trigger] es.take(i + 1)[j]).lens
                            == name@ && touches(
                            key,
                            es.take(i + 1)[j].coords[0].lo,
                            es.take(i + 1)[j].coords[0].hi,
                            min_start,
                            bucket_width(min_start, max_end),
                        );
                    if j < i {
                        assert(es.take(i + 1)[j] == es.take(i as int)[j]);
                    }
                }
                assert forall|key: i64| #[trigger] mine(key) implies more(key) by {
                    assert(es.take(i + 1)[i as int].lens == name@);
                }
                assert forall|idx: int| 0 <= idx < bloom@.n_bits implies (#[trigger] has_bit(
                    bloom@.words,
                    idx,
                ) <==> picked(more, idx, bloom@.n_bits)) by {
                    assert(has_bit(bloom@.words, idx) <==> has_bit(now.words, idx) || picked(
                        mine,
                        idx,
                        now.n_bits,
                    ));
                    assert(has_bit(now.words, idx) <==> picked(some, idx, now.n_bits));
                    lemma_picked_union(some, mine, more, idx, now.n_bits);
                }
            }
        } else {
            proof {
                assert forall|key: i64| #[trigger] more(key) implies some(key) by {
                    let j = choose|j: int|
                        0 <= j < es.take(i + 1).len() && (#[trigger] es.take(i + 1)[j]).lens
                            == name@ && touches(
                            key,
                            es.take(i + 1)[j].coords[0].lo,
                            es.take(i + 1)[j].coords[0].hi,
                            min_start,
                            bucket_width(min_start, max_end),
                        );
                    assert(j < i);
                    assert(es.take(i + 1)[j] == es.take(i as int)[j]);
                }
                assert(some =~= more);
            }
        }
        i = i + 1;
    }
    assert(es.take(es.len() as int) =~= es);
    bloom
}

proof fn lemma_picked_union(
    a: spec_fn(i64) -> bool,
    b: spec_fn(i64) -> bool,
    c: spec_fn(i64) -> bool,
    idx: int,
    n_bits: usize,
)
    requires
        forall|key: i64| #[trigger] c(key) ==> a(key) || b(key),
        forall|key: i64| #[trigger] a(key) ==> c(key),
        forall|key: i64| #[trigger] b(key) ==> c(key),
    ensures
        picked(c, idx, n_bits) <==> picked(a, idx, n_bits) || picked(b, idx, n_bits),
{
    if picked(a, idx, n_bits) {
        let (key, i) = choose|key: i64, i: u64|
            a(key) && i < crate::bloom::HASHES && #[trigger] crate::bloom::slot(key, i, n_bits)
                == idx;
        assert(c(key));
    }
    if picked(b, idx, n_bits) {
        let (key, i) = choose|key: i64, i: u64|
            b(key) && i < crate::bloom::HASHES && #[trigger] crate::bloom::slot(key, i, n_bits)
                == idx;
        assert(c(key));
    }
}

/// What a footer tells of the entries, by lens: of each lens that occurs, and of no other.
pub open spec fn tells<T>(footer: FooterV, es: Seq<EntryV<T>>) -> bool {
    &&& forall|name: Seq<char>| #[trigger] footer.contains_key(name) <==> occurs(es, name)
    &&& forall|name: Seq<char>| #[trigger]
        footer.contains_key(name) ==> describes(footer[name], es, name)
}

/// The lenses of the footer in a given order.
pub open spec fn footer_items(names: Seq<String>, footer: FooterV) -> Seq<(Seq<char>, StatsV)> {
    Seq::new(names.len(), |j: int| (names[j]@, footer[names[j]@]))
}

/// A file made of a header, a body, a footer and the length of the footer.
pub open spec fn run_parts<V: Codec>(
    file: Seq<u8>,
    es: Seq<EntryV<V::V>>,
    key: Option<Seq<u8>>,
    level: i32,
    footer: FooterV,
    names: Seq<String>,
    body: Seq<u8>,
    foot: Seq<u8>,
) -> bool {
    &&& tells(footer, es)
    &&& lists_keys(names, footer)
    &&& packed(body_bytes::<V>(es), level) matches Some(frame) && unpacked(frame) == Some(
        body_bytes::<V>(es),
    ) && shielded(key, frame, body)
    &&& shielded(key, footer_bytes(footer_items(names, footer)), foot)
    &&& file == header_bytes(run_magic(), RUN_VERSION, flags_for(key)) + (body + (foot + le32(
        foot.len() as u32,
    )))
}

/// The file holds the entries, and its footer tells of them.
pub open spec fn is_run_file<V: Codec>(
    file: Seq<u8>,
    es: Seq<EntryV<V::V>>,
    key: Option<Seq<u8>>,
    level: i32,
    footer: FooterV,
) -> bool {
    exists|names: Seq<String>, body: Seq<u8>, foot: Seq<u8>| #[trigger]
        run_parts::<V>(file, es, key, level, footer, names, body, foot)
}

/// The version that a file is read by.
pub open spec fn version_of(file: Seq<u8>) -> u8 {
    if file.len() > 4 && file[4] == FIRST_RUN_VERSION {
        FIRST_RUN_VERSION
    } else {
        RUN_VERSION
    }
}

/// A footer without its filters: those of no bits rule nothing out.
pub open spec fn unfiltered(footer: FooterV) -> FooterV {
    footer.map_values(
        |st: StatsV| StatsV { bloom: BloomV { words: Seq::empty(), n_bits: 0 }, ..st },
    )
}

/// What the footer of a file tells.
pub open spec fn footer_of(file: Seq<u8>, key: Option<Seq<u8>>) -> Result<FooterV, FormatError> {
    match header_flags(file, run_magic(), version_of(file)) {
        Err(e) => Err(e),
        Ok(flags) => if file.len() < HEADER_LEN + 4 {
            Err(FormatError::RunTooShort)
        } else {
            let n = spec_u32_from_le_bytes(file.subrange(file.len() - 4, file.len() as int));
            if n > file.len() - HEADER_LEN - 4 {
                Err(FormatError::FooterLength)
            } else {
                match unshielded(
                    flags,
                    key,
                    file.subrange(file.len() - 4 - n, file.len() - 4),
                    FormatError::RunKeyMissing,
                ) {
                    Err(e) => Err(e),
                    Ok(plain) => match take_footer(plain) {
                        Err(e) => Err(e),
                        Ok(footer) => if version_of(file) == FIRST_RUN_VERSION {
                            Ok(unfiltered(footer))
                        } else {
                            Ok(footer)
                        },
                    },
                }
            }
        },
    }
}

/// The entries that a file holds.
pub open spec fn entries_of<V: Codec>(file: Seq<u8>, key: Option<Seq<u8>>) -> Result<
    Seq<EntryV<V::V>>,
    FormatError,
> {
    match header_flags(file, run_magic(), version_of(file)) {
        Err(e) => Err(e),
        Ok(flags) => {
            let n = spec_u32_from_le_bytes(file.subrange(file.len() - 4, file.len() as int));
            if n + 4 + HEADER_LEN > file.len() {
                Err(FormatError::RunLayout)
            } else {
                match unshielded(
                    flags,
                    key,
                    file.subrange(HEADER_LEN as int, file.len() - 4 - n),
                    FormatError::RunKeyMissing,
                ) {
                    Err(e) => Err(e),
                    Ok(frame) => match unpacked(frame) {
                        None => Err(FormatError::Decompression),
                        Some(plain) => take_body::<V>(plain),
                    },
                }
            }
        },
    }
}

proof fn lemma_as_footer(names: Seq<String>, footer: FooterV, n: int)
    requires
        lists_keys(names, footer),
        0 <= n <= names.len(),
    ensures
        forall|k: Seq<char>| #[trigger]
            as_footer(footer_items(names, footer).take(n)).contains_key(k) <==> exists|j: int|
                0 <= j < n && (#[trigger] names[j])@ == k,
        forall|k: Seq<char>| #[trigger]
            as_footer(footer_items(names, footer).take(n)).contains_key(k) ==> as_footer(
                footer_items(names, footer).take(n),
            )[k] == footer[k],
    decreases n,
{
    let items = footer_items(names, footer);
    if n > 0 {
        lemma_as_footer(names, footer, n - 1);
        assert(items.take(n).drop_last() =~= items.take(n - 1));
        assert(items.take(n).last() == items[n - 1]);
        assert forall|k: Seq<char>| #[trigger] as_footer(items.take(n)).contains_key(k) <==> exists|
            j: int,
        |
            0 <= j < n && (#[trigger] names[j])@ == k by {
            if as_footer(items.take(n)).contains_key(k) {
                if k == names[n - 1]@ {
                    assert(names[n - 1]@ == k);
                } else {
                    assert(as_footer(items.take(n - 1)).contains_key(k));
                }
            }
            if exists|j: int| 0 <= j < n && (#[trigger] names[j])@ == k {
                let j = choose|j: int| 0 <= j < n && (#[trigger] names[j])@ == k;
                if j < n - 1 {
                    assert(as_footer(items.take(n - 1)).contains_key(k));
                }
            }
        }
        assert forall|k: Seq<char>| #[trigger] as_footer(items.take(n)).contains_key(k) implies as_footer(
            items.take(n),
        )[k] == footer[k] by {
            if k != names[n - 1]@ {
                assert(as_footer(items.take(n - 1)).contains_key(k));
            }
        }
    }
}

/// A run file that was written is read back: the same entries, the same footer.
pub proof fn law_run_reads_back<V: Codec>(
    file: Seq<u8>,
    es: Seq<EntryV<V::V>>,
    key: Option<Seq<u8>>,
    level: i32,
    footer: FooterV,
    names: Seq<String>,
    body: Seq<u8>,
    foot: Seq<u8>,
)
    requires
        run_parts::<V>(file, es, key, level, footer, names, body, foot),
        body_fits::<V>(es),
        footer_fits(footer_items(names, footer)),
        foot.len() <= u32::MAX,
    ensures
        entries_of::<V>(file, key) == Ok::<Seq<EntryV<V::V>>, FormatError>(es),
        footer_of(file, key) == Ok::<FooterV, FormatError>(footer),
{
    let head = header_bytes(run_magic(), RUN_VERSION, flags_for(key));
    let tail = le32(foot.len() as u32);
    lemma_holds_all(file);
    lemma_holds_parts(file, 0, head, body + (foot + tail));
    lemma_header_back(file, run_magic(), RUN_VERSION, flags_for(key));
    assert(version_of(file) == RUN_VERSION);
    lemma_holds_parts(file, 10, body, foot + tail);
    lemma_holds_parts(file, 10int + body.len(), foot, tail);
    lemma_u32_back(file, 10int + body.len() + foot.len(), foot.len() as u32);
    let frame = packed(body_bytes::<V>(es), level)->Some_0;
    lemma_unshielded(key, frame, body, FormatError::RunKeyMissing);
    lemma_unshielded(
        key,
        footer_bytes(footer_items(names, footer)),
        foot,
        FormatError::RunKeyMissing,
    );
    lemma_body_back::<V>(es);
    let items = footer_items(names, footer);
    lemma_footer_back(items);
    lemma_as_footer(names, footer, names.len() as int);
    assert(items.take(names.len() as int) =~= items);
    assert(as_footer(items) =~= footer) by {
        assert forall|k: Seq<char>| as_footer(items).contains_key(k) <==> footer.contains_key(k) by {
            if footer.contains_key(k) {
                assert(listed(names, k));
            }
            if as_footer(items).contains_key(k) {
                assert(listed(names, k));
            }
        }
    }
}

/// The footer says that the run holds nothing of the lens at a valid time.
pub open spec fn ruled_out(footer: FooterV, lens: Seq<char>, t: Timestamp) -> bool {
    !footer.contains_key(lens) || {
        let st = footer[lens];
        st.count == 0 || t < st.min_start || t >= st.max_end || !st.bloom.might_hold(
            bucket_of(t as int, st.min_start, bucket_width(st.min_start, st.max_end)) as i64,
        )
    }
}

/// The footer of a run never rules out what the run holds.
pub proof fn law_footer_never_misleads<T>(
    footer: FooterV,
    es: Seq<EntryV<T>>,
    i: int,
    t: Timestamp,
)
    requires
        tells(footer, es),
        entries_sound(es),
        0 <= i < es.len(),
        es[i].coords[0].holds(t),
    ensures
        !ruled_out(footer, es[i].lens, t),
{
    let name = es[i].lens;
    assert(occurs(es, name));
    assert(footer.contains_key(name));
    let st = footer[name];
    lemma_extremes(es, name, i);
    let keys = lens_touches(es, name, st.min_start, st.max_end);
    let (lo, hi) = (es[i].coords[0].lo, es[i].coords[0].hi);
    let width = bucket_width(st.min_start, st.max_end);
    assert forall|key: i64| touches(key, lo, hi, st.min_start, width) implies #[trigger] keys(
        key,
    ) by {
        assert(es[i].lens == name);
    }
    law_few_buckets(lo as int, st.min_start, st.max_end);
    law_few_buckets(hi - 1, st.min_start, st.max_end);
    law_no_point_denied(st.bloom, keys, t, lo, hi, st.min_start, width);
}

/// A footer without filters rules out by the span of a lens alone.
pub proof fn law_no_filter_rules_nothing_out(footer: FooterV, lens: Seq<char>, t: Timestamp)
    requires
        footer.contains_key(lens),
        footer[lens].count > 0,
        footer[lens].min_start <= t < footer[lens].max_end,
    ensures
        !ruled_out(unfiltered(footer), lens, t),
{
    assert(unfiltered(footer).contains_key(lens));
}

/// Whether the footer leaves it open that the run holds something of the lens at a valid
/// time.
pub fn may_hold(stats: &NameMap<LensRunStats>, lens: &str, t: Timestamp) -> (r: bool)
    requires
        filters_wf(footer_view(stats@)),
    ensures
        r == !ruled_out(footer_view(stats@), lens@, t),
{
    match stats.get(lens) {
        None => false,
        Some(st) => {
            proof {
                assert(footer_view(stats@).contains_key(lens@));
                assert(footer_view(stats@)[lens@] == st@);
            }
            if st.count == 0 || t < st.min_start || t >= st.max_end {
                false
            } else {
                let width: i64 = bloom_bucket_width(st.min_start, st.max_end);
                proof {
                    law_few_buckets(t as int, st.min_start, st.max_end);
                }
                st.bloom.might_contain(bloom_bucket_of(t, st.min_start, width))
            }
        },
    }
}

/// The lenses of the entries, and what is told of each.
fn stats_of<V: Codec>(entries: &Vec<RunEntry<V>>) -> (r: NameMap<LensRunStats>)
    requires
        entries_sound(entry_views(entries@)),
    ensures
        tells(footer_view(r@), entry_views(entries@)),
        filters_wf(footer_view(r@)),
{
    let ghost es = entry_views(entries@);
    let mut out: NameMap<LensRunStats> = NameMap::new();
    let mut i: usize = 0;
    while i < entries.len()
        invariant
            i <= entries@.len(),
            es == entry_views(entries@),
            entries_sound(es),
            forall|name: Seq<char>| #[trigger]
                out@.contains_key(name) <==> occurs(es.take(i as int), name),
            forall|name: Seq<char>| #[trigger]
                out@.contains_key(name) ==> describes(out@[name]@, es, name),
        decreases entries@.len() - i,
    {
        let lens = entries[i].lens.as_str();
        proof {
            assert(es.take(i + 1)[i as int].lens == lens@);
            assert forall|name: Seq<char>| occurs(es.take(i + 1), name) <==> #[trigger] occurs(
                es.take(i as int),
                name,
            ) || name == lens@ by {
                if occurs(es.take(i + 1), name) {
                    let j = choose|j: int|
                        0 <= j < es.take(i + 1).len() && (#[trigger] es.take(i + 1)[j]).lens
                            == name;
                    if j < i {
                        assert(es.take(i as int)[j].lens == name);
                    }
                }
                if occurs(es.take(i as int), name) {
                    let j = choose|j: int|
                        0 <= j < es.take(i as int).len() && (#[trigger] es.take(i as int)[j]).lens
                            == name;
                    assert(es.take(i + 1)[j].lens == name);
                }
            }
        }
        if !out.contains_key(lens) {
            let (min_start, max_end, count) = span_of(entries, lens);
            let bloom = filter_of(entries, lens, min_start, max_end, count);
            out.insert(lens, LensRunStats { min_start, max_end, count, bloom });
        }
        i = i + 1;
    }
    proof {
        assert(es.take(es.len() as int) =~= es);
        assert forall|name: Seq<char>| #[trigger] footer_view(out@).contains_key(name) implies describes(
            footer_view(out@)[name],
            es,
            name,
        ) by {
            assert(out@.contains_key(name));
        }
        assert forall|name: Seq<char>| #[trigger] footer_view(out@).contains_key(name) <==> occurs(
            es,
            name,
        ) by {
            assert(footer_view(out@).contains_key(name) <==> out@.contains_key(name));
        }
    }
    out
}

fn write_footer(stats: &NameMap<LensRunStats>, names: &Vec<String>) -> (r: Vec<u8>)
    requires
        lists_keys(names@, footer_view(stats@)),
    ensures
        r@ == footer_bytes(footer_items(names@, footer_view(stats@))),
{
    let ghost footer = footer_view(stats@);
    let ghost items = footer_items(names@, footer);
    let ghost enc = |x: (Seq<char>, StatsV)| stats_bytes(x);
    let mut out: Vec<u8> = Vec::new();
    put_u32(&mut out, names.len() as u32);
    let ghost front = out@;
    let mut i: usize = 0;
    assert(items.take(0) =~= Seq::empty());
    assert(out@ =~= front + laid_out(enc, items.take(0)));
    while i < names.len()
        invariant
            i <= names@.len(),
            footer == footer_view(stats@),
            lists_keys(names@, footer),
            items == footer_items(names@, footer),
            enc == (|x: (Seq<char>, StatsV)| stats_bytes(x)),
            out@ == front + laid_out(enc, items.take(i as int)),
        decreases names@.len() - i,
    {
        let ghost next = items.take(i + 1);
        let ghost before = out@;
        proof {
            assert(listed(names@, names@[i as int]@));
            assert(footer.contains_key(names@[i as int]@));
            assert(next.drop_last() =~= items.take(i as int));
            assert(next.last() == items[i as int]);
        }
        if let Some(st) = stats.get(names[i].as_str()) {
            put_text(&mut out, names[i].as_str());
            put_i64(&mut out, st.min_start);
            put_i64(&mut out, st.max_end);
            put_u32(&mut out, st.count as u32);
            put_u32(&mut out, st.bloom.n_bits as u32);
            let words = st.bloom.to_bytes();
            put_u32(&mut out, words.len() as u32);
            put_bytes(&mut out, words.as_slice());
            proof {
                assert(items[i as int] == (names@[i as int]@, st@));
                assert(out@ =~= before + stats_bytes(items[i as int]));
                assert(out@ =~= front + laid_out(enc, next));
            }
        }
        i = i + 1;
    }
    assert(items.take(items.len() as int) =~= items);
    assert(front =~= le32(items.len() as u32));
    out
}

fn magic_word() -> (r: Vec<u8>)
    ensures
        r@ == run_magic(),
{
    let r: Vec<u8> = vec![0x54, 0x41, 0x55, 0x52];
    assert(r@ =~= run_magic());
    r
}

/// No run file can be made of the entries: they cannot be compressed, or they or what the
/// footer tells are longer than one nonce can carry.
pub open spec fn run_refused<V: Codec>(
    e: FormatError,
    es: Seq<EntryV<V::V>>,
    key: Option<Seq<u8>>,
    level: i32,
) -> bool {
    match packed(body_bytes::<V>(es), level) {
        None => e == FormatError::Compression,
        Some(frame) => {
            &&& e == FormatError::Encryption
            &&& key is Some
            &&& frame.len() > MESSAGE_LIMIT || exists|footer: FooterV, names: Seq<String>|
                tells(footer, es) && lists_keys(names, footer) && #[trigger] footer_bytes(
                    footer_items(names, footer),
                ).len() > MESSAGE_LIMIT
        },
    }
}

/// A run file of the entries, and what its footer tells.
pub fn write_run<V: Codec>(
    entries: &Vec<RunEntry<V>>,
    key: &Option<[u8; 32]>,
    level: i32,
) -> (r: Result<(Vec<u8>, NameMap<LensRunStats>), FormatError>)
    requires
        entries_sound(entry_views(entries@)),
    ensures
        match r {
            Ok((file, stats)) => is_run_file::<V>(
                file@,
                entry_views(entries@),
                key_bytes(*key),
                level,
                footer_view(stats@),
            ) && filters_wf(footer_view(stats@)),
            Err(e) => run_refused::<V>(e, entry_views(entries@), key_bytes(*key), level),
        },
{
    let ghost es = entry_views(entries@);
    let plain = write_body(entries);
    let frame = match compress(&plain, level) {
        Some(frame) => frame,
        None => {
            return Err(FormatError::Compression);
        },
    };
    let body = match shield(key, frame) {
        Ok(body) => body,
        Err(e) => {
            return Err(e);
        },
    };
    let stats = stats_of(entries);
    let names = stats.names();
    let ghost footer = footer_view(stats@);
    proof {
        assert forall|k: Seq<char>| #[trigger] footer.contains_key(k) <==> listed(names@, k) by {
            assert(footer.contains_key(k) <==> stats@.contains_key(k));
        }
    }
    let foot = match shield(key, write_footer(&stats, &names)) {
        Ok(foot) => foot,
        Err(e) => {
            return Err(e);
        },
    };
    let flags: u8 = match key {
        Some(_) => FLAG_ENCRYPTED,
        None => 0,
    };
    let magic = magic_word();
    let mut file = write_header(magic.as_slice(), RUN_VERSION, flags);
    put_bytes(&mut file, body.as_slice());
    put_bytes(&mut file, foot.as_slice());
    put_u32(&mut file, foot.len() as u32);
    proof {
        assert(file@ =~= header_bytes(run_magic(), RUN_VERSION, flags_for(key_bytes(*key))) + (
        body@ + (foot@ + le32(foot@.len() as u32))));
        assert(run_parts::<V>(
            file@,
            es,
            key_bytes(*key),
            level,
            footer,
            names@,
            body@,
            foot@,
        ));
    }
    Ok((file, stats))
}

fn file_version(file: &Vec<u8>) -> (r: u8)
    ensures
        r == version_of(file@),
{
    if file.len() > 4 && file[4] == FIRST_RUN_VERSION {
        FIRST_RUN_VERSION
    } else {
        RUN_VERSION
    }
}

fn without_filters(stats: &NameMap<LensRunStats>) -> (r: NameMap<LensRunStats>)
    ensures
        footer_view(r@) == unfiltered(footer_view(stats@)),
        filters_wf(footer_view(r@)),
{
    let names = stats.names();
    let mut out: NameMap<LensRunStats> = NameMap::new();
    let mut i: usize = 0;
    let none: Vec<u8> = Vec::new();
    while i < names.len()
        invariant
            i <= names@.len(),
            lists_keys(names@, stats@),
            forall|k: Seq<char>|
                {
                    &&& #[trigger] out@.contains_key(k) <==> listed(names@.take(i as int), k)
                    &&& out@.contains_key(k) ==> stats@.contains_key(k) && out@[k]@ == (StatsV {
                        bloom: BloomV { words: Seq::empty(), n_bits: 0 },
                        ..stats@[k]@
                    })
                },
        decreases names@.len() - i,
    {
        let name = names[i].as_str();
        let ghost before = out@;
        assert(listed(names@, name@));
        if let Some(st) = stats.get(name) {
            let bloom = Bloom::from_parts(0, &none);
            assert(bloom@.words =~= Seq::empty());
            let open = LensRunStats {
                min_start: st.min_start,
                max_end: st.max_end,
                count: st.count,
                bloom,
            };
            out.insert(name, open);
        }
        proof {
            let (some, more) = (names@.take(i as int), names@.take(i + 1));
            assert forall|k: Seq<char>| listed(more, k) <==> listed(some, k) || k == name@ by {
                if listed(more, k) {
                    let p = choose|p: int| 0 <= p < more.len() && (#[trigger] more[p])@ == k;
                    if p < i {
                        assert(some[p]@ == k);
                    }
                }
                if listed(some, k) {
                    let p = choose|p: int| 0 <= p < some.len() && (#[trigger] some[p])@ == k;
                    assert(more[p]@ == k);
                }
                if k == name@ {
                    assert(more[i as int]@ == k);
                }
            }
            assert forall|k: Seq<char>|
                {
                    &&& #[trigger] out@.contains_key(k) <==> listed(more, k)
                    &&& out@.contains_key(k) ==> stats@.contains_key(k) && out@[k]@ == (StatsV {
                        bloom: BloomV { words: Seq::empty(), n_bits: 0 },
                        ..stats@[k]@
                    })
                } by {
                assert(before.contains_key(k) <==> listed(some, k));
            }
        }
        i = i + 1;
    }
    proof {
        assert(names@.take(names@.len() as int) =~= names@);
        assert forall|k: Seq<char>| out@.contains_key(k) == stats@.contains_key(k) by {
            assert(stats@.contains_key(k) <==> listed(names@, k));
        }
        assert(footer_view(out@) =~= unfiltered(footer_view(stats@)));
    }
    out
}

/// What the footer of a run file tells.
pub fn read_run_footer(file: &Vec<u8>, key: &Option<[u8; 32]>) -> (r: Result<
    NameMap<LensRunStats>,
    FormatError,
>)
    ensures
        match footer_of(file@, key_bytes(*key)) {
            Ok(footer) => r is Ok && footer_view(r->Ok_0@) == footer && filters_wf(footer),
            Err(e) => r is Err && r->Err_0 == e,
        },
{
    let magic = magic_word();
    let flags: u8 = match read_header(file, magic.as_slice(), file_version(file)) {
        Ok(flags) => flags,
        Err(e) => {
            return Err(e);
        },
    };
    let len: usize = file.len();
    if len < HEADER_LEN + 4 {
        return Err(FormatError::RunTooShort);
    }
    let n: u32 = match read_u32(file, len - 4) {
        Ok((n, _)) => n,
        Err(e) => {
            return Err(e);
        },
    };
    if n as u64 > (len - HEADER_LEN - 4) as u64 {
        return Err(FormatError::FooterLength);
    }
    let stored = cut(file, len - 4 - n as usize, len - 4);
    match unshield(flags, key, stored, FormatError::RunKeyMissing) {
        Ok(plain) => match parse_footer(&plain) {
            Ok(stats) => if file_version(file) == FIRST_RUN_VERSION {
                Ok(without_filters(&stats))
            } else {
                Ok(stats)
            },
            Err(e) => Err(e),
        },
        Err(e) => Err(e),
    }
}

/// The entries that a run file holds.
pub fn read_run_entries<V: Codec>(file: &Vec<u8>, key: &Option<[u8; 32]>) -> (r: Result<
    Vec<RunEntry<V>>,
    FormatError,
>)
    ensures
        match entries_of::<V>(file@, key_bytes(*key)) {
            Ok(entries) => r is Ok && entry_views(r->Ok_0@) == entries,
            Err(e) => r is Err && r->Err_0 == e,
        },
{
    let magic = magic_word();
    let flags: u8 = match read_header(file, magic.as_slice(), file_version(file)) {
        Ok(flags) => flags,
        Err(e) => {
            return Err(e);
        },
    };
    let len: usize = file.len();
    let n: u32 = match read_u32(file, len - 4) {
        Ok((n, _)) => n,
        Err(e) => {
            return Err(e);
        },
    };
    if n as u64 + 4 + HEADER_LEN as u64 > len as u64 {
        return Err(FormatError::RunLayout);
    }
    let stored = cut(file, HEADER_LEN, len - 4 - n as usize);
    let frame = match unshield(flags, key, stored, FormatError::RunKeyMissing) {
        Ok(frame) => frame,
        Err(e) => {
            return Err(e);
        },
    };
    match decompress(&frame) {
        Some(plain) => read_body::<V>(&plain),
        None => Err(FormatError::Decompression),
    }
}

} // verus!
