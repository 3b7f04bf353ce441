//! The manifest: the small file that says which runs a store has, and what else it must
//! know when it is opened again.

use crate::bytes::{
    holds_at, laid_out, le32, le64, le_text, lemma_holds_all, lemma_holds_parts,
    lemma_take_laid_out, lemma_take_many_fails, lemma_text_back, lemma_u32_back, lemma_u64_back,
    put_bytes, put_text, put_u32, put_u64, read_text, read_u32, read_u64, reads_back, take_many,
    take_text, take_u32, take_u64, text_fits, cut, FormatError, Taken,
};
use crate::crypto::MESSAGE_LIMIT;
use crate::run::{
    checksum, crc32, flags_for, header_bytes, header_flags, key_bytes, lemma_header_back,
    lemma_unshielded, read_header, shield, shielded, unshield, unshielded, write_header,
    FLAG_ENCRYPTED, HEADER_LEN,
};
use vstd::bytes::spec_u32_from_le_bytes;
use vstd::prelude::*;

verus! {

pub const MANIFEST_VERSION: u8 = 1;

pub open spec fn manifest_magic() -> Seq<u8> {
    seq![0x54u8, 0x41, 0x55, 0x4d]
}

/// What a manifest says.
#[derive(Debug)]
pub struct ManifestData {
    pub schema: Vec<String>,
    pub live_lenses: Vec<String>,
    pub epochs: Vec<(String, u64)>,
    /// The runs, oldest first.
    pub run_ids: Vec<u64>,
    pub next_run_id: u64,
    /// How many layers each lens has, in memory and in all runs.
    pub layer_counts: Vec<(String, u64)>,
}

#[verifier::ext_equal]
pub struct ManifestV {
    pub schema: Seq<Seq<char>>,
    pub live_lenses: Seq<Seq<char>>,
    pub epochs: Seq<(Seq<char>, u64)>,
    pub run_ids: Seq<u64>,
    pub next_run_id: u64,
    pub layer_counts: Seq<(Seq<char>, u64)>,
}

pub open spec fn texts_of(items: Seq<String>) -> Seq<Seq<char>> {
    items.map_values(|s: String| s@)
}

pub open spec fn pairs_of(items: Seq<(String, u64)>) -> Seq<(Seq<char>, u64)> {
    items.map_values(|p: (String, u64)| (p.0@, p.1))
}

impl View for ManifestData {
    type V = ManifestV;

    open spec fn view(&self) -> ManifestV {
        ManifestV {
            schema: texts_of(self.schema@),
            live_lenses: texts_of(self.live_lenses@),
            epochs: pairs_of(self.epochs@),
            run_ids: self.run_ids@,
            next_run_id: self.next_run_id,
            layer_counts: pairs_of(self.layer_counts@),
        }
    }
}

pub open spec fn pair_bytes(p: (Seq<char>, u64)) -> Seq<u8> {
    le_text(p.0) + le64(p.1)
}

pub open spec fn take_pair(b: Seq<u8>, at: int) -> Taken<(Seq<char>, u64)> {
    match take_text(b, at) {
        Err(e) => Err(e),
        Ok((name, p)) => match take_u64(b, p) {
            Err(e) => Err(e),
            Ok((n, q)) => Ok(((name, n), q)),
        },
    }
}

/// A list: how many items, then the items.
pub open spec fn list_bytes<T>(enc: spec_fn(T) -> Seq<u8>, items: Seq<T>) -> Seq<u8> {
    le32(items.len() as u32) + laid_out(enc, items)
}

pub open spec fn take_list<T>(
    item: spec_fn(Seq<u8>, int) -> Taken<T>,
    b: Seq<u8>,
    at: int,
) -> Taken<Seq<T>> {
    match take_u32(b, at) {
        Err(e) => Err(e),
        Ok((n, p)) => take_many(item, b, p, n as nat),
    }
}

pub open spec fn texts_bytes(items: Seq<Seq<char>>) -> Seq<u8> {
    list_bytes(|s: Seq<char>| le_text(s), items)
}

pub open spec fn pairs_bytes(items: Seq<(Seq<char>, u64)>) -> Seq<u8> {
    list_bytes(|p: (Seq<char>, u64)| pair_bytes(p), items)
}

pub open spec fn numbers_bytes(items: Seq<u64>) -> Seq<u8> {
    list_bytes(|n: u64| le64(n), items)
}

pub open spec fn take_texts(b: Seq<u8>, at: int) -> Taken<Seq<Seq<char>>> {
    take_list(|s: Seq<u8>, p: int| take_text(s, p), b, at)
}

pub open spec fn take_pairs(b: Seq<u8>, at: int) -> Taken<Seq<(Seq<char>, u64)>> {
    take_list(|s: Seq<u8>, p: int| take_pair(s, p), b, at)
}

pub open spec fn take_numbers(b: Seq<u8>, at: int) -> Taken<Seq<u64>> {
    take_list(|s: Seq<u8>, p: int| take_u64(s, p), b, at)
}

/// A manifest as bytes, without its checksum.
pub open spec fn content_bytes(m: ManifestV) -> Seq<u8> {
    texts_bytes(m.schema) + (texts_bytes(m.live_lenses) + (pairs_bytes(m.epochs) + (numbers_bytes(
        m.run_ids,
    ) + (le64(m.next_run_id) + pairs_bytes(m.layer_counts)))))
}

pub open spec fn take_content(b: Seq<u8>) -> Result<ManifestV, FormatError> {
    match take_texts(b, 0) {
        Err(e) => Err(e),
        Ok((schema, p1)) => match take_texts(b, p1) {
            Err(e) => Err(e),
            Ok((live_lenses, p2)) => match take_pairs(b, p2) {
                Err(e) => Err(e),
                Ok((epochs, p3)) => match take_numbers(b, p3) {
                    Err(e) => Err(e),
                    Ok((run_ids, p4)) => match take_u64(b, p4) {
                        Err(e) => Err(e),
                        Ok((next_run_id, p5)) => match take_pairs(b, p5) {
                            Err(e) => Err(e),
                            Ok((layer_counts, _)) => Ok(
                                ManifestV {
                                    schema,
                                    live_lenses,
                                    epochs,
                                    run_ids,
                                    next_run_id,
                                    layer_counts,
                                },
                            ),
                        },
                    },
                },
            },
        },
    }
}

/// The manifest is not too large to be read back.
pub open spec fn manifest_fits(m: ManifestV) -> bool {
    &&& m.schema.len() <= u32::MAX
    &&& m.live_lenses.len() <= u32::MAX
    &&& m.epochs.len() <= u32::MAX
    &&& m.run_ids.len() <= u32::MAX
    &&& m.layer_counts.len() <= u32::MAX
    &&& forall|i: int| 0 <= i < m.schema.len() ==> text_fits(#[trigger] m.schema[i])
    &&& forall|i: int| 0 <= i < m.live_lenses.len() ==> text_fits(#[trigger] m.live_lenses[i])
    &&& forall|i: int| 0 <= i < m.epochs.len() ==> text_fits((#[trigger] m.epochs[i]).0)
    &&& forall|i: int| 0 <= i < m.layer_counts.len() ==> text_fits((#[trigger] m.layer_counts[i]).0)
}

proof fn lemma_list_back<T>(
    item: spec_fn(Seq<u8>, int) -> Taken<T>,
    enc: spec_fn(T) -> Seq<u8>,
    items: Seq<T>,
    b: Seq<u8>,
    at: int,
)
    requires
        holds_at(b, at, list_bytes(enc, items)),
        items.len() <= u32::MAX,
        forall|i: int| 0 <= i < items.len() ==> reads_back(item, enc, #[trigger] items[i]),
    ensures
        take_list(item, b, at) == Ok::<(Seq<T>, int), FormatError>(
            (items, at + list_bytes(enc, items).len()),
        ),
{
    lemma_holds_parts(b, at, le32(items.len() as u32), laid_out(enc, items));
    lemma_u32_back(b, at, items.len() as u32);
    lemma_take_laid_out(item, enc, items, b, at + 4);
}

proof fn lemma_texts_back(b: Seq<u8>, at: int, items: Seq<Seq<char>>)
    requires
        holds_at(b, at, texts_bytes(items)),
        items.len() <= u32::MAX,
        forall|i: int| 0 <= i < items.len() ==> text_fits(#[trigger] items[i]),
    ensures
        take_texts(b, at) == Ok::<(Seq<Seq<char>>, int), FormatError>(
            (items, at + texts_bytes(items).len()),
        ),
{
    let item = |s: Seq<u8>, p: int| take_text(s, p);
    let enc = |s: Seq<char>| le_text(s);
    assert forall|i: int| 0 <= i < items.len() implies reads_back(item, enc, #[trigger] items[i]) by {
        let x = items[i];
        assert forall|s: Seq<u8>, p: int| #[trigger] holds_at(s, p, enc(x)) implies item(s, p)
            == Ok::<(Seq<char>, int), FormatError>((x, p + enc(x).len())) by {
            lemma_text_back(s, p, x);
        }
    }
    lemma_list_back(item, enc, items, b, at);
}

proof fn lemma_pairs_back(b: Seq<u8>, at: int, items: Seq<(Seq<char>, u64)>)
    requires
        holds_at(b, at, pairs_bytes(items)),
        items.len() <= u32::MAX,
        forall|i: int| 0 <= i < items.len() ==> text_fits((#[trigger] items[i]).0),
    ensures
        take_pairs(b, at) == Ok::<(Seq<(Seq<char>, u64)>, int), FormatError>(
            (items, at + pairs_bytes(items).len()),
        ),
{
    let item = |s: Seq<u8>, p: int| take_pair(s, p);
    let enc = |x: (Seq<char>, u64)| pair_bytes(x);
    assert forall|i: int| 0 <= i < items.len() implies reads_back(item, enc, #[trigger] items[i]) by {
        let x = items[i];
        assert forall|s: Seq<u8>, p: int| #[trigger] holds_at(s, p, enc(x)) implies item(s, p)
            == Ok::<((Seq<char>, u64), int), FormatError>((x, p + enc(x).len())) by {
            lemma_holds_parts(s, p, le_text(x.0), le64(x.1));
            lemma_text_back(s, p, x.0);
            lemma_u64_back(s, p + le_text(x.0).len(), x.1);
        }
    }
    lemma_list_back(item, enc, items, b, at);
}

proof fn lemma_numbers_back(b: Seq<u8>, at: int, items: Seq<u64>)
    requires
        holds_at(b, at, numbers_bytes(items)),
        items.len() <= u32::MAX,
    ensures
        take_numbers(b, at) == Ok::<(Seq<u64>, int), FormatError>(
            (items, at + numbers_bytes(items).len()),
        ),
{
    let item = |s: Seq<u8>, p: int| take_u64(s, p);
    let enc = |n: u64| le64(n);
    assert forall|i: int| 0 <= i < items.len() implies reads_back(item, enc, #[trigger] items[i]) by {
        let x = items[i];
        assert forall|s: Seq<u8>, p: int| #[trigger] holds_at(s, p, enc(x)) implies item(s, p)
            == Ok::<(u64, int), FormatError>((x, p + enc(x).len())) by {
            lemma_u64_back(s, p, x);
        }
    }
    lemma_list_back(item, enc, items, b, at);
}

proof fn lemma_content_back(b: Seq<u8>, m: ManifestV)
    requires
        b == content_bytes(m),
        manifest_fits(m),
    ensures
        take_content(b) == Ok::<ManifestV, FormatError>(m),
{
    let t5 = le64(m.next_run_id) + pairs_bytes(m.layer_counts);
    let t4 = numbers_bytes(m.run_ids) + t5;
    let t3 = pairs_bytes(m.epochs) + t4;
    let t2 = texts_bytes(m.live_lenses) + t3;
    lemma_holds_all(b);
    lemma_holds_parts(b, 0, texts_bytes(m.schema), t2);
    lemma_texts_back(b, 0, m.schema);
    let p1 = texts_bytes(m.schema).len() as int;
    lemma_holds_parts(b, p1, texts_bytes(m.live_lenses), t3);
    lemma_texts_back(b, p1, m.live_lenses);
    let p2 = p1 + texts_bytes(m.live_lenses).len();
    lemma_holds_parts(b, p2, pairs_bytes(m.epochs), t4);
    lemma_pairs_back(b, p2, m.epochs);
    let p3 = p2 + pairs_bytes(m.epochs).len();
    lemma_holds_parts(b, p3, numbers_bytes(m.run_ids), t5);
    lemma_numbers_back(b, p3, m.run_ids);
    let p4 = p3 + numbers_bytes(m.run_ids).len();
    lemma_holds_parts(b, p4, le64(m.next_run_id), pairs_bytes(m.layer_counts));
    lemma_u64_back(b, p4, m.next_run_id);
    lemma_pairs_back(b, p4 + 8, m.layer_counts);
}

/// What stands in a manifest, with the checksum behind it.
pub open spec fn checked_content(m: ManifestV) -> Seq<u8> {
    content_bytes(m) + le32(crc32(content_bytes(m)))
}

/// The file is the manifest under the key.
pub open spec fn is_manifest(file: Seq<u8>, m: ManifestV, key: Option<Seq<u8>>) -> bool {
    let head = header_bytes(manifest_magic(), MANIFEST_VERSION, flags_for(key));
    &&& file.len() >= head.len()
    &&& file.take(head.len() as int) == head
    &&& shielded(key, checked_content(m), file.skip(head.len() as int))
}

/// What a manifest file says.
pub open spec fn manifest_of(file: Seq<u8>, key: Option<Seq<u8>>) -> Result<
    ManifestV,
    FormatError,
> {
    match header_flags(file, manifest_magic(), MANIFEST_VERSION) {
        Err(e) => Err(e),
        Ok(flags) => match unshielded(
            flags,
            key,
            file.skip(HEADER_LEN as int),
            FormatError::ManifestKeyMissing,
        ) {
            Err(e) => Err(e),
            Ok(body) => if body.len() < 4 {
                Err(FormatError::ManifestTooShort)
            } else {
                let content = body.take(body.len() - 4);
                if crc32(content) != spec_u32_from_le_bytes(
                    body.subrange(body.len() - 4, body.len() as int),
                ) {
                    Err(FormatError::ManifestChecksum)
                } else {
                    take_content(content)
                }
            },
        },
    }
}

/// A manifest that was written is read back.
pub proof fn law_manifest_reads_back(file: Seq<u8>, m: ManifestV, key: Option<Seq<u8>>)
    requires
        is_manifest(file, m, key),
        manifest_fits(m),
    ensures
        manifest_of(file, key) == Ok::<ManifestV, FormatError>(m),
{
    let head = header_bytes(manifest_magic(), MANIFEST_VERSION, flags_for(key));
    assert(file.subrange(0, 0 + head.len() as int) =~= file.take(head.len() as int));
    lemma_header_back(file, manifest_magic(), MANIFEST_VERSION, flags_for(key));
    let stored = file.skip(head.len() as int);
    lemma_unshielded(key, checked_content(m), stored, FormatError::ManifestKeyMissing);
    let content = content_bytes(m);
    let body = checked_content(m);
    lemma_holds_all(body);
    lemma_holds_parts(body, 0, content, le32(crc32(content)));
    lemma_u32_back(body, content.len() as int, crc32(content));
    assert(body.take(body.len() - 4) =~= content);
    lemma_content_back(content, m);
}

fn put_texts(out: &mut Vec<u8>, items: &Vec<String>)
    ensures
        final(out)@ == old(out)@ + texts_bytes(texts_of(items@)),
{
    let ghost all = texts_of(items@);
    let ghost enc = |s: Seq<char>| le_text(s);
    let ghost before = out@;
    put_u32(out, items.len() as u32);
    let ghost front = out@;
    let mut i: usize = 0;
    assert(all.take(0) =~= Seq::empty());
    assert(out@ =~= front + laid_out(enc, all.take(0)));
    while i < items.len()
        invariant
            i <= items@.len(),
            all == texts_of(items@),
            enc == (|s: Seq<char>| le_text(s)),
            out@ == front + laid_out(enc, all.take(i as int)),
        decreases items@.len() - i,
    {
        let ghost next = all.take(i + 1);
        put_text(out, items[i].as_str());
        proof {
            assert(next.drop_last() =~= all.take(i as int));
            assert(next.last() == items@[i as int]@);
            assert(out@ =~= front + laid_out(enc, next));
        }
        i = i + 1;
    }
    assert(all.take(all.len() as int) =~= all);
    assert(out@ =~= before + texts_bytes(all));
}

fn put_pairs(out: &mut Vec<u8>, items: &Vec<(String, u64)>)
    ensures
        final(out)@ == old(out)@ + pairs_bytes(pairs_of(items@)),
{
    let ghost all = pairs_of(items@);
    let ghost enc = |p: (Seq<char>, u64)| pair_bytes(p);
    let ghost before = out@;
    put_u32(out, items.len() as u32);
    let ghost front = out@;
    let mut i: usize = 0;
    assert(all.take(0) =~= Seq::empty());
    assert(out@ =~= front + laid_out(enc, all.take(0)));
    while i < items.len()
        invariant
            i <= items@.len(),
            all == pairs_of(items@),
            enc == (|p: (Seq<char>, u64)| pair_bytes(p)),
            out@ == front + laid_out(enc, all.take(i as int)),
        decreases items@.len() - i,
    {
        let ghost next = all.take(i + 1);
        put_text(out, items[i].0.as_str());
        put_u64(out, items[i].1);
        proof {
            assert(next.drop_last() =~= all.take(i as int));
            assert(next.last() == (items@[i as int].0@, items@[i as int].1));
            assert(out@ =~= front + laid_out(enc, next));
        }
        i = i + 1;
    }
    assert(all.take(all.len() as int) =~= all);
    assert(out@ =~= before + pairs_bytes(all));
}

fn put_numbers(out: &mut Vec<u8>, items: &Vec<u64>)
    ensures
        final(out)@ == old(out)@ + numbers_bytes(items@),
{
    let ghost enc = |n: u64| le64(n);
    let ghost before = out@;
    put_u32(out, items.len() as u32);
    let ghost front = out@;
    let mut i: usize = 0;
    assert(items@.take(0) =~= Seq::empty());
    assert(out@ =~= front + laid_out(enc, items@.take(0)));
    while i < items.len()
        invariant
            i <= items@.len(),
            enc == (|n: u64| le64(n)),
            out@ == front + laid_out(enc, items@.take(i as int)),
        decreases items@.len() - i,
    {
        let ghost next = items@.take(i + 1);
        put_u64(out, items[i]);
        proof {
            assert(next.drop_last() =~= items@.take(i as int));
            assert(out@ =~= front + laid_out(enc, next));
        }
        i = i + 1;
    }
    assert(items@.take(items@.len() as int) =~= items@);
    assert(out@ =~= before + numbers_bytes(items@));
}

fn magic_word() -> (r: Vec<u8>)
    ensures
        r@ == manifest_magic(),
{
    let r: Vec<u8> = vec![0x54, 0x41, 0x55, 0x4d];
    assert(r@ =~= manifest_magic());
    r
}

/// A manifest file.
pub fn write_manifest(data: &ManifestData, key: &Option<[u8; 32]>) -> (r: Result<
    Vec<u8>,
    FormatError,
>)
    ensures
        match r {
            Ok(file) => is_manifest(file@, data@, key_bytes(*key)),
            Err(e) => e == FormatError::Encryption && key is Some && checked_content(data@).len()
                > MESSAGE_LIMIT,
        },
{
    let mut body: Vec<u8> = Vec::new();
    put_texts(&mut body, &data.schema);
    put_texts(&mut body, &data.live_lenses);
    put_pairs(&mut body, &data.epochs);
    put_numbers(&mut body, &data.run_ids);
    put_u64(&mut body, data.next_run_id);
    put_pairs(&mut body, &data.layer_counts);
    assert(body@ =~= content_bytes(data@));
    let crc: u32 = checksum(body.as_slice());
    put_u32(&mut body, crc);
    let stored = match shield(key, body) {
        Ok(stored) => stored,
        Err(e) => {
            return Err(e);
        },
    };
    let flags: u8 = match key {
        Some(_) => FLAG_ENCRYPTED,
        None => 0,
    };
    let magic = magic_word();
    let mut file = write_header(magic.as_slice(), MANIFEST_VERSION, flags);
    let ghost head = file@;
    put_bytes(&mut file, stored.as_slice());
    proof {
        assert(file@.take(head.len() as int) =~= head);
        assert(file@.skip(head.len() as int) =~= stored@);
    }
    Ok(file)
}

fn read_texts(b: &Vec<u8>, at: usize) -> (r: Result<(Vec<String>, usize), FormatError>)
    requires
        at <= b@.len(),
    ensures
        match take_texts(b@, at as int) {
            Ok((items, next)) => r is Ok && texts_of(r->Ok_0.0@) == items && r->Ok_0.1 == next
                && next <= b@.len(),
            Err(e) => r is Err && r->Err_0 == e,
        },
{
    let (n, from) = match read_u32(b, at) {
        Ok(x) => x,
        Err(e) => {
            return Err(e);
        },
    };
    let ghost item = |s: Seq<u8>, p: int| take_text(s, p);
    let mut out: Vec<String> = Vec::new();
    let mut p: usize = from;
    let mut i: u32 = 0;
    assert(texts_of(out@) =~= Seq::empty());
    while i < n
        invariant
            i <= n,
            p <= b@.len(),
            take_u32(b@, at as int) == Ok::<(u32, int), FormatError>((n, from as int)),
            item == (|s: Seq<u8>, p: int| take_text(s, p)),
            take_many(item, b@, from as int, i as nat) == Ok::<(Seq<Seq<char>>, int), FormatError>(
                (texts_of(out@), p as int),
            ),
        decreases n - i,
    {
        match read_text(b, p) {
            Ok((s, next)) => {
                let ghost before = out@;
                out.push(s);
                assert(texts_of(out@) =~= texts_of(before).push(s@));
                p = next;
            },
            Err(e) => {
                proof {
                    lemma_take_many_fails(item, b@, from as int, (i + 1) as nat, n as nat);
                }
                return Err(e);
            },
        }
        i = i + 1;
    }
    Ok((out, p))
}

fn read_pairs(b: &Vec<u8>, at: usize) -> (r: Result<(Vec<(String, u64)>, usize), FormatError>)
    requires
        at <= b@.len(),
    ensures
        match take_pairs(b@, at as int) {
            Ok((items, next)) => r is Ok && pairs_of(r->Ok_0.0@) == items && r->Ok_0.1 == next
                && next <= b@.len(),
            Err(e) => r is Err && r->Err_0 == e,
        },
{
    let (n, from) = match read_u32(b, at) {
        Ok(x) => x,
        Err(e) => {
            return Err(e);
        },
    };
    let ghost item = |s: Seq<u8>, p: int| take_pair(s, p);
    let mut out: Vec<(String, u64)> = Vec::new();
    let mut p: usize = from;
    let mut i: u32 = 0;
    assert(pairs_of(out@) =~= Seq::empty());
    while i < n
        invariant
            i <= n,
            p <= b@.len(),
            take_u32(b@, at as int) == Ok::<(u32, int), FormatError>((n, from as int)),
            item == (|s: Seq<u8>, p: int| take_pair(s, p)),
            take_many(item, b@, from as int, i as nat) == Ok::<
                (Seq<(Seq<char>, u64)>, int),
                FormatError,
            >((pairs_of(out@), p as int)),
        decreases n - i,
    {
        let (s, q) = match read_text(b, p) {
            Ok(x) => x,
            Err(e) => {
                proof {
                    lemma_take_many_fails(item, b@, from as int, (i + 1) as nat, n as nat);
                }
                return Err(e);
            },
        };
        match read_u64(b, q) {
            Ok((x, next)) => {
                let ghost before = out@;
                out.push((s, x));
                assert(pairs_of(out@) =~= pairs_of(before).push((s@, x)));
                p = next;
            },
            Err(e) => {
                proof {
                    lemma_take_many_fails(item, b@, from as int, (i + 1) as nat, n as nat);
                }
                return Err(e);
            },
        }
        i = i + 1;
    }
    Ok((out, p))
}

fn read_numbers(b: &Vec<u8>, at: usize) -> (r: Result<(Vec<u64>, usize), FormatError>)
    requires
        at <= b@.len(),
    ensures
        match take_numbers(b@, at as int) {
            Ok((items, next)) => r is Ok && r->Ok_0.0@ == items && r->Ok_0.1 == next && next
                <= b@.len(),
            Err(e) => r is Err && r->Err_0 == e,
        },
{
    let (n, from) = match read_u32(b, at) {
        Ok(x) => x,
        Err(e) => {
            return Err(e);
        },
    };
    let ghost item = |s: Seq<u8>, p: int| take_u64(s, p);
    let mut out: Vec<u64> = Vec::new();
    let mut p: usize = from;
    let mut i: u32 = 0;
    while i < n
        invariant
            i <= n,
            p <= b@.len(),
            take_u32(b@, at as int) == Ok::<(u32, int), FormatError>((n, from as int)),
            item == (|s: Seq<u8>, p: int| take_u64(s, p)),
            take_many(item, b@, from as int, i as nat) == Ok::<(Seq<u64>, int), FormatError>(
                (out@, p as int),
            ),
        decreases n - i,
    {
        match read_u64(b, p) {
            Ok((x, next)) => {
                out.push(x);
                p = next;
            },
            Err(e) => {
                proof {
                    lemma_take_many_fails(item, b@, from as int, (i + 1) as nat, n as nat);
                }
                return Err(e);
            },
        }
        i = i + 1;
    }
    Ok((out, p))
}

fn read_content(b: &Vec<u8>) -> (r: Result<ManifestData, FormatError>)
    ensures
        match take_content(b@) {
            Ok(m) => r is Ok && r->Ok_0@ == m,
            Err(e) => r is Err && r->Err_0 == e,
        },
{
    let (schema, p1) = match read_texts(b, 0) {
        Ok(x) => x,
        Err(e) => {
            return Err(e);
        },
    };
    let (live_lenses, p2) = match read_texts(b, p1) {
        Ok(x) => x,
        Err(e) => {
            return Err(e);
        },
    };
    let (epochs, p3) = match read_pairs(b, p2) {
        Ok(x) => x,
        Err(e) => {
            return Err(e);
        },
    };
    let (run_ids, p4) = match read_numbers(b, p3) {
        Ok(x) => x,
        Err(e) => {
            return Err(e);
        },
    };
    let (next_run_id, p5) = match read_u64(b, p4) {
        Ok(x) => x,
        Err(e) => {
            return Err(e);
        },
    };
    match read_pairs(b, p5) {
        Ok((layer_counts, _)) => Ok(
            ManifestData { schema, live_lenses, epochs, run_ids, next_run_id, layer_counts },
        ),
        Err(e) => Err(e),
    }
}

/// What a manifest file says.
pub fn read_manifest(file: &Vec<u8>, key: &Option<[u8; 32]>) -> (r: Result<
    ManifestData,
    FormatError,
>)
    ensures
        match manifest_of(file@, key_bytes(*key)) {
            Ok(m) => r is Ok && r->Ok_0@ == m,
            Err(e) => r is Err && r->Err_0 == e,
        },
{
    let magic = magic_word();
    let flags: u8 = match read_header(file, magic.as_slice(), MANIFEST_VERSION) {
        Ok(flags) => flags,
        Err(e) => {
            return Err(e);
        },
    };
    let stored = cut(file, HEADER_LEN, file.len());
    assert(stored@ =~= file@.skip(HEADER_LEN as int));
    let body = match unshield(flags, key, stored, FormatError::ManifestKeyMissing) {
        Ok(body) => body,
        Err(e) => {
            return Err(e);
        },
    };
    if body.len() < 4 {
        return Err(FormatError::ManifestTooShort);
    }
    let at: usize = body.len() - 4;
    let content = cut(&body, 0, at);
    assert(content@ =~= body@.take(at as int));
    match read_u32(&body, at) {
        Ok((stored_crc, _)) => if checksum(content.as_slice()) != stored_crc {
            Err(FormatError::ManifestChecksum)
        } else {
            read_content(&content)
        },
        Err(e) => Err(e),
    }
}

} // verus!
