//! Filters that tell which stretches of valid time a stored run cannot hold.
//!
//! A filter never denies what was put into it. The valid time that a run spans is divided
//! into buckets, and an interval is put in as every bucket that it touches, so that no
//! point of the interval is ever denied.

use crate::bytes::{holds_at, laid_out, le64, put_u64};
use crate::model::Timestamp;
use vstd::bytes::{lemma_auto_spec_u64_to_from_le_bytes, spec_u64_from_le_bytes, u64_from_le_bytes};
use vstd::prelude::*;

verus! {

/// How many bits an item sets.
pub const HASHES: u64 = 3;

/// A Bloom filter over numbers.
#[derive(Debug)]
pub struct Bloom {
    pub bits: Vec<u64>,
    pub n_bits: usize,
}

#[verifier::ext_equal]
pub struct BloomV {
    pub words: Seq<u64>,
    pub n_bits: usize,
}

/// How many words `n` bits take.
pub open spec fn words_for(n: int) -> int {
    (n + 63) / 64
}

pub open spec fn has_bit(words: Seq<u64>, idx: int) -> bool {
    words[idx / 64] & (1u64 << ((idx % 64) as u64)) != 0
}

pub open spec fn rotated(x: u64, by: u64) -> u64 {
    (x << by) | (x >> ((64 - by) as u64))
}

pub open spec fn first_hash(key: i64) -> u64 {
    rotated((key as u64).wrapping_mul(0x9E37_79B9_7F4A_7C15), 31)
}

pub open spec fn second_hash(key: i64) -> u64 {
    rotated(((key as u64) ^ 0xD6E8_FEB8_6659_FD93).wrapping_mul(0xBF58_476D_1CE4_E5B9), 27)
}

/// The bit that the `i`-th hash of a key picks.
pub open spec fn slot(key: i64, i: u64, n_bits: usize) -> int {
    (first_hash(key).wrapping_add(i.wrapping_mul(second_hash(key))) as usize) as int % (
    n_bits as int)
}

impl BloomV {
    pub open spec fn wf(self) -> bool {
        self.words.len() == words_for(self.n_bits as int)
    }

    /// The key was put in, or the filter cannot tell.
    pub open spec fn might_hold(self, key: i64) -> bool {
        self.n_bits == 0 || forall|i: u64|
            i < HASHES ==> has_bit(self.words, #[trigger] slot(key, i, self.n_bits))
    }

    /// `after` is the filter with a key put in.
    pub open spec fn with_key(self, key: i64, after: BloomV) -> bool {
        &&& after.n_bits == self.n_bits
        &&& after.words.len() == self.words.len()
        &&& forall|idx: int|
            0 <= idx < self.n_bits ==> (#[trigger] has_bit(after.words, idx) <==> has_bit(
                self.words,
                idx,
            ) || exists|i: u64| i < HASHES && #[trigger] slot(key, i, self.n_bits) == idx)
    }
}

impl View for Bloom {
    type V = BloomV;

    open spec fn view(&self) -> BloomV {
        BloomV { words: self.bits@, n_bits: self.n_bits }
    }
}

proof fn lemma_one_bit(w: u64, a: u64, b: u64)
    requires
        a < 64,
        b < 64,
    ensures
        ((w | (1u64 << a)) & (1u64 << b) != 0) == ((w & (1u64 << b) != 0) || a == b),
{
    assert(a < 64 && b < 64 ==> ((w | (1u64 << a)) & (1u64 << b) != 0) == ((w & (1u64 << b)
        != 0) || a == b)) by (bit_vector);
}

/// The value of up to eight bytes, the missing ones zero.
pub open spec fn padded_word(bytes: Seq<u8>, i: int) -> u64 {
    spec_u64_from_le_bytes(
        Seq::new(
            8,
            |j: int|
                if 8 * i + j < bytes.len() {
                    bytes[8 * i + j]
                } else {
                    0u8
                },
        ),
    )
}

/// The words of a filter as read back from bytes.
pub open spec fn words_from(n_bits: int, bytes: Seq<u8>) -> Seq<u64> {
    Seq::new(
        words_for(n_bits) as nat,
        |i: int|
            if 8 * i < bytes.len() {
                padded_word(bytes, i)
            } else {
                0u64
            },
    )
}

/// The words of a filter as bytes.
pub open spec fn word_bytes(words: Seq<u64>) -> Seq<u8> {
    laid_out(|w: u64| le64(w), words)
}

proof fn lemma_word_bytes(words: Seq<u64>)
    ensures
        word_bytes(words).len() == 8 * words.len(),
        forall|i: int|
            0 <= i < words.len() ==> holds_at(word_bytes(words), 8 * i, le64(#[trigger] words[i])),
    decreases words.len(),
{
    lemma_auto_spec_u64_to_from_le_bytes();
    if words.len() > 0 {
        let front = words.drop_last();
        lemma_word_bytes(front);
        let f = word_bytes(front);
        let all = word_bytes(words);
        assert(all == f + le64(words.last()));
        assert forall|i: int| 0 <= i < words.len() implies holds_at(
            all,
            8 * i,
            le64(#[trigger] words[i]),
        ) by {
            if i < front.len() {
                assert(front[i] == words[i]);
                assert(holds_at(f, 8 * i, le64(front[i])));
                assert(all.subrange(8 * i, 8 * i + 8) =~= f.subrange(8 * i, 8 * i + 8));
            } else {
                assert(all.subrange(8 * i, 8 * i + 8) =~= le64(words[i]));
            }
        }
    }
}

/// A filter survives being written and read.
pub proof fn law_filter_reads_back(v: BloomV)
    requires
        v.wf(),
    ensures
        words_from(v.n_bits as int, word_bytes(v.words)) == v.words,
        word_bytes(v.words).len() == 8 * v.words.len(),
{
    let b = word_bytes(v.words);
    lemma_word_bytes(v.words);
    lemma_auto_spec_u64_to_from_le_bytes();
    assert forall|i: int| 0 <= i < v.words.len() implies #[trigger] words_from(
        v.n_bits as int,
        b,
    )[i] == v.words[i] by {
        assert(holds_at(b, 8 * i, le64(v.words[i])));
        assert(Seq::new(
            8,
            |j: int|
                if 8 * i + j < b.len() {
                    b[8 * i + j]
                } else {
                    0u8
                },
        ) =~= b.subrange(8 * i, 8 * i + 8));
    }
    assert(words_from(v.n_bits as int, b) =~= v.words);
}

/// How many bits a filter for a number of items has: ten for each, and at least 64.
pub open spec fn filter_size(items: nat) -> usize {
    let wanted = if items * 10 > usize::MAX {
        usize::MAX as nat
    } else {
        items * 10
    };
    if wanted < 64 {
        64
    } else {
        wanted as usize
    }
}

fn rotate(x: u64, by: u64) -> (r: u64)
    requires
        0 < by < 64,
    ensures
        r == rotated(x, by),
{
    (x << by) | (x >> (64 - by))
}

fn hash_pair(key: i64) -> (r: (u64, u64))
    ensures
        r == (first_hash(key), second_hash(key)),
{
    let x: u64 = key as u64;
    let h1: u64 = rotate(x.wrapping_mul(0x9E37_79B9_7F4A_7C15), 31);
    let h2: u64 = rotate((x ^ 0xD6E8_FEB8_6659_FD93).wrapping_mul(0xBF58_476D_1CE4_E5B9), 27);
    (h1, h2)
}

fn blank_words(n: usize) -> (r: Vec<u64>)
    ensures
        r@.len() == n,
        forall|i: int| 0 <= i < n ==> #[trigger] r@[i] == 0,
{
    let mut bits: Vec<u64> = Vec::new();
    let mut i: usize = 0;
    while i < n
        invariant
            i <= n,
            bits@.len() == i,
            forall|k: int| 0 <= k < i ==> #[trigger] bits@[k] == 0,
        decreases n - i,
    {
        bits.push(0);
        i = i + 1;
    }
    bits
}

fn word_count(n_bits: usize) -> (r: usize)
    ensures
        r == words_for(n_bits as int),
{
    if n_bits % 64 == 0 {
        n_bits / 64
    } else {
        n_bits / 64 + 1
    }
}

/// Nothing is in the filter.
pub open spec fn is_blank(v: BloomV) -> bool {
    forall|idx: int| 0 <= idx < v.n_bits ==> !#[trigger] has_bit(v.words, idx)
}

impl Bloom {
    /// An empty filter, of a size for the number of items that are expected.
    pub fn new(expected_items: usize) -> (r: Self)
        ensures
            r@.wf(),
            r@.n_bits == filter_size(expected_items as nat),
            is_blank(r@),
    {
        let mut n_bits: usize = if expected_items > usize::MAX / 10 {
            usize::MAX
        } else {
            expected_items * 10
        };
        if n_bits < 64 {
            n_bits = 64;
        }
        let bits = blank_words(word_count(n_bits));
        let r = Bloom { bits, n_bits };
        proof {
            assert forall|idx: int| 0 <= idx < n_bits implies !#[trigger] has_bit(
                r@.words,
                idx,
            ) by {
                let s = (idx % 64) as u64;
                assert(0u64 & (1u64 << s) == 0) by (bit_vector);
                assert(r@.words[idx / 64] == 0);
            }
        }
        r
    }

    /// A filter read back from its bytes.
    pub fn from_parts(n_bits: usize, bytes: &Vec<u8>) -> (r: Self)
        ensures
            r@.wf(),
            r@.n_bits == n_bits,
            r@.words == words_from(n_bits as int, bytes@),
    {
        let words: usize = word_count(n_bits);
        let mut bits: Vec<u64> = Vec::new();
        let mut i: usize = 0;
        let mut rest: usize = 0;
        while i < words
            invariant
                i <= words,
                words == words_for(n_bits as int),
                bits@.len() == i,
                rest <= bytes@.len(),
                8 * i < bytes@.len() ==> rest == 8 * i,
                8 * i >= bytes@.len() ==> rest == bytes@.len(),
                forall|k: int|
                    0 <= k < i ==> #[trigger] bits@[k] == words_from(n_bits as int, bytes@)[k],
            decreases words - i,
        {
            if rest == bytes.len() {
                bits.push(0);
            } else {
                let mut chunk: Vec<u8> = Vec::new();
                let mut j: usize = 0;
                while j < 8
                    invariant
                        j <= 8,
                        rest == 8 * i < bytes@.len(),
                        chunk@.len() == j,
                        forall|k: int|
                            0 <= k < j ==> #[trigger] chunk@[k] == (if 8 * i + k < bytes@.len() {
                                bytes@[8 * i + k]
                            } else {
                                0u8
                            }),
                    decreases 8 - j,
                {
                    if j < bytes.len() - rest {
                        chunk.push(bytes[rest + j]);
                    } else {
                        chunk.push(0);
                    }
                    j = j + 1;
                }
                proof {
                    let k = i as int;
                    assert(chunk@ =~= Seq::new(
                        8,
                        |j: int|
                            if 8 * k + j < bytes@.len() {
                                bytes@[8 * k + j]
                            } else {
                                0u8
                            },
                    ));
                }
                bits.push(u64_from_le_bytes(chunk.as_slice()));
                if bytes.len() - rest > 8 {
                    rest = rest + 8;
                } else {
                    rest = bytes.len();
                }
            }
            i = i + 1;
        }
        assert(bits@ =~= words_from(n_bits as int, bytes@));
        Bloom { bits, n_bits }
    }

    /// The words of the filter as bytes.
    pub fn to_bytes(&self) -> (r: Vec<u8>)
        ensures
            r@ == word_bytes(self@.words),
    {
        let mut out: Vec<u8> = Vec::new();
        let mut i: usize = 0;
        let ghost enc = |w: u64| le64(w);
        assert(self.bits@.take(0) =~= Seq::empty());
        while i < self.bits.len()
            invariant
                i <= self.bits@.len(),
                enc == (|w: u64| le64(w)),
                out@ == laid_out(enc, self.bits@.take(i as int)),
            decreases self.bits@.len() - i,
        {
            let ghost next = self.bits@.take(i + 1);
            put_u64(&mut out, self.bits[i]);
            proof {
                assert(next.drop_last() =~= self.bits@.take(i as int));
                assert(next.last() == self.bits@[i as int]);
            }
            i = i + 1;
        }
        assert(self.bits@.take(self.bits@.len() as int) =~= self.bits@);
        out
    }

    /// Puts a key in.
    pub fn insert(&mut self, key: i64)
        requires
            old(self)@.wf(),
        ensures
            final(self)@.wf(),
            old(self)@.n_bits == 0 ==> final(self)@ == old(self)@,
            old(self)@.n_bits > 0 ==> old(self)@.with_key(key, final(self)@),
    {
        if self.n_bits == 0 {
            return;
        }
        let (h1, h2) = hash_pair(key);
        let ghost before = self@;
        let mut i: u64 = 0;
        while i < HASHES
            invariant
                i <= HASHES,
                self.n_bits == before.n_bits,
                self.n_bits > 0,
                before.wf(),
                self.bits@.len() == before.words.len(),
                h1 == first_hash(key),
                h2 == second_hash(key),
                forall|idx: int|
                    0 <= idx < before.n_bits ==> (#[trigger] has_bit(self.bits@, idx) <==> has_bit(
                        before.words,
                        idx,
                    ) || exists|j: u64| j < i && #[trigger] slot(key, j, before.n_bits) == idx),
            decreases HASHES - i,
        {
            let idx: usize = h1.wrapping_add(i.wrapping_mul(h2)) as usize % self.n_bits;
            let ghost now = self.bits@;
            let word: usize = idx / 64;
            let bit: u64 = (idx % 64) as u64;
            proof {
                assert(idx as int == slot(key, i, before.n_bits));
                assert(word < self.bits@.len());
            }
            let changed: u64 = self.bits[word] | (1u64 << bit);
            self.bits.set(word, changed);
            proof {
                assert forall|p: int| 0 <= p < before.n_bits implies (#[trigger] has_bit(
                    self.bits@,
                    p,
                ) <==> has_bit(before.words, p) || exists|j: u64|
                    j < i + 1 && #[trigger] slot(key, j, before.n_bits) == p) by {
                    assert(has_bit(now, p) <==> has_bit(before.words, p) || exists|j: u64|
                        j < i && #[trigger] slot(key, j, before.n_bits) == p);
                    if p / 64 == word {
                        lemma_one_bit(now[word as int], bit, (p % 64) as u64);
                        assert(p % 64 == bit <==> p == idx);
                    }
                    assert(has_bit(self.bits@, p) <==> has_bit(now, p) || p == idx);
                    if exists|j: u64| j < i + 1 && #[trigger] slot(key, j, before.n_bits) == p {
                        let j = choose|j: u64|
                            j < i + 1 && #[trigger] slot(key, j, before.n_bits) == p;
                        assert(j < i || j == i);
                    }
                }
            }
            i = i + 1;
        }
    }

    /// False where the key was certainly not put in.
    pub fn might_contain(&self, key: i64) -> (r: bool)
        requires
            self@.wf(),
        ensures
            r == self@.might_hold(key),
    {
        if self.n_bits == 0 {
            return true;
        }
        let (h1, h2) = hash_pair(key);
        let mut i: u64 = 0;
        while i < HASHES
            invariant
                i <= HASHES,
                self.n_bits > 0,
                self@.wf(),
                h1 == first_hash(key),
                h2 == second_hash(key),
                forall|j: u64| j < i ==> has_bit(self.bits@, #[trigger] slot(key, j, self.n_bits)),
            decreases HASHES - i,
        {
            let idx: usize = h1.wrapping_add(i.wrapping_mul(h2)) as usize % self.n_bits;
            proof {
                assert(idx as int == slot(key, i, self.n_bits));
            }
            if self.bits[idx / 64] & (1u64 << ((idx % 64) as u64)) == 0 {
                return false;
            }
            i = i + 1;
        }
        true
    }
}

/// The width of the buckets that divide a span of valid time into at most 256, rounded up; at
/// least 1.
pub open spec fn bucket_width(min_start: Timestamp, max_end: Timestamp) -> int {
    if max_end - min_start > 256 {
        (max_end - min_start + 255) / 256
    } else {
        1
    }
}

/// The bucket of a point of time, where buckets of a width are counted from a start.
pub open spec fn bucket_of(t: int, min_start: Timestamp, width: int) -> int {
    (t - min_start) / width
}

/// The number of a bucket fits a key of the filter.
pub open spec fn is_key(bucket: int) -> bool {
    i64::MIN <= bucket <= i64::MAX
}

/// A span has at most 256 buckets of its width.
pub proof fn law_few_buckets(t: int, min_start: Timestamp, max_end: Timestamp)
    requires
        min_start <= t < max_end,
    ensures
        0 <= bucket_of(t, min_start, bucket_width(min_start, max_end)) < 256,
{
    let w = bucket_width(min_start, max_end);
    let x = t - min_start;
    assert(0 <= x / w < 256) by (nonlinear_arith)
        requires
            0 <= x < 256 * w,
            w >= 1,
    ;
}

proof fn lemma_bucket_order(s: int, t: int, min_start: Timestamp, width: int)
    requires
        s <= t,
        width >= 1,
    ensures
        bucket_of(s, min_start, width) <= bucket_of(t, min_start, width),
{
    vstd::arithmetic::div_mod::lemma_div_is_ordered(s - min_start, t - min_start, width);
}

/// The width of the buckets over a span of valid time.
pub fn bloom_bucket_width(min_start: Timestamp, max_end: Timestamp) -> (r: i64)
    ensures
        r == bucket_width(min_start, max_end),
        r >= 1,
        min_start < max_end ==> 0 <= bucket_of(max_end - 1, min_start, r as int) < 256,
{
    proof {
        if min_start < max_end {
            law_few_buckets(max_end - 1, min_start, max_end);
        }
    }
    let span: i128 = max_end as i128 - min_start as i128;
    if span > 256 {
        ((span + 255) / 256) as i64
    } else {
        1
    }
}

/// The bucket of a point of time, as the filter knows it.
pub fn bloom_bucket_of(t: Timestamp, min_start: Timestamp, width: i64) -> (r: i64)
    requires
        width >= 1,
        is_key(bucket_of(t as int, min_start, width as int)),
    ensures
        r == bucket_of(t as int, min_start, width as int),
{
    let past: i128 = t as i128 - min_start as i128;
    let wide: i128 = width as i128;
    if past >= 0 {
        proof {
            lemma_quotient_small(past as int, wide as int);
        }
        (past / wide) as i64
    } else {
        let short: i128 = -1 - past;
        proof {
            lemma_quotient_small(short as int, wide as int);
            lemma_quotient_below(past as int, wide as int);
        }
        (-1 - short / wide) as i64
    }
}

proof fn lemma_quotient_small(x: int, w: int)
    requires
        0 <= x,
        w >= 1,
    ensures
        0 <= x / w <= x,
{
    assert(0 <= x / w <= x) by (nonlinear_arith)
        requires
            0 <= x,
            w >= 1,
    ;
}

proof fn lemma_quotient_below(x: int, w: int)
    requires
        x < 0,
        w >= 1,
    ensures
        x / w == -1 - (-1 - x) / w,
{
    let y = -1 - x;
    let q = y / w;
    let m = y % w;
    vstd::arithmetic::div_mod::lemma_fundamental_div_mod(y, w);
    assert(0 <= m < w);
    assert(x == w * (-1 - q) + (w - 1 - m)) by (nonlinear_arith)
        requires
            y == w * q + m,
            y == -1 - x,
    ;
    vstd::arithmetic::div_mod::lemma_fundamental_div_mod_converse(x, w, -1 - q, w - 1 - m);
}

/// The last point before the end of an interval, short of the first point of all.
pub open spec fn last_of(hi: Timestamp) -> int {
    if hi > i64::MIN {
        hi - 1
    } else {
        hi as int
    }
}

/// The key is a bucket that the interval touches.
pub open spec fn touches(
    key: i64,
    lo: Timestamp,
    hi: Timestamp,
    min_start: Timestamp,
    width: int,
) -> bool {
    bucket_of(lo as int, min_start, width) <= key <= bucket_of(last_of(hi), min_start, width)
}

/// A bit is one of those that the keys of a set pick.
pub open spec fn picked(keys: spec_fn(i64) -> bool, idx: int, n_bits: usize) -> bool {
    exists|key: i64, i: u64| keys(key) && i < HASHES && #[trigger] slot(key, i, n_bits) == idx
}

/// `after` is the filter with the keys of a set put in.
pub open spec fn with_keys(before: BloomV, keys: spec_fn(i64) -> bool, after: BloomV) -> bool {
    &&& after.n_bits == before.n_bits
    &&& after.words.len() == before.words.len()
    &&& forall|idx: int|
        0 <= idx < before.n_bits ==> (#[trigger] has_bit(after.words, idx) <==> has_bit(
            before.words,
            idx,
        ) || picked(keys, idx, before.n_bits))
}

/// Puts an interval in, as every bucket that it touches.
pub fn bloom_insert_interval(
    bloom: &mut Bloom,
    lo: Timestamp,
    hi: Timestamp,
    min_start: Timestamp,
    width: i64,
)
    requires
        old(bloom)@.wf(),
        width >= 1,
        is_key(bucket_of(lo as int, min_start, width as int)),
        is_key(bucket_of(last_of(hi), min_start, width as int)),
    ensures
        final(bloom)@.wf(),
        old(bloom)@.n_bits == 0 ==> final(bloom)@ == old(bloom)@,
        with_keys(
            old(bloom)@,
            |key: i64| touches(key, lo, hi, min_start, width as int),
            final(bloom)@,
        ),
{
    let ghost before = bloom@;
    if bloom.n_bits == 0 {
        return;
    }
    let first: i64 = bloom_bucket_of(lo, min_start, width);
    let last: i64 = bloom_bucket_of(
        if hi > i64::MIN {
            hi - 1
        } else {
            hi
        },
        min_start,
        width,
    );
    if first > last {
        proof {
            let all = |key: i64| touches(key, lo, hi, min_start, width as int);
            assert forall|idx: int| !#[trigger] picked(all, idx, before.n_bits) by {}
        }
        return;
    }
    let mut b: i64 = first;
    proof {
        let none = |key: i64| first <= key < b;
        assert forall|idx: int| !#[trigger] picked(none, idx, before.n_bits) by {}
    }
    loop
        invariant_except_break
            with_keys(before, |key: i64| first <= key < b, bloom@),
        invariant
            bloom@.wf(),
            before.wf(),
            before.n_bits > 0,
            first <= b <= last,
        ensures
            with_keys(before, |key: i64| first <= key <= last, bloom@),
        decreases last - b,
    {
        let ghost now = bloom@;
        let ghost some = |key: i64| first <= key < b;
        let ghost more = |key: i64| first <= key < b + 1;
        bloom.insert(b);
        proof {
            assert forall|idx: int| 0 <= idx < before.n_bits implies (#[trigger] has_bit(
                bloom@.words,
                idx,
            ) <==> has_bit(before.words, idx) || picked(more, idx, before.n_bits)) by {
                assert(has_bit(now.words, idx) <==> has_bit(before.words, idx) || picked(
                    some,
                    idx,
                    before.n_bits,
                ));
                if picked(some, idx, before.n_bits) {
                    let (key, i) = choose|key: i64, i: u64|
                        some(key) && i < HASHES && #[trigger] slot(key, i, before.n_bits) == idx;
                    assert(more(key));
                }
                if picked(more, idx, before.n_bits) {
                    let (key, i) = choose|key: i64, i: u64|
                        more(key) && i < HASHES && #[trigger] slot(key, i, before.n_bits) == idx;
                    if key < b {
                        assert(some(key));
                    }
                }
                if exists|i: u64| i < HASHES && #[trigger] slot(b, i, before.n_bits) == idx {
                    assert(more(b));
                }
            }
        }
        if b == last {
            assert((|key: i64| first <= key <= last) =~= more);
            break;
        }
        b = b + 1;
        assert((|key: i64| first <= key < b) =~= more);
    }
    proof {
        let some = |key: i64| first <= key <= last;
        let all = |key: i64| touches(key, lo, hi, min_start, width as int);
        assert(some =~= all);
    }
}

/// A filter into which intervals were put denies no point of any of them.
pub proof fn law_no_point_denied(
    v: BloomV,
    keys: spec_fn(i64) -> bool,
    t: Timestamp,
    lo: Timestamp,
    hi: Timestamp,
    min_start: Timestamp,
    width: int,
)
    requires
        v.wf(),
        lo <= t < hi,
        width >= 1,
        is_key(bucket_of(lo as int, min_start, width)),
        is_key(bucket_of(hi - 1, min_start, width)),
        forall|key: i64| touches(key, lo, hi, min_start, width) ==> #[trigger] keys(key),
        forall|idx: int|
            0 <= idx < v.n_bits && picked(keys, idx, v.n_bits) ==> #[trigger] has_bit(v.words, idx),
    ensures
        v.might_hold(bucket_of(t as int, min_start, width) as i64),
{
    lemma_bucket_order(lo as int, t as int, min_start, width);
    lemma_bucket_order(t as int, hi - 1, min_start, width);
    let key = bucket_of(t as int, min_start, width) as i64;
    assert(touches(key, lo, hi, min_start, width));
    assert(keys(key));
    if v.n_bits > 0 {
        assert forall|i: u64| i < HASHES implies has_bit(
            v.words,
            #[trigger] slot(key, i, v.n_bits),
        ) by {
            let idx = slot(key, i, v.n_bits);
            assert(picked(keys, idx, v.n_bits));
        }
    }
}

/// Putting an interval in takes no key out.
pub proof fn law_inserting_keeps_keys(
    before: BloomV,
    keys: spec_fn(i64) -> bool,
    after: BloomV,
    key: i64,
)
    requires
        before.wf(),
        with_keys(before, keys, after),
        before.might_hold(key),
    ensures
        after.might_hold(key),
{
    if before.n_bits > 0 {
        assert forall|i: u64| i < HASHES implies has_bit(
            after.words,
            #[trigger] slot(key, i, after.n_bits),
        ) by {
            assert(has_bit(before.words, slot(key, i, before.n_bits)));
        }
    }
}

} // verus!
