//! The binary artifacts of the index: records, centroids and offsets.
//!
//! A record is a vector of sixteen 32-bit words, 64 bytes in all, each word with its least
//! significant byte first. The words are carried as they are; the first fourteen are the bit
//! patterns of the features, the last one packs the number of the record and its label. A
//! centroid is stored as its fourteen features, 56 bytes in all. Offsets are single words.
use vstd::prelude::*;
use vstd::string::*;
use vstd::utf8::*;
use crate::bytes;

verus! {

/// The words of a record.
pub const RECORD_WORDS: usize = 16;

/// The bytes of a record.
pub const RECORD_BYTES: usize = 64;

/// The words of a centroid that are stored.
pub const CENTROID_WORDS: usize = 14;

/// The bytes of a centroid.
pub const CENTROID_BYTES: usize = 56;

/// A record of the dataset.
#[derive(Clone, Copy)]
pub struct Record {
    pub vector: [u32; 16],
}

/// The word at byte `i`.
pub open spec fn word_at(s: Seq<u8>, i: int) -> u32 {
    (s[i] + 0x100 * s[i + 1] + 0x1_0000 * s[i + 2] + 0x100_0000 * s[i + 3]) as u32
}

/// The words that a byte string holds, one behind the other; up to three bytes at the end are
/// left out.
pub open spec fn words(s: Seq<u8>) -> Seq<u32> {
    Seq::new(s.len() / 4, |k: int| word_at(s, 4 * k))
}

/// The vector at place `k`.
pub open spec fn vector_at(s: Seq<u8>, k: int) -> Seq<u32> {
    Seq::new(16, |j: int| word_at(s, 64 * k + 4 * j))
}

/// The vectors that a byte string holds, one behind the other; an incomplete one at the end is
/// left out.
pub open spec fn vectors(s: Seq<u8>) -> Seq<Seq<u32>> {
    Seq::new(s.len() / 64, |k: int| vector_at(s, k))
}

/// The centroid at place `k`: its features, and two words that are zero.
pub open spec fn centroid_at(s: Seq<u8>, k: int) -> Seq<u32> {
    Seq::new(
        16,
        |j: int|
            if j < 14 {
                word_at(s, 56 * k + 4 * j)
            } else {
                0u32
            },
    )
}

/// The centroids that a byte string holds, one behind the other; an incomplete one at the end
/// is left out.
pub open spec fn centroids(s: Seq<u8>) -> Seq<Seq<u32>> {
    Seq::new(s.len() / 56, |k: int| centroid_at(s, k))
}

/// The four bytes of a word.
pub open spec fn word_bytes(w: u32) -> Seq<u8> {
    seq![
        (w % 0x100) as u8,
        (w / 0x100 % 0x100) as u8,
        (w / 0x1_0000 % 0x100) as u8,
        (w / 0x100_0000) as u8,
    ]
}

/// Words, written one behind the other.
pub open spec fn written(ws: Seq<u32>) -> Seq<u8>
    decreases ws.len(),
{
    if ws.len() == 0 {
        Seq::empty()
    } else {
        written(ws.drop_last()) + word_bytes(ws.last())
    }
}

/// Vectors, written one behind the other.
pub open spec fn written_vectors(vs: Seq<Seq<u32>>) -> Seq<u8>
    decreases vs.len(),
{
    if vs.len() == 0 {
        Seq::empty()
    } else {
        written_vectors(vs.drop_last()) + written(vs.last())
    }
}

/// The words of a centroid that are stored.
pub open spec fn features(centroid: [u32; 16]) -> Seq<u32> {
    centroid@.take(14)
}

/// Centroids, written one behind the other.
pub open spec fn written_centroids(cs: Seq<[u32; 16]>) -> Seq<u8> {
    written_vectors(cs.map_values(|c: [u32; 16]| features(c)))
}

/// The words of the records.
pub open spec fn record_words(records: Seq<Record>) -> Seq<Seq<u32>> {
    records.map_values(|r: Record| r.vector@)
}

/// Reads a word.
fn read_word(s: &[u8], i: usize) -> (r: u32)
    requires
        i + 4 <= s@.len(),
    ensures
        r == word_at(s@, i as int),
{
    s[i] as u32 + 0x100 * (s[i + 1] as u32) + 0x1_0000 * (s[i + 2] as u32) + 0x100_0000 * (s[i
        + 3] as u32)
}

/// Reads the vector at place `k`.
fn read_vector(s: &[u8], k: usize) -> (r: [u32; 16])
    requires
        k < s@.len() / 64,
    ensures
        r@ == vector_at(s@, k as int),
{
    assert(s@.len() == s.len());
    let mut v: [u32; 16] = [0; 16];
    let mut j: usize = 0;
    while j < RECORD_WORDS
        invariant
            j <= 16,
            64 * k + 64 <= s@.len(),
            s@.len() == s.len(),
            forall|l: int| 0 <= l < j ==> v@[l] == word_at(s@, 64 * k + 4 * l),
        decreases 16 - j,
    {
        v[j] = read_word(s, RECORD_BYTES * k + 4 * j);
        j += 1;
    }
    assert(v@ =~= vector_at(s@, k as int));
    v
}

/// Reads the centroid at place `k`.
fn read_centroid(s: &[u8], k: usize) -> (r: [u32; 16])
    requires
        k < s@.len() / 56,
    ensures
        r@ == centroid_at(s@, k as int),
{
    assert(s@.len() == s.len());
    let mut v: [u32; 16] = [0; 16];
    let mut j: usize = 0;
    while j < CENTROID_WORDS
        invariant
            j <= 14,
            56 * k + 56 <= s@.len(),
            s@.len() == s.len(),
            forall|l: int| 0 <= l < j ==> v@[l] == word_at(s@, 56 * k + 4 * l),
            forall|l: int| j <= l < 16 ==> v@[l] == 0,
        decreases 14 - j,
    {
        v[j] = read_word(s, CENTROID_BYTES * k + 4 * j);
        j += 1;
    }
    assert(v@ =~= centroid_at(s@, k as int));
    v
}

/// Appends a word.
fn write_word(out: &mut Vec<u8>, w: u32)
    ensures
        final(out)@ == old(out)@ + word_bytes(w),
{
    out.push((w % 0x100) as u8);
    out.push((w / 0x100 % 0x100) as u8);
    out.push((w / 0x1_0000 % 0x100) as u8);
    out.push((w / 0x100_0000) as u8);
    assert(out@ =~= old(out)@ + word_bytes(w));
}

/// Words as they are stored.
pub fn encode_words(ws: &[u32]) -> (r: Vec<u8>)
    ensures
        r@ == written(ws@),
{
    let mut out: Vec<u8> = Vec::new();
    let mut k: usize = 0;
    assert(ws@.take(0) =~= Seq::empty());
    while k < ws.len()
        invariant
            k <= ws@.len(),
            out@ == written(ws@.take(k as int)),
        decreases ws@.len() - k,
    {
        write_word(&mut out, ws[k]);
        assert(ws@.take(k + 1).drop_last() =~= ws@.take(k as int));
        k += 1;
    }
    assert(ws@.take(ws@.len() as int) =~= ws@);
    out
}

/// Appends the first `n` words of a vector.
fn write_front(out: &mut Vec<u8>, v: &[u32; 16], n: usize)
    requires
        n <= 16,
    ensures
        final(out)@ == old(out)@ + written(v@.take(n as int)),
{
    let ghost before = out@;
    let mut j: usize = 0;
    assert(v@.take(0) =~= Seq::empty());
    assert(before + written(v@.take(0)) =~= before);
    while j < n
        invariant
            j <= n <= 16,
            out@ == before + written(v@.take(j as int)),
        decreases n - j,
    {
        write_word(out, v[j]);
        assert(v@.take(j + 1).drop_last() =~= v@.take(j as int));
        assert(out@ =~= before + written(v@.take(j + 1)));
        j += 1;
    }
}

/// Records as they are stored.
pub fn encode_records(records: &[Record]) -> (r: Vec<u8>)
    ensures
        r@ == written_vectors(record_words(records@)),
{
    let mut out: Vec<u8> = Vec::new();
    let mut k: usize = 0;
    let ghost all = record_words(records@);
    assert(all.take(0) =~= Seq::empty());
    while k < records.len()
        invariant
            k <= records@.len(),
            all == record_words(records@),
            out@ == written_vectors(all.take(k as int)),
        decreases records@.len() - k,
    {
        let v: [u32; 16] = records[k].vector;
        write_front(&mut out, &v, RECORD_WORDS);
        assert(v@.take(16) =~= v@);
        assert(all.take(k + 1).drop_last() =~= all.take(k as int));
        assert(all.take(k + 1).last() == v@);
        k += 1;
    }
    assert(all.take(records@.len() as int) =~= all);
    out
}

/// Centroids as they are stored: their features alone.
pub fn encode_centroids(centroids: &Vec<[u32; 16]>) -> (r: Vec<u8>)
    ensures
        r@ == written_centroids(centroids@),
{
    let mut out: Vec<u8> = Vec::new();
    let mut k: usize = 0;
    let ghost all = centroids@.map_values(|c: [u32; 16]| features(c));
    assert(all.take(0) =~= Seq::empty());
    while k < centroids.len()
        invariant
            k <= centroids@.len(),
            all == centroids@.map_values(|c: [u32; 16]| features(c)),
            out@ == written_vectors(all.take(k as int)),
        decreases centroids@.len() - k,
    {
        write_front(&mut out, &centroids[k], CENTROID_WORDS);
        assert(all.take(k + 1).drop_last() =~= all.take(k as int));
        assert(all.take(k + 1).last() == features(centroids@[k as int]));
        k += 1;
    }
    assert(all.take(centroids@.len() as int) =~= all);
    out
}

/// The records of a dataset, as they lie in memory.
#[derive(Clone, Copy)]
pub struct Dataset<'a> {
    pub bytes: &'a [u8],
}

impl<'a> View for Dataset<'a> {
    type V = Seq<Seq<u32>>;

    /// The vectors of the records.
    open spec fn view(&self) -> Seq<Seq<u32>> {
        vectors(self.bytes@)
    }
}

impl<'a> Dataset<'a> {
    /// The dataset that the bytes hold.
    pub fn new(bytes: &'a [u8]) -> (r: Dataset<'a>)
        ensures
            r@ == vectors(bytes@),
    {
        Dataset { bytes }
    }

    /// How many records there are.
    pub fn len(&self) -> (r: usize)
        ensures
            r == self@.len(),
    {
        self.bytes.len() / RECORD_BYTES
    }

    /// The record at place `k`.
    pub fn record(&self, k: usize) -> (r: Record)
        requires
            k < self@.len(),
        ensures
            r.vector@ == self@[k as int],
    {
        Record { vector: read_vector(self.bytes, k) }
    }
}

/// The centroids and the offsets of the index, as they lie in memory.
#[derive(Clone, Copy)]
pub struct IvfData<'a> {
    pub l1_bytes: &'a [u8],
    pub l2_bytes: &'a [u8],
    pub offset_bytes: &'a [u8],
}

impl<'a> IvfData<'a> {
    /// The centroids of the upper level.
    pub open spec fn l1_centroids(&self) -> Seq<Seq<u32>> {
        centroids(self.l1_bytes@)
    }

    /// The centroids of the lower level.
    pub open spec fn l2_centroids(&self) -> Seq<Seq<u32>> {
        centroids(self.l2_bytes@)
    }

    /// Where the clusters start.
    pub open spec fn offsets(&self) -> Seq<u32> {
        words(self.offset_bytes@)
    }

    /// The index data that the bytes hold.
    pub fn new(l1_bytes: &'a [u8], l2_bytes: &'a [u8], offset_bytes: &'a [u8]) -> (r: IvfData<'a>)
        ensures
            r.l1_centroids() == centroids(l1_bytes@),
            r.l2_centroids() == centroids(l2_bytes@),
            r.offsets() == words(offset_bytes@),
    {
        IvfData { l1_bytes, l2_bytes, offset_bytes }
    }

    /// How many centroids the upper level has.
    pub fn l1_len(&self) -> (r: usize)
        ensures
            r == self.l1_centroids().len(),
    {
        self.l1_bytes.len() / CENTROID_BYTES
    }

    /// How many centroids the lower level has.
    pub fn l2_len(&self) -> (r: usize)
        ensures
            r == self.l2_centroids().len(),
    {
        self.l2_bytes.len() / CENTROID_BYTES
    }

    /// How many offsets there are.
    pub fn offsets_len(&self) -> (r: usize)
        ensures
            r == self.offsets().len(),
    {
        self.offset_bytes.len() / 4
    }

    /// A centroid of the upper level.
    pub fn l1_centroid(&self, k: usize) -> (r: [u32; 16])
        requires
            k < self.l1_centroids().len(),
        ensures
            r@ == self.l1_centroids()[k as int],
    {
        read_centroid(self.l1_bytes, k)
    }

    /// A centroid of the lower level.
    pub fn l2_centroid(&self, k: usize) -> (r: [u32; 16])
        requires
            k < self.l2_centroids().len(),
        ensures
            r@ == self.l2_centroids()[k as int],
    {
        read_centroid(self.l2_bytes, k)
    }

    /// An offset.
    pub fn offset(&self, k: usize) -> (r: u32)
        requires
            k < self.offsets().len(),
        ensures
            r == self.offsets()[k as int],
    {
        assert(self.offset_bytes@.len() == self.offset_bytes.len());
        read_word(self.offset_bytes, 4 * k)
    }
}

/// The number and the label of a record in one word: the label is the lowest bit, the other
/// bits are the number, as far as they reach.
pub open spec fn packed(index: int, fraud: bool) -> u32 {
    (index % 0x8000_0000 * 2 + (if fraud {
        1int
    } else {
        0
    })) as u32
}

/// The label in a packed word.
pub open spec fn label_of(word: u32) -> u8 {
    (word % 2) as u8
}

/// The number in a packed word.
pub open spec fn id_of(word: u32) -> usize {
    (word / 2) as usize
}

/// Packs the number and the label of a record.
pub fn pack(index: usize, fraud: bool) -> (r: u32)
    ensures
        r == packed(index as int, fraud),
{
    let id: u32 = (index % 0x8000_0000) as u32;
    if fraud {
        id * 2 + 1
    } else {
        id * 2
    }
}

/// The label in a packed word: one for fraud.
pub fn unpack_label(word: u32) -> (r: u8)
    ensures
        r == label_of(word),
{
    (word % 2) as u8
}

/// The number in a packed word.
pub fn unpack_id(word: u32) -> (r: usize)
    ensures
        r == id_of(word),
{
    (word / 2) as usize
}

/// Whether the label of a reference transaction means fraud.
pub fn is_fraud(label: &str) -> (r: bool)
    ensures
        r == (label@ == "fraud"@),
{
    proof {
        encode_utf8_decode_utf8(label@);
        encode_utf8_decode_utf8("fraud"@);
    }
    bytes::bytes_equal(label.as_bytes(), "fraud".as_bytes())
}

/// What was packed is unpacked: the label always, the number if it has at most 31 bits.
pub proof fn unpacking_gives_back(index: int, fraud: bool)
    requires
        0 <= index,
    ensures
        label_of(packed(index, fraud)) == (if fraud {
            1u8
        } else {
            0u8
        }),
        index < 0x8000_0000 ==> id_of(packed(index, fraud)) == index,
{
}

/// A word that was written is read back.
proof fn lemma_word_bytes(w: u32)
    ensures
        word_bytes(w).len() == 4,
        word_at(word_bytes(w), 0) == w,
{
}

/// A word in the first part, and one in the second part, of two byte strings.
proof fn lemma_word_in_parts(a: Seq<u8>, b: Seq<u8>, i: int)
    requires
        0 <= i,
    ensures
        i + 4 <= a.len() ==> word_at(a + b, i) == word_at(a, i),
        i + 4 <= b.len() ==> word_at(a + b, a.len() + i) == word_at(b, i),
{
}

proof fn lemma_written_len(ws: Seq<u32>)
    ensures
        written(ws).len() == 4 * ws.len(),
    decreases ws.len(),
{
    if ws.len() > 0 {
        lemma_written_len(ws.drop_last());
    }
}

proof fn lemma_written_word(ws: Seq<u32>, k: int)
    requires
        0 <= k < ws.len(),
    ensures
        written(ws).len() == 4 * ws.len(),
        word_at(written(ws), 4 * k) == ws[k],
    decreases ws.len(),
{
    let front = written(ws.drop_last());
    lemma_written_len(ws);
    lemma_written_len(ws.drop_last());
    if k == ws.len() - 1 {
        lemma_word_bytes(ws.last());
        lemma_word_in_parts(front, word_bytes(ws.last()), 0);
    } else {
        lemma_written_word(ws.drop_last(), k);
        lemma_word_in_parts(front, word_bytes(ws.last()), 4 * k);
    }
}

/// Words that were written are read back.
pub proof fn written_words_are_read_back(ws: Seq<u32>)
    ensures
        words(written(ws)) == ws,
{
    lemma_written_len(ws);
    assert forall|k: int| 0 <= k < ws.len() implies words(written(ws))[k] == ws[k] by {
        lemma_written_word(ws, k);
    }
    assert(words(written(ws)) =~= ws);
}

/// Every vector takes 64 bytes.
pub proof fn a_vector_takes_64_bytes(vs: Seq<Seq<u32>>)
    requires
        forall|k: int| 0 <= k < vs.len() ==> #[trigger] vs[k].len() == 16,
    ensures
        written_vectors(vs).len() == 64 * vs.len(),
    decreases vs.len(),
{
    if vs.len() > 0 {
        a_vector_takes_64_bytes(vs.drop_last());
        lemma_written_len(vs.last());
    }
}

proof fn lemma_written_vector(vs: Seq<Seq<u32>>, k: int)
    requires
        forall|l: int| 0 <= l < vs.len() ==> #[trigger] vs[l].len() == 16,
        0 <= k < vs.len(),
    ensures
        vector_at(written_vectors(vs), k) == vs[k],
    decreases vs.len(),
{
    let front = written_vectors(vs.drop_last());
    let all = written_vectors(vs);
    a_vector_takes_64_bytes(vs.drop_last());
    a_vector_takes_64_bytes(vs);
    lemma_written_len(vs.last());
    if k == vs.len() - 1 {
        let last = written(vs.last());
        assert forall|j: int| 0 <= j < 16 implies word_at(all, 64 * k + 4 * j) == vs[k][j] by {
            lemma_written_word(vs.last(), j);
            lemma_word_in_parts(front, last, 4 * j);
        }
    } else {
        lemma_written_vector(vs.drop_last(), k);
        assert forall|j: int| 0 <= j < 16 implies word_at(all, 64 * k + 4 * j) == vs[k][j] by {
            assert(vector_at(front, k)[j] == vs[k][j]);
            lemma_word_in_parts(front, written(vs.last()), 64 * k + 4 * j);
        }
    }
    assert(vector_at(all, k) =~= vs[k]);
}

/// Vectors that were written are read back.
pub proof fn written_vectors_are_read_back(vs: Seq<Seq<u32>>)
    requires
        forall|k: int| 0 <= k < vs.len() ==> #[trigger] vs[k].len() == 16,
    ensures
        vectors(written_vectors(vs)) == vs,
{
    a_vector_takes_64_bytes(vs);
    assert forall|k: int| 0 <= k < vs.len() implies vectors(written_vectors(vs))[k] == vs[k] by {
        lemma_written_vector(vs, k);
    }
    assert(vectors(written_vectors(vs)) =~= vs);
}

/// Every centroid takes 56 bytes.
pub proof fn a_centroid_takes_56_bytes(cs: Seq<[u32; 16]>)
    ensures
        written_centroids(cs).len() == 56 * cs.len(),
    decreases cs.len(),
{
    let all = cs.map_values(|c: [u32; 16]| features(c));
    if cs.len() > 0 {
        a_centroid_takes_56_bytes(cs.drop_last());
        assert(all.drop_last() =~= cs.drop_last().map_values(|c: [u32; 16]| features(c)));
        lemma_written_len(all.last());
    }
}

proof fn lemma_written_centroid(cs: Seq<[u32; 16]>, k: int, j: int)
    requires
        0 <= k < cs.len(),
        0 <= j < 14,
    ensures
        word_at(written_centroids(cs), 56 * k + 4 * j) == cs[k]@[j],
    decreases cs.len(),
{
    let all = cs.map_values(|c: [u32; 16]| features(c));
    let front = written_centroids(cs.drop_last());
    let last = written(features(cs.last()));
    assert(all.drop_last() =~= cs.drop_last().map_values(|c: [u32; 16]| features(c)));
    assert(written_centroids(cs) == front + last);
    a_centroid_takes_56_bytes(cs.drop_last());
    lemma_written_len(features(cs.last()));
    if k == cs.len() - 1 {
        lemma_written_word(features(cs.last()), j);
        lemma_word_in_parts(front, last, 4 * j);
    } else {
        lemma_written_centroid(cs.drop_last(), k, j);
        lemma_word_in_parts(front, last, 56 * k + 4 * j);
    }
}

/// Centroids that were written are read back: each with its features, and with zeros behind
/// them.
pub proof fn written_centroids_are_read_back(cs: Seq<[u32; 16]>)
    ensures
        centroids(written_centroids(cs)) == cs.map_values(
            |c: [u32; 16]| features(c) + seq![0u32, 0u32],
        ),
{
    let read = centroids(written_centroids(cs));
    let kept = cs.map_values(|c: [u32; 16]| features(c) + seq![0u32, 0u32]);
    a_centroid_takes_56_bytes(cs);
    assert forall|k: int| 0 <= k < cs.len() implies read[k] == kept[k] by {
        assert forall|j: int| 0 <= j < 14 implies #[trigger] read[k][j] == cs[k]@[j] by {
            lemma_written_centroid(cs, k, j);
        }
        assert(read[k] =~= kept[k]);
    }
    assert(read =~= kept);
}

/// The least byte of a word comes first: its bytes count one, 256, 65536 and 16777216, where it
/// is written and where it is read.
pub proof fn the_least_byte_comes_first(w: u32, s: Seq<u8>, i: int)
    ensures
        word_bytes(w).len() == 4,
        word_bytes(w)[0] + 256 * word_bytes(w)[1] + 65536 * word_bytes(w)[2] + 16777216
            * word_bytes(w)[3] == w,
        word_at(s, i) == s[i] + 256 * s[i + 1] + 65536 * s[i + 2] + 16777216 * s[i + 3],
{
}

/// What is written lies word by word where it is read: word `k` takes the four bytes from `4 *
/// k` on, whatever comes behind it.
pub proof fn each_word_has_its_place(ws: Seq<u32>, k: int)
    requires
        0 <= k < ws.len(),
    ensures
        written(ws).len() == 4 * ws.len(),
        written(ws)[4 * k] + 256 * written(ws)[4 * k + 1] + 65536 * written(ws)[4 * k + 2]
            + 16777216 * written(ws)[4 * k + 3] == ws[k],
    decreases ws.len(),
{
    lemma_written_len(ws);
    let front = ws.drop_last();
    lemma_written_len(front);
    if k < ws.len() - 1 {
        each_word_has_its_place(front, k);
        assert(front[k] == ws[k]);
    } else {
        the_least_byte_comes_first(ws.last(), written(ws), 4 * k);
    }
}

/// The label of a record is the lowest bit of its packed word, and its number are the bits
/// above it; two numbers or labels that differ are packed differently.
pub proof fn packed_words_tell_records_apart(a: int, b: int, fraud: bool, other: bool)
    requires
        0 <= a < 0x8000_0000,
        0 <= b < 0x8000_0000,
    ensures
        packed(a, fraud) == 2 * a + (if fraud {
            1int
        } else {
            0
        }),
        packed(a, fraud) == packed(b, other) ==> a == b && fraud == other,
{
}

/// Any word holds a label, zero or one, and a number that it is packed of again.
pub proof fn a_packed_word_is_packed_again(word: u32)
    ensures
        label_of(word) <= 1,
        2 * id_of(word) + label_of(word) == word,
        packed(id_of(word) as int, label_of(word) == 1) == word,
{
}

/// What is packed in a word and unpacked from it, and what is told to be fraud.
pub proof fn labels_are_packed_and_told(
    index: usize,
    fraud: bool,
    word: u32,
    label: u8,
    id: usize,
    name: &str,
    is: bool,
)
    requires
        call_ensures(pack, (index, fraud), word),
        call_ensures(unpack_label, (word,), label),
        call_ensures(unpack_id, (word,), id),
        call_ensures(is_fraud, (name,), is),
    ensures
        label == 1 <==> fraud,
        label == 0 <==> !fraud,
        index < 0x8000_0000 ==> id == index,
        is <==> name@.len() == 5 && name@[0] == 'f' && name@[1] == 'r' && name@[2] == 'a' && name@[3]
            == 'u' && name@[4] == 'd',
{
    reveal_strlit("fraud");
    unpacking_gives_back(index as int, fraud);
    if name@.len() == 5 && name@[0] == 'f' && name@[1] == 'r' && name@[2] == 'a' && name@[3] == 'u'
        && name@[4] == 'd' {
        assert(name@ =~= "fraud"@);
    }
}

/// The records of a dataset are those that its bytes hold, 64 for each, and those of an index
/// its centroids, 56 for each, and its offsets, four for each.
pub proof fn data_is_read_where_it_lies(
    dataset: Dataset<'_>,
    data: IvfData<'_>,
    k: usize,
    j: int,
    record: Record,
    upper: [u32; 16],
    lower: [u32; 16],
    offset: u32,
)
    requires
        0 <= j < 14,
        k < dataset.bytes@.len() / 64 ==> call_ensures(
            Dataset::<'_>::record,
            (&dataset, k),
            record,
        ),
        k < data.l1_bytes@.len() / 56 ==> call_ensures(
            IvfData::<'_>::l1_centroid,
            (&data, k),
            upper,
        ),
        k < data.l2_bytes@.len() / 56 ==> call_ensures(
            IvfData::<'_>::l2_centroid,
            (&data, k),
            lower,
        ),
        k < data.offset_bytes@.len() / 4 ==> call_ensures(
            IvfData::<'_>::offset,
            (&data, k),
            offset,
        ),
    ensures
        dataset@.len() == dataset.bytes@.len() / 64,
        k < dataset.bytes@.len() / 64 ==> record.vector@[j] == word_at(
            dataset.bytes@,
            64 * k + 4 * j,
        ) && record.vector@[14] == word_at(dataset.bytes@, 64 * k + 56) && record.vector@[15]
            == word_at(dataset.bytes@, 64 * k + 60),
        k < data.l1_bytes@.len() / 56 ==> upper@[j] == word_at(data.l1_bytes@, 56 * k + 4 * j)
            && upper@[14] == 0 && upper@[15] == 0,
        k < data.l2_bytes@.len() / 56 ==> lower@[j] == word_at(data.l2_bytes@, 56 * k + 4 * j)
            && lower@[14] == 0 && lower@[15] == 0,
        k < data.offset_bytes@.len() / 4 ==> offset == word_at(data.offset_bytes@, 4 * k),
{
}

} // verus!
