use vstd::prelude::*;
use std::collections::HashMap;
use crate::board::Board;

verus! {

broadcast use vstd::std_specs::hash::group_hash_axioms;

/// Bytes in one record of a book file.
pub const RECORD_LEN: usize = 8;

/// Offset added to a score to store it in one byte.
pub const SCORE_SHIFT: i32 = 127;

/// The key held by the seven little-endian bytes `r[0..7]`.
pub open spec fn record_key(r: Seq<u8>) -> u64 {
    (r[0] as u64) | ((r[1] as u64) << 8u64) | ((r[2] as u64) << 16u64) | ((r[3] as u64) << 24u64)
        | ((r[4] as u64) << 32u64) | ((r[5] as u64) << 40u64) | ((r[6] as u64) << 48u64)
}

/// The score held by the eighth byte of a record.
pub open spec fn record_score(r: Seq<u8>) -> i32 {
    (r[7] - SCORE_SHIFT) as i32
}

/// Byte `j` of `key`, counting from the least significant.
pub open spec fn key_byte(key: u64, j: u64) -> u8 {
    ((key >> (8 * j)) & 0xff) as u8
}

/// The record of one book entry.
pub open spec fn encode_record(key: u64, score: i32) -> Seq<u8> {
    seq![
        key_byte(key, 0),
        key_byte(key, 1),
        key_byte(key, 2),
        key_byte(key, 3),
        key_byte(key, 4),
        key_byte(key, 5),
        key_byte(key, 6),
        (score + SCORE_SHIFT) as u8,
    ]
}

/// The book file of a sequence of entries: their records, in order.
pub open spec fn encode_entries(entries: Seq<(u64, i32)>) -> Seq<u8>
    decreases entries.len(),
{
    if entries.len() == 0 {
        Seq::empty()
    } else {
        encode_entries(entries.drop_last()) + encode_record(
            entries.last().0,
            entries.last().1,
        )
    }
}

/// The mapping read from the first `n` records of `bytes`: each record adds
/// its key and score unless an earlier record had the same key.
pub open spec fn decode_records(bytes: Seq<u8>, n: nat) -> Map<u64, i32>
    decreases n,
{
    if n == 0 {
        Map::empty()
    } else {
        let m = decode_records(bytes, (n - 1) as nat);
        let r = bytes.subrange(8 * (n - 1), 8 * n as int);
        if m.contains_key(record_key(r)) {
            m
        } else {
            m.insert(record_key(r), record_score(r))
        }
    }
}

/// The mapping read from a book file; trailing bytes that do not make a
/// whole record are ignored.
pub open spec fn decode_book(bytes: Seq<u8>) -> Map<u64, i32> {
    decode_records(bytes, bytes.len() / 8)
}

/// A score that a record can hold.
pub open spec fn storable_score(score: i32) -> bool {
    -127 <= score <= 127
}

/// The exact scores of a set of early positions, by position key.
pub struct OpeningBook {
    book: HashMap<u64, i32>,
}

impl OpeningBook {
    /// The mapping from position key to score.
    pub closed spec fn spec_map(&self) -> Map<u64, i32> {
        self.book@
    }

    /// Every score of the book fits a record.
    pub open spec fn wf(&self) -> bool {
        forall|k: u64| #[trigger] self.spec_map().contains_key(k) ==> -127 <= self.spec_map()[k] <= 128
    }

    /// An empty book.
    pub fn new() -> (r: Self)
        ensures
            r.wf(),
            r.spec_map() == Map::<u64, i32>::empty(),
    {
        OpeningBook { book: HashMap::new() }
    }

    /// Reads a book file held in memory: one 8-byte record per entry, the
    /// first record of a key winning over later ones.
    pub fn from_bytes(bytes: &[u8]) -> (r: Self)
        ensures
            r.wf(),
            r.spec_map() == decode_book(bytes@),
    {
        let mut book: HashMap<u64, i32> = HashMap::new();
        let len = bytes.len();
        let n = len / RECORD_LEN;
        let mut i: usize = 0;
        while i < n
            invariant
                len == bytes@.len(),
                n == bytes@.len() / 8,
                i <= n,
                book@ == decode_records(bytes@, i as nat),
            decreases n - i,
        {
            proof {
                assert(i * 8 + 8 <= bytes@.len()) by (nonlinear_arith)
                    requires
                        i < n,
                        n == bytes@.len() / 8,
                ;
            }
            let start = i * RECORD_LEN;
            let key = read_key(bytes, start);
            let score = bytes[start + 7] as i32 - SCORE_SHIFT;
            proof {
                assert(bytes@.subrange(8 * i, 8 * (i + 1))[7] == bytes@[start + 7]);
            }
            if !book.contains_key(&key) {
                book.insert(key, score);
            }
            i = i + 1;
        }
        proof {
            lemma_decoded_scores(bytes@, n as nat);
        }
        OpeningBook { book }
    }

    /// The exact score of `board`, when the book has it.
    pub fn score(&self, board: &Board) -> (r: Option<i32>)
        requires
            board.wf(),
        ensures
            r == (if self.spec_map().contains_key(board.spec_key()) {
                Some(self.spec_map()[board.spec_key()])
            } else {
                None
            }),
    {
        match self.book.get(&board.key()) {
            Some(s) => Some(*s),
            None => None,
        }
    }
}

/// Reads the seven little-endian key bytes of the record at `start`.
fn read_key(bytes: &[u8], start: usize) -> (r: u64)
    requires
        start + 8 <= bytes@.len(),
    ensures
        r == record_key(bytes@.subrange(start as int, start + 8)),
{
    let ghost rec = bytes@.subrange(start as int, start + 8);
    let len = bytes.len();
    let mut key: u64 = 0;
    let mut j: usize = 0;
    while j < 7
        invariant
            j <= 7,
            len == bytes@.len(),
            start + 8 <= bytes@.len(),
            rec == bytes@.subrange(start as int, start + 8),
            key == key_prefix(rec, j as nat),
        decreases 7 - j,
    {
        key = key | ((bytes[start + j] as u64) << (8 * j as u64));
        j = j + 1;
    }
    proof {
        lemma_key_prefix_full(rec);
    }
    key
}

/// The key of the bytes `r[0..j]`, little-endian.
spec fn key_prefix(r: Seq<u8>, j: nat) -> u64
    decreases j,
{
    if j == 0 {
        0
    } else {
        key_prefix(r, (j - 1) as nat) | ((r[j - 1] as u64) << (8 * (j - 1)) as u64)
    }
}

proof fn lemma_key_prefix_full(r: Seq<u8>)
    requires
        r.len() == 8,
    ensures
        key_prefix(r, 7) == record_key(r),
{
    reveal_with_fuel(key_prefix, 8);
    let b0 = r[0] as u64;
    assert(0u64 | (b0 << 0u64) == b0) by (bit_vector);
}

/// Writes book entries as a book file: per entry, the seven low bytes of
/// the key, little-endian, then `score + 127`.
pub fn encode_book(entries: &Vec<(u64, i32)>) -> (r: Vec<u8>)
    requires
        forall|i: int| 0 <= i < entries@.len() ==> storable_score(#[trigger] entries@[i].1),
    ensures
        r@ == encode_entries(entries@),
{
    let mut out: Vec<u8> = Vec::new();
    let mut i: usize = 0;
    while i < entries.len()
        invariant
            i <= entries@.len(),
            forall|i: int| 0 <= i < entries@.len() ==> storable_score(#[trigger] entries@[i].1),
            out@ == encode_entries(entries@.take(i as int)),
        decreases entries@.len() - i,
    {
        let (key, score) = entries[i];
        let ghost before = out@;
        let mut j: usize = 0;
        while j < 7
            invariant
                j <= 7,
                out@.len() == before.len() + j,
                forall|t: int| 0 <= t < before.len() ==> out@[t] == before[t],
                forall|t: int| 0 <= t < j ==> #[trigger] out@[before.len() + t] == key_byte(key, t as u64),
            decreases 7 - j,
        {
            let shift: u64 = 8 * j as u64;
            proof {
                assert((key >> shift) & 0xff < 256) by (bit_vector);
            }
            out.push(((key >> shift) & 0xff) as u8);
            proof {
                assert(out@[before.len() + j] == key_byte(key, j as u64));
            }
            j = j + 1;
        }
        out.push((score + SCORE_SHIFT) as u8);
        proof {
            assert(entries@.take(i as int + 1).drop_last() =~= entries@.take(i as int));
            let rec = encode_record(key, score);
            assert forall|t: int| 0 <= t < 8 implies out@[before.len() + t] == rec[t] by {
                assert(out@[before.len() + t] == key_byte(key, t as u64) || t == 7);
            }
            assert(out@ =~= before + rec);
        }
        i = i + 1;
    }
    proof {
        assert(entries@.take(i as int) =~= entries@);
    }
    out
}

/// Where each record of an encoded book lies.
proof fn lemma_encoded_records(entries: Seq<(u64, i32)>)
    ensures
        encode_entries(entries).len() == 8 * entries.len(),
        forall|i: int|
            0 <= i < entries.len() ==> #[trigger] encode_entries(entries).subrange(8 * i, 8 * i + 8)
                == encode_record(entries[i].0, entries[i].1),
    decreases entries.len(),
{
    if entries.len() > 0 {
        let front = entries.drop_last();
        lemma_encoded_records(front);
        let all = encode_entries(entries);
        assert forall|i: int| 0 <= i < entries.len() implies #[trigger] all.subrange(8 * i, 8 * i + 8)
            == encode_record(entries[i].0, entries[i].1) by {
            if i < front.len() {
                assert(all.subrange(8 * i, 8 * i + 8) =~= encode_entries(front).subrange(
                    8 * i,
                    8 * i + 8,
                ));
            } else {
                assert(all.subrange(8 * i, 8 * i + 8) =~= encode_record(
                    entries.last().0,
                    entries.last().1,
                ));
            }
        }
    }
}

/// A record gives back the key (below 2^56) and the score it was made of.
proof fn lemma_record_round_trip(key: u64, score: i32)
    requires
        key < 0x100_0000_0000_0000,
        storable_score(score),
    ensures
        record_key(encode_record(key, score)) == key,
        record_score(encode_record(key, score)) == score,
{
    let r = encode_record(key, score);
    assert(key < 0x100_0000_0000_0000 ==> (key_byte(key, 0) as u64) | ((key_byte(key, 1) as u64)
        << 8u64) | ((key_byte(key, 2) as u64) << 16u64) | ((key_byte(key, 3) as u64) << 24u64) | ((
    key_byte(key, 4) as u64) << 32u64) | ((key_byte(key, 5) as u64) << 40u64) | ((key_byte(key, 6)
        as u64) << 48u64) == key) by (bit_vector);
}

proof fn lemma_decode_encoded(entries: Seq<(u64, i32)>, n: nat)
    requires
        n <= entries.len(),
        forall|i: int, j: int|
            0 <= i < j < entries.len() ==> #[trigger] entries[i].0 != #[trigger] entries[j].0,
        forall|i: int|
            0 <= i < entries.len() ==> #[trigger] entries[i].0 < 0x100_0000_0000_0000
                && storable_score(entries[i].1),
    ensures
        forall|i: int|
            0 <= i < n ==> decode_records(encode_entries(entries), n).contains_key(
                #[trigger] entries[i].0,
            ) && decode_records(encode_entries(entries), n)[entries[i].0] == entries[i].1,
        forall|k: u64|
            #[trigger] decode_records(encode_entries(entries), n).contains_key(k) ==> exists|i: int|
                0 <= i < n && entries[i].0 == k,
    decreases n,
{
    if n > 0 {
        lemma_decode_encoded(entries, (n - 1) as nat);
        lemma_encoded_records(entries);
        let bytes = encode_entries(entries);
        let last = (n - 1) as int;
        assert(bytes.subrange(8 * last, 8 * last + 8) == encode_record(
            entries[last].0,
            entries[last].1,
        ));
        lemma_record_round_trip(entries[last].0, entries[last].1);
        let m = decode_records(bytes, (n - 1) as nat);
        if m.contains_key(entries[last].0) {
            let i = choose|i: int| 0 <= i < n - 1 && entries[i].0 == entries[last].0;
            assert(entries[i].0 != entries[last].0);
        }
    }
}

/// Writing entries with distinct keys (below 2^56) and storable scores as a
/// book file and reading the file back gives exactly those entries.
pub proof fn lemma_book_round_trip(entries: Seq<(u64, i32)>)
    requires
        forall|i: int, j: int|
            0 <= i < j < entries.len() ==> #[trigger] entries[i].0 != #[trigger] entries[j].0,
        forall|i: int|
            0 <= i < entries.len() ==> #[trigger] entries[i].0 < 0x100_0000_0000_0000
                && storable_score(entries[i].1),
    ensures
        forall|i: int|
            0 <= i < entries.len() ==> decode_book(encode_entries(entries)).contains_key(
                #[trigger] entries[i].0,
            ) && decode_book(encode_entries(entries))[entries[i].0] == entries[i].1,
        forall|k: u64|
            #[trigger] decode_book(encode_entries(entries)).contains_key(k) ==> exists|i: int|
                0 <= i < entries.len() && entries[i].0 == k,
{
    lemma_encoded_records(entries);
    assert(encode_entries(entries).len() / 8 == entries.len());
    lemma_decode_encoded(entries, entries.len());
}

/// Every score read from a book file lies in `-127..=128`.
proof fn lemma_decoded_scores(bytes: Seq<u8>, n: nat)
    requires
        8 * n <= bytes.len(),
    ensures
        forall|k: u64| #[trigger] decode_records(bytes, n).contains_key(k) ==> -127 <= decode_records(
            bytes,
            n,
        )[k] <= 128,
    decreases n,
{
    if n > 0 {
        lemma_decoded_scores(bytes, (n - 1) as nat);
        let r = bytes.subrange(8 * (n - 1), 8 * n as int);
        let b = r[7];
        assert(0 <= b <= 255);
        assert(-127 <= record_score(r) <= 128);
        let m = decode_records(bytes, (n - 1) as nat);
        let d = decode_records(bytes, n);
        assert forall|k: u64| #[trigger] d.contains_key(k) implies -127 <= d[k] <= 128 by {
            if k != record_key(r) {
                assert(m.contains_key(k));
            } else if m.contains_key(k) {
                assert(d[k] == m[k]);
            }
        }
    }
}

} // verus!
