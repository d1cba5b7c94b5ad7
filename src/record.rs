//! Byte layout of a record: an index field of one machine word in native byte
//! order, then the payload bytes, with no padding between records.

use vstd::prelude::*;

use crate::error::StoreError;

verus! {

/// Width in bytes of the index field that leads every record: one machine
/// word on the 64-bit targets that the store is built for.
pub const INDEX_SIZE: usize = 8;

/// The native-order bytes of a machine word, as `usize::to_ne_bytes` gives them.
pub uninterp spec fn ne_bytes_of_word(x: usize) -> Seq<u8>;

/// Relies on `usize::to_ne_bytes`: the word's bytes in native order, one word wide.
#[verifier::external_body]
fn word_to_ne_bytes(x: usize) -> (r: Vec<u8>)
    ensures
        r@ == ne_bytes_of_word(x),
        r@.len() == INDEX_SIZE,
{
    x.to_ne_bytes().to_vec()
}

/// Relies on `usize::from_ne_bytes`: the inverse of `usize::to_ne_bytes`.
#[verifier::external_body]
fn word_from_ne_bytes(b: &Vec<u8>) -> (r: usize)
    requires
        b@.len() == INDEX_SIZE,
    ensures
        ne_bytes_of_word(r) == b@,
        forall|y: usize| ne_bytes_of_word(y) == b@ ==> y == r,
{
    usize::from_ne_bytes(b.as_slice().try_into().unwrap())
}

/// The payload that a record carries: everything after its index field.
pub open spec fn payload_of(record: Seq<u8>) -> Seq<u8> {
    record.subrange(INDEX_SIZE as int, record.len() as int)
}

/// `record` is a well-formed record of payload `v`.
pub open spec fn is_record_of(record: Seq<u8>, v: Seq<u8>) -> bool {
    &&& record.len() == INDEX_SIZE + v.len()
    &&& payload_of(record) == v
}

/// The `i`-th (counted from 0) complete record of a file of `rs`-byte records.
pub open spec fn record_at(file: Seq<u8>, rs: nat, i: int) -> Seq<u8> {
    file.subrange(i * rs, (i + 1) * rs)
}

/// The payloads of all complete records of `file`, in file order. A trailing
/// partial record is not part of it.
pub open spec fn scan(file: Seq<u8>, rs: nat) -> Seq<Seq<u8>> {
    Seq::new(file.len() / rs, |i: int| payload_of(record_at(file, rs, i)))
}

/// What a read of at most `len` bytes at byte `offset` of `file` yields: it
/// stops early at the end of the file.
pub open spec fn read_window(file: Seq<u8>, offset: int, len: int) -> Seq<u8> {
    let start = if offset < file.len() { offset } else { file.len() as int };
    let end = if offset + len < file.len() { offset + len } else { file.len() as int };
    file.subrange(start, end)
}

/// The index that follows `prev`, wrapping at the top of the word.
pub open spec fn index_after(prev: usize) -> usize {
    if prev == usize::MAX { 0 } else { (prev + 1) as usize }
}

/// Size of a record whose payload has `payload_size` bytes, where it fits a word.
pub fn record_size(payload_size: usize) -> (r: Option<usize>)
    ensures
        r == (if payload_size + INDEX_SIZE <= usize::MAX {
            Some((payload_size + INDEX_SIZE) as usize)
        } else {
            None::<usize>
        }),
{
    payload_size.checked_add(INDEX_SIZE)
}

/// Builds the record that carries `payload` under the index field `index`.
pub fn encode_record(index: usize, payload: &Vec<u8>) -> (r: Vec<u8>)
    requires
        payload@.len() + INDEX_SIZE <= usize::MAX,
    ensures
        r@ == ne_bytes_of_word(index) + payload@,
        is_record_of(r@, payload@),
{
    let mut r = word_to_ne_bytes(index);
    let ghost head = r@;
    let mut i: usize = 0;
    while i < payload.len()
        invariant
            i <= payload@.len(),
            head.len() == INDEX_SIZE,
            r@ == head + payload@.subrange(0, i as int),
        decreases payload@.len() - i,
    {
        r.push(payload[i]);
        i = i + 1;
        assert(payload@.subrange(0, i as int) == payload@.subrange(0, i - 1).push(payload@[i - 1]));
    }
    assert(payload@.subrange(0, payload@.len() as int) == payload@);
    assert(payload_of(r@) == payload@);
    r
}

/// Reads the index field of a record, as the bytes `field` that a read of one
/// word yielded: `None` where the read came up short.
pub fn last_index(field: &Vec<u8>) -> (r: Option<usize>)
    ensures
        r.is_none() <==> field@.len() != INDEX_SIZE,
        r matches Some(i) ==> ne_bytes_of_word(i) == field@,
        r matches Some(i) ==> forall|y: usize| ne_bytes_of_word(y) == field@ ==> y == i,
{
    if field.len() == INDEX_SIZE {
        Some(word_from_ne_bytes(field))
    } else {
        None
    }
}

/// The index field of the next record: one past the last record's index, or 0
/// where the last index could not be read.
pub fn next_index(prev: Option<usize>) -> (r: usize)
    ensures
        r == (match prev {
            Some(p) => index_after(p),
            None => 0,
        }),
{
    match prev {
        Some(p) => if p == usize::MAX { 0 } else { p + 1 },
        None => 0,
    }
}

/// Byte offset of the last complete record of a file of `file_len` bytes,
/// where its index field is read before an append; `None` where the file holds
/// no complete record.
pub fn last_record_offset(file_len: u64, rs: usize) -> (r: Option<u64>)
    requires
        rs > 0,
    ensures
        r == (if file_len as int / rs as int == 0 {
            None::<u64>
        } else {
            Some(((file_len as int / rs as int - 1) * rs) as u64)
        }),
{
    let n = file_len / (rs as u64);
    if n == 0 {
        None
    } else {
        proof {
            assert((n - 1) * rs <= n * rs) by (nonlinear_arith)
                requires n >= 1, rs > 0;
            assert(n * rs <= file_len) by (nonlinear_arith)
                requires n == file_len as int / rs as int, rs > 0;
        }
        Some((n - 1) * (rs as u64))
    }
}

/// The payload bytes of a decoded record, or why there are none.
pub open spec fn bytes_result(r: Result<Vec<u8>, StoreError>) -> Result<Seq<u8>, StoreError> {
    match r {
        Ok(v) => Ok(v@),
        Err(e) => Err(e),
    }
}

/// What decoding the bytes that a read of one `rs`-byte record yielded gives:
/// the payload, with the index field stripped, or `OutOfRange` for a short read.
pub open spec fn decode_spec(record: Seq<u8>, rs: nat) -> Result<Seq<u8>, StoreError> {
    if record.len() == rs {
        Ok(payload_of(record))
    } else {
        Err(StoreError::OutOfRange)
    }
}

/// Copies `bytes[start..end]`.
fn copy_range(bytes: &Vec<u8>, start: usize, end: usize) -> (r: Vec<u8>)
    requires
        start <= end <= bytes@.len(),
    ensures
        r@ == bytes@.subrange(start as int, end as int),
{
    let mut r: Vec<u8> = Vec::new();
    let mut i: usize = start;
    while i < end
        invariant
            start <= i <= end <= bytes@.len(),
            r@ == bytes@.subrange(start as int, i as int),
        decreases end - i,
    {
        r.push(bytes[i]);
        i = i + 1;
        assert(bytes@.subrange(start as int, i as int) == bytes@.subrange(
            start as int,
            i - 1,
        ).push(bytes@[i - 1]));
    }
    r
}

/// Decodes the bytes that a read of one `rs`-byte record yielded into the
/// payload they carry.
pub fn decode_payload(record: &Vec<u8>, rs: usize) -> (r: Result<Vec<u8>, StoreError>)
    requires
        rs >= INDEX_SIZE,
    ensures
        bytes_result(r) == decode_spec(record@, rs as nat),
{
    if record.len() == rs {
        Ok(copy_range(record, INDEX_SIZE, rs))
    } else {
        Err(StoreError::OutOfRange)
    }
}

proof fn lemma_record_in_file(len: nat, rs: nat, i: int)
    requires
        rs > 0,
        0 <= i < len / rs,
    ensures
        0 <= i * rs,
        i * rs + rs <= len,
        (i + 1) * rs == i * rs + rs,
{
    assert(0 <= i * rs) by (nonlinear_arith)
        requires 0 <= i, rs > 0;
    assert((i + 1) * rs == i * rs + rs) by (nonlinear_arith);
    assert((i + 1) * rs <= (len / rs) * rs) by (nonlinear_arith)
        requires i + 1 <= len / rs, rs > 0;
    assert((len / rs) * rs <= len) by (nonlinear_arith)
        requires rs > 0;
}

/// Splits a type file into the payloads of its complete records, in file
/// order; a trailing partial record yields nothing.
pub fn split_records(file: &Vec<u8>, rs: usize) -> (r: Vec<Vec<u8>>)
    requires
        rs >= INDEX_SIZE,
    ensures
        r@.len() == file@.len() / (rs as nat),
        forall|i: int| 0 <= i < r@.len() ==> #[trigger] r@[i]@ == scan(file@, rs as nat)[i],
{
    let len: usize = file.len();
    let n: usize = len / rs;
    let mut r: Vec<Vec<u8>> = Vec::new();
    let mut i: usize = 0;
    while i < n
        invariant
            len == file@.len(),
            n == file@.len() / (rs as nat),
            rs >= INDEX_SIZE,
            i <= n,
            r@.len() == i,
            forall|k: int| 0 <= k < i ==> #[trigger] r@[k]@ == scan(file@, rs as nat)[k],
        decreases n - i,
    {
        proof {
            lemma_record_in_file(file@.len(), rs as nat, i as int);
        }
        let start: usize = i * rs;
        let chunk = copy_range(file, start + INDEX_SIZE, start + rs);
        assert(chunk@ == payload_of(record_at(file@, rs as nat, i as int)));
        r.push(chunk);
        i = i + 1;
    }
    r
}

/// Appending one complete record to a file of complete records adds its
/// payload at the end of the scan, and leaves the earlier payloads as they were.
pub proof fn lemma_scan_append(file: Seq<u8>, rs: nat, record: Seq<u8>)
    requires
        rs > 0,
        file.len() % rs == 0,
        record.len() == rs,
    ensures
        scan(file + record, rs) == scan(file, rs).push(payload_of(record)),
{
    let n = file.len() / rs;
    let g = file + record;
    assert(file.len() == n * rs) by (nonlinear_arith)
        requires n == file.len() / rs, file.len() % rs == 0, rs > 0;
    assert(g.len() / rs == n + 1) by (nonlinear_arith)
        requires g.len() == n * rs + rs, rs > 0;
    assert forall|i: int| 0 <= i < n implies #[trigger] record_at(g, rs, i) == record_at(file, rs, i) by {
        lemma_record_in_file(file.len(), rs, i);
        assert(record_at(g, rs, i) =~= record_at(file, rs, i));
    }
    assert((n + 1) * rs == n * rs + rs) by (nonlinear_arith);
    assert(record_at(g, rs, n as int) =~= record);
    assert(scan(g, rs) =~= scan(file, rs).push(payload_of(record)));
}

/// A trailing partial record adds nothing to a scan: the scan of a file of
/// complete records followed by fewer than `rs` bytes is the scan of the
/// complete records alone.
pub proof fn lemma_scan_drops_partial_tail(file: Seq<u8>, rs: nat, tail: Seq<u8>)
    requires
        rs > 0,
        file.len() % rs == 0,
        tail.len() < rs,
    ensures
        scan(file + tail, rs) == scan(file, rs),
        (file + tail).len() / rs == file.len() / rs,
{
    let n = file.len() / rs;
    let g = file + tail;
    assert(file.len() == n * rs) by (nonlinear_arith)
        requires n == file.len() / rs, file.len() % rs == 0, rs > 0;
    assert(g.len() / rs == n) by (nonlinear_arith)
        requires g.len() == n * rs + tail.len(), tail.len() < rs, rs > 0, n >= 0;
    assert forall|i: int| 0 <= i < n implies #[trigger] record_at(g, rs, i) == record_at(file, rs, i) by {
        lemma_record_in_file(file.len(), rs, i);
        assert(record_at(g, rs, i) =~= record_at(file, rs, i));
    }
    assert(scan(g, rs) =~= scan(file, rs));
}

} // verus!
