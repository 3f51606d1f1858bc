//! The metadata store: review records appended to a JSON-lines file, found
//! again by id through an in-memory table of line offsets that is mirrored
//! in an offsets file.

use vstd::prelude::*;
use crate::codec::{decode_offsets, encode_offsets, spec_decode_offsets, spec_encode_offsets};
use crate::lines::{jsonl_of, line_starts, offsets_of, rebuild_offsets, spec_frame, spec_payload};
use crate::lines::{lemma_jsonl_push, lemma_jsonl_shape, lemma_payload_frame, lemma_record_bytes};
use crate::lines::{lemma_line_starts_jsonl, lemma_jsonl_lines_valid, lines_valid_utf8, single_line};
use crate::lines::{IoErrorKind, LineError};
use crate::codec::lemma_decode_encode;
use vstd::utf8::valid_utf8;
use vstd::bytes::*;
use crate::text::{is_blank, is_white_space, spec_is_blank};

verus! {

/// `std::io::Error`, carried by `StoreError::Io`.
#[verifier::external_type_specification]
#[verifier::external_body]
pub struct ExIoError(std::io::Error);

/// `serde_json::Error`, carried by `StoreError::Json`.
#[verifier::external_type_specification]
#[verifier::external_body]
pub struct ExJsonError(serde_json::Error);

/// The metadata kept for one review.
#[derive(Debug, Clone)]
pub struct ReviewMeta {
    pub review_title: String,
    pub review_body: String,
    pub product_id: String,
    pub review_rating: i32,
}

impl ReviewMeta {
    /// A review is accepted when its title, body and product id each hold
    /// something besides white space.
    pub open spec fn spec_is_valid(&self) -> bool {
        &&& !spec_is_blank(self.review_title@)
        &&& !spec_is_blank(self.review_body@)
        &&& !spec_is_blank(self.product_id@)
    }

    /// Whether this review passes validation.
    pub fn is_valid(&self) -> (b: bool)
        ensures
            b == self.spec_is_valid(),
            b == ((exists|i: int|
                0 <= i < self.review_title@.len() && !#[trigger] is_white_space(
                    self.review_title@[i],
                )) && (exists|i: int|
                0 <= i < self.review_body@.len() && !#[trigger] is_white_space(
                    self.review_body@[i],
                )) && (exists|i: int|
                0 <= i < self.product_id@.len() && !#[trigger] is_white_space(
                    self.product_id@[i],
                ))),
    {
        proof {
            lemma_valid_has_content(*self);
        }
        !(is_blank(self.review_title.as_str()) || is_blank(self.review_body.as_str()) || is_blank(
            self.product_id.as_str(),
        ))
    }
}

/// A review is valid exactly when its title, its body and its product id
/// each hold at least one character that is not white space.
pub proof fn lemma_valid_has_content(meta: ReviewMeta)
    ensures
        meta.spec_is_valid() == ((exists|i: int|
            0 <= i < meta.review_title@.len() && !#[trigger] is_white_space(meta.review_title@[i]))
            && (exists|i: int|
            0 <= i < meta.review_body@.len() && !#[trigger] is_white_space(meta.review_body@[i]))
            && (exists|i: int|
            0 <= i < meta.product_id@.len() && !#[trigger] is_white_space(meta.product_id@[i]))),
{
}

/// Errors of the metadata store and of the vector index behind it.
#[derive(Debug)]
pub enum StoreError {
    Io(std::io::Error),
    Json(serde_json::Error),
    InvalidId(u64),
    Index(String),
    /// A line of the JSON-lines file could not be read; reported as an I/O
    /// error of the line error's kind.
    Line(LineError),
}

impl StoreError {
    /// The error a vector index gives when asked for its length, which it
    /// does not track.
    pub fn len_unsupported() -> (e: StoreError)
        ensures
            e matches StoreError::Index(msg) && msg@ == "len() not implemented"@,
    {
        StoreError::Index(String::from_str("len() not implemented"))
    }
}

/// The byte range that record `id` occupies in a JSON-lines file of
/// `file_len` bytes: from its offset to the next record's offset, or to the
/// end of the file for the last record.
pub open spec fn spec_record_range(offsets: Seq<u64>, id: int, file_len: int) -> (int, int) {
    (
        offsets[id] as int,
        if id + 1 < offsets.len() {
            offsets[id + 1] as int
        } else {
            file_len
        },
    )
}

/// An offsets table describes a sequence of records when it holds, in order,
/// the position at which each record starts in the JSON-lines file made of
/// them.
pub open spec fn describes(offsets: Seq<u64>, records: Seq<Seq<u8>>) -> bool {
    &&& offsets.len() == records.len()
    &&& forall|k: int| 0 <= k < offsets.len() ==> offsets[k] as int == #[trigger] offsets_of(records)[k]
}

/// The table of record offsets of one store: record `i` starts at byte
/// `offsets[i]` of the JSON-lines file.
pub struct MetadataStore {
    offsets: Vec<u64>,
}

impl View for MetadataStore {
    type V = Seq<u64>;

    closed spec fn view(&self) -> Seq<u64> {
        self.offsets@
    }
}

impl MetadataStore {
    /// Sets up the table from the contents of the two files. When the
    /// offsets file is empty the offsets are rebuilt by scanning the
    /// JSON-lines file line by line, and the bytes to persist as the new
    /// offsets file are returned; a line that is not valid UTF-8 makes this
    /// fail with `StoreError::Line(LineError::InvalidUtf8)`, an I/O error of
    /// kind `InvalidData`, and then nothing is to be persisted. When the
    /// offsets file is not empty it is read as it is.
    pub fn open(jsonl: &[u8], offsets_file: &[u8]) -> (r: Result<
        (MetadataStore, Option<Vec<u8>>),
        StoreError,
    >)
        ensures
            r is Ok <==> offsets_file@.len() != 0 || lines_valid_utf8(jsonl@),
            match r {
                Ok((store, persist)) => if offsets_file@.len() == 0 {
                    &&& store@.len() == line_starts(jsonl@).len()
                    &&& forall|k: int| 0 <= k < store@.len() ==> store@[k] == line_starts(jsonl@)[k]
                    &&& persist matches Some(bytes) && bytes@ == spec_encode_offsets(store@)
                } else {
                    &&& store@ == spec_decode_offsets(offsets_file@)
                    &&& persist is None
                },
                Err(e) => e == StoreError::Line(LineError::InvalidUtf8)
                    && LineError::InvalidUtf8.spec_kind() == IoErrorKind::InvalidData,
            },
    {
        if offsets_file.len() == 0 {
            match rebuild_offsets(jsonl) {
                Ok(offsets) => {
                    let bytes = encode_offsets(&offsets);
                    Ok((MetadataStore { offsets }, Some(bytes)))
                },
                Err(e) => Err(StoreError::Line(e)),
            }
        } else {
            let offsets = decode_offsets(offsets_file);
            Ok((MetadataStore { offsets }, None))
        }
    }

    /// Number of records stored.
    pub fn len(&self) -> (n: u64)
        ensures
            n == self@.len(),
    {
        self.offsets.len() as u64
    }

    /// Records that a new record starts at byte `offset` (the length of the
    /// JSON-lines file before the record was written) and returns its id,
    /// the number of records stored before it.
    pub fn append(&mut self, offset: u64) -> (id: u64)
        ensures
            final(self)@ == old(self)@.push(offset),
            id == old(self)@.len(),
    {
        let id = self.offsets.len() as u64;
        self.offsets.push(offset);
        id
    }

    /// Where record `id` lies in the JSON-lines file: its start offset and
    /// the next record's offset, or `None` when it is the last record and so
    /// runs to the end of the file; `InvalidId` when there is no such record.
    pub fn get(&self, id: u64) -> (r: Result<(u64, Option<u64>), StoreError>)
        ensures
            match r {
                Ok((start, end)) => {
                    &&& id < self@.len()
                    &&& start == self@[id as int]
                    &&& id + 1 < self@.len() ==> end == Some(self@[id + 1])
                    &&& id + 1 == self@.len() ==> end is None
                },
                Err(StoreError::InvalidId(bad)) => bad == id && id >= self@.len(),
                Err(_) => false,
            },
    {
        let n = self.offsets.len() as u64;
        if id >= n {
            return Err(StoreError::InvalidId(id));
        }
        let idx = id as usize;
        let start = self.offsets[idx];
        let end = if id + 1 < n {
            Some(self.offsets[idx + 1])
        } else {
            None
        };
        Ok((start, end))
    }
}

/// The byte range of record `id`, once a missing end has been resolved to
/// the length of the file.
pub open spec fn resolve_end(end: Option<u64>, file_len: int) -> int {
    match end {
        Some(e) => e as int,
        None => file_len,
    }
}

/// What `get` reports, with the end resolved against a file of `file_len`
/// bytes, is the record's range.
pub proof fn lemma_get_range(offsets: Seq<u64>, id: int, end: Option<u64>, file_len: int)
    requires
        0 <= id < offsets.len(),
        id + 1 < offsets.len() ==> end == Some(offsets[id + 1]),
        id + 1 == offsets.len() ==> end is None,
    ensures
        (offsets[id] as int, resolve_end(end, file_len)) == spec_record_range(offsets, id, file_len),
{
}

/// Read after write: in a JSON-lines file built by appending `records`, with
/// an offsets table that describes them, the bytes of record `i`'s range,
/// read back as a record, are record `i`.
pub proof fn lemma_read_back(offsets: Seq<u64>, records: Seq<Seq<u8>>, i: int)
    requires
        describes(offsets, records),
        0 <= i < records.len(),
    ensures
        ({
            let c = jsonl_of(records);
            let (start, end) = spec_record_range(offsets, i, c.len() as int);
            &&& 0 <= start <= end <= c.len()
            &&& spec_payload(c.subrange(start, end)) == records[i]
        }),
{
    lemma_jsonl_shape(records);
    lemma_record_bytes(records, i);
    lemma_payload_frame(records[i]);
    assert(offsets[i] as int == offsets_of(records)[i]);
    if i + 1 < records.len() {
        assert(offsets[i + 1] as int == offsets_of(records)[i + 1]);
    }
}

/// Appending keeps the table in step with the file: recording the file
/// length as the new record's offset, while the record's line is appended to
/// the file, gives a table that describes the records with the new one added.
pub proof fn lemma_append_describes(offsets: Seq<u64>, records: Seq<Seq<u8>>, json: Seq<u8>)
    requires
        describes(offsets, records),
        jsonl_of(records).len() <= u64::MAX,
    ensures
        describes(offsets.push(jsonl_of(records).len() as u64), records.push(json)),
        jsonl_of(records.push(json)) == jsonl_of(records) + spec_frame(json),
{
    lemma_jsonl_push(records, json);
    lemma_jsonl_shape(records);
    let o2 = offsets.push(jsonl_of(records).len() as u64);
    assert forall|k: int| 0 <= k < o2.len() implies o2[k] as int == #[trigger] offsets_of(
        records.push(json),
    )[k] by {
        if k < offsets.len() {
            assert(offsets[k] as int == offsets_of(records)[k]);
        }
    }
}

/// Every record written can be read back by its id, also after later
/// appends: appending `json` to a store that describes `records` yields a
/// store in which the new record and every earlier one read back unchanged.
pub proof fn lemma_append_then_read(offsets: Seq<u64>, records: Seq<Seq<u8>>, json: Seq<u8>, i: int)
    requires
        describes(offsets, records),
        jsonl_of(records).len() <= u64::MAX,
        0 <= i <= records.len(),
    ensures
        ({
            let offsets2 = offsets.push(jsonl_of(records).len() as u64);
            let file2 = jsonl_of(records) + spec_frame(json);
            let (start, end) = spec_record_range(offsets2, i, file2.len() as int);
            &&& 0 <= start <= end <= file2.len()
            &&& spec_payload(file2.subrange(start, end)) == records.push(json)[i]
        }),
{
    lemma_append_describes(offsets, records, json);
    lemma_read_back(offsets.push(jsonl_of(records).len() as u64), records.push(json), i);
}

/// A table rebuilt by scanning the JSON-lines file agrees with the table
/// kept while appending, as long as each record is valid UTF-8 and holds no
/// newline of its own; the scan then succeeds.
pub proof fn lemma_rebuild_agrees(offsets: Seq<u64>, records: Seq<Seq<u8>>)
    requires
        describes(offsets, records),
        forall|k: int| 0 <= k < records.len() ==> #[trigger] single_line(records[k]),
        forall|k: int| 0 <= k < records.len() ==> #[trigger] valid_utf8(records[k]),
    ensures
        lines_valid_utf8(jsonl_of(records)),
        line_starts(jsonl_of(records)).len() == offsets.len(),
        forall|k: int|
            0 <= k < offsets.len() ==> #[trigger] line_starts(jsonl_of(records))[k] == offsets[k] as int,
{
    lemma_line_starts_jsonl(records);
    lemma_jsonl_lines_valid(records);
    lemma_jsonl_shape(records);
    assert forall|k: int| 0 <= k < offsets.len() implies #[trigger] line_starts(
        jsonl_of(records),
    )[k] == offsets[k] as int by {
        assert(offsets[k] as int == offsets_of(records)[k]);
    }
}

/// The table, the JSON-lines file and the offsets file agree: the
/// JSON-lines file is made of `records`, the table describes them, and the
/// offsets file holds the table.
pub open spec fn files_agree(table: Seq<u64>, records: Seq<Seq<u8>>, jsonl: Seq<u8>, offsets_file: Seq<u8>) -> bool {
    &&& describes(table, records)
    &&& jsonl == jsonl_of(records)
    &&& offsets_file == spec_encode_offsets(table)
}

/// Appending keeps the files in agreement: writing the record's line to the
/// JSON-lines file, the old file length as eight bytes to the offsets file,
/// and recording that length in the table.
pub proof fn lemma_append_keeps_files(
    table: Seq<u64>,
    records: Seq<Seq<u8>>,
    jsonl: Seq<u8>,
    offsets_file: Seq<u8>,
    json: Seq<u8>,
)
    requires
        files_agree(table, records, jsonl, offsets_file),
        jsonl.len() <= u64::MAX,
    ensures
        files_agree(
            table.push(jsonl.len() as u64),
            records.push(json),
            jsonl + spec_frame(json),
            offsets_file + spec_u64_to_le_bytes(jsonl.len() as u64),
        ),
{
    lemma_append_describes(table, records, json);
    let t2 = table.push(jsonl.len() as u64);
    assert(t2.drop_last() =~= table);
}

/// Files that agree open to the same table: a non-empty offsets file is
/// read back as the table, and an empty one (no records) is rebuilt from
/// the JSON-lines file, which then holds no line either.
pub proof fn lemma_reopen(table: Seq<u64>, records: Seq<Seq<u8>>, jsonl: Seq<u8>, offsets_file: Seq<u8>)
    requires
        files_agree(table, records, jsonl, offsets_file),
    ensures
        offsets_file.len() != 0 ==> spec_decode_offsets(offsets_file) == table,
        offsets_file.len() == 0 ==> table.len() == 0 && line_starts(jsonl).len() == 0
            && lines_valid_utf8(jsonl),
{
    lemma_decode_encode(table);
    lemma_jsonl_shape(records);
    if offsets_file.len() == 0 {
        if table.len() > 0 {
            lemma_encode_nonempty(table);
        }
        assert(jsonl.len() == 0);
    }
}

/// Rebuilding establishes agreement: when the offsets file is empty and the
/// JSON-lines file is made of records that each fill one line of valid
/// UTF-8, the table that `open` rebuilds and the bytes it persists agree
/// with the JSON-lines file.
pub proof fn lemma_rebuild_establishes(table: Seq<u64>, records: Seq<Seq<u8>>)
    requires
        forall|k: int| 0 <= k < records.len() ==> #[trigger] single_line(records[k]),
        forall|k: int| 0 <= k < records.len() ==> #[trigger] valid_utf8(records[k]),
        table.len() == line_starts(jsonl_of(records)).len(),
        forall|k: int| 0 <= k < table.len() ==> table[k] == line_starts(jsonl_of(records))[k],
    ensures
        files_agree(table, records, jsonl_of(records), spec_encode_offsets(table)),
{
    lemma_line_starts_jsonl(records);
    lemma_jsonl_shape(records);
    assert forall|k: int| 0 <= k < table.len() implies table[k] as int == #[trigger] offsets_of(
        records,
    )[k] by {
        assert(table[k] == line_starts(jsonl_of(records))[k]);
    }
}

proof fn lemma_encode_nonempty(table: Seq<u64>)
    requires
        table.len() > 0,
    ensures
        spec_encode_offsets(table).len() > 0,
{
    lemma_auto_spec_u64_to_from_le_bytes();
    assert(spec_u64_to_le_bytes(table.last()).len() == 8);
}

/// The number of records is the number loaded by `open` plus the number of
/// appends since: each append adds one offset and keeps the earlier ones.
pub proof fn lemma_count_after_appends(loaded: Seq<u64>, appended: Seq<u64>)
    ensures
        (loaded + appended).len() == loaded.len() + appended.len(),
        forall|k: int| 0 <= k < loaded.len() ==> (loaded + appended)[k] == loaded[k],
        appended.len() > 0 ==> loaded + appended == (loaded + appended.drop_last()).push(
            appended.last(),
        ),
{
    if appended.len() > 0 {
        assert(loaded + appended =~= (loaded + appended.drop_last()).push(appended.last()));
    }
}

} // verus!
