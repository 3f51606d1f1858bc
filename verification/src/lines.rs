//! The JSON-lines file: how records are framed as lines, how a line is read
//! back, and how line start positions are recovered by scanning the file.

use vstd::prelude::*;
use crate::codec::NEWLINE;
use crate::text::is_valid_utf8;
use vstd::utf8::*;
use vstd::string::*;

verus! {

/// The bytes that store one record: its JSON followed by a newline.
pub open spec fn spec_frame(json: Seq<u8>) -> Seq<u8> {
    json.push(NEWLINE)
}

/// A record read back from its line: the line without its final newline, if
/// it has one.
pub open spec fn spec_payload(line: Seq<u8>) -> Seq<u8> {
    if line.len() > 0 && line.last() == NEWLINE {
        line.drop_last()
    } else {
        line
    }
}

/// The JSON-lines file made by appending `records` one after another.
pub open spec fn jsonl_of(records: Seq<Seq<u8>>) -> Seq<u8>
    decreases records.len(),
{
    if records.len() == 0 {
        Seq::empty()
    } else {
        jsonl_of(records.drop_last()) + spec_frame(records.last())
    }
}

/// The byte positions at which each of `records` starts in `jsonl_of(records)`.
pub open spec fn offsets_of(records: Seq<Seq<u8>>) -> Seq<int>
    decreases records.len(),
{
    if records.len() == 0 {
        Seq::empty()
    } else {
        offsets_of(records.drop_last()).push(jsonl_of(records.drop_last()).len() as int)
    }
}

/// Whether a record's bytes hold no newline, so that it fills exactly one line.
pub open spec fn single_line(json: Seq<u8>) -> bool {
    forall|k: int| 0 <= k < json.len() ==> #[trigger] json[k] != NEWLINE
}

/// The position just past the line that starts at `pos`: past its newline, or
/// the end of the file when the last line has none.
pub open spec fn line_end(content: Seq<u8>, pos: int) -> int
    decreases content.len() - pos,
{
    if pos < 0 || pos >= content.len() {
        content.len() as int
    } else if content[pos] == NEWLINE {
        pos + 1
    } else {
        line_end(content, pos + 1)
    }
}

pub proof fn lemma_line_end_bounds(content: Seq<u8>, pos: int)
    requires
        0 <= pos <= content.len(),
    ensures
        pos <= line_end(content, pos) <= content.len(),
        pos < content.len() ==> pos < line_end(content, pos),
    decreases content.len() - pos,
{
    if pos < content.len() && content[pos] != NEWLINE {
        lemma_line_end_bounds(content, pos + 1);
    }
}

/// The start positions of the lines from `pos` to the end of the file, as
/// reading line after line finds them.
pub open spec fn line_starts_from(content: Seq<u8>, pos: int) -> Seq<int>
    decreases content.len() - pos,
{
    if pos < 0 || pos >= content.len() {
        Seq::empty()
    } else {
        proof {
            lemma_line_end_bounds(content, pos);
        }
        seq![pos] + line_starts_from(content, line_end(content, pos))
    }
}

/// The start positions of all lines of a file.
pub open spec fn line_starts(content: Seq<u8>) -> Seq<int> {
    line_starts_from(content, 0)
}

/// The bytes to append to the JSON-lines file for one record.
pub fn frame_record(json: &[u8]) -> (line: Vec<u8>)
    ensures
        line@ == spec_frame(json@),
{
    let mut line: Vec<u8> = Vec::new();
    let mut i: usize = 0;
    while i < json.len()
        invariant
            i <= json@.len(),
            line@ == json@.take(i as int),
        decreases json.len() - i,
    {
        line.push(json[i]);
        i = i + 1;
        assert(line@ =~= json@.take(i as int));
    }
    line.push(NEWLINE);
    assert(line@ =~= json@.push(NEWLINE));
    line
}

/// The record held by a line read from the file: the line without its
/// trailing newline.
pub fn record_payload(line: &[u8]) -> (json: Vec<u8>)
    ensures
        json@ == spec_payload(line@),
{
    let mut json: Vec<u8> = Vec::new();
    let n = line.len();
    let keep = if n > 0 && line[n - 1] == NEWLINE { n - 1 } else { n };
    let mut i: usize = 0;
    while i < keep
        invariant
            n == line@.len(),
            keep <= n,
            i <= keep,
            json@ == line@.take(i as int),
        decreases keep - i,
    {
        json.push(line[i]);
        i = i + 1;
        assert(json@ =~= line@.take(i as int));
    }
    assert(json@ =~= spec_payload(line@));
    json
}

/// The line that starts at `pos`, newline included.
pub open spec fn line_at(content: Seq<u8>, pos: int) -> Seq<u8> {
    content.subrange(pos, line_end(content, pos))
}

/// Whether every line from `pos` to the end of the file is valid UTF-8, as
/// reading line after line into strings requires.
pub open spec fn lines_valid_utf8_from(content: Seq<u8>, pos: int) -> bool
    decreases content.len() - pos,
{
    if pos < 0 || pos >= content.len() {
        true
    } else {
        proof {
            lemma_line_end_bounds(content, pos);
        }
        valid_utf8(line_at(content, pos)) && lines_valid_utf8_from(content, line_end(content, pos))
    }
}

/// Whether every line of a file is valid UTF-8.
pub open spec fn lines_valid_utf8(content: Seq<u8>) -> bool {
    lines_valid_utf8_from(content, 0)
}

/// The kinds of I/O error that the library raises itself, named as
/// `std::io::ErrorKind` names them.
#[derive(Debug, Clone, Copy, PartialEq, Eq, Structural)]
pub enum IoErrorKind {
    /// The data read is not what was expected; `read_line` uses it for a
    /// line that is not valid UTF-8.
    InvalidData,
}

/// Why reading a line failed.
#[derive(Debug, Clone, Copy, PartialEq, Eq, Structural)]
pub enum LineError {
    /// The line is not valid UTF-8.
    InvalidUtf8,
}

impl LineError {
    /// The I/O error kind of this failure.
    pub open spec fn spec_kind(self) -> IoErrorKind {
        match self {
            LineError::InvalidUtf8 => IoErrorKind::InvalidData,
        }
    }

    /// The I/O error kind of this failure, as `read_line` reports it.
    pub fn kind(&self) -> (k: IoErrorKind)
        ensures
            k == self.spec_kind(),
    {
        match self {
            LineError::InvalidUtf8 => IoErrorKind::InvalidData,
        }
    }

    /// The message of this failure, as `read_line` reports it.
    pub fn message(&self) -> (m: String)
        ensures
            *self == LineError::InvalidUtf8 ==> m@ == "stream did not contain valid UTF-8"@,
    {
        match self {
            LineError::InvalidUtf8 => String::from_str("stream did not contain valid UTF-8"),
        }
    }
}

/// Reads the line that starts at `pos`, as `read_line` would, and records
/// where it starts: when a line is left, its start is pushed onto `offsets`
/// and `pos` moves past it; at the end of the file nothing changes. A line
/// that is not valid UTF-8 is refused with an error, and then nothing
/// changes either.
pub fn offset_record(content: &[u8], offsets: &mut Vec<u64>, pos: &mut u64) -> (r: Result<
    (),
    LineError,
>)
    requires
        *old(pos) <= content@.len(),
    ensures
        r is Ok <==> valid_utf8(line_at(content@, *old(pos) as int)),
        r is Err ==> final(offsets)@ == old(offsets)@ && *final(pos) == *old(pos),
        r matches Err(e) ==> e == LineError::InvalidUtf8 && e.spec_kind() == IoErrorKind::InvalidData,
        r is Ok && *old(pos) == content@.len() ==> final(offsets)@ == old(offsets)@ && *final(pos)
            == *old(pos),
        r is Ok && *old(pos) < content@.len() ==> final(offsets)@ == old(offsets)@.push(*old(pos))
            && *final(pos) == line_end(content@, *old(pos) as int),
{
    let len = content.len();
    let start = *pos as usize;
    let mut i = start;
    while i < len && content[i] != NEWLINE
        invariant
            len == content@.len(),
            start <= i <= len,
            line_end(content@, start as int) == line_end(content@, i as int),
        decreases len - i,
    {
        i = i + 1;
    }
    let end = if i < len { i + 1 } else { len };
    proof {
        lemma_line_end_bounds(content@, start as int);
    }
    let line = &content[start..end];
    if !is_valid_utf8(line) {
        return Err(LineError::InvalidUtf8);
    }
    let bytes = end - start;
    if bytes == 0 {
        return Ok(());
    }
    offsets.push(*pos);
    *pos = *pos + bytes as u64;
    Ok(())
}

/// The start positions of the lines of a JSON-lines file, found by reading it
/// line by line from the beginning; an error when some line is not valid
/// UTF-8.
pub fn rebuild_offsets(content: &[u8]) -> (r: Result<Vec<u64>, LineError>)
    ensures
        r matches Err(e) ==> e == LineError::InvalidUtf8 && e.spec_kind() == IoErrorKind::InvalidData,
        r is Ok <==> lines_valid_utf8(content@),
        r matches Ok(offsets) ==> offsets@.len() == line_starts(content@).len() && forall|k: int|
            0 <= k < offsets@.len() ==> offsets@[k] == line_starts(content@)[k],
{
    let len = content.len() as u64;
    let mut offsets: Vec<u64> = Vec::new();
    let mut pos: u64 = 0;
    loop
        invariant
            len == content@.len(),
            pos <= len,
            lines_valid_utf8(content@) == lines_valid_utf8_from(content@, pos as int),
            offsets@.len() + line_starts_from(content@, pos as int).len() == line_starts(
                content@,
            ).len(),
            forall|k: int|
                0 <= k < offsets@.len() ==> offsets@[k] == line_starts(content@)[k],
            forall|k: int|
                0 <= k < line_starts_from(content@, pos as int).len() ==> line_starts_from(
                    content@,
                    pos as int,
                )[k] == line_starts(content@)[offsets@.len() + k],
        ensures
            pos == len,
            lines_valid_utf8(content@),
        decreases len - pos,
    {
        let ghost before = pos;
        proof {
            if before < len {
                lemma_line_end_bounds(content@, before as int);
            }
        }
        match offset_record(content, &mut offsets, &mut pos) {
            Ok(()) => {},
            Err(e) => {
                return Err(e);
            },
        }
        proof {
            if before < len {
                let rest = line_starts_from(content@, before as int);
                assert(rest == seq![before as int] + line_starts_from(content@, pos as int));
                assert(rest[0] == before);
                assert forall|k: int|
                    0 <= k < line_starts_from(content@, pos as int).len() implies #[trigger] line_starts_from(
                        content@,
                        pos as int,
                    )[k] == line_starts(content@)[offsets@.len() + k] by {
                    assert(line_starts_from(content@, pos as int)[k] == rest[k + 1]);
                }
            }
        }
        if pos == len {
            break;
        }
    }
    assert(line_starts_from(content@, pos as int).len() == 0);
    Ok(offsets)
}

/// Length facts about a file built from records: it is empty exactly when
/// there are no records, otherwise it ends with a newline, and there is one
/// offset per record.
pub proof fn lemma_jsonl_shape(records: Seq<Seq<u8>>)
    ensures
        offsets_of(records).len() == records.len(),
        records.len() == 0 ==> jsonl_of(records).len() == 0,
        records.len() > 0 ==> jsonl_of(records).len() > 0 && jsonl_of(records).last() == NEWLINE,
    decreases records.len(),
{
    if records.len() > 0 {
        lemma_jsonl_shape(records.drop_last());
    }
}

/// Each record of a JSON-lines file occupies the bytes from its offset to the
/// next record's offset, or to the end of the file for the last record, and
/// those bytes are exactly the record's line.
pub proof fn lemma_record_bytes(records: Seq<Seq<u8>>, i: int)
    requires
        0 <= i < records.len(),
    ensures
        ({
            let o = offsets_of(records);
            let c = jsonl_of(records);
            let e = if i + 1 < records.len() { o[i + 1] } else { c.len() as int };
            &&& 0 <= o[i] <= e <= c.len()
            &&& c.subrange(o[i], e) == spec_frame(records[i])
        }),
    decreases records.len(),
{
    lemma_jsonl_shape(records);
    let init = records.drop_last();
    lemma_jsonl_shape(init);
    let c = jsonl_of(records);
    let ci = jsonl_of(init);
    let o = offsets_of(records);
    assert(c == ci + spec_frame(records.last()));
    if i + 1 < records.len() {
        lemma_record_bytes(init, i);
        let oi = offsets_of(init);
        assert(o[i] == oi[i]);
        let e = if i + 1 < init.len() { oi[i + 1] } else { ci.len() as int };
        assert(o[i + 1] == e);
        assert(c.subrange(o[i], e) =~= ci.subrange(oi[i], e));
    } else {
        assert(o[i] == ci.len());
        assert(c.subrange(o[i], c.len() as int) =~= spec_frame(records.last()));
    }
}

/// Reading a record back from its line gives the record.
pub proof fn lemma_payload_frame(json: Seq<u8>)
    ensures
        spec_payload(spec_frame(json)) == json,
{
    assert(spec_frame(json).drop_last() =~= json);
}

/// Appending one more record appends its line to the file and its start, the
/// old file length, to the offsets.
pub proof fn lemma_jsonl_push(records: Seq<Seq<u8>>, json: Seq<u8>)
    ensures
        jsonl_of(records.push(json)) == jsonl_of(records) + spec_frame(json),
        offsets_of(records.push(json)) == offsets_of(records).push(jsonl_of(records).len() as int),
{
    assert(records.push(json).drop_last() =~= records);
}

proof fn lemma_line_end_in_prefix(c: Seq<u8>, f: Seq<u8>, p: int)
    requires
        c.len() > 0,
        c.last() == NEWLINE,
        0 <= p < c.len(),
    ensures
        line_end(c + f, p) == line_end(c, p),
    decreases c.len() - p,
{
    if c[p] != NEWLINE {
        lemma_line_end_in_prefix(c, f, p + 1);
    }
}

proof fn lemma_line_starts_split(c: Seq<u8>, f: Seq<u8>, p: int)
    requires
        0 <= p <= c.len(),
        p == c.len() || (c.len() > 0 && c.last() == NEWLINE),
    ensures
        line_starts_from(c + f, p) == line_starts_from(c, p) + line_starts_from(c + f, c.len() as int),
    decreases c.len() - p,
{
    if p == c.len() {
        assert(line_starts_from(c, p) =~= Seq::<int>::empty());
        assert(line_starts_from(c + f, p) =~= line_starts_from(c, p) + line_starts_from(
            c + f,
            c.len() as int,
        ));
    } else {
        lemma_line_end_in_prefix(c, f, p);
        lemma_line_end_bounds(c, p);
        lemma_line_end_bounds(c + f, p);
        let q = line_end(c, p);
        lemma_line_starts_split(c, f, q);
        assert(line_starts_from(c + f, p) == seq![p] + line_starts_from(c + f, q));
        assert(line_starts_from(c, p) == seq![p] + line_starts_from(c, q));
        assert(line_starts_from(c + f, p) =~= line_starts_from(c, p) + line_starts_from(
            c + f,
            c.len() as int,
        ));
    }
}

proof fn lemma_line_end_last(c: Seq<u8>, json: Seq<u8>, p: int)
    requires
        single_line(json),
        c.len() <= p <= c.len() + json.len(),
    ensures
        line_end(c + spec_frame(json), p) == c.len() + json.len() + 1,
    decreases c.len() + json.len() - p,
{
    let cf = c + spec_frame(json);
    if p < c.len() + json.len() {
        assert(cf[p] == json[p - c.len()]);
        lemma_line_end_last(c, json, p + 1);
    } else {
        assert(cf[p] == NEWLINE);
    }
}

/// Scanning a JSON-lines file whose records each fill one line finds exactly
/// the offsets at which the records were appended: rebuilding the offsets
/// from the file agrees with the offsets recorded while appending.
pub proof fn lemma_line_starts_jsonl(records: Seq<Seq<u8>>)
    requires
        forall|k: int| 0 <= k < records.len() ==> #[trigger] single_line(records[k]),
    ensures
        line_starts(jsonl_of(records)) == offsets_of(records),
    decreases records.len(),
{
    if records.len() == 0 {
        assert(line_starts(jsonl_of(records)) =~= offsets_of(records));
    } else {
        let init = records.drop_last();
        let json = records.last();
        assert(single_line(records[records.len() - 1]));
        assert forall|k: int| 0 <= k < init.len() implies #[trigger] single_line(init[k]) by {
            assert(init[k] == records[k]);
        }
        lemma_line_starts_jsonl(init);
        lemma_jsonl_shape(init);
        let c = jsonl_of(init);
        let f = spec_frame(json);
        assert(jsonl_of(records) == c + f);
        lemma_line_starts_split(c, f, 0);
        lemma_line_end_last(c, json, c.len() as int);
        let cf = c + f;
        assert(line_starts_from(cf, cf.len() as int) =~= Seq::<int>::empty());
        assert(line_starts_from(cf, c.len() as int) =~= seq![c.len() as int]);
        assert(line_starts(jsonl_of(records)) =~= offsets_of(records));
    }
}

/// A newline after valid UTF-8 is still valid UTF-8.
pub proof fn lemma_valid_utf8_push_newline(bytes: Seq<u8>)
    requires
        valid_utf8(bytes),
    ensures
        valid_utf8(bytes.push(NEWLINE)),
    decreases bytes.len(),
{
    let b = bytes.push(NEWLINE);
    if bytes.len() == 0 {
        assert(valid_first_scalar(b));
        assert(pop_first_scalar(b) =~= Seq::<u8>::empty());
        assert(valid_utf8(pop_first_scalar(b)));
    } else {
        assert(valid_first_scalar(bytes));
        let w = length_of_first_scalar(bytes);
        assert(forall|k: int| 0 <= k < bytes.len() ==> b[k] == bytes[k]);
        assert(valid_leading_and_continuation_bytes_first_codepoint(b));
        assert(decode_first_codepoint(b) == decode_first_codepoint(bytes));
        assert(length_of_first_codepoint(b) == w);
        assert(valid_first_scalar(b));
        assert(pop_first_scalar(b) =~= pop_first_scalar(bytes).push(NEWLINE));
        lemma_pop_shorter(bytes);
        lemma_valid_utf8_push_newline(pop_first_scalar(bytes));
        assert(valid_utf8(pop_first_scalar(b)));
    }
}

proof fn lemma_pop_shorter(bytes: Seq<u8>)
    requires
        bytes.len() > 0,
        valid_first_scalar(bytes),
    ensures
        pop_first_scalar(bytes).len() < bytes.len(),
{
}

proof fn lemma_lines_valid_split(c: Seq<u8>, f: Seq<u8>, p: int)
    requires
        0 <= p <= c.len(),
        p == c.len() || (c.len() > 0 && c.last() == NEWLINE),
    ensures
        lines_valid_utf8_from(c + f, p) == (lines_valid_utf8_from(c, p) && lines_valid_utf8_from(
            c + f,
            c.len() as int,
        )),
    decreases c.len() - p,
{
    if p < c.len() {
        lemma_line_end_in_prefix(c, f, p);
        lemma_line_end_bounds(c, p);
        let q = line_end(c, p);
        assert(line_at(c + f, p) =~= line_at(c, p));
        lemma_line_starts_split(c, f, q);
        lemma_lines_valid_split(c, f, q);
    }
}

/// The file built from records that each fill one line of valid UTF-8 has
/// only valid UTF-8 lines, so scanning it succeeds.
pub proof fn lemma_jsonl_lines_valid(records: Seq<Seq<u8>>)
    requires
        forall|k: int| 0 <= k < records.len() ==> #[trigger] single_line(records[k]),
        forall|k: int| 0 <= k < records.len() ==> #[trigger] valid_utf8(records[k]),
    ensures
        lines_valid_utf8(jsonl_of(records)),
    decreases records.len(),
{
    if records.len() > 0 {
        let init = records.drop_last();
        let json = records.last();
        assert(single_line(records[records.len() - 1]));
        assert(valid_utf8(records[records.len() - 1]));
        assert forall|k: int| 0 <= k < init.len() implies #[trigger] single_line(init[k]) by {
            assert(init[k] == records[k]);
        }
        assert forall|k: int| 0 <= k < init.len() implies #[trigger] valid_utf8(init[k]) by {
            assert(init[k] == records[k]);
        }
        lemma_jsonl_lines_valid(init);
        lemma_jsonl_shape(init);
        let c = jsonl_of(init);
        let f = spec_frame(json);
        assert(jsonl_of(records) == c + f);
        lemma_lines_valid_split(c, f, 0);
        lemma_line_end_last(c, json, c.len() as int);
        let cf = c + f;
        assert(line_at(cf, c.len() as int) =~= f);
        lemma_valid_utf8_push_newline(json);
        assert(lines_valid_utf8_from(cf, cf.len() as int));
        assert(lines_valid_utf8_from(cf, c.len() as int));
    }
}

proof fn lemma_line_end_scan(c: Seq<u8>, pos: int)
    requires
        0 <= pos < c.len(),
    ensures
        forall|k: int| pos <= k < line_end(c, pos) - 1 ==> c[k] != NEWLINE,
        line_end(c, pos) == c.len() || c[line_end(c, pos) - 1] == NEWLINE,
    decreases c.len() - pos,
{
    lemma_line_end_bounds(c, pos);
    if c[pos] != NEWLINE {
        if pos + 1 < c.len() {
            lemma_line_end_scan(c, pos + 1);
        } else {
            assert(line_end(c, pos + 1) == c.len());
        }
    }
}

proof fn lemma_line_starts_from_explicit(c: Seq<u8>, pos: int)
    requires
        0 <= pos <= c.len(),
        pos == 0 || pos == c.len() || c[pos - 1] == NEWLINE,
    ensures
        forall|p: int|
            line_starts_from(c, pos).contains(p) <==> pos <= p < c.len() && (p == pos || c[p - 1]
                == NEWLINE),
        forall|i: int|
            0 <= i < line_starts_from(c, pos).len() ==> pos <= #[trigger] line_starts_from(c, pos)[i],
        forall|i: int, j: int|
            0 <= i < j < line_starts_from(c, pos).len() ==> line_starts_from(c, pos)[i]
                < line_starts_from(c, pos)[j],
    decreases c.len() - pos,
{
    let ls = line_starts_from(c, pos);
    if pos < c.len() {
        lemma_line_end_bounds(c, pos);
        lemma_line_end_scan(c, pos);
        let q = line_end(c, pos);
        lemma_line_starts_from_explicit(c, q);
        let rest = line_starts_from(c, q);
        assert(ls == seq![pos] + rest);
        assert forall|p: int| ls.contains(p) <==> pos <= p < c.len() && (p == pos || c[p - 1]
            == NEWLINE) by {
            if ls.contains(p) {
                let i = choose|i: int| 0 <= i < ls.len() && ls[i] == p;
                if i > 0 {
                    assert(rest[i - 1] == p);
                    assert(rest.contains(p));
                }
            }
            if pos <= p < c.len() && (p == pos || c[p - 1] == NEWLINE) {
                if p == pos {
                    assert(ls[0] == p);
                } else {
                    assert(q <= p);
                    assert(rest.contains(p));
                    let i = choose|i: int| 0 <= i < rest.len() && rest[i] == p;
                    assert(ls[i + 1] == p);
                }
            }
        }
        assert forall|i: int| 0 <= i < ls.len() implies pos <= #[trigger] ls[i] by {
            if i > 0 {
                assert(ls[i] == rest[i - 1]);
            }
        }
        assert forall|i: int, j: int| 0 <= i < j < ls.len() implies ls[i] < ls[j] by {
            assert(ls[j] == rest[j - 1]);
            if i > 0 {
                assert(ls[i] == rest[i - 1]);
            } else {
                assert(q <= rest[j - 1]);
            }
        }
    } else {
        assert(ls.len() == 0);
    }
}

/// The lines of a file start at position 0, if the file is not empty, and
/// just after each newline that is not the file's last byte, in increasing
/// order.
pub proof fn lemma_line_starts_explicit(content: Seq<u8>)
    ensures
        forall|p: int|
            line_starts(content).contains(p) <==> 0 <= p < content.len() && (p == 0 || content[p
                - 1] == NEWLINE),
        forall|i: int, j: int|
            0 <= i < j < line_starts(content).len() ==> line_starts(content)[i] < line_starts(
                content,
            )[j],
{
    lemma_line_starts_from_explicit(content, 0);
}

} // verus!
