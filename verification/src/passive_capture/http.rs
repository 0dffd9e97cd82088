//! TCP stream reassembly and HTTP/1.1 message framing.
use vstd::prelude::*;
use vstd::utf8::{valid_utf8, decode_utf8};
use super::CaptureError;
use crate::text::{
    ascii_lower, ascii_lower_exec, before_first, chars_of, find_bytes, find_chars, first_index,
    first_index_char, first_occurrence_from, occurs_at, parse_hex_usize, parse_hex_usize_spec,
    parse_usize, parse_usize_spec, some_piece_trims_to, some_piece_trims_to_exec, trim,
    trim_chars, utf8_decode,
};
use flate2::read::GzDecoder;
use std::io::Read;

verus! {

/// A TCP payload with its sequence number and capture time.
pub struct Segment {
    pub sequence: u32,
    pub timestamp_ms: u64,
    pub bytes: Vec<u8>,
}

/// The model of a segment.
pub struct SegmentModel {
    pub sequence: u32,
    pub timestamp_ms: u64,
    pub bytes: Seq<u8>,
}

impl Segment {
    pub open spec fn model(&self) -> SegmentModel {
        SegmentModel { sequence: self.sequence, timestamp_ms: self.timestamp_ms, bytes: self.bytes@ }
    }
}

pub open spec fn segment_models(s: Seq<Segment>) -> Seq<SegmentModel> {
    s.map_values(|x: Segment| x.model())
}

/// A reassembled byte stream and, for each appended segment, the stream
/// offset where it starts and its capture time.
pub struct ByteStream {
    pub bytes: Vec<u8>,
    pub marks: Vec<(usize, u64)>,
}

/// Where a segment with key `k` goes among `s`: after every trailing
/// element whose key is not greater.
pub open spec fn segment_insert_pos(s: Seq<SegmentModel>, k: u32) -> int
    decreases s.len(),
{
    if s.len() == 0 {
        0
    } else if s.last().sequence > k {
        segment_insert_pos(s.drop_last(), k)
    } else {
        s.len() as int
    }
}

/// Segments ordered by sequence number, keeping the capture order of equal
/// sequence numbers (a stable sort).
pub open spec fn sort_segments_spec(s: Seq<SegmentModel>) -> Seq<SegmentModel>
    decreases s.len(),
{
    if s.len() == 0 {
        s
    } else {
        let r = sort_segments_spec(s.drop_last());
        r.insert(segment_insert_pos(r, s.last().sequence), s.last())
    }
}

pub proof fn lemma_segment_insert_pos(s: Seq<SegmentModel>, k: u32)
    ensures
        0 <= segment_insert_pos(s, k) <= s.len(),
    decreases s.len(),
{
    if s.len() > 0 {
        lemma_segment_insert_pos(s.drop_last(), k);
    }
}

pub proof fn lemma_sort_segments_len(s: Seq<SegmentModel>)
    ensures
        sort_segments_spec(s).len() == s.len(),
    decreases s.len(),
{
    if s.len() > 0 {
        lemma_sort_segments_len(s.drop_last());
        lemma_segment_insert_pos(sort_segments_spec(s.drop_last()), s.last().sequence);
    }
}

fn sort_segments(segments: Vec<Segment>) -> (res: Vec<Segment>)
    ensures
        segment_models(res@) == sort_segments_spec(segment_models(segments@)),
{
    let mut out: Vec<Segment> = Vec::new();
    let mut input = segments;
    let ghost original = input@;
    let total = input.len();
    let mut rev: Vec<Segment> = Vec::new();
    assert(original.take(original.len() as int) =~= original);
    while input.len() > 0
        invariant
            rev@.len() + input@.len() == original.len(),
            original.len() == total,
            input@ == original.take(input@.len() as int),
            forall|j: int| 0 <= j < rev@.len() ==> rev@[j] == original[original.len() - 1 - j],
        decreases input.len(),
    {
        let x = input.pop().unwrap();
        rev.push(x);
    }
    let mut n: usize = 0;
    while rev.len() > 0
        invariant
            n + rev@.len() == original.len(),
            original.len() <= usize::MAX,
            forall|j: int| 0 <= j < rev@.len() ==> rev@[j] == original[original.len() - 1 - j],
            segment_models(out@) == sort_segments_spec(segment_models(original.take(n as int))),
        decreases rev.len(),
    {
        let x = rev.pop().unwrap();
        assert(x == original[n as int]);
        let ghost om = segment_models(out@);
        proof {
            lemma_sort_segments_len(segment_models(original.take(n as int)));
            assert(segment_models(original.take(n + 1)).drop_last() =~= segment_models(original.take(n as int)));
            assert(segment_models(original.take(n + 1)).last() == x.model());
        }
        let mut p = out.len();
        assert(om.take(p as int) =~= om);
        while p > 0 && out[p - 1].sequence > x.sequence
            invariant
                p <= out@.len(),
                om == segment_models(out@),
                segment_insert_pos(om, x.sequence) == segment_insert_pos(om.take(p as int), x.sequence),
            decreases p,
        {
            assert(om.take(p as int).drop_last() =~= om.take(p - 1));
            p = p - 1;
        }
        proof {
            if p > 0 {
                assert(segment_insert_pos(om.take(p as int), x.sequence) == p);
            }
            assert(segment_models(out@.insert(p as int, x)) =~= om.insert(p as int, x.model()));
        }
        out.insert(p, x);
        n = n + 1;
    }
    assert(original.take(original.len() as int) =~= original);
    out
}

/// A segment's offset in the stream: its sequence number minus the first
/// one, modulo 2^32.
pub open spec fn stream_offset(sequence: u32, base: u32) -> int {
    if sequence >= base {
        sequence - base
    } else {
        sequence + 4294967296 - base
    }
}

/// Appending sorted segments: a segment that starts past the end, or whose
/// bytes are all already present, is skipped; otherwise its new bytes are
/// appended and a mark records where they start.
pub open spec fn reassemble_from(segments: Seq<SegmentModel>, base: u32) -> (Seq<u8>, Seq<(usize, u64)>)
    decreases segments.len(),
{
    if segments.len() == 0 {
        (Seq::empty(), Seq::empty())
    } else {
        let (bytes, marks) = reassemble_from(segments.drop_last(), base);
        let segment = segments.last();
        let start = stream_offset(segment.sequence, base);
        if start > bytes.len() {
            (bytes, marks)
        } else if bytes.len() - start >= segment.bytes.len() {
            (bytes, marks)
        } else {
            (
                bytes + segment.bytes.skip(bytes.len() - start),
                marks.push((bytes.len() as usize, segment.timestamp_ms)),
            )
        }
    }
}

/// The stream reassembled from a flow's segments.
pub open spec fn reassemble_spec(segments: Seq<SegmentModel>) -> (Seq<u8>, Seq<(usize, u64)>) {
    let sorted = sort_segments_spec(segments);
    if sorted.len() == 0 {
        (Seq::empty(), Seq::empty())
    } else {
        reassemble_from(sorted, sorted[0].sequence)
    }
}

/// Reassembles one direction of a TCP flow into a byte stream.
pub fn reassemble(segments: Vec<Segment>) -> (res: ByteStream)
    ensures
        (res.bytes@, res.marks@) == reassemble_spec(segment_models(segments@)),
{
    let ghost input = segments@;
    let sorted = sort_segments(segments);
    if sorted.len() == 0 {
        return ByteStream { bytes: Vec::new(), marks: Vec::new() };
    }
    let base = sorted[0].sequence;
    let mut bytes: Vec<u8> = Vec::new();
    let mut marks: Vec<(usize, u64)> = Vec::new();
    let mut i: usize = 0;
    while i < sorted.len()
        invariant
            i <= sorted@.len(),
            base == sorted@[0].sequence,
            sorted@.len() > 0,
            (bytes@, marks@) == reassemble_from(segment_models(sorted@).take(i as int), base),
        decreases sorted.len() - i,
    {
        let segment = &sorted[i];
        assert(segment_models(sorted@).take(i + 1).drop_last() =~= segment_models(sorted@).take(i as int));
        let start_wide: u64 = if segment.sequence >= base {
            (segment.sequence - base) as u64
        } else {
            segment.sequence as u64 + 4294967296 - base as u64
        };
        if start_wide <= bytes.len() as u64 {
            let start = start_wide as usize;
            let overlap = bytes.len() - start;
            if overlap < segment.bytes.len() {
                marks.push((bytes.len(), segment.timestamp_ms));
                let mut k = overlap;
                let ghost before = bytes@;
                while k < segment.bytes.len()
                    invariant
                        overlap <= k <= segment.bytes@.len(),
                        bytes@ == before + segment.bytes@.subrange(overlap as int, k as int),
                    decreases segment.bytes.len() - k,
                {
                    bytes.push(segment.bytes[k]);
                    assert(segment.bytes@.subrange(overlap as int, k + 1) =~= segment.bytes@.subrange(overlap as int, k as int).push(segment.bytes@[k as int]));
                    k = k + 1;
                }
                assert(segment.bytes@.subrange(overlap as int, segment.bytes@.len() as int) =~= segment.bytes@.skip(overlap as int));
            }
        }
        i = i + 1;
    }
    assert(segment_models(sorted@).take(sorted@.len() as int) =~= segment_models(sorted@));
    ByteStream { bytes, marks }
}

/// The capture time of the byte at `offset`: that of the last mark at or
/// before it, else of the first mark, else zero.
pub open spec fn timestamp_for_spec(marks: Seq<(usize, u64)>, offset: int) -> u64 {
    match last_mark_at_or_before(marks, offset) {
        Some(t) => t,
        None => if marks.len() > 0 { marks[0].1 } else { 0 },
    }
}

pub open spec fn last_mark_at_or_before(marks: Seq<(usize, u64)>, offset: int) -> Option<u64>
    decreases marks.len(),
{
    if marks.len() == 0 {
        None
    } else if marks.last().0 <= offset {
        Some(marks.last().1)
    } else {
        last_mark_at_or_before(marks.drop_last(), offset)
    }
}

impl ByteStream {
    pub fn timestamp_for(&self, offset: usize) -> (res: u64)
        ensures
            res == timestamp_for_spec(self.marks@, offset as int),
    {
        let mut n = self.marks.len();
        assert(self.marks@.take(n as int) =~= self.marks@);
        while n > 0
            invariant
                n <= self.marks@.len(),
                last_mark_at_or_before(self.marks@, offset as int) == last_mark_at_or_before(self.marks@.take(n as int), offset as int),
            decreases n,
        {
            if self.marks[n - 1].0 <= offset {
                return self.marks[n - 1].1;
            }
            assert(self.marks@.take(n as int).drop_last() =~= self.marks@.take(n - 1));
            n = n - 1;
        }
        if self.marks.len() > 0 {
            self.marks[0].1
        } else {
            0
        }
    }
}


pub open spec fn crlf_bytes() -> Seq<u8> {
    seq![13u8, 10u8]
}

pub open spec fn crlfcrlf_bytes() -> Seq<u8> {
    seq![13u8, 10u8, 13u8, 10u8]
}

pub open spec fn crlf_chars() -> Seq<char> {
    seq!['\r', '\n']
}

/// The earlier of two optional positions.
pub open spec fn opt_min(a: Option<int>, b: Option<int>) -> Option<int> {
    match (a, b) {
        (Some(x), Some(y)) => Some(if x <= y { x } else { y }),
        (Some(x), None) => Some(x),
        (None, Some(y)) => Some(y),
        (None, None) => None,
    }
}

pub open spec fn request_patterns() -> Seq<Seq<u8>> {
    seq![
        seq![0x50u8, 0x4fu8, 0x53u8, 0x54u8, 0x20u8],
        seq![0x50u8, 0x55u8, 0x54u8, 0x20u8],
        seq![0x50u8, 0x41u8, 0x54u8, 0x43u8, 0x48u8, 0x20u8],
        seq![0x47u8, 0x45u8, 0x54u8, 0x20u8],
        seq![0x44u8, 0x45u8, 0x4cu8, 0x45u8, 0x54u8, 0x45u8, 0x20u8],
    ]
}

pub open spec fn response_patterns() -> Seq<Seq<u8>> {
    seq![
        seq![0x48u8, 0x54u8, 0x54u8, 0x50u8, 0x2fu8, 0x31u8, 0x2eu8, 0x31u8, 0x20u8],
        seq![0x48u8, 0x54u8, 0x54u8, 0x50u8, 0x2fu8, 0x31u8, 0x2eu8, 0x30u8, 0x20u8],
    ]
}

/// The earliest position at or after `offset` where any of `patterns` occurs.
pub open spec fn earliest_of(b: Seq<u8>, patterns: Seq<Seq<u8>>, offset: int) -> Option<int>
    decreases patterns.len(),
{
    if patterns.len() == 0 {
        None
    } else {
        opt_min(earliest_of(b, patterns.drop_last(), offset), first_occurrence_from(b, patterns.last(), offset))
    }
}

/// Where the next request (`POST `, `PUT `, `PATCH `, `GET `, `DELETE `) or
/// response (`HTTP/1.1 `, `HTTP/1.0 `) starts.
pub open spec fn http_start_spec(b: Seq<u8>, offset: int, response: bool) -> Option<int> {
    earliest_of(b, if response { response_patterns() } else { request_patterns() }, offset)
}

fn pattern_bytes(response: bool, k: usize) -> (res: Vec<u8>)
    requires
        k < (if response { 2nat } else { 5nat }),
    ensures
        res@ == (if response { response_patterns() } else { request_patterns() })[k as int],
{
    let mut v: Vec<u8> = Vec::new();
    if response {
        v.push(0x48); v.push(0x54); v.push(0x54); v.push(0x50); v.push(0x2f); v.push(0x31); v.push(0x2e);
        if k == 0 { v.push(0x31); } else { v.push(0x30); }
        v.push(0x20);
    } else if k == 0 {
        v.push(0x50); v.push(0x4f); v.push(0x53); v.push(0x54); v.push(0x20);
    } else if k == 1 {
        v.push(0x50); v.push(0x55); v.push(0x54); v.push(0x20);
    } else if k == 2 {
        v.push(0x50); v.push(0x41); v.push(0x54); v.push(0x43); v.push(0x48); v.push(0x20);
    } else if k == 3 {
        v.push(0x47); v.push(0x45); v.push(0x54); v.push(0x20);
    } else {
        v.push(0x44); v.push(0x45); v.push(0x4c); v.push(0x45); v.push(0x54); v.push(0x45); v.push(0x20);
    }
    proof {
        let pats = if response { response_patterns() } else { request_patterns() };
        assert(v@ =~= pats[k as int]);
    }
    v
}

/// The start of the next HTTP message at or after `offset`.
pub fn find_http_start(bytes: &[u8], offset: usize, response: bool) -> (res: Option<usize>)
    ensures
        match res {
            Some(i) => http_start_spec(bytes@, offset as int, response) == Some(i as int),
            None => http_start_spec(bytes@, offset as int, response) is None,
        },
{
    let count: usize = if response { 2 } else { 5 };
    let ghost pats = if response { response_patterns() } else { request_patterns() };
    let mut best: Option<usize> = None;
    let mut k: usize = 0;
    while k < count
        invariant
            k <= count,
            count == pats.len(),
            pats == (if response { response_patterns() } else { request_patterns() }),
            earliest_of(bytes@, pats.take(k as int), offset as int) == (match best {
                Some(i) => Some(i as int),
                None => None::<int>,
            }),
        decreases count - k,
    {
        let pattern = pattern_bytes(response, k);
        let found = find_bytes(bytes, pattern.as_slice(), offset);
        proof {
            assert(pats.take(k + 1).drop_last() =~= pats.take(k as int));
            assert(pats.take(k + 1).last() == pats[k as int]);
            assert(earliest_of(bytes@, pats.take(k + 1), offset as int) == opt_min(
                earliest_of(bytes@, pats.take(k as int), offset as int),
                first_occurrence_from(bytes@, pats[k as int], offset as int),
            ));
        }
        best = match (best, found) {
            (Some(x), Some(y)) => Some(if x <= y { x } else { y }),
            (Some(x), None) => Some(x),
            (None, Some(y)) => Some(y),
            (None, None) => None,
        };
        k = k + 1;
    }
    assert(pats.take(count as int) =~= pats);
    best
}

/// The four headers the report reads, each already trimmed and lowercased.
pub struct Headers {
    pub content_length: Option<Vec<char>>,
    pub transfer_encoding: Option<Vec<char>>,
    pub content_encoding: Option<Vec<char>>,
    pub content_type: Option<Vec<char>>,
}

pub struct HeadersModel {
    pub content_length: Option<Seq<char>>,
    pub transfer_encoding: Option<Seq<char>>,
    pub content_encoding: Option<Seq<char>>,
    pub content_type: Option<Seq<char>>,
}

pub open spec fn opt_chars(o: Option<Vec<char>>) -> Option<Seq<char>> {
    match o {
        Some(v) => Some(v@),
        None => None,
    }
}

impl Headers {
    pub open spec fn model(&self) -> HeadersModel {
        HeadersModel {
            content_length: opt_chars(self.content_length),
            transfer_encoding: opt_chars(self.transfer_encoding),
            content_encoding: opt_chars(self.content_encoding),
            content_type: opt_chars(self.content_type),
        }
    }
}

pub open spec fn no_headers() -> HeadersModel {
    HeadersModel { content_length: None, transfer_encoding: None, content_encoding: None, content_type: None }
}

/// One header line `name: value`; a later line for the same name replaces
/// an earlier one, and other names are ignored.
pub open spec fn header_update(h: HeadersModel, line: Seq<char>) -> HeadersModel {
    match first_index(line, ':') {
        Some(k) => {
            let name = ascii_lower(trim(line.take(k)));
            let value = ascii_lower(trim(line.skip(k + 1)));
            if name == "content-length"@ {
                HeadersModel { content_length: Some(value), ..h }
            } else if name == "transfer-encoding"@ {
                HeadersModel { transfer_encoding: Some(value), ..h }
            } else if name == "content-encoding"@ {
                HeadersModel { content_encoding: Some(value), ..h }
            } else if name == "content-type"@ {
                HeadersModel { content_type: Some(value), ..h }
            } else {
                h
            }
        },
        None => h,
    }
}

/// Applies every CRLF-separated line of `text` in order.
pub open spec fn headers_from(h: HeadersModel, text: Seq<char>) -> HeadersModel
    decreases text.len(),
{
    match first_occurrence_from(text, crlf_chars(), 0) {
        Some(i) => {
            proof { crate::text::lemma_first_occurrence_from(text, crlf_chars(), 0); }
            headers_from(header_update(h, text.take(i)), text.skip(i + 2))
        },
        None => header_update(h, text),
    }
}

/// The first line of a header block.
pub open spec fn start_line_of(text: Seq<char>) -> Seq<char> {
    match first_occurrence_from(text, crlf_chars(), 0) {
        Some(i) => text.take(i),
        None => text,
    }
}

/// The headers after the first line of a header block.
pub open spec fn headers_of(text: Seq<char>) -> HeadersModel {
    match first_occurrence_from(text, crlf_chars(), 0) {
        Some(i) => headers_from(no_headers(), text.skip(i + 2)),
        None => no_headers(),
    }
}

fn copy_chars(s: &[char], from: usize, to: usize) -> (res: Vec<char>)
    requires
        from <= to <= s@.len(),
    ensures
        res@ == s@.subrange(from as int, to as int),
{
    let mut out: Vec<char> = Vec::new();
    let mut i = from;
    while i < to
        invariant
            from <= i <= to,
            to <= s@.len(),
            out@ == s@.subrange(from as int, i as int),
        decreases to - i,
    {
        out.push(s[i]);
        assert(s@.subrange(from as int, i + 1) =~= s@.subrange(from as int, i as int).push(s@[i as int]));
        i = i + 1;
    }
    out
}

fn apply_header_line(h: Headers, line: &[char]) -> (res: Headers)
    ensures
        res.model() == header_update(h.model(), line@),
{
    match first_index_char(line, ':') {
        None => h,
        Some(k) => {
            let name = ascii_lower_exec(trim_chars(&line[0..k]).as_slice());
            assert(k < line.len());
            let value = ascii_lower_exec(trim_chars(&line[k + 1..line.len()]).as_slice());
            let n = name.as_slice();
            assert(line@.subrange(0, k as int) == line@.take(k as int));
            assert(line@.subrange(k + 1, line@.len() as int) == line@.skip(k + 1));
            if crate::text::chars_eq(n, chars_of("content-length").as_slice()) {
                Headers { content_length: Some(value), ..h }
            } else if crate::text::chars_eq(n, chars_of("transfer-encoding").as_slice()) {
                Headers { transfer_encoding: Some(value), ..h }
            } else if crate::text::chars_eq(n, chars_of("content-encoding").as_slice()) {
                Headers { content_encoding: Some(value), ..h }
            } else if crate::text::chars_eq(n, chars_of("content-type").as_slice()) {
                Headers { content_type: Some(value), ..h }
            } else {
                h
            }
        },
    }
}

/// Splits a header block into its start line and the four headers read.
pub fn parse_header_block(text: &[char]) -> (res: (Vec<char>, Headers))
    ensures
        res.0@ == start_line_of(text@),
        res.1.model() == headers_of(text@),
{
    let crlf = chars_of("\r\n");
    proof { reveal_strlit("\r\n"); }
    assert(crlf@ =~= crlf_chars());
    let mut h = Headers { content_length: None, transfer_encoding: None, content_encoding: None, content_type: None };
    match find_chars(text, crlf.as_slice(), 0) {
        None => {
            return (copy_chars(text, 0, text.len()), h);
        },
        Some(first) => {
            proof { crate::text::lemma_first_occurrence_from(text@, crlf_chars(), 0); }
            let start_line = copy_chars(text, 0, first);
            assert(occurs_at(text@, crlf_chars(), first as int));
            assert(first + 2 <= text.len());
            let mut cursor = first + 2;
            let mut done = false;
            assert(start_line@ == text@.take(first as int));
            while !done
                invariant
                    first + 2 <= cursor <= text@.len(),
                    crlf@ == crlf_chars(),
                    headers_of(text@) == (if !done { headers_from(h.model(), text@.skip(cursor as int)) } else { h.model() }),
                decreases text.len() - cursor + (if done { 0int } else { 1int }),
            {
                proof { crate::text::lemma_occurrence_shift(text@, crlf_chars(), cursor as int); }
                let ghost rest = text@.skip(cursor as int);
                match find_chars(text, crlf.as_slice(), cursor) {
                    Some(e) => {
                        proof {
                            assert(rest.take(e - cursor) =~= text@.subrange(cursor as int, e as int));
                            assert(rest.skip(e - cursor + 2) =~= text@.skip(e + 2));
                        }
                        let line = copy_chars(text, cursor, e);
                        h = apply_header_line(h, line.as_slice());
                        cursor = e + 2;
                    },
                    None => {
                        assert(text@.subrange(cursor as int, text@.len() as int) =~= rest);
                        let line = copy_chars(text, cursor, text.len());
                        h = apply_header_line(h, line.as_slice());
                        done = true;
                    },
                }
            }
            (start_line, h)
        },
    }
}


/// The bytes left before `max` is reached (`max.saturating_sub(used)`).
pub open spec fn room(max: usize, used: int) -> int {
    if used >= max { 0 } else { max - used }
}

/// Decoding a chunked body from `offset`, with `decoded` the data so far:
/// `Ok(None)` when the chunks are not all captured yet, else the data and
/// the number of bytes the chunked encoding took.
pub open spec fn chunked_from(b: Seq<u8>, offset: int, decoded: Seq<u8>, max: usize) -> Result<Option<(Seq<u8>, int)>, CaptureError>
    decreases b.len() - offset,
{
    if offset < 0 || offset > b.len() {
        Ok(None)
    } else {
        match first_occurrence_from(b, crlf_bytes(), offset) {
            None => Ok(None),
            Some(line_end) => {
                proof { crate::text::lemma_first_occurrence_from(b, crlf_bytes(), offset); }
                let size_bytes = b.subrange(offset, line_end);
                if !valid_utf8(size_bytes) {
                    Err(CaptureError::ChunkSizeNotUtf8)
                } else {
                    match parse_hex_usize_spec(trim(before_first(decode_utf8(size_bytes), ';'))) {
                        None => Err(CaptureError::InvalidChunkSize),
                        Some(size) => {
                            let data = line_end + 2;
                            if size == 0 {
                                match first_occurrence_from(b, crlf_bytes(), data) {
                                    None => Ok(None),
                                    Some(t) => Ok(Some((decoded, t + 2))),
                                }
                            } else if size > room(max, decoded.len() as int) {
                                Err(CaptureError::ChunkedBodyExceedsLimit)
                            } else if b.len() < data + size + 2 {
                                Ok(None)
                            } else if b.subrange(data + size, data + size + 2) != crlf_bytes() {
                                Err(CaptureError::ChunkMissingTerminator)
                            } else {
                                chunked_from(b, data + size + 2, decoded + b.subrange(data, data + size), max)
                            }
                        },
                    }
                }
            },
        }
    }
}

pub proof fn lemma_chunked_consumed(b: Seq<u8>, offset: int, decoded: Seq<u8>, max: usize)
    ensures
        chunked_from(b, offset, decoded, max) matches Ok(Some((_, c))) ==> 2 <= c <= b.len(),
    decreases b.len() - offset,
{
    if 0 <= offset <= b.len() {
        crate::text::lemma_first_occurrence_from(b, crlf_bytes(), offset);
        match first_occurrence_from(b, crlf_bytes(), offset) {
            Some(line_end) => {
                crate::text::lemma_first_occurrence_from(b, crlf_bytes(), line_end + 2);
                let size_bytes = b.subrange(offset, line_end);
                if valid_utf8(size_bytes) {
                    match parse_hex_usize_spec(trim(before_first(decode_utf8(size_bytes), ';'))) {
                        Some(size) => {
                            let data = line_end + 2;
                            if size != 0 && size <= room(max, decoded.len() as int) && b.len() >= data + size + 2 {
                                lemma_chunked_consumed(b, data + size + 2, decoded + b.subrange(data, data + size), max);
                            }
                        },
                        None => {},
                    }
                }
            },
            None => {},
        }
    }
}

/// Decodes an HTTP/1.1 chunked body at the start of `bytes`.
pub fn decode_chunked(bytes: &[u8], max_body_bytes: usize) -> (res: Result<Option<(Vec<u8>, usize)>, CaptureError>)
    ensures
        match res {
            Ok(Some((d, c))) => chunked_from(bytes@, 0, Seq::empty(), max_body_bytes) == Ok::<Option<(Seq<u8>, int)>, CaptureError>(Some((d@, c as int))),
            Ok(None) => chunked_from(bytes@, 0, Seq::empty(), max_body_bytes) == Ok::<Option<(Seq<u8>, int)>, CaptureError>(None),
            Err(e) => chunked_from(bytes@, 0, Seq::empty(), max_body_bytes) == Err::<Option<(Seq<u8>, int)>, CaptureError>(e),
        },
{
    let crlf: [u8; 2] = [13, 10];
    assert(crlf@ =~= crlf_bytes());
    let mut decoded: Vec<u8> = Vec::new();
    let mut offset: usize = 0;
    loop
        invariant
            offset <= bytes@.len(),
            crlf@ == crlf_bytes(),
            chunked_from(bytes@, 0, Seq::empty(), max_body_bytes) == chunked_from(bytes@, offset as int, decoded@, max_body_bytes),
        decreases bytes.len() - offset,
    {
        let line_end = match find_bytes(bytes, &crlf, offset) {
            None => { return Ok(None); },
            Some(e) => e,
        };
        assert(line_end + 2 <= bytes.len());
        let size_chars = match utf8_decode(&bytes[offset..line_end]) {
            None => { return Err(CaptureError::ChunkSizeNotUtf8); },
            Some(c) => c,
        };
        let before = match first_index_char(size_chars.as_slice(), ';') {
            Some(k) => &size_chars.as_slice()[0..k],
            None => size_chars.as_slice(),
        };
        proof { crate::text::lemma_first_index(size_chars@, ';'); }
        assert(before@ == before_first(size_chars@, ';'));
        let trimmed = trim_chars(before);
        let size = match parse_hex_usize(trimmed.as_slice()) {
            None => { return Err(CaptureError::InvalidChunkSize); },
            Some(n) => n,
        };
        let data = line_end + 2;
        if size == 0 {
            return match find_bytes(bytes, &crlf, data) {
                None => Ok(None),
                Some(t) => Ok(Some((decoded, t + 2))),
            };
        }
        let remaining: usize = if decoded.len() >= max_body_bytes { 0 } else { max_body_bytes - decoded.len() };
        if size > remaining {
            return Err(CaptureError::ChunkedBodyExceedsLimit);
        }
        if bytes.len() - data < 2 || bytes.len() - data - 2 < size {
            return Ok(None);
        }
        let mut k = data;
        let end = data + size;
        let ghost before_decoded = decoded@;
        while k < end
            invariant
                end == data + size,
                data <= k <= data + size,
                data + size + 2 <= bytes@.len(),
                decoded@ == before_decoded + bytes@.subrange(data as int, k as int),
            decreases data + size - k,
        {
            decoded.push(bytes[k]);
            assert(bytes@.subrange(data as int, k + 1) =~= bytes@.subrange(data as int, k as int).push(bytes@[k as int]));
            k = k + 1;
        }
        if bytes[data + size] != 13 || bytes[data + size + 1] != 10 {
            assert(bytes@.subrange(data + size, data + size + 2) != crlf_bytes()) by {
                assert(bytes@.subrange(data + size, data + size + 2)[0] == bytes@[data + size]);
                assert(bytes@.subrange(data + size, data + size + 2)[1] == bytes@[data + size + 1]);
            }
            return Err(CaptureError::ChunkMissingTerminator);
        }
        assert(bytes@.subrange(data + size, data + size + 2) =~= crlf_bytes());
        offset = data + size + 2;
    }
}

/// The first `limit` bytes that `flate2`'s gzip decoder produces from
/// `data` (all of them when fewer), or `None` when decoding fails first.
pub uninterp spec fn gzip_inflate(data: Seq<u8>, limit: nat) -> Option<Seq<u8>>;

/// Reads at most `limit` decompressed bytes with
/// `flate2::read::GzDecoder::new(data).take(limit).read_to_end`.
///
/// Trusted: the result is the name `gzip_inflate` applied to the input and
/// the limit; `Read::take` never yields more than `limit` bytes.
#[verifier::external_body]
fn gzip_decompress_limited(data: &[u8], limit: u64) -> (res: Option<Vec<u8>>)
    ensures
        match res {
            Some(v) => gzip_inflate(data@, limit as nat) == Some(v@) && v@.len() <= limit,
            None => gzip_inflate(data@, limit as nat) is None,
        },
{
    let mut output = Vec::new();
    match GzDecoder::new(data).take(limit).read_to_end(&mut output) {
        Ok(_) => Some(output),
        Err(_) => None,
    }
}

/// The body after content decoding: gzip when the `content-encoding` list
/// names it (read up to one byte past the limit to detect excess), else
/// unchanged.
pub open spec fn decode_content_spec(encoded: Seq<u8>, encoding: Option<Seq<char>>, max: usize) -> Result<Seq<u8>, CaptureError> {
    if encoding matches Some(e) && some_piece_trims_to(e, ',', "gzip"@) {
        match gzip_inflate(encoded, (max + 1) as nat) {
            None => Err(CaptureError::DecompressionFailed),
            Some(out) => if out.len() > max {
                Err(CaptureError::DecompressedBodyExceedsLimit)
            } else {
                Ok(out)
            },
        }
    } else {
        Ok(encoded)
    }
}

pub fn decode_content(bytes: Vec<u8>, encoding: &Option<Vec<char>>, max_body_bytes: usize) -> (res: Result<Vec<u8>, CaptureError>)
    requires
        max_body_bytes < 0xffff_ffff_ffff_ffff,
    ensures
        match res {
            Ok(v) => decode_content_spec(bytes@, opt_chars(*encoding), max_body_bytes) == Ok::<Seq<u8>, CaptureError>(v@),
            Err(e) => decode_content_spec(bytes@, opt_chars(*encoding), max_body_bytes) == Err::<Seq<u8>, CaptureError>(e),
        },
{
    let gzip = match encoding {
        Some(e) => some_piece_trims_to_exec(e.as_slice(), ',', chars_of("gzip").as_slice()),
        None => false,
    };
    if !gzip {
        return Ok(bytes);
    }
    match gzip_decompress_limited(bytes.as_slice(), max_body_bytes as u64 + 1) {
        None => Err(CaptureError::DecompressionFailed),
        Some(out) => {
            if out.len() > max_body_bytes {
                Err(CaptureError::DecompressedBodyExceedsLimit)
            } else {
                Ok(out)
            }
        },
    }
}


/// One framed HTTP message.
pub struct HttpMessage {
    pub timestamp_ms: u64,
    pub start_line: Vec<char>,
    pub headers: Headers,
    pub body: Vec<u8>,
    pub encoded_body_bytes: usize,
}

pub struct HttpMessageModel {
    pub timestamp_ms: u64,
    pub start_line: Seq<char>,
    pub headers: HeadersModel,
    pub body: Seq<u8>,
    pub encoded_body_bytes: int,
}

impl HttpMessage {
    pub open spec fn model(&self) -> HttpMessageModel {
        HttpMessageModel {
            timestamp_ms: self.timestamp_ms,
            start_line: self.start_line@,
            headers: self.headers.model(),
            body: self.body@,
            encoded_body_bytes: self.encoded_body_bytes as int,
        }
    }
}

pub open spec fn message_models(m: Seq<HttpMessage>) -> Seq<HttpMessageModel> {
    m.map_values(|x: HttpMessage| x.model())
}

/// Whether the `transfer-encoding` list names `chunked`.
pub open spec fn is_chunked(h: HeadersModel) -> bool {
    h.transfer_encoding matches Some(v) && some_piece_trims_to(v, ',', "chunked"@)
}

/// The declared `content-length`, or zero when absent or not a number.
pub open spec fn content_length_of(h: HeadersModel) -> int {
    match h.content_length {
        Some(v) => match parse_usize_spec(v) {
            Some(n) => n as int,
            None => 0,
        },
        None => 0,
    }
}

/// The encoded body after the headers and the bytes it spans; `Ok(None)`
/// when it is not fully captured.
pub open spec fn body_spec(b: Seq<u8>, body_start: int, h: HeadersModel, max: usize) -> Result<Option<(Seq<u8>, int)>, CaptureError> {
    if is_chunked(h) {
        chunked_from(b.skip(body_start), 0, Seq::empty(), max)
    } else {
        let length = content_length_of(h);
        if length > max {
            Err(CaptureError::BodyExceedsLimit)
        } else if b.len() - body_start < length {
            Ok(None)
        } else {
            Ok(Some((b.subrange(body_start, body_start + length), length)))
        }
    }
}

pub proof fn lemma_earliest_at_or_after(b: Seq<u8>, patterns: Seq<Seq<u8>>, offset: int)
    ensures
        earliest_of(b, patterns, offset) matches Some(i) ==> offset <= i,
    decreases patterns.len(),
{
    if patterns.len() > 0 {
        lemma_earliest_at_or_after(b, patterns.drop_last(), offset);
        crate::text::lemma_first_occurrence_from(b, patterns.last(), offset);
    }
}

/// Framing the next message at or after `offset`: `Ok(None)` when there is
/// no complete message there, else the message and where framing resumes.
pub open spec fn frame_step(b: Seq<u8>, marks: Seq<(usize, u64)>, offset: int, response: bool, max: usize) -> Result<Option<(HttpMessageModel, int)>, CaptureError> {
    match http_start_spec(b, offset, response) {
        None => Ok(None),
        Some(start) => match first_occurrence_from(b, crlfcrlf_bytes(), start) {
            None => Ok(None),
            Some(header_end) => {
                let header_bytes = b.subrange(start, header_end);
                if !valid_utf8(header_bytes) {
                    Err(CaptureError::HeadersNotUtf8)
                } else {
                    let text = decode_utf8(header_bytes);
                    let headers = headers_of(text);
                    let body_start = header_end + 4;
                    match body_spec(b, body_start, headers, max) {
                        Err(e) => Err(e),
                        Ok(None) => Ok(None),
                        Ok(Some((encoded, consumed))) => match decode_content_spec(encoded, headers.content_encoding, max) {
                            Err(e) => Err(e),
                            Ok(body) => Ok(Some((
                                HttpMessageModel {
                                    timestamp_ms: timestamp_for_spec(marks, start),
                                    start_line: start_line_of(text),
                                    headers: headers,
                                    body: body,
                                    encoded_body_bytes: encoded.len() as int,
                                },
                                body_start + consumed,
                            ))),
                        },
                    }
                }
            },
        },
    }
}

pub proof fn lemma_frame_step_advances(b: Seq<u8>, marks: Seq<(usize, u64)>, offset: int, response: bool, max: usize)
    requires
        0 <= offset <= b.len(),
    ensures
        frame_step(b, marks, offset, response, max) matches Ok(Some((_, next))) ==> offset < next <= b.len(),
{
    lemma_earliest_at_or_after(b, if response { response_patterns() } else { request_patterns() }, offset);
    match http_start_spec(b, offset, response) {
        Some(start) => {
            crate::text::lemma_first_occurrence_from(b, crlfcrlf_bytes(), start);
            match first_occurrence_from(b, crlfcrlf_bytes(), start) {
                Some(header_end) => {
                    lemma_chunked_consumed(b.skip(header_end + 4), 0, Seq::empty(), max);
                },
                None => {},
            }
        },
        None => {},
    }
}

/// The messages framed from `offset` on; framing stops quietly at the first
/// incomplete message.
pub open spec fn messages_from(b: Seq<u8>, marks: Seq<(usize, u64)>, offset: int, response: bool, max: usize) -> Result<Seq<HttpMessageModel>, CaptureError>
    decreases b.len() - offset,
{
    if offset < 0 || offset >= b.len() {
        Ok(Seq::empty())
    } else {
        match frame_step(b, marks, offset, response, max) {
            Err(e) => Err(e),
            Ok(None) => Ok(Seq::empty()),
            Ok(Some((message, next))) => {
                proof { lemma_frame_step_advances(b, marks, offset, response, max); }
                match messages_from(b, marks, next, response, max) {
                    Ok(rest) => Ok(seq![message] + rest),
                    Err(e) => Err(e),
                }
            },
        }
    }
}

/// The encoded body after the headers (see `body_spec`).
fn read_body(bytes: &[u8], body_start: usize, headers: &Headers, max_body_bytes: usize) -> (res: Result<Option<(Vec<u8>, usize)>, CaptureError>)
    requires
        body_start <= bytes@.len(),
    ensures
        match res {
            Ok(Some((d, c))) => body_spec(bytes@, body_start as int, headers.model(), max_body_bytes)
                == Ok::<Option<(Seq<u8>, int)>, CaptureError>(Some((d@, c as int))) && c <= bytes@.len() - body_start,
            Ok(None) => body_spec(bytes@, body_start as int, headers.model(), max_body_bytes)
                == Ok::<Option<(Seq<u8>, int)>, CaptureError>(None),
            Err(e) => body_spec(bytes@, body_start as int, headers.model(), max_body_bytes)
                == Err::<Option<(Seq<u8>, int)>, CaptureError>(e),
        },
{
    let chunked = match &headers.transfer_encoding {
        Some(v) => some_piece_trims_to_exec(v.as_slice(), ',', chars_of("chunked").as_slice()),
        None => false,
    };
    if chunked {
        proof { lemma_chunked_consumed(bytes@.skip(body_start as int), 0, Seq::empty(), max_body_bytes); }
        let tail = &bytes[body_start..bytes.len()];
        assert(tail@ == bytes@.skip(body_start as int));
        return decode_chunked(tail, max_body_bytes);
    }
    let length: usize = match &headers.content_length {
        Some(v) => match parse_usize(v.as_slice()) {
            Some(n) => n,
            None => 0,
        },
        None => 0,
    };
    if length > max_body_bytes {
        return Err(CaptureError::BodyExceedsLimit);
    }
    if bytes.len() - body_start < length {
        return Ok(None);
    }
    let mut d: Vec<u8> = Vec::new();
    let mut k = body_start;
    let end = body_start + length;
    while k < end
        invariant
            body_start <= k <= end,
            end == body_start + length,
            end <= bytes@.len(),
            d@ == bytes@.subrange(body_start as int, k as int),
        decreases end - k,
    {
        d.push(bytes[k]);
        assert(bytes@.subrange(body_start as int, k + 1) =~= bytes@.subrange(body_start as int, k as int).push(bytes@[k as int]));
        k = k + 1;
    }
    Ok(Some((d, length)))
}

/// Where the next message starts and where its header block ends.
fn locate_message(bytes: &[u8], offset: usize, response: bool) -> (res: Option<(usize, usize)>)
    ensures
        match res {
            Some((start, header_end)) => http_start_spec(bytes@, offset as int, response) == Some(start as int)
                && first_occurrence_from(bytes@, crlfcrlf_bytes(), start as int) == Some(header_end as int)
                && start <= header_end && header_end + 4 <= bytes@.len(),
            None => http_start_spec(bytes@, offset as int, response) is None || (
                http_start_spec(bytes@, offset as int, response) matches Some(start)
                && first_occurrence_from(bytes@, crlfcrlf_bytes(), start) is None),
        },
{
    let crlf2: [u8; 4] = [13, 10, 13, 10];
    assert(crlf2@ =~= crlfcrlf_bytes());
    let start = match find_http_start(bytes, offset, response) {
        None => { return None; },
        Some(s) => s,
    };
    match find_bytes(bytes, &crlf2, start) {
        None => None,
        Some(e) => {
            assert(occurs_at(bytes@, crlfcrlf_bytes(), e as int));
            Some((start, e))
        },
    }
}

fn frame_one(stream: &ByteStream, offset: usize, response: bool, max_body_bytes: usize) -> (res: Result<Option<(HttpMessage, usize)>, CaptureError>)
    requires
        max_body_bytes < 0xffff_ffff_ffff_ffff,
        offset <= stream.bytes@.len(),
    ensures
        match res {
            Ok(Some((m, next))) => frame_step(stream.bytes@, stream.marks@, offset as int, response, max_body_bytes)
                == Ok::<Option<(HttpMessageModel, int)>, CaptureError>(Some((m.model(), next as int))),
            Ok(None) => frame_step(stream.bytes@, stream.marks@, offset as int, response, max_body_bytes)
                == Ok::<Option<(HttpMessageModel, int)>, CaptureError>(None),
            Err(e) => frame_step(stream.bytes@, stream.marks@, offset as int, response, max_body_bytes)
                == Err::<Option<(HttpMessageModel, int)>, CaptureError>(e),
        },
{
    let bytes = stream.bytes.as_slice();
    let (start, header_end) = match locate_message(bytes, offset, response) {
        None => { return Ok(None); },
        Some(p) => p,
    };
    let text = match utf8_decode(&bytes[start..header_end]) {
        None => { return Err(CaptureError::HeadersNotUtf8); },
        Some(t) => t,
    };
    let (start_line, headers) = parse_header_block(text.as_slice());
    let total = bytes.len();
    assert(header_end + 4 <= total);
    let body_start = header_end + 4;
    let (encoded, consumed) = match read_body(bytes, body_start, &headers, max_body_bytes) {
        Err(e) => { return Err(e); },
        Ok(None) => { return Ok(None); },
        Ok(Some(p)) => p,
    };
    let encoded_body_bytes = encoded.len();
    let body = match decode_content(encoded, &headers.content_encoding, max_body_bytes) {
        Err(e) => { return Err(e); },
        Ok(v) => v,
    };
    let message = HttpMessage {
        timestamp_ms: stream.timestamp_for(start),
        start_line,
        headers,
        body,
        encoded_body_bytes,
    };
    Ok(Some((message, body_start + consumed)))
}

/// Frames the requests (or responses) in a reassembled stream.
pub fn parse_http_messages(stream: &ByteStream, response: bool, max_body_bytes: usize) -> (res: Result<Vec<HttpMessage>, CaptureError>)
    requires
        max_body_bytes < 0xffff_ffff_ffff_ffff,
    ensures
        match res {
            Ok(m) => messages_from(stream.bytes@, stream.marks@, 0, response, max_body_bytes) == Ok::<Seq<HttpMessageModel>, CaptureError>(message_models(m@)),
            Err(e) => messages_from(stream.bytes@, stream.marks@, 0, response, max_body_bytes) == Err::<Seq<HttpMessageModel>, CaptureError>(e),
        },
{
    let ghost b = stream.bytes@;
    let ghost marks = stream.marks@;
    let mut messages: Vec<HttpMessage> = Vec::new();
    let mut offset: usize = 0;
    while offset < stream.bytes.len()
        invariant
            offset <= b.len(),
            b == stream.bytes@,
            marks == stream.marks@,
            max_body_bytes < 0xffff_ffff_ffff_ffff,
            messages_from(b, marks, 0, response, max_body_bytes) == (match messages_from(b, marks, offset as int, response, max_body_bytes) {
                Ok(rest) => Ok(message_models(messages@) + rest),
                Err(e) => Err::<Seq<HttpMessageModel>, CaptureError>(e),
            }),
        ensures
            messages_from(b, marks, offset as int, response, max_body_bytes) == Ok::<Seq<HttpMessageModel>, CaptureError>(Seq::empty()),
        decreases stream.bytes.len() - offset,
    {
        proof { lemma_frame_step_advances(b, marks, offset as int, response, max_body_bytes); }
        match frame_one(stream, offset, response, max_body_bytes) {
            Err(e) => { return Err(e); },
            Ok(None) => {
                assert(messages_from(b, marks, offset as int, response, max_body_bytes) == Ok::<Seq<HttpMessageModel>, CaptureError>(Seq::empty()));
                break;
            },
            Ok(Some((message, next))) => {
                proof {
                    let rest = messages_from(b, marks, next as int, response, max_body_bytes);
                    match rest {
                        Ok(r) => {
                            assert(message_models(messages@.push(message)) =~= message_models(messages@).push(message.model()));
                            assert(message_models(messages@) + (seq![message.model()] + r) =~= message_models(messages@).push(message.model()) + r);
                        },
                        Err(_) => {},
                    }
                }
                messages.push(message);
                offset = next;
            },
        }
    }
    proof {
        assert(message_models(messages@) + Seq::<HttpMessageModel>::empty() =~= message_models(messages@));
    }
    Ok(messages)
}

} // verus!
