//! Keeping a rollout within the context window: inline image data is
//! replaced by placeholders, oversized tool outputs are pruned, token-count
//! events are brought under the trigger, and obsolete history before a
//! compaction is folded away.
use vstd::prelude::*;

pub mod events;
pub mod clean;
pub mod janitor;
pub mod summary;
use vstd::utf8::encode_utf8;
use crate::text::{
    split_seq, split_char, chars_of, copy_chars, decimal_text, first_occurrence_from, has_prefix, is_unicode_whitespace,
    is_whitespace_exec, lemma_first_occurrence_from, split_once, split_once_exec, string_of, u64_text,
};
use crate::passive_capture::report::append;
use crate::json::{Json, JsonValue, get_str, models, entry_models, lemma_models, lemma_entry_models, lemma_models_push, lemma_entry_models_push};

verus! {

/// The UTF-8 length of a text (`str::len`).
pub open spec fn utf8_len(s: Seq<char>) -> nat {
    encode_utf8(s).len()
}

/// The UTF-8 length of a text.
pub fn utf8_len_exec(s: &str) -> (res: usize)
    ensures
        res == utf8_len(s@),
{
    s.as_bytes().len()
}

fn utf8_len_chars(s: &[char]) -> (res: usize)
    ensures
        res == utf8_len(s@),
{
    let t = string_of(s);
    t.as_str().as_bytes().len()
}

/// Characters that end an inline data URI.
pub open spec fn ends_data_uri(c: char) -> bool {
    c == '"' || c == '\'' || is_unicode_whitespace(c) || c == ')' || c == ']'
}

/// The first index at or after `i` whose character ends a data URI, or the
/// end of the text.
pub open spec fn data_uri_end(s: Seq<char>, i: int) -> int
    decreases s.len() - i,
{
    if i < 0 || i >= s.len() {
        s.len() as int
    } else if ends_data_uri(s[i]) {
        i
    } else {
        data_uri_end(s, i + 1)
    }
}

/// The inline `data:image` URIs of a text from `offset` on, as
/// `(start, end)` character ranges.
pub open spec fn data_image_spans_from(s: Seq<char>, offset: int) -> Seq<(int, int)>
    decreases s.len() - offset,
{
    if offset < 0 || offset > s.len() {
        Seq::empty()
    } else {
        match first_occurrence_from(s, "data:image"@, offset) {
            None => Seq::empty(),
            Some(start) => {
                let end = data_uri_end(s, start);
                let next = if end > start + 10 { end } else { start + 10 };
                if start < offset || next <= offset || next > s.len() {
                    Seq::empty()
                } else {
                    seq![(start, end)] + data_image_spans_from(s, next)
                }
            },
        }
    }
}

pub open spec fn data_image_spans(s: Seq<char>) -> Seq<(int, int)> {
    data_image_spans_from(s, 0)
}

/// The image type of a data URI, or `image/*`.
pub open spec fn data_image_mime(uri: Seq<char>) -> Seq<char> {
    if has_prefix(uri, "data:"@) {
        let rest = uri.skip(5);
        let mime = match split_once(rest, ';') {
            Some((a, _)) => Some(a),
            None => match split_once(rest, ',') {
                Some((a, _)) => Some(a),
                None => None,
            },
        };
        match mime {
            Some(a) => if has_prefix(a, "image/"@) { a } else { "image/*"@ },
            None => "image/*"@,
        }
    } else {
        "image/*"@
    }
}

/// The text that stands in for a removed inline image.
pub open spec fn image_placeholder(thread_id: Seq<char>, image_path: Seq<char>, mime: Seq<char>, removed_bytes: nat) -> Seq<char> {
    "[context-guardian:inline-image-placeholder thread="@ + thread_id + " mime="@ + mime + " removed_bytes="@
        + decimal_text(removed_bytes) + " original_file="@ + image_path + "]"@
}

/// The text from `cursor` on with each span replaced by a placeholder.
pub open spec fn scrub_spans(s: Seq<char>, spans: Seq<(int, int)>, cursor: int, thread_id: Seq<char>, image_path: Seq<char>) -> Seq<char>
    decreases spans.len(),
{
    if spans.len() == 0 {
        s.subrange(cursor, s.len() as int)
    } else {
        let (start, end) = spans[0];
        let uri = s.subrange(start, end);
        s.subrange(cursor, start) + image_placeholder(thread_id, image_path, data_image_mime(uri), utf8_len(uri))
            + scrub_spans(s, spans.drop_first(), end, thread_id, image_path)
    }
}

/// The total UTF-8 length of the spans.
pub open spec fn spans_bytes(s: Seq<char>, spans: Seq<(int, int)>) -> int
    decreases spans.len(),
{
    if spans.len() == 0 {
        0
    } else {
        utf8_len(s.subrange(spans[0].0, spans[0].1)) + spans_bytes(s, spans.drop_first())
    }
}

/// Spans in order, each within the text and starting at or after `from`.
pub open spec fn spans_ordered(spans: Seq<(int, int)>, from: int, len: int) -> bool
    decreases spans.len(),
{
    if spans.len() == 0 {
        true
    } else {
        from <= spans[0].0 <= spans[0].1 <= len && spans_ordered(spans.drop_first(), spans[0].1, len)
    }
}

/// A text with each inline image URI replaced by a placeholder, and the
/// number of bytes removed; `None` when it holds none.
pub open spec fn scrub_data_image_text_spec(s: Seq<char>, thread_id: Seq<char>, image_path: Seq<char>) -> Option<(Seq<char>, int)> {
    let spans = data_image_spans(s);
    if spans.len() == 0 {
        None
    } else {
        Some((scrub_spans(s, spans, 0, thread_id, image_path), spans_bytes(s, spans)))
    }
}


pub proof fn lemma_utf8_len_concat(a: Seq<char>, b: Seq<char>)
    ensures
        utf8_len(a + b) == utf8_len(a) + utf8_len(b),
    decreases a.len(),
{
    if a.len() > 0 {
        assert((a + b).drop_first() =~= a.drop_first() + b);
        assert((a + b)[0] == a[0]);
        lemma_utf8_len_concat(a.drop_first(), b);
    } else {
        assert(a + b =~= b);
    }
}

proof fn lemma_utf8_len_split(s: Seq<char>, a: int, m: int, b: int)
    requires
        0 <= a <= m <= b <= s.len(),
    ensures
        utf8_len(s.subrange(a, b)) == utf8_len(s.subrange(a, m)) + utf8_len(s.subrange(m, b)),
{
    assert(s.subrange(a, b) =~= s.subrange(a, m) + s.subrange(m, b));
    lemma_utf8_len_concat(s.subrange(a, m), s.subrange(m, b));
}

proof fn lemma_data_uri_end(s: Seq<char>, i: int)
    requires
        0 <= i <= s.len(),
    ensures
        i <= data_uri_end(s, i) <= s.len(),
    decreases s.len() - i,
{
    if i < s.len() && !ends_data_uri(s[i]) {
        lemma_data_uri_end(s, i + 1);
    }
}

proof fn lemma_spans_ordered(s: Seq<char>, offset: int)
    requires
        0 <= offset <= s.len(),
    ensures
        spans_ordered(data_image_spans_from(s, offset), offset, s.len() as int),
    decreases s.len() - offset,
{
    lemma_first_occurrence_from(s, "data:image"@, offset);
    match first_occurrence_from(s, "data:image"@, offset) {
        None => {},
        Some(start) => {
            lemma_data_uri_end(s, start);
            let end = data_uri_end(s, start);
            let next = if end > start + 10 { end } else { start + 10 };
            if !(start < offset || next <= offset || next > s.len()) {
                lemma_spans_ordered(s, next);
                let rest = data_image_spans_from(s, next);
                let spans = data_image_spans_from(s, offset);
                assert(spans =~= seq![(start, end)] + rest);
                assert(spans.drop_first() =~= rest);
                lemma_spans_ordered_weaken(rest, next, end, s.len() as int);
            }
        },
    }
}

proof fn lemma_spans_ordered_weaken(spans: Seq<(int, int)>, from: int, lower: int, len: int)
    requires
        spans_ordered(spans, from, len),
        lower <= from,
    ensures
        spans_ordered(spans, lower, len),
{
}

proof fn lemma_spans_bytes_bound(s: Seq<char>, spans: Seq<(int, int)>, from: int)
    requires
        0 <= from <= s.len(),
        spans_ordered(spans, from, s.len() as int),
    ensures
        0 <= spans_bytes(s, spans) <= utf8_len(s.subrange(from, s.len() as int)),
    decreases spans.len(),
{
    if spans.len() > 0 {
        let (start, end) = spans[0];
        lemma_spans_bytes_bound(s, spans.drop_first(), end);
        lemma_utf8_len_split(s, from, start, s.len() as int);
        lemma_utf8_len_split(s, start, end, s.len() as int);
    }
}


pub open spec fn span_models(v: Seq<(usize, usize)>) -> Seq<(int, int)> {
    v.map_values(|p: (usize, usize)| (p.0 as int, p.1 as int))
}

fn ends_data_uri_exec(c: char) -> (res: bool)
    ensures
        res == ends_data_uri(c),
{
    c == '"' || c == '\'' || is_whitespace_exec(c) || c == ')' || c == ']'
}

/// The inline `data:image` URIs of a text (see `data_image_spans`).
pub fn data_image_spans_exec(s: &[char]) -> (res: Vec<(usize, usize)>)
    ensures
        span_models(res@) == data_image_spans(s@),
{
    let marker = chars_of("data:image");
    proof { reveal_strlit("data:image"); }
    let mut out: Vec<(usize, usize)> = Vec::new();
    let mut offset: usize = 0;
    assert(span_models(out@) + data_image_spans_from(s@, 0) =~= data_image_spans(s@));
    while offset <= s.len()
        invariant
            offset <= s@.len() + 1,
            marker@ == "data:image"@,
            marker@.len() == 10,
            span_models(out@) + data_image_spans_from(s@, offset as int) == data_image_spans(s@),
        decreases s@.len() + 1 - offset,
    {
        let found = crate::text::find_chars(s, marker.as_slice(), offset);
        proof { lemma_first_occurrence_from(s@, "data:image"@, offset as int); }
        let start = match found {
            None => {
                assert(span_models(out@) =~= span_models(out@) + data_image_spans_from(s@, offset as int));
                return out;
            },
            Some(st) => st,
        };
        assert(start + 10 <= s@.len());
        let mut end = start;
        while end < s.len() && !ends_data_uri_exec(s[end])
            invariant
                start <= end <= s@.len(),
                data_uri_end(s@, start as int) == data_uri_end(s@, end as int),
            decreases s@.len() - end,
        {
            end = end + 1;
        }
        assert(end == data_uri_end(s@, start as int));
        let next = if end > start + 10 { end } else { start + 10 };
        let ghost before = out@;
        out.push((start, end));
        proof {
            let rest = data_image_spans_from(s@, next as int);
            assert(data_image_spans_from(s@, offset as int) == seq![(start as int, end as int)] + rest);
            assert(span_models(out@) =~= span_models(before).push((start as int, end as int)));
            assert(span_models(out@) + rest =~= span_models(before) + (seq![(start as int, end as int)] + rest));
        }
        offset = next;
    }
    assert(data_image_spans_from(s@, offset as int) =~= Seq::<(int, int)>::empty());
    assert(span_models(out@) + Seq::<(int, int)>::empty() =~= span_models(out@));
    out
}

/// The image type of a data URI (see `data_image_mime`).
pub fn data_image_mime_exec(uri: &[char]) -> (res: Vec<char>)
    ensures
        res@ == data_image_mime(uri@),
{
    let fallback = chars_of("image/*");
    proof { reveal_strlit("data:"); }
    if !crate::text::chars_occur_at(uri, chars_of("data:").as_slice(), 0) {
        return fallback;
    }
    let rest = copy_chars(&uri[5..uri.len()]);
    assert(rest@ =~= uri@.skip(5));
    let mime = match split_once_exec(rest.as_slice(), ';') {
        Some((a, _)) => Some(a),
        None => match split_once_exec(rest.as_slice(), ',') {
            Some((a, _)) => Some(a),
            None => None,
        },
    };
    match mime {
        Some(a) => if crate::text::chars_occur_at(a.as_slice(), chars_of("image/").as_slice(), 0) { a } else { fallback },
        None => fallback,
    }
}

/// The placeholder for a removed inline image.
pub fn image_placeholder_exec(thread_id: &[char], image_path: &[char], mime: &[char], removed_bytes: usize) -> (res: Vec<char>)
    ensures
        res@ == image_placeholder(thread_id@, image_path@, mime@, removed_bytes as nat),
{
    let mut out = chars_of("[context-guardian:inline-image-placeholder thread=");
    append(&mut out, thread_id);
    append(&mut out, chars_of(" mime=").as_slice());
    append(&mut out, mime);
    append(&mut out, chars_of(" removed_bytes=").as_slice());
    append(&mut out, u64_text(removed_bytes as u64).as_slice());
    append(&mut out, chars_of(" original_file=").as_slice());
    append(&mut out, image_path);
    append(&mut out, chars_of("]").as_slice());
    out
}

/// Replaces each inline image URI of a text with a placeholder (see
/// `scrub_data_image_text_spec`).
#[verifier::rlimit(40)]
#[verifier::spinoff_prover]
pub fn scrub_data_image_text(text: &[char], thread_id: &[char], image_path: &[char]) -> (res: Option<(Vec<char>, usize)>)
    ensures
        match res {
            Some((t, n)) => scrub_data_image_text_spec(text@, thread_id@, image_path@) == Some((t@, n as int)),
            None => scrub_data_image_text_spec(text@, thread_id@, image_path@) is None,
        },
{
    let spans = data_image_spans_exec(text);
    if spans.len() == 0 {
        return None;
    }
    let ghost sm = span_models(spans@);
    let total = utf8_len_chars(text);
    proof {
        lemma_spans_ordered(text@, 0);
        lemma_spans_bytes_bound(text@, sm, 0);
        assert(text@.subrange(0, text@.len() as int) =~= text@);
    }
    let mut out: Vec<char> = Vec::new();
    let mut cursor: usize = 0;
    let mut removed: usize = 0;
    let mut k: usize = 0;
    assert(sm.skip(0) =~= sm);
    while k < spans.len()
        invariant
            k <= spans@.len(),
            sm == span_models(spans@),
            sm == data_image_spans(text@),
            spans_ordered(sm.skip(k as int), cursor as int, text@.len() as int),
            out@ + scrub_spans(text@, sm.skip(k as int), cursor as int, thread_id@, image_path@) == scrub_spans(text@, sm, 0, thread_id@, image_path@),
            removed + spans_bytes(text@, sm.skip(k as int)) == spans_bytes(text@, sm),
            spans_bytes(text@, sm) <= total,
            cursor <= text@.len(),
        decreases spans.len() - k,
    {
        let (start, end) = spans[k];
        let ghost rest = sm.skip(k as int);
        assert(rest[0] == (start as int, end as int));
        assert(rest.drop_first() =~= sm.skip(k + 1));
        let uri = copy_chars(&text[start..end]);
        assert(uri@ =~= text@.subrange(start as int, end as int));
        let bytes = utf8_len_chars(uri.as_slice());
        proof { lemma_spans_bytes_bound(text@, sm.skip(k + 1), end as int); }
        let before_part = copy_chars(&text[cursor..start]);
        assert(before_part@ =~= text@.subrange(cursor as int, start as int));
        let mime = data_image_mime_exec(uri.as_slice());
        let placeholder = image_placeholder_exec(thread_id, image_path, mime.as_slice(), bytes);
        let ghost out_before = out@;
        append(&mut out, before_part.as_slice());
        append(&mut out, placeholder.as_slice());
        assert(out@ + scrub_spans(text@, sm.skip(k + 1), end as int, thread_id@, image_path@)
            =~= out_before + scrub_spans(text@, rest, cursor as int, thread_id@, image_path@));
        removed = removed + bytes;
        cursor = end;
        k = k + 1;
    }
    let tail = copy_chars(&text[cursor..text.len()]);
    assert(sm.skip(k as int).len() == 0);
    append(&mut out, tail.as_slice());
    Some((out, removed))
}


/// A placeholder left by an earlier scrub.
pub open spec fn is_image_placeholder(text: Seq<char>) -> bool {
    has_prefix(text, "[context-guardian:inline-image-placeholder "@) || has_prefix(text, "[codex-context-janitor:inline-image-placeholder "@)
}

pub fn is_image_placeholder_exec(text: &[char]) -> (res: bool)
    ensures
        res == is_image_placeholder(text@),
{
    crate::text::chars_occur_at(text, chars_of("[context-guardian:inline-image-placeholder ").as_slice(), 0)
        || crate::text::chars_occur_at(text, chars_of("[codex-context-janitor:inline-image-placeholder ").as_slice(), 0)
}

/// A count as `usize`, saturated at `usize::MAX`.
pub open spec fn saturate(n: int) -> int {
    if n > usize::MAX { usize::MAX as int } else { n }
}

/// What an `input_image` object with a string `image_url` becomes: a data
/// URI gives a placeholder and its length, an earlier placeholder is kept
/// and counts one.
pub open spec fn image_object_replacement(url: Seq<char>, thread_id: Seq<char>, image_path: Seq<char>) -> Option<(Seq<char>, int)> {
    if has_prefix(url, "data:image"@) {
        Some((image_placeholder(thread_id, image_path, data_image_mime(url), utf8_len(url)), utf8_len(url) as int))
    } else if is_image_placeholder(url) {
        Some((url, 1))
    } else {
        None
    }
}

/// `{"text": text, "type": "input_text"}`.
pub open spec fn input_text_object(text: Seq<char>) -> Json {
    Json::Object(seq![("text"@, Json::Str(text)), ("type"@, Json::Str("input_text"@))])
}

/// The value with every inline image replaced by a placeholder, and the
/// bytes removed (placeholders already there count one each).
pub open spec fn scrub_json(j: Json, thread_id: Seq<char>, image_path: Seq<char>) -> (Json, int)
    decreases j, 2nat,
{
    match j {
        Json::Str(t) => match scrub_data_image_text_spec(t, thread_id, image_path) {
            Some((t2, n)) => (Json::Str(t2), n),
            None => (j, 0),
        },
        Json::Object(entries) => if get_str(j, "type"@) == Some("input_image"@) {
            match get_str(j, "image_url"@) {
                None => (j, 0),
                Some(url) => match image_object_replacement(url, thread_id, image_path) {
                    Some((text, n)) => (input_text_object(text), n),
                    None => {
                        let (e, n) = scrub_members(entries, thread_id, image_path);
                        (Json::Object(e), n)
                    },
                },
            }
        } else {
            let (e, n) = scrub_members(entries, thread_id, image_path);
            (Json::Object(e), n)
        },
        Json::Array(items) => {
            let (i, n) = scrub_items(items, thread_id, image_path);
            (Json::Array(i), n)
        },
        _ => (j, 0),
    }
}

pub open spec fn scrub_members(entries: Seq<(Seq<char>, Json)>, thread_id: Seq<char>, image_path: Seq<char>) -> (Seq<(Seq<char>, Json)>, int)
    decreases entries, 1nat,
{
    if entries.len() == 0 {
        (Seq::empty(), 0)
    } else {
        let (done, n) = scrub_members(entries.drop_last(), thread_id, image_path);
        let (v, m) = scrub_json(entries.last().1, thread_id, image_path);
        (done.push((entries.last().0, v)), n + m)
    }
}

pub open spec fn scrub_items(items: Seq<Json>, thread_id: Seq<char>, image_path: Seq<char>) -> (Seq<Json>, int)
    decreases items, 1nat,
{
    if items.len() == 0 {
        (Seq::empty(), 0)
    } else {
        let (done, n) = scrub_items(items.drop_last(), thread_id, image_path);
        let (v, m) = scrub_json(items.last(), thread_id, image_path);
        (done.push(v), n + m)
    }
}

pub proof fn lemma_scrub_nonneg(j: Json, thread_id: Seq<char>, image_path: Seq<char>)
    ensures
        scrub_json(j, thread_id, image_path).1 >= 0,
    decreases j, 2nat,
{
    match j {
        Json::Str(t) => {
            let spans = data_image_spans(t);
            if spans.len() > 0 {
                lemma_spans_ordered(t, 0);
                lemma_spans_bytes_bound(t, spans, 0);
            }
        },
        Json::Object(entries) => lemma_scrub_members_nonneg(entries, thread_id, image_path),
        Json::Array(items) => lemma_scrub_items_nonneg(items, thread_id, image_path),
        _ => {},
    }
}

pub proof fn lemma_scrub_members_nonneg(entries: Seq<(Seq<char>, Json)>, thread_id: Seq<char>, image_path: Seq<char>)
    ensures
        scrub_members(entries, thread_id, image_path).1 >= 0,
        scrub_members(entries, thread_id, image_path).0.len() == entries.len(),
    decreases entries, 1nat,
{
    if entries.len() > 0 {
        lemma_scrub_members_nonneg(entries.drop_last(), thread_id, image_path);
        lemma_scrub_nonneg(entries.last().1, thread_id, image_path);
    }
}

pub proof fn lemma_scrub_items_nonneg(items: Seq<Json>, thread_id: Seq<char>, image_path: Seq<char>)
    ensures
        scrub_items(items, thread_id, image_path).1 >= 0,
        scrub_items(items, thread_id, image_path).0.len() == items.len(),
    decreases items, 1nat,
{
    if items.len() > 0 {
        lemma_scrub_items_nonneg(items.drop_last(), thread_id, image_path);
        lemma_scrub_nonneg(items.last(), thread_id, image_path);
    }
}


/// A text holding an inline image URI counts the URI's bytes, at least one.
proof fn lemma_spans_count_bytes(s: Seq<char>)
    ensures
        data_image_spans(s).len() > 0 ==> spans_bytes(s, data_image_spans(s)) > 0,
{
    let spans = data_image_spans(s);
    if spans.len() > 0 {
        lemma_first_occurrence_from(s, "data:image"@, 0);
        let start = first_occurrence_from(s, "data:image"@, 0).unwrap();
        reveal_strlit("data:image");
        assert(s.subrange(start, start + 10)[0] == s[start]);
        assert(s[start] == 'd');
        assert(!ends_data_uri('d'));
        lemma_data_uri_end(s, start + 1);
        let end = data_uri_end(s, start);
        assert(end >= start + 1);
        assert(spans[0] == (start, end));
        lemma_spans_ordered(s, 0);
        lemma_spans_bytes_bound(s, spans.drop_first(), end);
        lemma_utf8_len_split(s, start, start + 1, end);
        assert(s.subrange(start, start + 1) =~= seq![s[start]]);
        assert(seq![s[start]].drop_first() =~= Seq::<char>::empty());
        assert(encode_utf8(seq![s[start]]).len() >= 1);
    }
}

/// A scrub that counts nothing changes nothing.
pub proof fn lemma_scrub_zero_unchanged(j: Json, thread_id: Seq<char>, image_path: Seq<char>)
    ensures
        scrub_json(j, thread_id, image_path).1 == 0 ==> scrub_json(j, thread_id, image_path).0 == j,
    decreases j, 2nat,
{
    match j {
        Json::Str(t) => {
            lemma_spans_count_bytes(t);
        },
        Json::Object(entries) => {
            lemma_scrub_members_zero(entries, thread_id, image_path);
            if get_str(j, "type"@) == Some("input_image"@) {
                if let Some(url) = get_str(j, "image_url"@) {
                    if has_prefix(url, "data:image"@) {
                        reveal_strlit("data:image");
                        assert(url.subrange(0, 10).len() == 10);
                        assert(url.subrange(0, 1) =~= seq![url[0]]);
                        assert(url =~= url.subrange(0, 1) + url.subrange(1, url.len() as int));
                        lemma_utf8_len_concat(url.subrange(0, 1), url.subrange(1, url.len() as int));
                        assert(seq![url[0]].drop_first() =~= Seq::<char>::empty());
                        assert(encode_utf8(seq![url[0]]).len() >= 1);
                    }
                }
            }
        },
        Json::Array(items) => {
            lemma_scrub_items_zero(items, thread_id, image_path);
        },
        _ => {},
    }
}

proof fn lemma_scrub_members_zero(entries: Seq<(Seq<char>, Json)>, thread_id: Seq<char>, image_path: Seq<char>)
    ensures
        scrub_members(entries, thread_id, image_path).1 == 0 ==> scrub_members(entries, thread_id, image_path).0 == entries,
    decreases entries, 1nat,
{
    if entries.len() > 0 {
        lemma_scrub_members_zero(entries.drop_last(), thread_id, image_path);
        lemma_scrub_members_nonneg(entries.drop_last(), thread_id, image_path);
        lemma_scrub_nonneg(entries.last().1, thread_id, image_path);
        lemma_scrub_zero_unchanged(entries.last().1, thread_id, image_path);
        if scrub_members(entries, thread_id, image_path).1 == 0 {
            assert(entries.drop_last().push((entries.last().0, entries.last().1)) =~= entries);
        }
    }
}

proof fn lemma_scrub_items_zero(items: Seq<Json>, thread_id: Seq<char>, image_path: Seq<char>)
    ensures
        scrub_items(items, thread_id, image_path).1 == 0 ==> scrub_items(items, thread_id, image_path).0 == items,
    decreases items, 1nat,
{
    if items.len() > 0 {
        lemma_scrub_items_zero(items.drop_last(), thread_id, image_path);
        lemma_scrub_items_nonneg(items.drop_last(), thread_id, image_path);
        lemma_scrub_nonneg(items.last(), thread_id, image_path);
        lemma_scrub_zero_unchanged(items.last(), thread_id, image_path);
        if scrub_items(items, thread_id, image_path).1 == 0 {
            assert(items.drop_last().push(items.last()) =~= items);
        }
    }
}

fn text_of(s: &str) -> (res: String)
    ensures
        res@ == s@,
{
    string_of(chars_of(s).as_slice())
}

fn input_text_object_exec(text: &[char]) -> (res: JsonValue)
    ensures
        res.model() == input_text_object(text@),
{
    let mut entries: Vec<(String, JsonValue)> = Vec::new();
    entries.push((text_of("text"), JsonValue::String(string_of(text))));
    entries.push((text_of("type"), JsonValue::String(text_of("input_text"))));
    proof {
        lemma_entry_models(entries@);
        assert(entry_models(entries@) =~= seq![("text"@, Json::Str(text@)), ("type"@, Json::Str("input_text"@))]);
    }
    JsonValue::Object(entries)
}

fn image_object_replacement_exec(url: &[char], thread_id: &[char], image_path: &[char]) -> (res: Option<(Vec<char>, usize)>)
    ensures
        match res {
            Some((t, n)) => image_object_replacement(url@, thread_id@, image_path@) == Some((t@, n as int)),
            None => image_object_replacement(url@, thread_id@, image_path@) is None,
        },
{
    if crate::text::chars_occur_at(url, chars_of("data:image").as_slice(), 0) {
        let removed = utf8_len_chars(url);
        let mime = data_image_mime_exec(url);
        Some((image_placeholder_exec(thread_id, image_path, mime.as_slice(), removed), removed))
    } else if is_image_placeholder_exec(url) {
        Some((copy_chars(url), 1))
    } else {
        None
    }
}

/// Replaces inline images anywhere in a value (see `scrub_json`); the count
/// saturates at `usize::MAX`.
#[verifier::loop_isolation(false)]
pub fn scrub_inline_images(value: &JsonValue, thread_id: &[char], image_path: &[char]) -> (res: (JsonValue, usize))
    ensures
        res.0.model() == scrub_json(value.model(), thread_id@, image_path@).0,
        res.1 == saturate(scrub_json(value.model(), thread_id@, image_path@).1),
        res.1 == 0 ==> res.0.model() == value.model(),
    decreases value,
{
    proof {
        lemma_scrub_nonneg(value.model(), thread_id@, image_path@);
        lemma_scrub_zero_unchanged(value.model(), thread_id@, image_path@);
    }
    match value {
        JsonValue::String(t) => {
            let text = chars_of(t.as_str());
            match scrub_data_image_text(text.as_slice(), thread_id, image_path) {
                Some((t2, n)) => (JsonValue::String(string_of(t2.as_slice())), n),
                None => (JsonValue::String(string_of(text.as_slice())), 0),
            }
        },
        JsonValue::Object(entries) => {
            proof { lemma_entry_models(entries@); }
            let ghost es = entry_models(entries@);
            assert(value.model() == Json::Object(es));
            if value.has_str("type", "input_image") {
                let url: Option<Vec<char>> = match value.get_str("image_url") {
                    Some(u) => Some(chars_of(u)),
                    None => None,
                };
                match url {
                    None => {
                        return (value.deep_clone(), 0);
                    },
                    Some(u) => match image_object_replacement_exec(u.as_slice(), thread_id, image_path) {
                        Some((text, n)) => {
                            return (input_text_object_exec(text.as_slice()), n);
                        },
                        None => {},
                    },
                }
            }
            let mut out: Vec<(String, JsonValue)> = Vec::new();
            let mut total: usize = 0;
            let mut i: usize = 0;
            assert(es.take(0) =~= Seq::<(Seq<char>, Json)>::empty());
            assert(entry_models(out@) =~= Seq::<(Seq<char>, Json)>::empty());
            while i < entries.len()
                invariant
                    i <= entries@.len(),
                    es == entry_models(entries@),
                    es.len() == entries@.len(),
                    forall|m: int| 0 <= m < entries@.len() ==> #[trigger] es[m] == (entries@[m].0@, entries@[m].1.model()),
                    entry_models(out@) == scrub_members(es.take(i as int), thread_id@, image_path@).0,
                    total == saturate(scrub_members(es.take(i as int), thread_id@, image_path@).1),
                decreases entries.len() - i,
            {
                let (v, n) = scrub_inline_images(&entries[i].1, thread_id, image_path);
                proof {
                    assert(es.take(i + 1).drop_last() =~= es.take(i as int));
                    assert(es.take(i + 1).last() == es[i as int]);
                    lemma_scrub_members_nonneg(es.take(i as int), thread_id@, image_path@);
                    lemma_scrub_nonneg(es[i as int].1, thread_id@, image_path@);
                }
                let key = string_of(chars_of(entries[i].0.as_str()).as_slice());
                proof { lemma_entry_models_push(out@, (key, v)); }
                out.push((key, v));
                total = total.saturating_add(n);
                i = i + 1;
            }
            assert(es.take(es.len() as int) =~= es);
            (JsonValue::Object(out), total)
        },
        JsonValue::Array(items) => {
            proof { lemma_models(items@); }
            let ghost ms = models(items@);
            assert(value.model() == Json::Array(ms));
            let mut out: Vec<JsonValue> = Vec::new();
            let mut total: usize = 0;
            let mut i: usize = 0;
            assert(ms.take(0) =~= Seq::<Json>::empty());
            assert(models(out@) =~= Seq::<Json>::empty());
            while i < items.len()
                invariant
                    i <= items@.len(),
                    ms == models(items@),
                    ms.len() == items@.len(),
                    forall|m: int| 0 <= m < items@.len() ==> #[trigger] ms[m] == items@[m].model(),
                    models(out@) == scrub_items(ms.take(i as int), thread_id@, image_path@).0,
                    total == saturate(scrub_items(ms.take(i as int), thread_id@, image_path@).1),
                decreases items.len() - i,
            {
                let (v, n) = scrub_inline_images(&items[i], thread_id, image_path);
                proof {
                    assert(ms.take(i + 1).drop_last() =~= ms.take(i as int));
                    assert(ms.take(i + 1).last() == ms[i as int]);
                    lemma_scrub_items_nonneg(ms.take(i as int), thread_id@, image_path@);
                    lemma_scrub_nonneg(ms[i as int], thread_id@, image_path@);
                    lemma_models_push(out@, v);
                }
                out.push(v);
                total = total.saturating_add(n);
                i = i + 1;
            }
            assert(ms.take(ms.len() as int) =~= ms);
            (JsonValue::Array(out), total)
        },
        _ => (value.deep_clone(), 0),
    }
}


/// The bytes of inline image URIs anywhere in a value.
pub open spec fn inline_image_bytes(j: Json) -> int
    decreases j, 2nat,
{
    match j {
        Json::Str(t) => spans_bytes(t, data_image_spans(t)),
        Json::Object(entries) => members_image_bytes(entries),
        Json::Array(items) => items_image_bytes(items),
        _ => 0,
    }
}

pub open spec fn members_image_bytes(entries: Seq<(Seq<char>, Json)>) -> int
    decreases entries, 1nat,
{
    if entries.len() == 0 { 0 } else { members_image_bytes(entries.drop_last()) + inline_image_bytes(entries.last().1) }
}

pub open spec fn items_image_bytes(items: Seq<Json>) -> int
    decreases items, 1nat,
{
    if items.len() == 0 { 0 } else { items_image_bytes(items.drop_last()) + inline_image_bytes(items.last()) }
}

pub proof fn lemma_image_bytes_nonneg(j: Json)
    ensures
        inline_image_bytes(j) >= 0,
    decreases j, 2nat,
{
    match j {
        Json::Str(t) => {
            lemma_spans_ordered(t, 0);
            lemma_spans_bytes_bound(t, data_image_spans(t), 0);
        },
        Json::Object(entries) => lemma_members_image_bytes_nonneg(entries),
        Json::Array(items) => lemma_items_image_bytes_nonneg(items),
        _ => {},
    }
}

pub proof fn lemma_members_image_bytes_nonneg(entries: Seq<(Seq<char>, Json)>)
    ensures
        members_image_bytes(entries) >= 0,
    decreases entries, 1nat,
{
    if entries.len() > 0 {
        lemma_members_image_bytes_nonneg(entries.drop_last());
        lemma_image_bytes_nonneg(entries.last().1);
    }
}

pub proof fn lemma_items_image_bytes_nonneg(items: Seq<Json>)
    ensures
        items_image_bytes(items) >= 0,
    decreases items, 1nat,
{
    if items.len() > 0 {
        lemma_items_image_bytes_nonneg(items.drop_last());
        lemma_image_bytes_nonneg(items.last());
    }
}

/// The bytes of inline image URIs in a text.
fn text_image_bytes(text: &[char]) -> (res: usize)
    ensures
        res == spans_bytes(text@, data_image_spans(text@)),
{
    let spans = data_image_spans_exec(text);
    let ghost sm = span_models(spans@);
    let total_len = utf8_len_chars(text);
    proof {
        lemma_spans_ordered(text@, 0);
        lemma_spans_bytes_bound(text@, sm, 0);
        assert(text@.subrange(0, text@.len() as int) =~= text@);
    }
    let mut total: usize = 0;
    let mut k: usize = 0;
    let mut cursor: usize = 0;
    assert(sm.skip(0) =~= sm);
    while k < spans.len()
        invariant
            k <= spans@.len(),
            sm == span_models(spans@),
            spans_ordered(sm.skip(k as int), cursor as int, text@.len() as int),
            total + spans_bytes(text@, sm.skip(k as int)) == spans_bytes(text@, sm),
            spans_bytes(text@, sm) <= total_len,
            cursor <= text@.len(),
        decreases spans.len() - k,
    {
        let (start, end) = spans[k];
        let ghost rest = sm.skip(k as int);
        assert(rest[0] == (start as int, end as int));
        assert(rest.drop_first() =~= sm.skip(k + 1));
        proof { lemma_spans_bytes_bound(text@, sm.skip(k + 1), end as int); }
        let uri = copy_chars(&text[start..end]);
        assert(uri@ =~= text@.subrange(start as int, end as int));
        total = total + utf8_len_chars(uri.as_slice());
        cursor = end;
        k = k + 1;
    }
    total
}

/// The bytes of inline image URIs anywhere in a value, saturated at
/// `usize::MAX`.
#[verifier::loop_isolation(false)]
pub fn inline_data_image_bytes(value: &JsonValue) -> (res: usize)
    ensures
        res == saturate(inline_image_bytes(value.model())),
    decreases value,
{
    proof { lemma_image_bytes_nonneg(value.model()); }
    match value {
        JsonValue::String(t) => text_image_bytes(chars_of(t.as_str()).as_slice()),
        JsonValue::Object(entries) => {
            proof { lemma_entry_models(entries@); }
            let ghost es = entry_models(entries@);
            assert(value.model() == Json::Object(es));
            let mut total: usize = 0;
            let mut i: usize = 0;
            while i < entries.len()
                invariant
                    i <= entries@.len(),
                    es == entry_models(entries@),
                    es.len() == entries@.len(),
                    forall|m: int| 0 <= m < entries@.len() ==> #[trigger] es[m] == (entries@[m].0@, entries@[m].1.model()),
                    total == saturate(members_image_bytes(es.take(i as int))),
                decreases entries.len() - i,
            {
                let n = inline_data_image_bytes(&entries[i].1);
                proof {
                    assert(es.take(i + 1).drop_last() =~= es.take(i as int));
                    assert(es.take(i + 1).last() == es[i as int]);
                    lemma_members_image_bytes_nonneg(es.take(i as int));
                    lemma_image_bytes_nonneg(es[i as int].1);
                }
                total = total.saturating_add(n);
                i = i + 1;
            }
            assert(es.take(es.len() as int) =~= es);
            total
        },
        JsonValue::Array(items) => {
            proof { lemma_models(items@); }
            let ghost ms = models(items@);
            assert(value.model() == Json::Array(ms));
            let mut total: usize = 0;
            let mut i: usize = 0;
            while i < items.len()
                invariant
                    i <= items@.len(),
                    ms == models(items@),
                    ms.len() == items@.len(),
                    forall|m: int| 0 <= m < items@.len() ==> #[trigger] ms[m] == items@[m].model(),
                    total == saturate(items_image_bytes(ms.take(i as int))),
                decreases items.len() - i,
            {
                let n = inline_data_image_bytes(&items[i]);
                proof {
                    assert(ms.take(i + 1).drop_last() =~= ms.take(i as int));
                    assert(ms.take(i + 1).last() == ms[i as int]);
                    lemma_items_image_bytes_nonneg(ms.take(i as int));
                    lemma_image_bytes_nonneg(ms[i as int]);
                }
                total = total.saturating_add(n);
                i = i + 1;
            }
            assert(ms.take(ms.len() as int) =~= ms);
            total
        },
        _ => 0,
    }
}


/// Estimated tokens of one character: one for ASCII, two otherwise.
pub open spec fn char_tokens(c: char) -> int {
    if (c as u32) < 128 { 1 } else { 2 }
}

pub open spec fn text_tokens(s: Seq<char>) -> int
    decreases s.len(),
{
    if s.len() == 0 { 0 } else { text_tokens(s.drop_last()) + char_tokens(s.last()) }
}

/// The estimated tokens of a text, at least one.
pub open spec fn estimate_tokens_spec(s: Seq<char>) -> int {
    if text_tokens(s) < 1 { 1 } else { text_tokens(s) }
}

proof fn lemma_text_tokens_bound(s: Seq<char>)
    ensures
        0 <= text_tokens(s) <= 2 * s.len(),
    decreases s.len(),
{
    if s.len() > 0 {
        lemma_text_tokens_bound(s.drop_last());
    }
}

fn char_tokens_exec(c: char) -> (res: u128)
    ensures
        res == char_tokens(c),
{
    if (c as u32) < 128 { 1 } else { 2 }
}

/// The estimated tokens of a text.
pub fn estimate_tokens(s: &[char]) -> (res: u128)
    ensures
        res == estimate_tokens_spec(s@),
{
    let mut total: u128 = 0;
    let mut i: usize = 0;
    while i < s.len()
        invariant
            i <= s@.len(),
            total == text_tokens(s@.take(i as int)),
            total <= 2 * i,
        decreases s.len() - i,
    {
        assert(s@.take(i + 1).drop_last() =~= s@.take(i as int));
        total = total + char_tokens_exec(s[i]);
        i = i + 1;
    }
    assert(s@.take(s@.len() as int) =~= s@);
    if total < 1 { 1 } else { total }
}

/// The state of a split: finished pieces, the piece being filled, and its
/// tokens.
pub type SplitState = (Seq<Seq<char>>, Seq<char>, int);

/// Splitting an over-long line by characters, each piece within `target`
/// tokens unless a single character exceeds it.
pub open spec fn split_long_state(s: Seq<char>, target: int) -> SplitState
    decreases s.len(),
{
    if s.len() == 0 {
        (Seq::empty(), Seq::empty(), 0)
    } else {
        let (pieces, cur, tokens) = split_long_state(s.drop_last(), target);
        let c = s.last();
        let t = char_tokens(c);
        if cur.len() > 0 && tokens + t > target {
            (pieces.push(cur), seq![c], t)
        } else {
            (pieces, cur.push(c), tokens + t)
        }
    }
}

pub open spec fn flush(pieces: Seq<Seq<char>>, cur: Seq<char>) -> Seq<Seq<char>> {
    if cur.len() > 0 { pieces.push(cur) } else { pieces }
}

pub open spec fn split_long_piece_spec(s: Seq<char>, target: int) -> Seq<Seq<char>> {
    let (pieces, cur, _) = split_long_state(s, target);
    flush(pieces, cur)
}

proof fn lemma_split_long_state_bound(s: Seq<char>, target: int)
    ensures
        0 <= split_long_state(s, target).2 <= 2 * s.len(),
    decreases s.len(),
{
    if s.len() > 0 {
        lemma_split_long_state_bound(s.drop_last(), target);
    }
}

/// The estimated tokens of a text are the sum of those of its parts: the
/// estimate of two texts one after the other is the sum of their estimates.
pub proof fn lemma_text_tokens_concat(a: Seq<char>, b: Seq<char>)
    ensures
        text_tokens(a + b) == text_tokens(a) + text_tokens(b),
    decreases b.len(),
{
    if b.len() > 0 {
        lemma_text_tokens_concat(a, b.drop_last());
        assert((a + b).drop_last() =~= a + b.drop_last());
        assert((a + b).last() == b.last());
    } else {
        assert(a + b =~= a);
    }
}

/// A single character is estimated at one token when it is ASCII and at
/// two otherwise, and a non-empty text at least at one token per character.
pub proof fn lemma_text_tokens_per_char(c: char, s: Seq<char>)
    ensures
        text_tokens(seq![c]) == if (c as u32) < 128 { 1int } else { 2int },
        text_tokens(s) >= s.len(),
    decreases s.len(),
{
    assert(seq![c].drop_last() =~= Seq::<char>::empty());
    assert(text_tokens(Seq::<char>::empty()) == 0);
    assert(seq![c].last() == c);
    if s.len() > 0 {
        lemma_text_tokens_per_char(c, s.drop_last());
    }
}

proof fn lemma_split_long_state_within(s: Seq<char>, target: int)
    ensures
        ({
            let (pieces, cur, tokens) = split_long_state(s, target);
            &&& text_tokens(cur) == tokens
            &&& (tokens <= target || cur.len() <= 1)
            &&& forall|i: int| 0 <= i < pieces.len()
                ==> text_tokens(#[trigger] pieces[i]) <= target || pieces[i].len() == 1
        }),
    decreases s.len(),
{
    if s.len() > 0 {
        lemma_split_long_state_within(s.drop_last(), target);
        let (pieces, cur, tokens) = split_long_state(s.drop_last(), target);
        let c = s.last();
        lemma_text_tokens_per_char(c, cur);
        if cur.len() > 0 && char_tokens(c) + tokens > target {
            let p2 = pieces.push(cur);
            assert forall|i: int| 0 <= i < p2.len()
                implies text_tokens(#[trigger] p2[i]) <= target || p2[i].len() == 1 by {
                if i < pieces.len() {
                    assert(p2[i] == pieces[i]);
                }
            }
        } else {
            assert(cur.push(c).drop_last() =~= cur);
        }
    }
}

/// Every piece of a split over-long line stays within the target in
/// estimated tokens, unless it is a single character; and no piece is
/// empty.
pub proof fn lemma_split_pieces_within_target(s: Seq<char>, target: int)
    ensures
        forall|i: int| 0 <= i < split_long_piece_spec(s, target).len() ==> {
            &&& text_tokens(#[trigger] split_long_piece_spec(s, target)[i]) <= target
                || split_long_piece_spec(s, target)[i].len() == 1
            &&& split_long_piece_spec(s, target)[i].len() > 0
        },
{
    lemma_split_long_state_within(s, target);
    lemma_split_long_state_nonempty(s, target);
    let (pieces, cur, tokens) = split_long_state(s, target);
    let out = split_long_piece_spec(s, target);
    assert forall|i: int| 0 <= i < out.len() implies {
        &&& text_tokens(#[trigger] out[i]) <= target || out[i].len() == 1
        &&& out[i].len() > 0
    } by {
        if i < pieces.len() {
            assert(out[i] == pieces[i]);
        } else {
            assert(out[i] == cur);
        }
    }
}

proof fn lemma_split_long_state_greedy(s: Seq<char>, target: int)
    ensures
        ({
            let (pieces, cur, tokens) = split_long_state(s, target);
            &&& text_tokens(cur) == tokens
            &&& (s.len() > 0 ==> cur.len() > 0)
            &&& (s.len() == 0 ==> pieces.len() == 0 && cur.len() == 0)
            &&& forall|i: int| 0 <= i < pieces.len() ==> (#[trigger] pieces[i]).len() > 0
            &&& forall|i: int| 0 <= i < pieces.len() - 1
                ==> text_tokens(#[trigger] pieces[i]) + char_tokens(pieces[i + 1][0]) > target
            &&& (pieces.len() > 0 ==> text_tokens(pieces.last()) + char_tokens(cur[0]) > target)
        }),
    decreases s.len(),
{
    if s.len() > 0 {
        lemma_split_long_state_greedy(s.drop_last(), target);
        let (pieces, cur, tokens) = split_long_state(s.drop_last(), target);
        let c = s.last();
        lemma_text_tokens_per_char(c, cur);
        if cur.len() > 0 && char_tokens(c) + tokens > target {
            let p2 = pieces.push(cur);
            assert forall|i: int| 0 <= i < p2.len() implies (#[trigger] p2[i]).len() > 0 by {
                if i < pieces.len() {
                    assert(p2[i] == pieces[i]);
                }
            }
            assert forall|i: int| 0 <= i < p2.len() - 1
                implies text_tokens(#[trigger] p2[i]) + char_tokens(p2[i + 1][0]) > target by {
                assert(p2[i] == pieces[i]);
                if i + 1 < pieces.len() {
                    assert(p2[i + 1] == pieces[i + 1]);
                } else {
                    assert(p2[i + 1] == cur);
                }
            }
        } else {
            assert(cur.push(c).drop_last() =~= cur);
            if cur.len() > 0 {
                assert(cur.push(c)[0] == cur[0]);
            }
        }
    }
}

/// A split takes as much into each piece as the target allows: the
/// estimated tokens of a piece and those of the first character of the
/// next piece together exceed the target.
pub proof fn lemma_split_pieces_are_full(s: Seq<char>, target: int)
    ensures
        forall|i: int| 0 <= i < split_long_piece_spec(s, target).len() - 1
            ==> text_tokens(#[trigger] split_long_piece_spec(s, target)[i])
                + char_tokens(split_long_piece_spec(s, target)[i + 1][0]) > target,
{
    lemma_split_long_state_greedy(s, target);
    let (pieces, cur, tokens) = split_long_state(s, target);
    let out = split_long_piece_spec(s, target);
    assert forall|i: int| 0 <= i < out.len() - 1
        implies text_tokens(#[trigger] out[i]) + char_tokens(out[i + 1][0]) > target by {
        assert(out[i] == pieces[i]);
        if i + 1 < pieces.len() {
            assert(out[i + 1] == pieces[i + 1]);
        } else {
            assert(out[i + 1] == cur);
        }
    }
}

proof fn lemma_split_long_state_nonempty(s: Seq<char>, target: int)
    ensures
        forall|i: int| 0 <= i < split_long_state(s, target).0.len() ==> (#[trigger] split_long_state(s, target).0[i]).len() > 0,
    decreases s.len(),
{
    if s.len() > 0 {
        lemma_split_long_state_nonempty(s.drop_last(), target);
        let (pieces, cur, tokens) = split_long_state(s.drop_last(), target);
        let c = s.last();
        if cur.len() > 0 && char_tokens(c) + tokens > target {
            let p2 = pieces.push(cur);
            assert forall|i: int| 0 <= i < p2.len() implies (#[trigger] p2[i]).len() > 0 by {
                if i < pieces.len() {
                    assert(p2[i] == pieces[i]);
                }
            }
        }
    }
}

/// Splits an over-long line (see `split_long_piece_spec`).
pub fn split_long_piece(s: &[char], target: u128) -> (res: Vec<Vec<char>>)
    ensures
        text_seqs(res@) == split_long_piece_spec(s@, target as int),
{
    let mut pieces: Vec<Vec<char>> = Vec::new();
    let mut cur: Vec<char> = Vec::new();
    let mut tokens: u128 = 0;
    let mut i: usize = 0;
    assert(text_seqs(pieces@) =~= Seq::<Seq<char>>::empty());
    while i < s.len()
        invariant
            i <= s@.len(),
            (text_seqs(pieces@), cur@, tokens as int) == split_long_state(s@.take(i as int), target as int),
            tokens <= 2 * i,
        decreases s.len() - i,
    {
        assert(s@.take(i + 1).drop_last() =~= s@.take(i as int));
        proof { lemma_split_long_state_bound(s@.take(i as int), target as int); }
        let c = s[i];
        let t = char_tokens_exec(c);
        if cur.len() > 0 && tokens + t > target {
            let ghost pm = text_seqs(pieces@);
            pieces.push(cur);
            assert(text_seqs(pieces@) =~= pm.push(cur@));
            cur = Vec::new();
            cur.push(c);
            assert(cur@ =~= seq![c]);
            tokens = t;
        } else {
            cur.push(c);
            tokens = tokens + t;
        }
        i = i + 1;
    }
    assert(s@.take(s@.len() as int) =~= s@);
    if cur.len() > 0 {
        let ghost pm = text_seqs(pieces@);
        pieces.push(cur);
        assert(text_seqs(pieces@) =~= pm.push(cur@));
    }
    pieces
}

pub open spec fn text_seqs(v: Seq<Vec<char>>) -> Seq<Seq<char>> {
    v.map_values(|x: Vec<char>| x@)
}

/// `str::split_inclusive('\n')`: the lines with their newline, the last one
/// without when the text does not end in one; no empty last line.
pub open spec fn split_inclusive_lines(s: Seq<char>) -> Seq<Seq<char>> {
    let parts = split_seq(s, '\n');
    let n = if parts.last().len() == 0 { parts.len() - 1 } else { parts.len() as int };
    Seq::new(n as nat, |i: int| if i < parts.len() - 1 { parts[i].push('\n') } else { parts[i] })
}

/// One line into the chunking: a chunk that would grow past the target is
/// closed first; a line over the target is split into pieces of its own.
pub open spec fn chunk_step(state: SplitState, line: Seq<char>, target: int) -> SplitState {
    let (chunks, cur, tokens) = state;
    let lt = estimate_tokens_spec(line);
    let (chunks1, cur1, tokens1) = if cur.len() > 0 && tokens + lt > target {
        (chunks.push(cur), Seq::<char>::empty(), 0int)
    } else {
        (chunks, cur, tokens)
    };
    if lt > target {
        (chunks1 + split_long_piece_spec(line, target), cur1, tokens1)
    } else {
        (chunks1, cur1 + line, tokens1 + lt)
    }
}

pub open spec fn chunk_lines_state(lines: Seq<Seq<char>>, target: int) -> SplitState
    decreases lines.len(),
{
    if lines.len() == 0 {
        (Seq::empty(), Seq::empty(), 0)
    } else {
        chunk_step(chunk_lines_state(lines.drop_last(), target), lines.last(), target)
    }
}

/// The text cut at line ends into chunks of about `target` tokens (at least
/// one).
pub open spec fn chunk_spec(s: Seq<char>, target: int) -> Seq<Seq<char>> {
    let t = if target < 1 { 1 } else { target };
    let (chunks, cur, _) = chunk_lines_state(split_inclusive_lines(s), t);
    flush(chunks, cur)
}


/// `str::split_inclusive('\n')` (see `split_inclusive_lines`).
pub fn split_inclusive_exec(s: &[char]) -> (res: Vec<Vec<char>>)
    ensures
        text_seqs(res@) == split_inclusive_lines(s@),
{
    let pieces = split_char(s, '\n');
    let ghost parts = split_seq(s@, '\n');
    proof { crate::text::lemma_split_seq_nonempty(s@, '\n'); }
    let last = pieces.len() - 1;
    let n = if pieces[last].len() == 0 { last } else { pieces.len() };
    assert(pieces@[last as int]@ == parts.last());
    let mut out: Vec<Vec<char>> = Vec::new();
    let mut i: usize = 0;
    while i < n
        invariant
            i <= n,
            n <= pieces@.len(),
            pieces@.len() == parts.len(),
            last == pieces@.len() - 1,
            parts == split_seq(s@, '\n'),
            n == split_inclusive_lines(s@).len(),
            forall|m: int| 0 <= m < pieces@.len() ==> #[trigger] pieces@[m]@ == parts[m],
            text_seqs(out@) == split_inclusive_lines(s@).take(i as int),
        decreases n - i,
    {
        let mut line = copy_chars(pieces[i].as_slice());
        if i < last {
            line.push('\n');
        }
        let ghost om = text_seqs(out@);
        assert(line@ == split_inclusive_lines(s@)[i as int]) by {
            if i < last {
                assert(line@ == parts[i as int].push('\n'));
            }
        }
        out.push(line);
        assert(text_seqs(out@) =~= om.push(line@));
        assert(text_seqs(out@) =~= split_inclusive_lines(s@).take(i + 1));
        i = i + 1;
    }
    assert(split_inclusive_lines(s@).take(n as int) =~= split_inclusive_lines(s@));
    out
}

proof fn lemma_split_inclusive_nonempty(s: Seq<char>, i: int)
    requires
        0 <= i < split_inclusive_lines(s).len(),
    ensures
        split_inclusive_lines(s)[i].len() > 0,
{
    let parts = split_seq(s, '\n');
    crate::text::lemma_split_seq_nonempty(s, '\n');
    let n = if parts.last().len() == 0 { parts.len() - 1 } else { parts.len() as int };
    let f = |k: int| if k < parts.len() - 1 { parts[k].push('\n') } else { parts[k] };
    assert(split_inclusive_lines(s) == Seq::new(n as nat, f));
    assert(split_inclusive_lines(s)[i] == f(i));
    if i < parts.len() - 1 {
        assert(f(i).len() == parts[i].len() + 1);
    } else {
        assert(n == parts.len());
        assert(parts.last() == parts[i]);
    }
}

/// Cuts a text into chunks of about `target` tokens (see `chunk_spec`).
pub fn chunk_by_estimated_tokens(input: &[char], target_tokens: usize) -> (res: Vec<Vec<char>>)
    ensures
        text_seqs(res@) == chunk_spec(input@, target_tokens as int),
{
    let target: u128 = if target_tokens < 1 { 1 } else { target_tokens as u128 };
    let lines = split_inclusive_exec(input);
    let ghost lm = text_seqs(lines@);
    let mut chunks: Vec<Vec<char>> = Vec::new();
    let mut cur: Vec<char> = Vec::new();
    let mut tokens: u128 = 0;
    let mut i: usize = 0;
    assert(text_seqs(chunks@) =~= Seq::<Seq<char>>::empty());
    assert(lm.take(0) =~= Seq::<Seq<char>>::empty());
    while i < lines.len()
        invariant
            i <= lines@.len(),
            lm == text_seqs(lines@),
            lm == split_inclusive_lines(input@),
            1 <= target <= usize::MAX,
            tokens <= target,
            cur@.len() == 0 ==> tokens == 0,
            (text_seqs(chunks@), cur@, tokens as int) == chunk_lines_state(lm.take(i as int), target as int),
        decreases lines.len() - i,
    {
        assert(lm.take(i + 1).drop_last() =~= lm.take(i as int));
        assert(lm.take(i + 1).last() == lines@[i as int]@);
        let line = lines[i].as_slice();
        proof {
            lemma_text_tokens_bound(line@);
            lemma_split_inclusive_nonempty(input@, i as int);
            assert(line@ == lm[i as int]);
        }
        let lt = estimate_tokens(line);
        let ll = line.len();
        assert(lt <= 2 * ll + 1);
        if cur.len() > 0 && tokens + lt > target {
            let ghost cm = text_seqs(chunks@);
            chunks.push(cur);
            assert(text_seqs(chunks@) =~= cm.push(cur@));
            cur = Vec::new();
            tokens = 0;
        }
        if lt > target {
            let pieces = split_long_piece(line, target);
            let ghost cm = text_seqs(chunks@);
            let ghost pm = text_seqs(pieces@);
            let mut pieces = pieces;
            chunks.append(&mut pieces);
            assert(text_seqs(chunks@) =~= cm + pm);
        } else {
            append(&mut cur, line);
            tokens = tokens + lt;
        }
        i = i + 1;
    }
    assert(lm.take(lm.len() as int) =~= lm);
    if cur.len() > 0 {
        let ghost cm = text_seqs(chunks@);
        chunks.push(cur);
        assert(text_seqs(chunks@) =~= cm.push(cur@));
    }
    chunks
}


/// The pieces of a split text joined again with the separator between them.
pub open spec fn joined(parts: Seq<Seq<char>>, sep: char) -> Seq<char>
    decreases parts.len(),
{
    if parts.len() <= 1 {
        if parts.len() == 1 { parts[0] } else { Seq::empty() }
    } else {
        joined(parts.drop_last(), sep).push(sep) + parts.last()
    }
}

proof fn lemma_joined_split(s: Seq<char>, sep: char)
    ensures
        joined(split_seq(s, sep), sep) == s,
    decreases s.len(),
{
    crate::text::lemma_split_seq_nonempty(s, sep);
    if s.len() > 0 {
        let rest = split_seq(s.drop_last(), sep);
        crate::text::lemma_split_seq_nonempty(s.drop_last(), sep);
        lemma_joined_split(s.drop_last(), sep);
        let parts = split_seq(s, sep);
        if s.last() == sep {
            assert(parts.drop_last() =~= rest);
            assert(s =~= s.drop_last().push(sep) + Seq::<char>::empty());
        } else {
            if rest.len() > 1 {
                assert(parts.drop_last() =~= rest.drop_last());
                assert(joined(parts, sep) == joined(rest.drop_last(), sep).push(sep) + rest.last().push(s.last()));
                assert(s =~= (joined(rest.drop_last(), sep).push(sep) + rest.last()).push(s.last()));
            } else {
                assert(s =~= rest[0].push(s.last()));
            }
        }
    }
}

/// Every piece but the last, each with its separator back.
pub open spec fn with_separators(parts: Seq<Seq<char>>, sep: char) -> Seq<Seq<char>> {
    Seq::new((parts.len() - 1) as nat, |i: int| parts[i].push(sep))
}

proof fn lemma_with_separators(parts: Seq<Seq<char>>, sep: char)
    requires
        parts.len() >= 1,
    ensures
        with_separators(parts, sep).flatten_alt() + parts.last() == joined(parts, sep),
    decreases parts.len(),
{
    if parts.len() > 1 {
        let pdl = parts.drop_last();
        lemma_with_separators(pdl, sep);
        let w = with_separators(parts, sep);
        assert(w.drop_last() =~= with_separators(pdl, sep));
        assert(w.last() == pdl.last().push(sep));
        assert(w.flatten_alt() + parts.last() =~= (with_separators(pdl, sep).flatten_alt() + pdl.last()).push(sep) + parts.last());
    } else {
        assert(with_separators(parts, sep) =~= Seq::<Seq<char>>::empty());
        assert(Seq::<char>::empty() + parts.last() =~= parts[0]);
    }
}

/// The lines of a text joined again give the text.
proof fn lemma_lines_flatten(s: Seq<char>)
    ensures
        split_inclusive_lines(s).flatten_alt() == s,
{
    let parts = split_seq(s, '\n');
    crate::text::lemma_split_seq_nonempty(s, '\n');
    lemma_joined_split(s, '\n');
    lemma_with_separators(parts, '\n');
    let lines = split_inclusive_lines(s);
    let w = with_separators(parts, '\n');
    if parts.last().len() == 0 {
        assert(lines =~= w);
        assert(w.flatten_alt() + parts.last() =~= w.flatten_alt());
    } else {
        assert(lines.drop_last() =~= w);
        assert(lines.last() == parts.last());
    }
}

proof fn lemma_flatten_alt_concat(a: Seq<Seq<char>>, b: Seq<Seq<char>>)
    ensures
        (a + b).flatten_alt() == a.flatten_alt() + b.flatten_alt(),
    decreases b.len(),
{
    if b.len() == 0 {
        assert(a + b =~= a);
        assert(a.flatten_alt() + Seq::<char>::empty() =~= a.flatten_alt());
    } else {
        lemma_flatten_alt_concat(a, b.drop_last());
        assert((a + b).drop_last() =~= a + b.drop_last());
        assert((a + b).last() == b.last());
        assert((a + b).flatten_alt() =~= a.flatten_alt() + b.flatten_alt());
    }
}

proof fn lemma_split_long_state_flatten(s: Seq<char>, target: int)
    ensures
        split_long_state(s, target).0.flatten_alt() + split_long_state(s, target).1 == s,
    decreases s.len(),
{
    if s.len() > 0 {
        lemma_split_long_state_flatten(s.drop_last(), target);
        let (pieces, cur, tokens) = split_long_state(s.drop_last(), target);
        let c = s.last();
        if cur.len() > 0 && tokens + char_tokens(c) > target {
            assert(pieces.push(cur).drop_last() =~= pieces);
            assert(pieces.push(cur).flatten_alt() + seq![c] =~= (pieces.flatten_alt() + cur).push(c));
        } else {
            assert(pieces.flatten_alt() + cur.push(c) =~= (pieces.flatten_alt() + cur).push(c));
        }
        assert(s =~= s.drop_last().push(c));
    }
}

proof fn lemma_flush_flatten(pieces: Seq<Seq<char>>, cur: Seq<char>)
    ensures
        flush(pieces, cur).flatten_alt() == pieces.flatten_alt() + cur,
{
    if cur.len() > 0 {
        assert(pieces.push(cur).drop_last() =~= pieces);
    } else {
        assert(pieces.flatten_alt() + cur =~= pieces.flatten_alt());
    }
}

proof fn lemma_chunk_lines_state_flatten(lines: Seq<Seq<char>>, target: int)
    ensures
        chunk_lines_state(lines, target).0.flatten_alt() + chunk_lines_state(lines, target).1 == lines.flatten_alt(),
        chunk_lines_state(lines, target).2 >= 0,
    decreases lines.len(),
{
    if lines.len() > 0 {
        lemma_chunk_lines_state_flatten(lines.drop_last(), target);
        let (chunks, cur, tokens) = chunk_lines_state(lines.drop_last(), target);
        let line = lines.last();
        let lt = estimate_tokens_spec(line);
        let (chunks1, cur1, tokens1) = if cur.len() > 0 && tokens + lt > target {
            (chunks.push(cur), Seq::<char>::empty(), 0int)
        } else {
            (chunks, cur, tokens)
        };
        if cur.len() > 0 && tokens + lt > target {
            assert(chunks.push(cur).drop_last() =~= chunks);
            assert(chunks1.flatten_alt() + cur1 =~= chunks.flatten_alt() + cur);
        }
        assert(chunks1.flatten_alt() + cur1 == lines.drop_last().flatten_alt());
        if lt > target {
            let pieces = split_long_piece_spec(line, target);
            let (p, c, _) = split_long_state(line, target);
            lemma_split_long_state_flatten(line, target);
            lemma_flush_flatten(p, c);
            lemma_flatten_alt_concat(chunks1, pieces);
            assert(cur1.len() == 0);
            assert((chunks1 + pieces).flatten_alt() + cur1 =~= chunks1.flatten_alt() + line);
            assert(chunks1.flatten_alt() + line =~= (chunks1.flatten_alt() + cur1) + line);
        } else {
            assert(chunks1.flatten_alt() + (cur1 + line) =~= (chunks1.flatten_alt() + cur1) + line);
        }
    }
}

proof fn lemma_chunk_lines_state_within(lines: Seq<Seq<char>>, target: int)
    requires
        target >= 1,
        forall|i: int| 0 <= i < lines.len() ==> (#[trigger] lines[i]).len() > 0,
    ensures
        ({
            let (chunks, cur, tokens) = chunk_lines_state(lines, target);
            &&& text_tokens(cur) == tokens
            &&& tokens <= target
            &&& forall|i: int| 0 <= i < chunks.len() ==> {
                &&& text_tokens(#[trigger] chunks[i]) <= target || chunks[i].len() == 1
                &&& chunks[i].len() > 0
            }
        }),
    decreases lines.len(),
{
    if lines.len() > 0 {
        let init = lines.drop_last();
        assert forall|i: int| 0 <= i < init.len() implies (#[trigger] init[i]).len() > 0 by {
            assert(init[i] == lines[i]);
        }
        lemma_chunk_lines_state_within(init, target);
        let (chunks, cur, tokens) = chunk_lines_state(init, target);
        let line = lines.last();
        assert(line.len() > 0);
        lemma_text_tokens_per_char('a', line);
        let lt = estimate_tokens_spec(line);
        assert(lt == text_tokens(line));
        lemma_text_tokens_per_char('a', cur);
        let flushing = cur.len() > 0 && tokens + lt > target;
        let (chunks1, cur1, tokens1) = if flushing {
            (chunks.push(cur), Seq::<char>::empty(), 0int)
        } else {
            (chunks, cur, tokens)
        };
        assert(text_tokens(Seq::<char>::empty()) == 0);
        assert forall|i: int| 0 <= i < chunks1.len() implies {
            &&& text_tokens(#[trigger] chunks1[i]) <= target || chunks1[i].len() == 1
            &&& chunks1[i].len() > 0
        } by {
            if i < chunks.len() {
                assert(chunks1[i] == chunks[i]);
            }
        }
        if lt > target {
            let pieces = split_long_piece_spec(line, target);
            lemma_split_pieces_within_target(line, target);
            let all = chunks1 + pieces;
            assert forall|i: int| 0 <= i < all.len() implies {
                &&& text_tokens(#[trigger] all[i]) <= target || all[i].len() == 1
                &&& all[i].len() > 0
            } by {
                if i < chunks1.len() {
                    assert(all[i] == chunks1[i]);
                } else {
                    assert(all[i] == pieces[i - chunks1.len()]);
                }
            }
        } else {
            lemma_text_tokens_concat(cur1, line);
        }
    }
}

/// Every chunk of a text stays within the target (at least one) in
/// estimated tokens, unless it is a single character of an over-long line;
/// and no chunk is empty.
pub proof fn lemma_chunks_within_target(s: Seq<char>, target: int)
    ensures
        forall|i: int| 0 <= i < chunk_spec(s, target).len() ==> {
            &&& text_tokens(#[trigger] chunk_spec(s, target)[i]) <= (if target < 1 { 1 } else { target })
                || chunk_spec(s, target)[i].len() == 1
            &&& chunk_spec(s, target)[i].len() > 0
        },
{
    let t = if target < 1 { 1 } else { target };
    let lines = split_inclusive_lines(s);
    assert forall|i: int| 0 <= i < lines.len() implies (#[trigger] lines[i]).len() > 0 by {
        lemma_split_inclusive_nonempty(s, i);
    }
    lemma_chunk_lines_state_within(lines, t);
    let (chunks, cur, tokens) = chunk_lines_state(lines, t);
    let out = chunk_spec(s, target);
    assert forall|i: int| 0 <= i < out.len() implies {
        &&& text_tokens(#[trigger] out[i]) <= t || out[i].len() == 1
        &&& out[i].len() > 0
    } by {
        if i < chunks.len() {
            assert(out[i] == chunks[i]);
        } else {
            assert(out[i] == cur);
        }
    }
}

proof fn lemma_chunk_lines_state_fits(lines: Seq<Seq<char>>, target: int)
    requires
        target >= 1,
        forall|i: int| 0 <= i < lines.len() ==> (#[trigger] lines[i]).len() > 0,
        text_tokens(lines.flatten_alt()) <= target,
    ensures
        chunk_lines_state(lines, target) == (Seq::<Seq<char>>::empty(), lines.flatten_alt(), text_tokens(lines.flatten_alt())),
    decreases lines.len(),
{
    if lines.len() == 0 {
        assert(text_tokens(Seq::<char>::empty()) == 0);
    } else {
        let init = lines.drop_last();
        let line = lines.last();
        assert forall|i: int| 0 <= i < init.len() implies (#[trigger] init[i]).len() > 0 by {
            assert(init[i] == lines[i]);
        }
        lemma_text_tokens_concat(init.flatten_alt(), line);
        lemma_text_tokens_per_char('a', line);
        lemma_text_tokens_per_char('a', init.flatten_alt());
        lemma_chunk_lines_state_fits(init, target);
        assert(estimate_tokens_spec(line) == text_tokens(line));
    }
}

/// A non-empty text whose estimated tokens are within the target (at least
/// one) is not cut: it is one chunk, itself.
pub proof fn lemma_text_within_target_is_one_chunk(s: Seq<char>, target: int)
    requires
        s.len() > 0,
        text_tokens(s) <= (if target < 1 { 1 } else { target }),
    ensures
        chunk_spec(s, target) == seq![s],
{
    let t = if target < 1 { 1 } else { target };
    let lines = split_inclusive_lines(s);
    assert forall|i: int| 0 <= i < lines.len() implies (#[trigger] lines[i]).len() > 0 by {
        lemma_split_inclusive_nonempty(s, i);
    }
    lemma_lines_flatten(s);
    lemma_chunk_lines_state_fits(lines, t);
    assert(Seq::<Seq<char>>::empty().push(s) =~= seq![s]);
}

/// Chunking never loses or reorders text: the chunks joined again give the
/// input, whatever the target.
pub proof fn lemma_chunks_rejoin_to_input(s: Seq<char>, target: int)
    ensures
        chunk_spec(s, target).flatten() == s,
{
    let t = if target < 1 { 1 } else { target };
    let lines = split_inclusive_lines(s);
    lemma_lines_flatten(s);
    lemma_chunk_lines_state_flatten(lines, t);
    let (chunks, cur, _) = chunk_lines_state(lines, t);
    lemma_flush_flatten(chunks, cur);
    chunk_spec(s, target).lemma_flatten_and_flatten_alt_are_equivalent();
}

} // verus!
