//! Cleaning a rollout record by record: which lines are folded or dropped,
//! and how the others are rewritten.
use vstd::prelude::*;
use vstd::utf8::encode_utf8;
use crate::json::{Json, JsonValue, json_get, get_str, json_text, to_json_text, with_member, set_member, member_copy,
    models, lemma_models, lemma_models_push};
use crate::text::{chars_of, str_eq, string_of, u64_text, decimal_text, contains_seq, copy_chars, trim, trim_chars};
use crate::passive_capture::report::append;
use super::{scrub_json, saturate, inline_image_bytes, utf8_len, scrub_inline_images, inline_data_image_bytes, utf8_len_exec,
    lemma_scrub_nonneg, lemma_image_bytes_nonneg};
use super::events::{ToolCallInfo, ToolInfoModel, preview_spec, preview, nonempty_spec, nonempty, tool_call_info, tool_call_info_spec,
    is_high_token_count, is_high_token_count_spec, is_recoverable_task_error, is_recoverable_task_error_spec};
use super::{split_inclusive_lines, split_inclusive_exec, text_seqs};

verus! {

/// The tool calls seen in a rollout, `(call id, info)` in record order.
pub open spec fn tool_models(calls: Seq<(String, ToolCallInfo)>) -> Seq<(Seq<char>, ToolInfoModel)> {
    calls.map_values(|p: (String, ToolCallInfo)| (p.0@, p.1.model()))
}

/// What is known of a call: its last record.
pub open spec fn lookup_call(calls: Seq<(Seq<char>, ToolInfoModel)>, call_id: Seq<char>) -> Option<ToolInfoModel>
    decreases calls.len(),
{
    if calls.len() == 0 {
        None
    } else if calls.last().0 == call_id {
        Some(calls.last().1)
    } else {
        lookup_call(calls.drop_last(), call_id)
    }
}

pub fn lookup_call_exec<'a>(calls: &'a Vec<(String, ToolCallInfo)>, call_id: &str) -> (res: Option<&'a ToolCallInfo>)
    ensures
        match res {
            Some(info) => lookup_call(tool_models(calls@), call_id@) == Some(info.model()),
            None => lookup_call(tool_models(calls@), call_id@) is None,
        },
{
    let ghost tm = tool_models(calls@);
    let mut i = calls.len();
    assert(tm.take(i as int) =~= tm);
    while i > 0
        invariant
            i <= calls@.len(),
            tm == tool_models(calls@),
            lookup_call(tm, call_id@) == lookup_call(tm.take(i as int), call_id@),
        decreases i,
    {
        assert(tm.take(i as int).drop_last() =~= tm.take(i - 1));
        assert(tm.take(i as int).last() == (calls@[i - 1].0@, calls@[i - 1].1.model()));
        if str_eq(calls[i - 1].0.as_str(), call_id) {
            return Some(&calls[i - 1].1);
        }
        i = i - 1;
    }
    None
}

/// The payload of a function call output record, if the record is one.
pub open spec fn call_output_payload(v: Json) -> Option<Json> {
    match json_get(v, "payload"@) {
        Some(p) => if p is Object && get_str(p, "type"@) == Some("function_call_output"@) { Some(p) } else { None },
        None => None,
    }
}

/// The call id of an output payload, or `unknown-call`.
pub open spec fn output_call_id(payload: Json) -> Seq<char> {
    match get_str(payload, "call_id"@) {
        Some(c) => c,
        None => "unknown-call"@,
    }
}

/// Inline images in a function call output replaced by placeholders that
/// name the image the call viewed; `None` when nothing was removed.
pub open spec fn prune_inline_image_output_spec(v: Json, calls: Seq<(Seq<char>, ToolInfoModel)>, thread_id: Seq<char>) -> (Json, Option<int>) {
    match call_output_payload(v) {
        None => (v, None),
        Some(payload) => match json_get(payload, "output"@) {
            None => (v, None),
            Some(output) => {
                let image_path = match lookup_call(calls, output_call_id(payload)) {
                    Some(info) => match info.image_path { Some(p) => p, None => "unknown image path"@ },
                    None => "unknown image path"@,
                };
                let (scrubbed, removed) = scrub_json(output, thread_id, image_path);
                (
                    with_member(v, "payload"@, with_member(payload, "output"@, scrubbed)),
                    if removed > 0 { Some(saturate(removed)) } else { None },
                )
            },
        },
    }
}

fn text_of(s: &str) -> (res: String)
    ensures
        res@ == s@,
{
    string_of(chars_of(s).as_slice())
}

fn call_output_payload_exec(value: &JsonValue) -> (res: Option<JsonValue>)
    ensures
        match res {
            Some(p) => call_output_payload(value.model()) == Some(p.model()),
            None => call_output_payload(value.model()) is None,
        },
{
    match value.get("payload") {
        Some(p) => if p.is_object() && p.has_str("type", "function_call_output") { Some(p.deep_clone()) } else { None },
        None => None,
    }
}

fn output_call_id_exec(payload: &JsonValue) -> (res: String)
    ensures
        res@ == output_call_id(payload.model()),
{
    match payload.get_str("call_id") {
        Some(c) => text_of(c),
        None => text_of("unknown-call"),
    }
}

/// Replaces inline images in a function call output (see
/// `prune_inline_image_output_spec`).
pub fn prune_inline_image_output(value: JsonValue, calls: &Vec<(String, ToolCallInfo)>, thread_id: &[char]) -> (res: (JsonValue, Option<usize>))
    ensures
        res.0.model() == prune_inline_image_output_spec(value.model(), tool_models(calls@), thread_id@).0,
        match res.1 {
            Some(n) => prune_inline_image_output_spec(value.model(), tool_models(calls@), thread_id@).1 == Some(n as int),
            None => prune_inline_image_output_spec(value.model(), tool_models(calls@), thread_id@).1 is None,
        },
{
    let payload = match call_output_payload_exec(&value) {
        Some(p) => p,
        None => return (value, None),
    };
    let output = match member_copy(&payload, "output") {
        Some(o) => o,
        None => return (value, None),
    };
    let call_id = output_call_id_exec(&payload);
    let image_path: Vec<char> = match lookup_call_exec(calls, call_id.as_str()) {
        Some(info) => match &info.image_path {
            Some(p) => chars_of(p.as_str()),
            None => chars_of("unknown image path"),
        },
        None => chars_of("unknown image path"),
    };
    proof { lemma_scrub_nonneg(output.model(), thread_id@, image_path@); }
    let (scrubbed, removed) = scrub_inline_images(&output, thread_id, image_path.as_slice());
    let payload2 = set_member(payload, "output", scrubbed);
    let v = set_member(value, "payload", payload2);
    (v, if removed > 0 { Some(removed) } else { None })
}


pub open spec fn size_models(sizes: Seq<(String, usize)>) -> Seq<(Seq<char>, usize)> {
    sizes.map_values(|p: (String, usize)| (p.0@, p.1))
}

/// The size of a file the caller looked up (the last entry for the path).
pub open spec fn file_size(sizes: Seq<(Seq<char>, usize)>, path: Seq<char>) -> Option<usize>
    decreases sizes.len(),
{
    if sizes.len() == 0 {
        None
    } else if sizes.last().0 == path {
        Some(sizes.last().1)
    } else {
        file_size(sizes.drop_last(), path)
    }
}

/// How an image reference is shown: its text (or JSON) cut to 300 chars.
pub open spec fn image_reference(item: Json) -> Seq<char> {
    preview_spec(match item { Json::Str(t) => t, _ => json_text(item) }, 300)
}

/// The bytes an image reference stands for: its inline data, else the size
/// of the file it names (or the name's length), else its JSON length.
pub open spec fn image_reference_bytes(item: Json, sizes: Seq<(Seq<char>, usize)>) -> int {
    if inline_image_bytes(item) > 0 {
        saturate(inline_image_bytes(item))
    } else {
        match item {
            Json::Str(path) => match file_size(sizes, path) {
                Some(n) => n as int,
                None => utf8_len(path) as int,
            },
            _ => utf8_len(json_text(item)) as int,
        }
    }
}

pub open spec fn user_image_placeholder(thread_id: Seq<char>, field: Seq<char>, bytes: int, reference: Seq<char>) -> Seq<char> {
    "[context-guardian:user-image-placeholder thread="@ + thread_id + " field="@ + field + " estimated_removed_bytes="@
        + decimal_text(bytes as nat) + " original="@ + reference + "]"@
}

/// The placeholders for the images of one list, and their bytes.
pub open spec fn image_items_placeholders(items: Seq<Json>, thread_id: Seq<char>, field: Seq<char>, sizes: Seq<(Seq<char>, usize)>) -> (Seq<Json>, int)
    decreases items.len(),
{
    if items.len() == 0 {
        (Seq::empty(), 0)
    } else {
        let (done, n) = image_items_placeholders(items.drop_last(), thread_id, field, sizes);
        let item = items.last();
        let bytes = image_reference_bytes(item, sizes);
        (done.push(Json::Str(user_image_placeholder(thread_id, field, bytes, image_reference(item)))), n + bytes)
    }
}

/// One image list of a user message emptied, with its placeholders and bytes.
pub open spec fn image_field_step(payload: Json, field: Seq<char>, thread_id: Seq<char>, sizes: Seq<(Seq<char>, usize)>) -> (Json, Seq<Json>, int) {
    match json_get(payload, field) {
        Some(Json::Array(items)) => if items.len() > 0 {
            let (phs, n) = image_items_placeholders(items, thread_id, field, sizes);
            (with_member(payload, field, Json::Array(Seq::empty())), phs, n)
        } else {
            (payload, Seq::empty(), 0)
        },
        _ => (payload, Seq::empty(), 0),
    }
}

pub open spec fn placeholder_note(count: nat) -> Seq<char> {
    "\n\n[context-guardian removed "@ + decimal_text(count)
        + " image attachment(s) from this historical user message. The image references are preserved in payload.image_placeholders so future context rebuilds do not inline large image bodies.]"@
}

/// The note appended to (or set as) the message.
pub open spec fn with_placeholder_note(payload: Json, count: nat) -> Json {
    match json_get(payload, "message"@) {
        Some(Json::Str(m)) => if contains_seq(m, "payload.image_placeholders"@) {
            payload
        } else {
            with_member(payload, "message"@, Json::Str(m + placeholder_note(count)))
        },
        _ => with_member(payload, "message"@, Json::Str(trim(placeholder_note(count)))),
    }
}

pub open spec fn user_message_payload(v: Json) -> Option<Json> {
    if get_str(v, "type"@) == Some("event_msg"@) {
        match json_get(v, "payload"@) {
            Some(p) => if p is Object && get_str(p, "type"@) == Some("user_message"@) { Some(p) } else { None },
            None => None,
        }
    } else {
        None
    }
}

/// A user message's image attachments moved into placeholders: the value,
/// the number of placeholders and the bytes they stand for.
pub open spec fn scrub_user_images_spec(v: Json, thread_id: Seq<char>, sizes: Seq<(Seq<char>, usize)>) -> (Json, int, int) {
    match user_message_payload(v) {
        None => (v, 0, 0),
        Some(p0) => {
            let (p1, a, n1) = image_field_step(p0, "images"@, thread_id, sizes);
            let (p2, b, n2) = image_field_step(p1, "local_images"@, thread_id, sizes);
            let phs = a + b;
            if phs.len() == 0 {
                (v, 0, 0)
            } else {
                let p3 = with_member(p2, "image_placeholders"@, Json::Array(phs));
                (with_member(v, "payload"@, with_placeholder_note(p3, phs.len())), phs.len() as int, saturate(n1 + n2))
            }
        },
    }
}


/// The number of image references in one list of a user message.
pub open spec fn image_count(v: Json, field: Seq<char>) -> int {
    match user_message_payload(v) {
        Some(p) => match json_get(p, field) {
            Some(Json::Array(items)) => items.len() as int,
            _ => 0,
        },
        None => 0,
    }
}

proof fn lemma_scrub_keys_differ()
    ensures
        "payload"@ != "type"@,
        "message"@ != "type"@,
        "image_placeholders"@ != "type"@,
        "images"@ != "type"@,
        "local_images"@ != "type"@,
        "message"@ != "images"@,
        "message"@ != "local_images"@,
        "message"@ != "image_placeholders"@,
        "image_placeholders"@ != "images"@,
        "image_placeholders"@ != "local_images"@,
        "images"@ != "local_images"@,
{
    reveal_strlit("payload");
    reveal_strlit("type");
    reveal_strlit("message");
    reveal_strlit("image_placeholders");
    reveal_strlit("images");
    reveal_strlit("local_images");
    assert("payload"@.len() == 7 && "type"@.len() == 4 && "message"@.len() == 7);
    assert("image_placeholders"@.len() == 18 && "images"@.len() == 6 && "local_images"@.len() == 12);
}

proof fn lemma_placeholders_len(items: Seq<Json>, thread_id: Seq<char>, field: Seq<char>, sizes: Seq<(Seq<char>, usize)>)
    ensures
        image_items_placeholders(items, thread_id, field, sizes).0.len() == items.len(),
    decreases items.len(),
{
    if items.len() > 0 {
        lemma_placeholders_len(items.drop_last(), thread_id, field, sizes);
    }
}

/// One list step on an object: the list emptied when it held references,
/// one placeholder per reference, and every other member kept.
proof fn lemma_image_field_step(payload: Json, field: Seq<char>, thread_id: Seq<char>, sizes: Seq<(Seq<char>, usize)>)
    requires
        payload is Object,
    ensures
        image_field_step(payload, field, thread_id, sizes).0 is Object,
        image_field_step(payload, field, thread_id, sizes).1.len() == (match json_get(payload, field) {
            Some(Json::Array(items)) => items.len() as int,
            _ => 0,
        }),
        (match json_get(payload, field) {
            Some(Json::Array(items)) => items.len() > 0,
            _ => false,
        }) ==> json_get(image_field_step(payload, field, thread_id, sizes).0, field) == Some(Json::Array(Seq::empty())),
        (match json_get(payload, field) {
            Some(Json::Array(items)) => items.len() > 0,
            _ => false,
        }) || image_field_step(payload, field, thread_id, sizes).0 == payload,
        forall|k: Seq<char>| k != field ==> #[trigger] json_get(image_field_step(payload, field, thread_id, sizes).0, k) == json_get(payload, k),
{
    match json_get(payload, field) {
        Some(Json::Array(items)) => {
            if items.len() > 0 {
                let empty = Json::Array(Seq::empty());
                lemma_placeholders_len(items, thread_id, field, sizes);
                crate::json::lemma_member_edits_keep_objects(payload, field, empty);
                crate::json::lemma_with_member_reads_back(payload, field, empty);
                assert forall|k: Seq<char>| k != field implies #[trigger] json_get(with_member(payload, field, empty), k) == json_get(payload, k) by {
                    crate::json::lemma_with_member_keeps_others(payload, field, empty, k);
                }
            }
        },
        _ => {},
    }
}

/// Scrubbing a user message's image attachments: as many placeholders as
/// there were references in `images` and `local_images`; when there were
/// some, both non-empty lists are emptied, the placeholders stand in
/// `payload.image_placeholders`, and a second scrub finds nothing to do;
/// when there were none, the record is left as it is.
pub proof fn lemma_scrub_user_images_once(v: Json, thread_id: Seq<char>, sizes: Seq<(Seq<char>, usize)>)
    ensures
        scrub_user_images_spec(v, thread_id, sizes).1 == image_count(v, "images"@) + image_count(v, "local_images"@),
        scrub_user_images_spec(v, thread_id, sizes).1 == 0 ==> scrub_user_images_spec(v, thread_id, sizes) == (v, 0int, 0int),
        scrub_user_images_spec(v, thread_id, sizes).1 > 0 ==> {
            &&& user_message_payload(scrub_user_images_spec(v, thread_id, sizes).0) matches Some(p)
            &&& json_get(p, "image_placeholders"@) matches Some(Json::Array(phs))
            &&& phs.len() == scrub_user_images_spec(v, thread_id, sizes).1
            &&& image_count(v, "images"@) > 0 ==> json_get(p, "images"@) == Some(Json::Array(Seq::empty()))
            &&& image_count(v, "local_images"@) > 0 ==> json_get(p, "local_images"@) == Some(Json::Array(Seq::empty()))
        },
        scrub_user_images_spec(scrub_user_images_spec(v, thread_id, sizes).0, thread_id, sizes)
            == (scrub_user_images_spec(v, thread_id, sizes).0, 0int, 0int),
{
    lemma_scrub_keys_differ();
    let out = scrub_user_images_spec(v, thread_id, sizes);
    match user_message_payload(v) {
        None => {},
        Some(p0) => {
            lemma_image_field_step(p0, "images"@, thread_id, sizes);
            let (p1, a, n1) = image_field_step(p0, "images"@, thread_id, sizes);
            lemma_image_field_step(p1, "local_images"@, thread_id, sizes);
            let (p2, b, n2) = image_field_step(p1, "local_images"@, thread_id, sizes);
            let phs = a + b;
            assert(json_get(p1, "local_images"@) == json_get(p0, "local_images"@));
            if phs.len() == 0 {
                assert(out == (v, 0int, 0int));
            } else {
                let arr = Json::Array(phs);
                let p3 = with_member(p2, "image_placeholders"@, arr);
                crate::json::lemma_member_edits_keep_objects(p2, "image_placeholders"@, arr);
                crate::json::lemma_with_member_reads_back(p2, "image_placeholders"@, arr);
                crate::json::lemma_with_member_keeps_others(p2, "image_placeholders"@, arr, "type"@);
                crate::json::lemma_with_member_keeps_others(p2, "image_placeholders"@, arr, "images"@);
                crate::json::lemma_with_member_keeps_others(p2, "image_placeholders"@, arr, "local_images"@);
                let p4 = with_placeholder_note(p3, phs.len());
                let note = match json_get(p3, "message"@) {
                    Some(Json::Str(m)) => Json::Str(m + placeholder_note(phs.len())),
                    _ => Json::Str(trim(placeholder_note(phs.len()))),
                };
                crate::json::lemma_member_edits_keep_objects(p3, "message"@, note);
                crate::json::lemma_with_member_keeps_others(p3, "message"@, note, "type"@);
                crate::json::lemma_with_member_keeps_others(p3, "message"@, note, "images"@);
                crate::json::lemma_with_member_keeps_others(p3, "message"@, note, "local_images"@);
                crate::json::lemma_with_member_keeps_others(p3, "message"@, note, "image_placeholders"@);
                assert(p4 is Object);
                assert(get_str(p4, "type"@) == Some("user_message"@));
                assert(json_get(p4, "image_placeholders"@) == Some(arr));
                assert(v is Object);
                crate::json::lemma_with_member_reads_back(v, "payload"@, p4);
                crate::json::lemma_with_member_keeps_others(v, "payload"@, p4, "type"@);
                assert(out.0 == with_member(v, "payload"@, p4));
                assert(user_message_payload(out.0) == Some(p4));
                // A second scrub finds both lists empty or not lists.
                lemma_image_field_step(p4, "images"@, thread_id, sizes);
                let (q1, c, m1) = image_field_step(p4, "images"@, thread_id, sizes);
                lemma_image_field_step(q1, "local_images"@, thread_id, sizes);
                let (q2, d, m2) = image_field_step(q1, "local_images"@, thread_id, sizes);
                assert(json_get(p4, "images"@) == json_get(p2, "images"@));
                assert(json_get(p4, "local_images"@) == json_get(p2, "local_images"@));
                assert(c.len() == 0);
                assert(json_get(q1, "local_images"@) == json_get(p4, "local_images"@));
                assert(d.len() == 0);
                assert(c + d =~= Seq::<Json>::empty());
            }
        },
    }
}

fn file_size_exec(sizes: &Vec<(String, usize)>, path: &str) -> (res: Option<usize>)
    ensures
        res == file_size(size_models(sizes@), path@),
{
    let ghost sm = size_models(sizes@);
    let mut i = sizes.len();
    assert(sm.take(i as int) =~= sm);
    while i > 0
        invariant
            i <= sizes@.len(),
            sm == size_models(sizes@),
            file_size(sm, path@) == file_size(sm.take(i as int), path@),
        decreases i,
    {
        assert(sm.take(i as int).drop_last() =~= sm.take(i - 1));
        assert(sm.take(i as int).last() == (sizes@[i - 1].0@, sizes@[i - 1].1));
        if str_eq(sizes[i - 1].0.as_str(), path) {
            return Some(sizes[i - 1].1);
        }
        i = i - 1;
    }
    None
}

fn image_reference_exec(item: &JsonValue) -> (res: Vec<char>)
    ensures
        res@ == image_reference(item.model()),
{
    let text: Vec<char> = match item {
        JsonValue::String(t) => chars_of(t.as_str()),
        _ => chars_of(to_json_text(item).as_str()),
    };
    preview(text.as_slice(), 300)
}

fn image_reference_bytes_exec(item: &JsonValue, sizes: &Vec<(String, usize)>) -> (res: usize)
    ensures
        res == image_reference_bytes(item.model(), size_models(sizes@)),
{
    proof { lemma_image_bytes_nonneg(item.model()); }
    let inline = inline_data_image_bytes(item);
    if inline > 0 {
        return inline;
    }
    match item {
        JsonValue::String(path) => match file_size_exec(sizes, path.as_str()) {
            Some(n) => n,
            None => utf8_len_exec(path.as_str()),
        },
        _ => utf8_len_exec(to_json_text(item).as_str()),
    }
}

fn user_image_placeholder_exec(thread_id: &[char], field: &str, bytes: usize, reference: &[char]) -> (res: Vec<char>)
    ensures
        res@ == user_image_placeholder(thread_id@, field@, bytes as int, reference@),
{
    let mut out = chars_of("[context-guardian:user-image-placeholder thread=");
    append(&mut out, thread_id);
    append(&mut out, chars_of(" field=").as_slice());
    append(&mut out, chars_of(field).as_slice());
    append(&mut out, chars_of(" estimated_removed_bytes=").as_slice());
    append(&mut out, u64_text(bytes as u64).as_slice());
    append(&mut out, chars_of(" original=").as_slice());
    append(&mut out, reference);
    append(&mut out, chars_of("]").as_slice());
    out
}

proof fn lemma_reference_bytes_bound(item: Json, sizes: Seq<(Seq<char>, usize)>)
    ensures
        0 <= image_reference_bytes(item, sizes),
{
    lemma_image_bytes_nonneg(item);
}

fn image_items_placeholders_exec(items: &Vec<JsonValue>, thread_id: &[char], field: &str, sizes: &Vec<(String, usize)>) -> (res: (Vec<JsonValue>, usize))
    ensures
        models(res.0@) == image_items_placeholders(models(items@), thread_id@, field@, size_models(sizes@)).0,
        res.1 == saturate(image_items_placeholders(models(items@), thread_id@, field@, size_models(sizes@)).1),
        image_items_placeholders(models(items@), thread_id@, field@, size_models(sizes@)).1 >= 0,
{
    proof { lemma_models(items@); }
    let ghost ms = models(items@);
    let ghost sm = size_models(sizes@);
    let mut out: Vec<JsonValue> = Vec::new();
    let mut total: usize = 0;
    let mut i: usize = 0;
    assert(models(out@) =~= Seq::<Json>::empty());
    while i < items.len()
        invariant
            i <= items@.len(),
            ms == models(items@),
            sm == size_models(sizes@),
            ms.len() == items@.len(),
            forall|m: int| 0 <= m < items@.len() ==> #[trigger] ms[m] == items@[m].model(),
            models(out@) == image_items_placeholders(ms.take(i as int), thread_id@, field@, sm).0,
            image_items_placeholders(ms.take(i as int), thread_id@, field@, sm).1 >= 0,
            total == saturate(image_items_placeholders(ms.take(i as int), thread_id@, field@, sm).1),
        decreases items.len() - i,
    {
        let item = &items[i];
        assert(ms.take(i + 1).drop_last() =~= ms.take(i as int));
        assert(ms.take(i + 1).last() == item.model());
        proof { lemma_reference_bytes_bound(item.model(), sm); }
        let bytes = image_reference_bytes_exec(item, sizes);
        let reference = image_reference_exec(item);
        let text = user_image_placeholder_exec(thread_id, field, bytes, reference.as_slice());
        let v = JsonValue::String(string_of(text.as_slice()));
        proof { lemma_models_push(out@, v); }
        out.push(v);
        total = total.saturating_add(bytes);
        i = i + 1;
    }
    assert(ms.take(ms.len() as int) =~= ms);
    (out, total)
}

fn image_field_step_exec(payload: JsonValue, field: &str, thread_id: &[char], sizes: &Vec<(String, usize)>) -> (res: (JsonValue, Vec<JsonValue>, usize))
    ensures
        res.0.model() == image_field_step(payload.model(), field@, thread_id@, size_models(sizes@)).0,
        models(res.1@) == image_field_step(payload.model(), field@, thread_id@, size_models(sizes@)).1,
        res.2 == saturate(image_field_step(payload.model(), field@, thread_id@, size_models(sizes@)).2),
        image_field_step(payload.model(), field@, thread_id@, size_models(sizes@)).2 >= 0,
{
    let found: Option<(Vec<JsonValue>, usize)> = match payload.get(field) {
        Some(JsonValue::Array(items)) => {
            if items.len() > 0 {
                Some(image_items_placeholders_exec(items, thread_id, field, sizes))
            } else {
                None
            }
        },
        _ => None,
    };
    match found {
        Some((phs, n)) => {
            let empty: Vec<JsonValue> = Vec::new();
            assert(models(empty@) =~= Seq::<Json>::empty());
            (set_member(payload, field, JsonValue::Array(empty)), phs, n)
        },
        None => {
            let empty: Vec<JsonValue> = Vec::new();
            assert(models(empty@) =~= Seq::<Json>::empty());
            (payload, empty, 0)
        },
    }
}


fn placeholder_note_exec(count: usize) -> (res: Vec<char>)
    ensures
        res@ == placeholder_note(count as nat),
{
    let mut out = chars_of("\n\n[context-guardian removed ");
    append(&mut out, u64_text(count as u64).as_slice());
    append(&mut out, chars_of(" image attachment(s) from this historical user message. The image references are preserved in payload.image_placeholders so future context rebuilds do not inline large image bodies.]").as_slice());
    out
}

fn with_placeholder_note_exec(payload: JsonValue, count: usize) -> (res: JsonValue)
    ensures
        res.model() == with_placeholder_note(payload.model(), count as nat),
{
    let note = placeholder_note_exec(count);
    let message: Option<Vec<char>> = match payload.get("message") {
        Some(JsonValue::String(m)) => Some(chars_of(m.as_str())),
        _ => None,
    };
    match message {
        Some(m) => {
            let pattern = chars_of("payload.image_placeholders");
            let found = crate::text::find_chars(m.as_slice(), pattern.as_slice(), 0);
            proof {
                crate::text::lemma_first_occurrence_from(m@, pattern@, 0);
                if found is None {
                    assert forall|i: int| !#[trigger] crate::text::occurs_at(m@, pattern@, i) by {
                        if 0 <= i {}
                    }
                }
            }
            if found.is_some() {
                payload
            } else {
                let mut text = m;
                append(&mut text, note.as_slice());
                set_member(payload, "message", JsonValue::String(string_of(text.as_slice())))
            }
        },
        None => {
            let trimmed = trim_chars(note.as_slice());
            set_member(payload, "message", JsonValue::String(string_of(trimmed.as_slice())))
        },
    }
}

fn user_message_payload_exec(value: &JsonValue) -> (res: Option<JsonValue>)
    ensures
        match res {
            Some(p) => user_message_payload(value.model()) == Some(p.model()),
            None => user_message_payload(value.model()) is None,
        },
{
    if !value.has_str("type", "event_msg") {
        return None;
    }
    match value.get("payload") {
        Some(p) => if p.is_object() && p.has_str("type", "user_message") { Some(p.deep_clone()) } else { None },
        None => None,
    }
}

/// The string items of an array (none when it is not one), in order.
pub open spec fn string_items(items: Seq<Json>) -> Seq<Seq<char>>
    decreases items.len(),
{
    if items.len() == 0 {
        Seq::empty()
    } else {
        let rest = string_items(items.drop_last());
        match items.last() {
            Json::Str(t) => rest.push(t),
            _ => rest,
        }
    }
}

pub open spec fn field_strings(p: Json, field: Seq<char>) -> Seq<Seq<char>> {
    match json_get(p, field) {
        Some(Json::Array(items)) => string_items(items),
        _ => Seq::empty(),
    }
}

/// The paths a user message's image attachments name (the string items of
/// `images`, then of `local_images`): the files whose sizes
/// `scrub_user_message_images` reports.
pub open spec fn user_image_paths_spec(v: Json) -> Seq<Seq<char>> {
    match user_message_payload(v) {
        Some(p) => field_strings(p, "images"@) + field_strings(p, "local_images"@),
        None => Seq::empty(),
    }
}

fn field_strings_exec(p: &JsonValue, field: &str, out: &mut Vec<String>)
    ensures
        string_models(final(out)@) == string_models(old(out)@) + field_strings(p.model(), field@),
{
    let ghost start = string_models(out@);
    match p.get(field) {
        Some(JsonValue::Array(items)) => {
            proof { lemma_models(items@); }
            let ghost im = models(items@);
            let mut i: usize = 0;
            while i < items.len()
                invariant
                    i <= items@.len(),
                    im == models(items@),
                    im.len() == items@.len(),
                    forall|k: int| 0 <= k < items@.len() ==> #[trigger] im[k] == items@[k].model(),
                    string_models(out@) == start + string_items(im.take(i as int)),
                decreases items.len() - i,
            {
                assert(im.take(i + 1).drop_last() =~= im.take(i as int));
                assert(im.take(i + 1).last() == items@[i as int].model());
                match &items[i] {
                    JsonValue::String(t) => {
                        let ghost before = string_models(out@);
                        out.push(text_of(t.as_str()));
                        assert(string_models(out@) =~= before.push(t@));
                        assert(string_models(out@) =~= start + string_items(im.take(i + 1)));
                    },
                    _ => {},
                }
                i = i + 1;
            }
            assert(im.take(im.len() as int) =~= im);
        },
        _ => {
            assert(string_models(out@) =~= start + Seq::<Seq<char>>::empty());
        },
    }
}

pub open spec fn string_models(v: Seq<String>) -> Seq<Seq<char>> {
    v.map_values(|s: String| s@)
}

/// Lists the paths a user message's image attachments name (see
/// `user_image_paths_spec`), for looking up their sizes.
pub fn user_image_paths(value: &JsonValue) -> (res: Vec<String>)
    ensures
        string_models(res@) == user_image_paths_spec(value.model()),
{
    let mut out: Vec<String> = Vec::new();
    assert(string_models(out@) =~= Seq::<Seq<char>>::empty());
    match user_message_payload_exec(value) {
        Some(p) => {
            field_strings_exec(&p, "images", &mut out);
            field_strings_exec(&p, "local_images", &mut out);
            assert(string_models(out@) =~= field_strings(p.model(), "images"@) + field_strings(p.model(), "local_images"@));
        },
        None => {},
    }
    out
}

/// Moves a user message's image attachments into placeholders (see
/// `scrub_user_images_spec`): the value, the number of placeholders and the
/// bytes they stand for. `image_sizes` gives the sizes of the files that
/// string references name, as far as they could be read.
pub fn scrub_user_message_images(value: JsonValue, thread_id: &[char], image_sizes: &Vec<(String, usize)>) -> (res: (JsonValue, usize, usize))
    ensures
        res.0.model() == scrub_user_images_spec(value.model(), thread_id@, size_models(image_sizes@)).0,
        res.1 == scrub_user_images_spec(value.model(), thread_id@, size_models(image_sizes@)).1,
        res.2 == scrub_user_images_spec(value.model(), thread_id@, size_models(image_sizes@)).2,
{
    let p0 = match user_message_payload_exec(&value) {
        Some(p) => p,
        None => return (value, 0, 0),
    };
    let (p1, a, n1) = image_field_step_exec(p0, "images", thread_id, image_sizes);
    let (p2, b, n2) = image_field_step_exec(p1, "local_images", thread_id, image_sizes);
    let ghost av = a@;
    let ghost bv = b@;
    let ghost am = models(a@);
    let ghost bm = models(b@);
    let mut phs = a;
    let mut b = b;
    phs.append(&mut b);
    proof {
        lemma_models(phs@);
        lemma_models(av);
        lemma_models(bv);
        assert(phs@ == av + bv);
        assert forall|k: int| 0 <= k < phs@.len() implies #[trigger] models(phs@)[k] == (am + bm)[k] by {
            if k < av.len() {
                assert(phs@[k] == av[k]);
            } else {
                assert(phs@[k] == bv[k - av.len()]);
            }
        }
        assert(models(phs@) =~= am + bm);
    }
    if phs.len() == 0 {
        return (value, 0, 0);
    }
    let count = phs.len();
    let total = n1.saturating_add(n2);
    let p3 = set_member(p2, "image_placeholders", JsonValue::Array(phs));
    let p4 = with_placeholder_note_exec(p3, count);
    (set_member(value, "payload", p4), count, total)
}


pub open spec fn unknown_tool() -> ToolInfoModel {
    ToolInfoModel { name: Seq::empty(), image_path: None, arguments_preview: None }
}

/// A function call output too large to keep, with what its summary needs:
/// its JSON length, what is known of the call, and its text.
pub open spec fn large_output_spec(v: Json, calls: Seq<(Seq<char>, ToolInfoModel)>, threshold: usize) -> Option<(int, ToolInfoModel, Seq<char>)> {
    match call_output_payload(v) {
        None => None,
        Some(payload) => match json_get(payload, "output"@) {
            None => None,
            Some(output) => {
                let len = utf8_len(json_text(output)) as int;
                if inline_image_bytes(output) > 0 || len < threshold {
                    None
                } else {
                    Some((
                        len,
                        match lookup_call(calls, output_call_id(payload)) { Some(info) => info, None => unknown_tool() },
                        match output { Json::Str(t) => t, _ => json_text(output) },
                    ))
                }
            },
        },
    }
}

/// The text that replaces a large output, with its summary when there is one.
pub open spec fn large_output_text(len: int, info: ToolInfoModel, summary: Option<Seq<char>>) -> Seq<char> {
    let tool = nonempty_spec(info.name, "unknown-tool"@);
    let args = match info.arguments_preview { Some(a) => a, None => "unknown arguments"@ };
    match summary {
        Some(s) => "Large tool output summarized by context-guardian via CC Switch because the original tool result was "@
            + decimal_text(len as nat) + " bytes and could exceed the model context window. Tool: "@ + tool + ". Arguments: "@ + args
            + ".\n\nSummary:\n"@ + s,
        None => "Large tool output pruned by context-guardian because the original tool result was "@ + decimal_text(len as nat)
            + " bytes and could exceed the model context window. Tool: "@ + tool + ". Arguments: "@ + args
            + ". Re-run the command or inspect the referenced file manually if the full output is needed."@,
    }
}

/// The record with its output replaced by that text.
pub open spec fn apply_large_output_spec(v: Json, len: int, info: ToolInfoModel, summary: Option<Seq<char>>) -> Json {
    match call_output_payload(v) {
        Some(payload) => with_member(v, "payload"@, with_member(payload, "output"@, Json::Str(large_output_text(len, info, summary)))),
        None => v,
    }
}

/// A large output found in a record.
pub struct LargeOutput {
    pub encoded_len: usize,
    pub info: ToolCallInfo,
    pub original: String,
}

pub fn copy_info(info: &ToolCallInfo) -> (res: ToolCallInfo)
    ensures
        res.model() == info.model(),
{
    ToolCallInfo {
        name: text_of(info.name.as_str()),
        image_path: match &info.image_path { Some(p) => Some(text_of(p.as_str())), None => None },
        arguments_preview: match &info.arguments_preview { Some(p) => Some(text_of(p.as_str())), None => None },
    }
}

/// Finds a function call output too large to keep (see `large_output_spec`).
pub fn large_tool_output(value: &JsonValue, calls: &Vec<(String, ToolCallInfo)>, threshold: usize) -> (res: Option<LargeOutput>)
    ensures
        match res {
            Some(l) => large_output_spec(value.model(), tool_models(calls@), threshold) == Some((l.encoded_len as int, l.info.model(), l.original@)),
            None => large_output_spec(value.model(), tool_models(calls@), threshold) is None,
        },
{
    let payload = match call_output_payload_exec(value) {
        Some(p) => p,
        None => return None,
    };
    let output = match payload.get("output") {
        Some(o) => o,
        None => return None,
    };
    proof { lemma_image_bytes_nonneg(output.model()); }
    if inline_data_image_bytes(output) > 0 {
        return None;
    }
    let text = to_json_text(output);
    let len = utf8_len_exec(text.as_str());
    if len < threshold {
        return None;
    }
    let call_id = output_call_id_exec(&payload);
    let info = match lookup_call_exec(calls, call_id.as_str()) {
        Some(i) => copy_info(i),
        None => ToolCallInfo::unknown(),
    };
    let original = match output {
        JsonValue::String(t) => text_of(t.as_str()),
        _ => text,
    };
    Some(LargeOutput { encoded_len: len, info, original })
}

fn large_output_text_exec(len: usize, info: &ToolCallInfo, summary: Option<&str>) -> (res: Vec<char>)
    ensures
        res@ == large_output_text(len as int, info.model(), match summary { Some(s) => Some(s@), None => None }),
{
    let tool = nonempty(chars_of(info.name.as_str()).as_slice(), chars_of("unknown-tool").as_slice());
    let args = match &info.arguments_preview { Some(a) => chars_of(a.as_str()), None => chars_of("unknown arguments") };
    match summary {
        Some(s) => {
            let mut out = chars_of("Large tool output summarized by context-guardian via CC Switch because the original tool result was ");
            append(&mut out, u64_text(len as u64).as_slice());
            append(&mut out, chars_of(" bytes and could exceed the model context window. Tool: ").as_slice());
            append(&mut out, tool.as_slice());
            append(&mut out, chars_of(". Arguments: ").as_slice());
            append(&mut out, args.as_slice());
            append(&mut out, chars_of(".\n\nSummary:\n").as_slice());
            append(&mut out, chars_of(s).as_slice());
            out
        },
        None => {
            let mut out = chars_of("Large tool output pruned by context-guardian because the original tool result was ");
            append(&mut out, u64_text(len as u64).as_slice());
            append(&mut out, chars_of(" bytes and could exceed the model context window. Tool: ").as_slice());
            append(&mut out, tool.as_slice());
            append(&mut out, chars_of(". Arguments: ").as_slice());
            append(&mut out, args.as_slice());
            append(&mut out, chars_of(". Re-run the command or inspect the referenced file manually if the full output is needed.").as_slice());
            out
        },
    }
}

/// Replaces a large output (see `apply_large_output_spec`).
pub fn apply_large_output(value: JsonValue, encoded_len: usize, info: &ToolCallInfo, summary: Option<&str>) -> (res: JsonValue)
    ensures
        res.model() == apply_large_output_spec(value.model(), encoded_len as int, info.model(), match summary { Some(s) => Some(s@), None => None }),
{
    let payload = match call_output_payload_exec(&value) {
        Some(p) => p,
        None => return value,
    };
    let text = large_output_text_exec(encoded_len, info, summary);
    let payload2 = set_member(payload, "output", JsonValue::String(string_of(text.as_slice())));
    set_member(value, "payload", payload2)
}


/// One line of a rollout: its text, its line ending, and its JSON value.
pub struct Record {
    pub line: String,
    pub newline: String,
    pub value: JsonValue,
}

pub struct RecordModel {
    pub line: Seq<char>,
    pub newline: Seq<char>,
    pub value: Json,
}

impl Record {
    pub open spec fn model(&self) -> RecordModel {
        RecordModel { line: self.line@, newline: self.newline@, value: self.value.model() }
    }
}

pub open spec fn record_models(r: Seq<Record>) -> Seq<RecordModel> {
    r.map_values(|x: Record| x.model())
}

/// A line without its final `\n`, and that ending.
pub open spec fn split_newline(raw: Seq<char>) -> (Seq<char>, Seq<char>) {
    if raw.len() > 0 && raw.last() == '\n' { (raw.drop_last(), "\n"@) } else { (raw, Seq::empty()) }
}

/// The records of a rollout: blank lines are skipped; `Err(n)` when line
/// `n` (counting from one) is not complete JSON.
pub open spec fn parse_records_spec(lines: Seq<Seq<char>>) -> Result<Seq<RecordModel>, int>
    decreases lines.len(),
{
    if lines.len() == 0 {
        Ok(Seq::empty())
    } else {
        match parse_records_spec(lines.drop_last()) {
            Err(n) => Err(n),
            Ok(records) => {
                let (line, newline) = split_newline(lines.last());
                if trim(line).len() == 0 {
                    Ok(records)
                } else {
                    match crate::json::json_parse(encode_utf8(line)) {
                        Some(v) => Ok(records.push(RecordModel { line: line, newline: newline, value: v })),
                        None => Err(lines.len() as int),
                    }
                }
            },
        }
    }
}

proof fn lemma_parse_error_stays(lines: Seq<Seq<char>>, k: int)
    requires
        0 <= k <= lines.len(),
        parse_records_spec(lines.take(k)) is Err,
    ensures
        parse_records_spec(lines) == parse_records_spec(lines.take(k)),
    decreases lines.len() - k,
{
    if k < lines.len() {
        assert(lines.take(k + 1).drop_last() =~= lines.take(k));
        lemma_parse_error_stays(lines, k + 1);
    } else {
        assert(lines.take(k) =~= lines);
    }
}

fn utf8_of_chars(s: &[char]) -> (res: Vec<u8>)
    ensures
        res@ == encode_utf8(s@),
{
    let text = string_of(s);
    let b = text.as_str().as_bytes();
    let mut out: Vec<u8> = Vec::new();
    let mut i: usize = 0;
    while i < b.len()
        invariant
            i <= b@.len(),
            out@ == b@.take(i as int),
        decreases b.len() - i,
    {
        out.push(b[i]);
        assert(b@.take(i + 1) =~= b@.take(i as int).push(b@[i as int]));
        i = i + 1;
    }
    assert(b@.take(b@.len() as int) =~= b@);
    out
}

/// Reads the records of a rollout (see `parse_records_spec`).
pub fn parse_records(contents: &str) -> (res: Result<Vec<Record>, usize>)
    ensures
        match res {
            Ok(r) => parse_records_spec(split_inclusive_lines(contents@)) == Ok::<Seq<RecordModel>, int>(record_models(r@)),
            Err(n) => parse_records_spec(split_inclusive_lines(contents@)) == Err::<Seq<RecordModel>, int>(n as int),
        },
{
    let text = chars_of(contents);
    let lines = split_inclusive_exec(text.as_slice());
    let ghost lm = text_seqs(lines@);
    let mut records: Vec<Record> = Vec::new();
    let mut i: usize = 0;
    assert(record_models(records@) =~= Seq::<RecordModel>::empty());
    while i < lines.len()
        invariant
            i <= lines@.len(),
            lm == text_seqs(lines@),
            lm == split_inclusive_lines(contents@),
            parse_records_spec(lm.take(i as int)) == Ok::<Seq<RecordModel>, int>(record_models(records@)),
        decreases lines.len() - i,
    {
        assert(lm.take(i + 1).drop_last() =~= lm.take(i as int));
        assert(lm.take(i + 1).last() == lines@[i as int]@);
        let raw = lines[i].as_slice();
        let (line, newline): (Vec<char>, Vec<char>) = if raw.len() > 0 && raw[raw.len() - 1] == '\n' {
            let l = copy_chars(&raw[0..raw.len() - 1]);
            assert(l@ =~= raw@.drop_last());
            (l, chars_of("\n"))
        } else {
            (copy_chars(raw), Vec::new())
        };
        assert((line@, newline@) == split_newline(raw@));
        let trimmed = trim_chars(line.as_slice());
        if trimmed.len() > 0 {
            match crate::json::parse_json(utf8_of_chars(line.as_slice()).as_slice()) {
                Some(v) => {
                    let r = Record { line: string_of(line.as_slice()), newline: string_of(newline.as_slice()), value: v };
                    let ghost before = record_models(records@);
                    records.push(r);
                    assert(record_models(records@) =~= before.push(r.model()));
                },
                None => {
                    proof { lemma_parse_error_stays(lm, i + 1); }
                    assert(lm.take(i + 1).len() == i + 1);
                    return Err(i + 1);
                },
            }
        }
        i = i + 1;
    }
    assert(lm.take(lm.len() as int) =~= lm);
    Ok(records)
}


/// What a first pass over the records finds: the tool calls, where folding
/// starts, and the first record that triggers recovery.
pub struct RolloutAnalysis {
    pub tool_calls: Vec<(String, ToolCallInfo)>,
    pub fold_start_index: Option<usize>,
    pub trigger_start_index: Option<usize>,
}

pub open spec fn is_compacted(v: Json) -> bool {
    get_str(v, "type"@) == Some("compacted"@)
}

pub open spec fn is_trigger(v: Json, trigger: u64) -> bool {
    is_high_token_count_spec(v, trigger) || is_recoverable_task_error_spec(v)
}

/// The last compacted record.
pub open spec fn latest_compacted(values: Seq<Json>) -> Option<int>
    decreases values.len(),
{
    if values.len() == 0 {
        None
    } else if is_compacted(values.last()) {
        Some(values.len() - 1)
    } else {
        latest_compacted(values.drop_last())
    }
}

/// The first triggering record at or after `start`.
pub open spec fn first_trigger(values: Seq<Json>, start: int, trigger: u64) -> Option<int>
    decreases values.len() - start,
{
    if start < 0 || start >= values.len() {
        None
    } else if is_trigger(values[start], trigger) {
        Some(start)
    } else {
        first_trigger(values, start + 1, trigger)
    }
}

/// The tool calls of the records, in order.
pub open spec fn tool_calls_of(values: Seq<Json>) -> Seq<(Seq<char>, ToolInfoModel)>
    decreases values.len(),
{
    if values.len() == 0 {
        Seq::empty()
    } else {
        let rest = tool_calls_of(values.drop_last());
        match tool_call_info_spec(values.last()) {
            Some(call) => rest.push(call),
            None => rest,
        }
    }
}

proof fn lemma_latest_compacted_bound(values: Seq<Json>)
    ensures
        latest_compacted(values) matches Some(c) ==> 0 <= c < values.len() && is_compacted(values[c]),
    decreases values.len(),
{
    if values.len() > 0 {
        lemma_latest_compacted_bound(values.drop_last());
    }
}

/// The last compacted record: no record after it is compacted; there is
/// none exactly when no record is compacted.
pub proof fn lemma_latest_compacted_is_last(values: Seq<Json>)
    ensures
        latest_compacted(values) matches Some(c) ==> {
            &&& 0 <= c < values.len()
            &&& is_compacted(values[c])
            &&& forall|k: int| c < k < values.len() ==> !#[trigger] is_compacted(values[k])
        },
        latest_compacted(values) is None ==> forall|k: int| 0 <= k < values.len() ==> !#[trigger] is_compacted(values[k]),
    decreases values.len(),
{
    if values.len() > 0 {
        let init = values.drop_last();
        lemma_latest_compacted_is_last(init);
        assert forall|k: int| 0 <= k < init.len() implies #[trigger] init[k] == values[k] by {}
        if !is_compacted(values.last()) {
            assert forall|k: int| 0 <= k < values.len() - 1 && #[trigger] is_compacted(values[k])
                implies is_compacted(init[k]) by {}
        }
    }
}

/// The first triggering record at or after `start`: no record between
/// `start` and it triggers; there is none exactly when no record from
/// `start` on triggers.
pub proof fn lemma_first_trigger_is_first(values: Seq<Json>, start: int, trigger: u64)
    requires
        0 <= start,
    ensures
        first_trigger(values, start, trigger) matches Some(t) ==> {
            &&& start <= t < values.len()
            &&& is_trigger(values[t], trigger)
            &&& forall|k: int| start <= k < t ==> !#[trigger] is_trigger(values[k], trigger)
        },
        first_trigger(values, start, trigger) is None ==> forall|k: int| start <= k < values.len() ==> !#[trigger] is_trigger(values[k], trigger),
    decreases values.len() - start,
{
    if start < values.len() && !is_trigger(values[start], trigger) {
        lemma_first_trigger_is_first(values, start + 1, trigger);
    }
}

/// Recovery starts at the first triggering record at or after the last
/// compacted record (from the first record when none is compacted): no
/// record between that start and it triggers, and there is none exactly
/// when no record from that start on triggers.
pub proof fn lemma_trigger_start_is_first_after_compaction(values: Seq<Json>, trigger: u64)
    ensures
        ({
            let from = match latest_compacted(values) { Some(c) => c, None => 0 };
            &&& (latest_compacted(values) is None ==> forall|k: int| 0 <= k < values.len() ==> !#[trigger] is_compacted(values[k]))
            &&& (latest_compacted(values) matches Some(c) ==> is_compacted(values[c])
                && forall|k: int| c < k < values.len() ==> !#[trigger] is_compacted(values[k]))
            &&& (trigger_start(values, trigger) matches Some(t) ==> from <= t < values.len() && is_trigger(values[t], trigger)
                && forall|k: int| from <= k < t ==> !#[trigger] is_trigger(values[k], trigger))
            &&& (trigger_start(values, trigger) is None ==> forall|k: int| from <= k < values.len() ==> !#[trigger] is_trigger(values[k], trigger))
        }),
{
    lemma_latest_compacted_is_last(values);
    let from = match latest_compacted(values) { Some(c) => c, None => 0 };
    lemma_first_trigger_is_first(values, from, trigger);
}

/// A compacted record never triggers recovery.
proof fn lemma_compacted_is_no_trigger(v: Json, trigger: u64)
    requires
        is_compacted(v),
    ensures
        !is_trigger(v, trigger),
{
    reveal_strlit("compacted");
    reveal_strlit("event_msg");
    assert("compacted"@ != "event_msg"@) by {
        assert("compacted"@[0] != "event_msg"@[0]);
    }
}

/// Folding starts at the last compacted record, and only where that record
/// is not the first and a record after it triggers recovery: the fold
/// start is compacted, no later record is compacted, and a later record
/// triggers; and every last compaction after the first record that a
/// triggering record follows is the fold start.
pub proof fn lemma_fold_start_is_last_compaction(values: Seq<Json>, trigger: u64)
    ensures
        fold_start(values, trigger) matches Some(s) ==> {
            &&& 0 < s < values.len()
            &&& is_compacted(values[s])
            &&& forall|k: int| s < k < values.len() ==> !#[trigger] is_compacted(values[k])
            &&& exists|t: int| s < t < values.len() && #[trigger] is_trigger(values[t], trigger)
        },
        forall|c: int, t: int|
            0 < c < t < values.len() && #[trigger] is_compacted(values[c]) && #[trigger] is_trigger(values[t], trigger)
            && (forall|k: int| c < k < values.len() ==> !#[trigger] is_compacted(values[k]))
            ==> fold_start(values, trigger) == Some(c),
{
    lemma_latest_compacted_is_last(values);
    let search = match latest_compacted(values) { Some(c) => c, None => 0 };
    lemma_first_trigger_is_first(values, search, trigger);
    match latest_compacted(values) {
        Some(c) => {
            lemma_compacted_is_no_trigger(values[c], trigger);
        },
        None => {},
    }
    assert forall|c: int, t: int|
        0 < c < t < values.len() && #[trigger] is_compacted(values[c]) && #[trigger] is_trigger(values[t], trigger)
        && (forall|k: int| c < k < values.len() ==> !#[trigger] is_compacted(values[k]))
        implies fold_start(values, trigger) == Some(c) by {
        let l = latest_compacted(values).unwrap();
        if l < c {
            assert(!is_compacted(values[c]));
        }
        if l > c {
            assert(!is_compacted(values[l]));
        }
        assert(l == c);
    }
}

proof fn lemma_first_trigger_found(values: Seq<Json>, start: int, trigger: u64)
    ensures
        first_trigger(values, start, trigger) matches Some(t) ==> start <= t < values.len() && is_trigger(values[t], trigger),
    decreases values.len() - start,
{
    if 0 <= start < values.len() && !is_trigger(values[start], trigger) {
        lemma_first_trigger_found(values, start + 1, trigger);
    }
}

/// History is folded only up to the last compaction, and only when a record
/// at or after it triggers recovery: a folded record lies before the last
/// compacted record, is not a session header, and a triggering record
/// follows the compaction. The compacted summary and everything after it
/// stay.
pub proof fn lemma_fold_keeps_compaction_and_tail(values: Seq<Json>, trigger: u64, index: int)
    requires
        0 <= index < values.len(),
        should_fold_spec(index, values[index], fold_start(values, trigger)),
    ensures
        latest_compacted(values) matches Some(c) && index < c && is_compacted(values[c]),
        !is_session_meta(values[index]),
        exists|t: int| latest_compacted(values) matches Some(c) && c < t < values.len() && #[trigger] is_trigger(values[t], trigger),
{
    lemma_latest_compacted_bound(values);
    let c = latest_compacted(values).unwrap();
    lemma_first_trigger_found(values, c, trigger);
    let t = first_trigger(values, c, trigger).unwrap();
    assert(is_trigger(values[t], trigger));
}

pub open spec fn value_models(r: Seq<RecordModel>) -> Seq<Json> {
    r.map_values(|x: RecordModel| x.value)
}

/// History before the last compaction is folded when a record after it
/// triggers recovery.
pub open spec fn fold_start(values: Seq<Json>, trigger: u64) -> Option<int> {
    let search = match latest_compacted(values) { Some(c) => c, None => 0 };
    match (first_trigger(values, search, trigger), latest_compacted(values)) {
        (Some(t), Some(c)) => if c > 0 && t > c { Some(c) } else { None },
        _ => None,
    }
}

pub open spec fn trigger_start(values: Seq<Json>, trigger: u64) -> Option<int> {
    first_trigger(values, match latest_compacted(values) { Some(c) => c, None => 0 }, trigger)
}

pub open spec fn opt_usize(o: Option<usize>) -> Option<int> {
    match o {
        Some(n) => Some(n as int),
        None => None,
    }
}

/// The first pass over the records.
pub fn analyze_records(records: &Vec<Record>, trigger: u64) -> (res: RolloutAnalysis)
    ensures
        tool_models(res.tool_calls@) == tool_calls_of(value_models(record_models(records@))),
        opt_usize(res.fold_start_index) == fold_start(value_models(record_models(records@)), trigger),
        opt_usize(res.trigger_start_index) == trigger_start(value_models(record_models(records@)), trigger),
{
    let ghost vm = value_models(record_models(records@));
    let mut calls: Vec<(String, ToolCallInfo)> = Vec::new();
    let mut latest: Option<usize> = None;
    let mut i: usize = 0;
    assert(tool_models(calls@) =~= Seq::<(Seq<char>, ToolInfoModel)>::empty());
    while i < records.len()
        invariant
            i <= records@.len(),
            vm == value_models(record_models(records@)),
            vm.len() == records@.len(),
            tool_models(calls@) == tool_calls_of(vm.take(i as int)),
            opt_usize(latest) == latest_compacted(vm.take(i as int)),
        decreases records.len() - i,
    {
        let value = &records[i].value;
        assert(vm[i as int] == value.model());
        assert(vm.take(i + 1).drop_last() =~= vm.take(i as int));
        assert(vm.take(i + 1).last() == value.model());
        if value.has_str("type", "compacted") {
            latest = Some(i);
        }
        match tool_call_info(value) {
            Some(call) => {
                let ghost before = tool_models(calls@);
                let ghost cm = (call.0@, call.1.model());
                calls.push(call);
                assert(tool_models(calls@) =~= before.push(cm));
            },
            None => {},
        }
        i = i + 1;
    }
    assert(vm.take(vm.len() as int) =~= vm);
    proof { lemma_latest_compacted_bound(vm); }
    let start: usize = match latest { Some(c) => c, None => 0 };
    let mut k: usize = start;
    let mut found: Option<usize> = None;
    while k < records.len()
        invariant_except_break
            start <= k <= records@.len(),
            first_trigger(vm, start as int, trigger) == first_trigger(vm, k as int, trigger),
            found is None,
        invariant
            vm == value_models(record_models(records@)),
            vm.len() == records@.len(),
        ensures
            opt_usize(found) == first_trigger(vm, start as int, trigger),
        decreases records.len() - k,
    {
        let value = &records[k].value;
        assert(vm[k as int] == value.model());
        if is_high_token_count(value, trigger) || is_recoverable_task_error(value) {
            found = Some(k);
            break;
        }
        k = k + 1;
    }
    let fold = match (found, latest) {
        (Some(t), Some(c)) => if c > 0 && t > c { Some(c) } else { None },
        _ => None,
    };
    RolloutAnalysis { tool_calls: calls, fold_start_index: fold, trigger_start_index: found }
}

/// A session header is never folded.
pub open spec fn is_session_meta(v: Json) -> bool {
    get_str(v, "type"@) == Some("session_meta"@)
}

pub open spec fn should_fold_spec(index: int, v: Json, fold: Option<int>) -> bool {
    fold matches Some(f) && index < f && !is_session_meta(v)
}

pub fn should_fold_line(index: usize, value: &JsonValue, fold_start_index: Option<usize>) -> (res: bool)
    ensures
        res == should_fold_spec(index as int, value.model(), opt_usize(fold_start_index)),
{
    match fold_start_index {
        Some(f) => index < f && !value.has_str("type", "session_meta"),
        None => false,
    }
}

} // verus!
