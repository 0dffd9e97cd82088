//! Schema-only transaction reports: field paths and types, allow-listed
//! enum values, hashed identifiers, and the response verdict.
use vstd::prelude::*;
use vstd::utf8::{decode_utf8, encode_utf8, valid_utf8};
use super::CaptureError;
use super::http::{HttpMessage, HttpMessageModel};
use crate::digest::{hex_lower, sha256, sha256_hex, is_hex_digest, is_lower_hex_char};
use crate::json::{
    Json, JsonValue, json_wf, entry_models, obj_get, get_str, json_text, kind_name, lemma_entry_models, lemma_models,
    models, parse_json, json_parse, to_json_text,
};
use crate::text::{chars_occur_at, split_char, split_seq, has_prefix, trim, ws_token, ws_token_exec, parse_usize, parse_usize_spec, str_eq, chars_eq, chars_of, take_chars, u64_text, decimal_text};

verus! {

/// One JSON field seen in a request body.
pub struct SchemaField {
    pub path: String,
    pub value_type: String,
    pub safe_enum: Option<String>,
}

/// The model of a schema field.
pub struct FieldModel {
    pub path: Seq<char>,
    pub value_type: Seq<char>,
    pub safe_enum: Option<Seq<char>>,
}

impl SchemaField {
    pub open spec fn model(&self) -> FieldModel {
        FieldModel {
            path: self.path@,
            value_type: self.value_type@,
            safe_enum: match self.safe_enum {
                Some(e) => Some(e@),
                None => None,
            },
        }
    }
}

pub open spec fn field_models(fields: Seq<SchemaField>) -> Seq<FieldModel> {
    fields.map_values(|f: SchemaField| f.model())
}

/// Field names that belong to the request protocol and are reported as-is.
pub open spec fn protocol_fields() -> Seq<Seq<char>> {
    seq![
        "id"@, "model"@, "input"@, "output"@, "role"@, "content"@, "type"@, "text"@, "arguments"@,
        "name"@, "call_id"@, "tool_call_id"@, "tools"@, "instructions"@, "replacement_history"@,
        "previous_response_id"@, "stream"@, "store"@, "metadata"@, "request_id"@, "turn_id"@,
        "thread_id"@, "conversation_id"@, "prompt_cache_key"@, "status"@, "error"@, "message"@,
        "reasoning"@, "summary"@, "include"@, "temperature"@, "top_p"@, "max_output_tokens"@,
        "parallel_tool_calls"@, "tool_choice"@,
    ]
}

/// Field names whose scalar values are hashed into the identifier map.
pub open spec fn identifier_keys() -> Seq<Seq<char>> {
    seq!["request_id"@, "turn_id"@, "thread_id"@, "conversation_id"@, "prompt_cache_key"@, "call_id"@]
}

/// `role` values reported verbatim.
pub open spec fn safe_roles() -> Seq<Seq<char>> {
    seq!["user"@, "assistant"@, "system"@, "developer"@, "tool"@]
}

/// `type` values reported verbatim.
pub open spec fn safe_types() -> Seq<Seq<char>> {
    seq![
        "message"@, "input_text"@, "output_text"@, "input_image"@, "function_call"@,
        "function_call_output"@, "computer_call"@, "computer_call_output"@, "reasoning"@, "error"@,
        "response.completed"@, "response.failed"@,
    ]
}

/// The first 16 hex digits of the SHA-256 of some text.
pub open spec fn short_hash(text: Seq<char>) -> Seq<char> {
    hex_lower(sha256(encode_utf8(text))).take(16)
}

/// An allow-listed value as-is; anything else as `other:<short hash>`.
pub open spec fn safe_enum_spec(kind: Seq<char>, value: Seq<char>) -> Seq<char> {
    let allowed = if kind == "role"@ {
        safe_roles().contains(value)
    } else if kind == "type"@ {
        safe_types().contains(value)
    } else {
        false
    };
    if allowed {
        value
    } else {
        "other:"@ + short_hash(value)
    }
}

/// A path segment for a member name: protocol names as-is, any other name
/// as `[key:<short hash>]`.
pub open spec fn escape_path_spec(name: Seq<char>) -> Seq<char> {
    if protocol_fields().contains(name) {
        name
    } else {
        "[key:"@ + short_hash(name) + "]"@
    }
}

/// Whether `name` is one of `list`.
fn one_of(name: &[char], list: &[&str]) -> (res: bool)
    ensures
        res == exists|i: int| 0 <= i < list@.len() && #[trigger] list@[i]@ == name@,
{
    let mut i: usize = 0;
    while i < list.len()
        invariant
            i <= list@.len(),
            forall|j: int| 0 <= j < i ==> #[trigger] list@[j]@ != name@,
        decreases list.len() - i,
    {
        let candidate = chars_of(list[i]);
        if chars_eq(candidate.as_slice(), name) {
            return true;
        }
        i = i + 1;
    }
    false
}

proof fn lemma_list_contains(list: Seq<&str>, spec_list: Seq<Seq<char>>, name: Seq<char>)
    requires
        list.len() == spec_list.len(),
        forall|i: int| 0 <= i < list.len() ==> #[trigger] list[i]@ == spec_list[i],
    ensures
        (exists|i: int| 0 <= i < list.len() && #[trigger] list[i]@ == name) == spec_list.contains(name),
{
    if spec_list.contains(name) {
        let k = choose|k: int| 0 <= k < spec_list.len() && spec_list[k] == name;
        assert(list[k]@ == name);
    }
}

pub fn is_protocol_field(name: &[char]) -> (res: bool)
    ensures
        res == protocol_fields().contains(name@),
{
    let list: [&str; 35] = [
        "id", "model", "input", "output", "role", "content", "type", "text", "arguments", "name",
        "call_id", "tool_call_id", "tools", "instructions", "replacement_history",
        "previous_response_id", "stream", "store", "metadata", "request_id", "turn_id",
        "thread_id", "conversation_id", "prompt_cache_key", "status", "error", "message",
        "reasoning", "summary", "include", "temperature", "top_p", "max_output_tokens",
        "parallel_tool_calls", "tool_choice",
    ];
    proof {
        assert(list@.len() == protocol_fields().len());
        assert forall|i: int| 0 <= i < list@.len() implies #[trigger] list@[i]@ == protocol_fields()[i] by {}
        lemma_list_contains(list@, protocol_fields(), name@);
    }
    one_of(name, &list)
}

pub fn is_identifier_key(name: &[char]) -> (res: bool)
    ensures
        res == identifier_keys().contains(name@),
{
    let list: [&str; 6] = ["request_id", "turn_id", "thread_id", "conversation_id", "prompt_cache_key", "call_id"];
    proof {
        assert forall|i: int| 0 <= i < list@.len() implies #[trigger] list@[i]@ == identifier_keys()[i] by {}
        lemma_list_contains(list@, identifier_keys(), name@);
    }
    one_of(name, &list)
}

/// The first 16 hex digits of the SHA-256 of the text.
pub fn short_hash_exec(text: &[char]) -> (res: Vec<char>)
    ensures
        res@ == short_hash(text@),
        is_short_hash(res@),
{
    let s = crate::text::string_of(text);
    let h = sha256_hex(s.as_str().as_bytes());
    let hc = chars_of(h.as_str());
    let res = take_chars(hc.as_slice(), 16);
    assert forall|i: int| 0 <= i < res@.len() implies is_lower_hex_char(#[trigger] res@[i]) by {
        assert(res@[i] == h@[i]);
    }
    res
}

/// A short hash: the first 16 lowercase hexadecimal digits of a digest.
pub open spec fn is_short_hash(t: Seq<char>) -> bool {
    t.len() == 16 && forall|i: int| 0 <= i < t.len() ==> is_lower_hex_char(#[trigger] t[i])
}

/// A reported content encoding: `identity`, `gzip`, or `other:` and a
/// short hash.
pub open spec fn encoding_form(e: Seq<char>) -> bool {
    ||| e == "identity"@
    ||| e == "gzip"@
    ||| e.len() == 22 && e.take(6) == "other:"@ && is_short_hash(e.skip(6))
}

/// Every identifier value is a written-out digest.
pub open spec fn hex_digest_values(m: Seq<(Seq<char>, Seq<char>)>) -> bool {
    forall|i: int| 0 <= i < m.len() ==> is_hex_digest(#[trigger] m[i].1)
}

/// The hashed fields of a report have their written forms: the target,
/// body and schema hashes and every identifier value are 64 hex digits,
/// and the content encoding is `identity`, `gzip` or `other:<16 hex>`.
pub open spec fn report_hash_forms(t: TransactionModel) -> bool {
    &&& is_hex_digest(t.target_hash)
    &&& is_hex_digest(t.body_hash)
    &&& is_hex_digest(t.schema_hash)
    &&& hex_digest_values(t.identifiers)
    &&& encoding_form(t.content_encoding)
}

/// Every report of the list has the written forms of its hashed fields.
pub open spec fn reports_hash_forms(s: Seq<TransactionModel>) -> bool {
    forall|i: int| 0 <= i < s.len() ==> report_hash_forms(#[trigger] s[i])
}

proof fn lemma_assoc_insert_hex(m: Seq<(Seq<char>, Seq<char>)>, k: Seq<char>, v: Seq<char>)
    requires
        hex_digest_values(m),
        is_hex_digest(v),
    ensures
        hex_digest_values(assoc_insert(m, k, v)),
{
    if exists|i: int| 0 <= i < m.len() && m[i].0 == k {
        let w = choose|i: int| 0 <= i < m.len() && m[i].0 == k;
        lemma_first_pair(m, k, w);
        let i = pair_index(m, k).unwrap();
        let r = m.update(i, (k, v));
        assert forall|q: int| 0 <= q < r.len() implies is_hex_digest(#[trigger] r[q].1) by {
            if q != i {
                assert(r[q] == m[q]);
            }
        }
    } else {
        let r = m.push((k, v));
        assert forall|q: int| 0 <= q < r.len() implies is_hex_digest(#[trigger] r[q].1) by {
            if q < m.len() {
                assert(r[q] == m[q]);
            }
        }
    }
}

pub fn safe_enum(kind: &[char], value: &[char]) -> (res: Vec<char>)
    ensures
        res@ == safe_enum_spec(kind@, value@),
{
    let role = chars_of("role");
    let ty = chars_of("type");
    let allowed = if chars_eq(kind, role.as_slice()) {
        let list: [&str; 5] = ["user", "assistant", "system", "developer", "tool"];
        proof {
            assert forall|i: int| 0 <= i < list@.len() implies #[trigger] list@[i]@ == safe_roles()[i] by {}
            lemma_list_contains(list@, safe_roles(), value@);
        }
        one_of(value, &list)
    } else if chars_eq(kind, ty.as_slice()) {
        let list: [&str; 12] = [
            "message", "input_text", "output_text", "input_image", "function_call",
            "function_call_output", "computer_call", "computer_call_output", "reasoning", "error",
            "response.completed", "response.failed",
        ];
        proof {
            assert forall|i: int| 0 <= i < list@.len() implies #[trigger] list@[i]@ == safe_types()[i] by {}
            lemma_list_contains(list@, safe_types(), value@);
        }
        one_of(value, &list)
    } else {
        false
    };
    if allowed {
        let mut out: Vec<char> = Vec::new();
        let mut i: usize = 0;
        while i < value.len()
            invariant
                i <= value@.len(),
                out@ == value@.take(i as int),
            decreases value.len() - i,
        {
            out.push(value[i]);
            assert(value@.take(i + 1) =~= value@.take(i as int).push(value@[i as int]));
            i = i + 1;
        }
        assert(value@.take(value@.len() as int) =~= value@);
        out
    } else {
        let mut out = chars_of("other:");
        let h = short_hash_exec(value);
        append(&mut out, h.as_slice());
        out
    }
}

/// Appends characters to a character vector.
pub fn append(out: &mut Vec<char>, more: &[char])
    ensures
        final(out)@ == old(out)@ + more@,
{
    let mut i: usize = 0;
    while i < more.len()
        invariant
            i <= more@.len(),
            out@ == old(out)@ + more@.take(i as int),
        decreases more.len() - i,
    {
        out.push(more[i]);
        assert(more@.take(i + 1) =~= more@.take(i as int).push(more@[i as int]));
        i = i + 1;
    }
    assert(more@.take(more@.len() as int) =~= more@);
}

pub fn escape_path(name: &[char]) -> (res: Vec<char>)
    ensures
        res@ == escape_path_spec(name@),
{
    if is_protocol_field(name) {
        let mut out: Vec<char> = Vec::new();
        append(&mut out, name);
        out
    } else {
        let mut out = chars_of("[key:");
        let h = short_hash_exec(name);
        append(&mut out, h.as_slice());
        let close = chars_of("]");
        append(&mut out, close.as_slice());
        out
    }
}

/// A normalized `content-encoding`: `identity` and `gzip` as-is, anything
/// else as `other:<short hash>` (after trimming and lowercasing).
pub open spec fn safe_content_encoding_spec(value: Seq<char>) -> Seq<char> {
    let normalized = crate::text::ascii_lower(crate::text::trim(value));
    if normalized == "identity"@ || normalized == "gzip"@ {
        normalized
    } else {
        "other:"@ + short_hash(normalized)
    }
}

pub fn safe_content_encoding(value: &[char]) -> (res: Vec<char>)
    ensures
        res@ == safe_content_encoding_spec(value@),
        encoding_form(res@),
{
    let trimmed = crate::text::trim_chars(value);
    let normalized = crate::text::ascii_lower_exec(trimmed.as_slice());
    if chars_eq(normalized.as_slice(), chars_of("identity").as_slice()) || chars_eq(normalized.as_slice(), chars_of("gzip").as_slice()) {
        normalized
    } else {
        let mut out = chars_of("other:");
        let h = short_hash_exec(normalized.as_slice());
        append(&mut out, h.as_slice());
        proof {
            reveal_strlit("other:");
            assert(out@.take(6) =~= "other:"@);
            assert(out@.skip(6) =~= h@);
        }
        out
    }
}


/// The `role`/`type` enum reported for a string member named `role` or `type`.
pub open spec fn role_or_type_enum(key: Option<Seq<char>>, j: Json) -> Option<Seq<char>> {
    match (key, j) {
        (Some(k), Json::Str(t)) => if k == "role"@ {
            Some(safe_enum_spec("role"@, t))
        } else if k == "type"@ {
            Some(safe_enum_spec("type"@, t))
        } else {
            None
        },
        _ => None,
    }
}

/// Pre-order walk recording every field's path and type, appended to `acc`.
/// `None` when the depth exceeds 64 or 50000 fields are reached.
pub open spec fn schema_walk(j: Json, path: Seq<char>, key: Option<Seq<char>>, depth: int, acc: Seq<FieldModel>) -> Option<Seq<FieldModel>>
    decreases j, 0int,
{
    if depth > 64 || acc.len() >= 50000 {
        None
    } else {
        let acc1 = acc.push(FieldModel { path: path, value_type: kind_name(j), safe_enum: role_or_type_enum(key, j) });
        match j {
            Json::Array(items) => schema_items(items, path, 0, depth + 1, acc1),
            Json::Object(entries) => schema_entries(entries, path, 0, depth + 1, acc1),
            _ => Some(acc1),
        }
    }
}

pub open spec fn item_path(path: Seq<char>, index: int) -> Seq<char> {
    path + "["@ + decimal_text(index as nat) + "]"@
}

pub open spec fn member_path(path: Seq<char>, name: Seq<char>) -> Seq<char> {
    path + "."@ + escape_path_spec(name)
}

pub open spec fn schema_items(items: Seq<Json>, path: Seq<char>, i: int, depth: int, acc: Seq<FieldModel>) -> Option<Seq<FieldModel>>
    decreases items, items.len() - i,
{
    if i < 0 || i >= items.len() {
        Some(acc)
    } else {
        match schema_walk(items[i], item_path(path, i), None, depth, acc) {
            None => None,
            Some(a) => schema_items(items, path, i + 1, depth, a),
        }
    }
}

pub open spec fn schema_entries(entries: Seq<(Seq<char>, Json)>, path: Seq<char>, i: int, depth: int, acc: Seq<FieldModel>) -> Option<Seq<FieldModel>>
    decreases entries, entries.len() - i,
{
    if i < 0 || i >= entries.len() {
        Some(acc)
    } else {
        match schema_walk(entries[i].1, member_path(path, entries[i].0), Some(entries[i].0), depth, acc) {
            None => None,
            Some(a) => schema_entries(entries, path, i + 1, depth, a),
        }
    }
}

/// An enum value a report may hold: an allow-listed role or type, or the
/// `other:` form that carries only a hash.
pub open spec fn reportable_enum(e: Seq<char>) -> bool {
    safe_roles().contains(e) || safe_types().contains(e) || has_prefix(e, "other:"@)
}

pub open spec fn enums_reportable(fields: Seq<FieldModel>) -> bool {
    forall|i: int| 0 <= i < fields.len() ==> ((#[trigger] fields[i]).safe_enum matches Some(e) ==> reportable_enum(e))
}

proof fn lemma_safe_enum_reportable(kind: Seq<char>, value: Seq<char>)
    ensures
        (kind == "role"@ || kind == "type"@) ==> reportable_enum(safe_enum_spec(kind, value)),
{
    reveal_strlit("other:");
    let tagged = "other:"@ + short_hash(value);
    assert(tagged.subrange(0, 6) =~= "other:"@);
    assert(has_prefix(tagged, "other:"@));
}

/// A schema walk reports no scalar value: every enum it records is an
/// allow-listed role or type, or an `other:` hash.
pub proof fn lemma_schema_walk_reports_no_values(j: Json, path: Seq<char>, key: Option<Seq<char>>, depth: int, acc: Seq<FieldModel>)
    requires
        enums_reportable(acc),
    ensures
        schema_walk(j, path, key, depth, acc) matches Some(r) ==> enums_reportable(r),
    decreases j, 0int,
{
    if !(depth > 64 || acc.len() >= 50000) {
        let f = FieldModel { path: path, value_type: kind_name(j), safe_enum: role_or_type_enum(key, j) };
        let acc1 = acc.push(f);
        if let (Some(k), Json::Str(t)) = (key, j) {
            lemma_safe_enum_reportable(k, t);
        }
        assert(enums_reportable(acc1)) by {
            assert forall|i: int| 0 <= i < acc1.len() implies ((#[trigger] acc1[i]).safe_enum matches Some(e) ==> reportable_enum(e)) by {
                if i < acc.len() {
                    assert(acc1[i] == acc[i]);
                }
            }
        }
        match j {
            Json::Array(items) => lemma_schema_items_report_no_values(items, path, 0, depth + 1, acc1),
            Json::Object(entries) => lemma_schema_entries_report_no_values(entries, path, 0, depth + 1, acc1),
            _ => {},
        }
    }
}

proof fn lemma_schema_items_report_no_values(items: Seq<Json>, path: Seq<char>, i: int, depth: int, acc: Seq<FieldModel>)
    requires
        enums_reportable(acc),
    ensures
        schema_items(items, path, i, depth, acc) matches Some(r) ==> enums_reportable(r),
    decreases items, items.len() - i,
{
    if 0 <= i < items.len() {
        lemma_schema_walk_reports_no_values(items[i], item_path(path, i), None, depth, acc);
        match schema_walk(items[i], item_path(path, i), None, depth, acc) {
            None => {},
            Some(a) => lemma_schema_items_report_no_values(items, path, i + 1, depth, a),
        }
    }
}

proof fn lemma_schema_entries_report_no_values(entries: Seq<(Seq<char>, Json)>, path: Seq<char>, i: int, depth: int, acc: Seq<FieldModel>)
    requires
        enums_reportable(acc),
    ensures
        schema_entries(entries, path, i, depth, acc) matches Some(r) ==> enums_reportable(r),
    decreases entries, entries.len() - i,
{
    if 0 <= i < entries.len() {
        lemma_schema_walk_reports_no_values(entries[i].1, member_path(path, entries[i].0), Some(entries[i].0), depth, acc);
        match schema_walk(entries[i].1, member_path(path, entries[i].0), Some(entries[i].0), depth, acc) {
            None => {},
            Some(a) => lemma_schema_entries_report_no_values(entries, path, i + 1, depth, a),
        }
    }
}

pub open spec fn opt_chars_ref(o: Option<&[char]>) -> Option<Seq<char>> {
    match o {
        Some(s) => Some(s@),
        None => None,
    }
}

fn concat3(a: &[char], b: &[char], c: &[char]) -> (res: Vec<char>)
    ensures
        res@ == a@ + b@ + c@,
{
    let mut out: Vec<char> = Vec::new();
    append(&mut out, a);
    append(&mut out, b);
    append(&mut out, c);
    out
}

fn opt_string_of(o: &Option<Vec<char>>) -> (res: Option<String>)
    ensures
        match res {
            Some(s) => o matches Some(v) && s@ == v@,
            None => o is None,
        },
{
    match o {
        Some(v) => Some(crate::text::string_of(v.as_slice())),
        None => None,
    }
}

/// Records the schema of `value` (at `path`, reached through member `key`)
/// into `output`.
#[verifier::loop_isolation(false)]
pub fn collect_schema(value: &JsonValue, path: &[char], key: Option<&[char]>, depth: usize, output: &mut Vec<SchemaField>) -> (res: Result<(), CaptureError>)
    requires
        json_wf(value.model()),
    ensures
        match schema_walk(value.model(), path@, opt_chars_ref(key), depth as int, field_models(old(output)@)) {
            Some(a) => res is Ok && field_models(final(output)@) == a,
            None => res == Err::<(), CaptureError>(CaptureError::SchemaLimitExceeded),
        },
    decreases value,
{
    if depth > 64 || output.len() >= 50000 {
        return Err(CaptureError::SchemaLimitExceeded);
    }
    let value_type = crate::text::string_of(chars_of(value.kind_name()).as_slice());
    let se: Option<Vec<char>> = match (key, value) {
        (Some(k), JsonValue::String(t)) => {
            let tc = chars_of(t.as_str());
            if chars_eq(k, chars_of("role").as_slice()) {
                Some(safe_enum(chars_of("role").as_slice(), tc.as_slice()))
            } else if chars_eq(k, chars_of("type").as_slice()) {
                Some(safe_enum(chars_of("type").as_slice(), tc.as_slice()))
            } else {
                None
            }
        },
        _ => None,
    };
    let field = SchemaField { path: crate::text::string_of(path), value_type, safe_enum: opt_string_of(&se) };
    proof {
        assert(field.model() == FieldModel { path: path@, value_type: kind_name(value.model()), safe_enum: role_or_type_enum(opt_chars_ref(key), value.model()) });
        assert(field_models(output@.push(field)) =~= field_models(output@).push(field.model()));
    }
    output.push(field);
    match value {
        JsonValue::Array(items) => {
            proof { lemma_models(items@); }
            let ghost ms = models(items@);
            assert(value.model() == Json::Array(ms));
            proof { crate::json::lemma_json_wf_children(value.model()); }
            let mut i: usize = 0;
            while i < items.len()
                invariant
                    i <= items@.len(),
                    ms == models(items@),
                    ms.len() == items@.len(),
                    forall|m: int| 0 <= m < items@.len() ==> #[trigger] ms[m] == items@[m].model(),
                    schema_walk(value.model(), path@, opt_chars_ref(key), depth as int, field_models(old(output)@))
                        == schema_items(ms, path@, i as int, depth + 1, field_models(output@)),
                decreases items.len() - i,
            {
                let index_text = u64_text(i as u64);
                let item_path_chars = concat3(path, chars_of("[").as_slice(), index_text.as_slice());
                let p = concat3(item_path_chars.as_slice(), chars_of("]").as_slice(), &[]);
                assert(p@ =~= item_path(path@, i as int));
                assert(json_wf(ms[i as int]));
                match collect_schema(&items[i], p.as_slice(), None, depth + 1, output) {
                    Err(e) => { return Err(e); },
                    Ok(()) => {},
                }
                i = i + 1;
            }
            Ok(())
        },
        JsonValue::Object(entries) => {
            proof { lemma_entry_models(entries@); }
            let ghost es = entry_models(entries@);
            assert(value.model() == Json::Object(es));
            proof { crate::json::lemma_json_wf_children(value.model()); }
            let mut i: usize = 0;
            while i < entries.len()
                invariant
                    i <= entries@.len(),
                    es == entry_models(entries@),
                    es.len() == entries@.len(),
                    forall|m: int| 0 <= m < entries@.len() ==> #[trigger] es[m] == (entries@[m].0@, entries@[m].1.model()),
                    schema_walk(value.model(), path@, opt_chars_ref(key), depth as int, field_models(old(output)@))
                        == schema_entries(es, path@, i as int, depth + 1, field_models(output@)),
                decreases entries.len() - i,
            {
                let name = chars_of(entries[i].0.as_str());
                let escaped = escape_path(name.as_slice());
                let p = concat3(path, chars_of(".").as_slice(), escaped.as_slice());
                assert(p@ =~= member_path(path@, es[i as int].0));
                assert(json_wf(es[i as int].1));
                match collect_schema(&entries[i].1, p.as_slice(), Some(name.as_slice()), depth + 1, output) {
                    Err(e) => { return Err(e); },
                    Ok(()) => {},
                }
                i = i + 1;
            }
            Ok(())
        },
        _ => Ok(()),
    }
}


/// Index of the entry with key `k` in an association list, if any (the
/// first one).
pub open spec fn pair_index(m: Seq<(Seq<char>, Seq<char>)>, k: Seq<char>) -> Option<int> {
    if exists|i: int| 0 <= i < m.len() && m[i].0 == k {
        Some(choose|i: int| 0 <= i < m.len() && m[i].0 == k && forall|j: int| 0 <= j < i ==> m[j].0 != k)
    } else {
        None
    }
}

/// Inserting into an association list: an existing key keeps its place and
/// takes the new value, a new key is appended.
pub open spec fn assoc_insert(m: Seq<(Seq<char>, Seq<char>)>, k: Seq<char>, v: Seq<char>) -> Seq<(Seq<char>, Seq<char>)> {
    match pair_index(m, k) {
        Some(i) => m.update(i, (k, v)),
        None => m.push((k, v)),
    }
}

proof fn lemma_pair_index_is(m: Seq<(Seq<char>, Seq<char>)>, k: Seq<char>, i: int)
    requires
        0 <= i < m.len(),
        m[i].0 == k,
        forall|j: int| 0 <= j < i ==> m[j].0 != k,
    ensures
        pair_index(m, k) == Some(i),
{
    let w = choose|w: int| 0 <= w < m.len() && m[w].0 == k && forall|j: int| 0 <= j < w ==> m[j].0 != k;
    if w < i {
        assert(m[w].0 != k);
    } else if w > i {
        assert(m[i].0 != k);
    }
}

/// The bytes hashed for an identifier: a string's UTF-8 bytes or a number's
/// printed text.
pub open spec fn scalar_bytes(j: Json) -> Option<Seq<u8>> {
    match j {
        Json::Str(t) => Some(encode_utf8(t)),
        Json::Number(text, _) => Some(encode_utf8(text)),
        _ => None,
    }
}

/// Walk collecting `path -> sha256 hex` for scalar members named like
/// identifiers; stops descending past depth 64 or at 64 identifiers.
pub open spec fn ident_walk(j: Json, path: Seq<char>, depth: int, acc: Seq<(Seq<char>, Seq<char>)>) -> Seq<(Seq<char>, Seq<char>)>
    decreases j, 0int,
{
    if depth > 64 || acc.len() >= 64 {
        acc
    } else {
        match j {
            Json::Array(items) => ident_items(items, path, 0, depth, acc),
            Json::Object(entries) => ident_entries(entries, path, 0, depth, acc),
            _ => acc,
        }
    }
}

pub open spec fn ident_items(items: Seq<Json>, path: Seq<char>, i: int, depth: int, acc: Seq<(Seq<char>, Seq<char>)>) -> Seq<(Seq<char>, Seq<char>)>
    decreases items, items.len() - i,
{
    if i < 0 || i >= items.len() {
        acc
    } else {
        ident_items(items, path, i + 1, depth, ident_walk(items[i], item_path(path, i), depth + 1, acc))
    }
}

pub open spec fn ident_entries(entries: Seq<(Seq<char>, Json)>, path: Seq<char>, i: int, depth: int, acc: Seq<(Seq<char>, Seq<char>)>) -> Seq<(Seq<char>, Seq<char>)>
    decreases entries, entries.len() - i,
{
    if i < 0 || i >= entries.len() {
        acc
    } else {
        let p = member_path(path, entries[i].0);
        let acc1 = if identifier_keys().contains(entries[i].0) && scalar_bytes(entries[i].1) is Some {
            assoc_insert(acc, p, hex_lower(sha256(scalar_bytes(entries[i].1).unwrap())))
        } else {
            acc
        };
        ident_entries(entries, path, i + 1, depth, ident_walk(entries[i].1, p, depth + 1, acc1))
    }
}

proof fn lemma_first_pair(m: Seq<(Seq<char>, Seq<char>)>, k: Seq<char>, w: int)
    requires
        0 <= w < m.len(),
        m[w].0 == k,
    ensures
        exists|i: int| 0 <= i < m.len() && m[i].0 == k && forall|j: int| 0 <= j < i ==> m[j].0 != k,
    decreases w,
{
    if exists|j: int| 0 <= j < w && m[j].0 == k {
        let v = choose|j: int| 0 <= j < w && m[j].0 == k;
        lemma_first_pair(m, k, v);
    }
}

/// A value that can stand in a report for an identifier: a SHA-256 hex
/// digest, never the identifier itself.
pub open spec fn is_digest_text(v: Seq<char>) -> bool {
    exists|b: Seq<u8>| v == #[trigger] hex_lower(sha256(b))
}

pub open spec fn all_digests(m: Seq<(Seq<char>, Seq<char>)>) -> bool {
    forall|i: int| 0 <= i < m.len() ==> is_digest_text(#[trigger] m[i].1)
}

proof fn lemma_assoc_insert_digest(m: Seq<(Seq<char>, Seq<char>)>, k: Seq<char>, b: Seq<u8>)
    requires
        all_digests(m),
    ensures
        all_digests(assoc_insert(m, k, hex_lower(sha256(b)))),
{
    let v = hex_lower(sha256(b));
    assert(is_digest_text(v));
    if exists|i: int| 0 <= i < m.len() && m[i].0 == k {
        let w = choose|i: int| 0 <= i < m.len() && m[i].0 == k;
        lemma_first_pair(m, k, w);
        let i = pair_index(m, k).unwrap();
        let r = m.update(i, (k, v));
        assert forall|q: int| 0 <= q < r.len() implies is_digest_text(#[trigger] r[q].1) by {
            if q != i {
                assert(r[q] == m[q]);
            }
        }
    } else {
        let r = m.push((k, v));
        assert forall|q: int| 0 <= q < r.len() implies is_digest_text(#[trigger] r[q].1) by {
            if q < m.len() {
                assert(r[q] == m[q]);
            }
        }
    }
}

/// Identifiers reach a report only as SHA-256 digests: every value the
/// identifier walk records is the hex of a digest.
pub proof fn lemma_identifier_walk_records_digests(j: Json, path: Seq<char>, depth: int, acc: Seq<(Seq<char>, Seq<char>)>)
    requires
        all_digests(acc),
    ensures
        all_digests(ident_walk(j, path, depth, acc)),
    decreases j, 0int,
{
    if !(depth > 64 || acc.len() >= 64) {
        match j {
            Json::Array(items) => lemma_identifier_items_record_digests(items, path, 0, depth, acc),
            Json::Object(entries) => lemma_identifier_entries_record_digests(entries, path, 0, depth, acc),
            _ => {},
        }
    }
}

proof fn lemma_identifier_items_record_digests(items: Seq<Json>, path: Seq<char>, i: int, depth: int, acc: Seq<(Seq<char>, Seq<char>)>)
    requires
        all_digests(acc),
    ensures
        all_digests(ident_items(items, path, i, depth, acc)),
    decreases items, items.len() - i,
{
    if 0 <= i < items.len() {
        lemma_identifier_walk_records_digests(items[i], item_path(path, i), depth + 1, acc);
        lemma_identifier_items_record_digests(items, path, i + 1, depth, ident_walk(items[i], item_path(path, i), depth + 1, acc));
    }
}

proof fn lemma_identifier_entries_record_digests(entries: Seq<(Seq<char>, Json)>, path: Seq<char>, i: int, depth: int, acc: Seq<(Seq<char>, Seq<char>)>)
    requires
        all_digests(acc),
    ensures
        all_digests(ident_entries(entries, path, i, depth, acc)),
    decreases entries, entries.len() - i,
{
    if 0 <= i < entries.len() {
        let p = member_path(path, entries[i].0);
        if identifier_keys().contains(entries[i].0) && scalar_bytes(entries[i].1) is Some {
            lemma_assoc_insert_digest(acc, p, scalar_bytes(entries[i].1).unwrap());
        }
        let acc1 = if identifier_keys().contains(entries[i].0) && scalar_bytes(entries[i].1) is Some {
            assoc_insert(acc, p, hex_lower(sha256(scalar_bytes(entries[i].1).unwrap())))
        } else {
            acc
        };
        lemma_identifier_walk_records_digests(entries[i].1, p, depth + 1, acc1);
        lemma_identifier_entries_record_digests(entries, path, i + 1, depth, ident_walk(entries[i].1, p, depth + 1, acc1));
    }
}

pub open spec fn pair_models(m: Seq<(String, String)>) -> Seq<(Seq<char>, Seq<char>)> {
    m.map_values(|p: (String, String)| (p.0@, p.1@))
}

fn identifier_insert(output: &mut Vec<(String, String)>, key: String, value: String)
    ensures
        pair_models(final(output)@) == assoc_insert(pair_models(old(output)@), key@, value@),
{
    let ghost m = pair_models(output@);
    let mut i: usize = 0;
    while i < output.len()
        invariant
            i <= output@.len(),
            m == pair_models(output@),
            output@ == old(output)@,
            forall|j: int| 0 <= j < i ==> m[j].0 != key@,
        decreases output.len() - i,
    {
        if str_eq(output[i].0.as_str(), key.as_str()) {
            proof {
                lemma_pair_index_is(m, key@, i as int);
                assert(pair_models(output@.update(i as int, (key, value))) =~= m.update(i as int, (key@, value@)));
            }
            output.set(i, (key, value));
            return;
        }
        i = i + 1;
    }
    proof {
        assert(pair_models(output@.push((key, value))) =~= m.push((key@, value@)));
    }
    output.push((key, value));
}


/// The bytes hashed for an identifier.
fn scalar_bytes_exec(value: &JsonValue) -> (res: Option<Vec<u8>>)
    ensures
        match res {
            Some(b) => scalar_bytes(value.model()) == Some(b@),
            None => scalar_bytes(value.model()) is None,
        },
{
    match value {
        JsonValue::String(t) => Some(bytes_of_str(t.as_str())),
        JsonValue::Number(n) => Some(bytes_of_str(n.text.as_str())),
        _ => None,
    }
}

fn bytes_of_str(s: &str) -> (res: Vec<u8>)
    ensures
        res@ == encode_utf8(s@),
{
    let b = s.as_bytes();
    let mut out: Vec<u8> = Vec::new();
    let mut i: usize = 0;
    while i < b.len()
        invariant
            i <= b@.len(),
            out@ == b@.take(i as int),
        decreases b.len() - i,
    {
        out.push(b[i]);
        assert(b@.take(i + 1) =~= b@.take(i as int).push(b@[i as int]));
        i = i + 1;
    }
    assert(b@.take(b@.len() as int) =~= b@);
    out
}

/// Records `path -> sha256 hex` for every string or number member named like
/// an identifier, anywhere in `value` (at most 64 entries, depth 64).
#[verifier::loop_isolation(false)]
pub fn collect_identifiers(value: &JsonValue, path: &[char], output: &mut Vec<(String, String)>, depth: usize)
    requires
        json_wf(value.model()),
    ensures
        pair_models(final(output)@) == ident_walk(value.model(), path@, depth as int, pair_models(old(output)@)),
        hex_digest_values(pair_models(old(output)@)) ==> hex_digest_values(pair_models(final(output)@)),
    decreases value,
{
    if depth > 64 || output.len() >= 64 {
        return;
    }
    match value {
        JsonValue::Array(items) => {
            proof { lemma_models(items@); }
            let ghost ms = models(items@);
            assert(value.model() == Json::Array(ms));
            proof { crate::json::lemma_json_wf_children(value.model()); }
            let mut i: usize = 0;
            while i < items.len()
                invariant
                    i <= items@.len(),
                    ms == models(items@),
                    ms.len() == items@.len(),
                    forall|m: int| 0 <= m < items@.len() ==> #[trigger] ms[m] == items@[m].model(),
                    ident_walk(value.model(), path@, depth as int, pair_models(old(output)@))
                        == ident_items(ms, path@, i as int, depth as int, pair_models(output@)),
                    hex_digest_values(pair_models(old(output)@)) ==> hex_digest_values(pair_models(output@)),
                decreases items.len() - i,
            {
                let index_text = u64_text(i as u64);
                let item_path_chars = concat3(path, chars_of("[").as_slice(), index_text.as_slice());
                let p = concat3(item_path_chars.as_slice(), chars_of("]").as_slice(), &[]);
                assert(p@ =~= item_path(path@, i as int));
                assert(json_wf(ms[i as int]));
                collect_identifiers(&items[i], p.as_slice(), output, depth + 1);
                i = i + 1;
            }
        },
        JsonValue::Object(entries) => {
            proof { lemma_entry_models(entries@); }
            let ghost es = entry_models(entries@);
            assert(value.model() == Json::Object(es));
            proof { crate::json::lemma_json_wf_children(value.model()); }
            let mut i: usize = 0;
            while i < entries.len()
                invariant
                    i <= entries@.len(),
                    es == entry_models(entries@),
                    es.len() == entries@.len(),
                    forall|m: int| 0 <= m < entries@.len() ==> #[trigger] es[m] == (entries@[m].0@, entries@[m].1.model()),
                    ident_walk(value.model(), path@, depth as int, pair_models(old(output)@))
                        == ident_entries(es, path@, i as int, depth as int, pair_models(output@)),
                    hex_digest_values(pair_models(old(output)@)) ==> hex_digest_values(pair_models(output@)),
                decreases entries.len() - i,
            {
                let name = chars_of(entries[i].0.as_str());
                let escaped = escape_path(name.as_slice());
                let p = concat3(path, chars_of(".").as_slice(), escaped.as_slice());
                assert(p@ =~= member_path(path@, es[i as int].0));
                if is_identifier_key(name.as_slice()) {
                    match scalar_bytes_exec(&entries[i].1) {
                        Some(bytes) => {
                            let h = sha256_hex(bytes.as_slice());
                            let key = crate::text::string_of(p.as_slice());
                            let ghost before = pair_models(output@);
                            identifier_insert(output, key, h);
                            proof {
                                if hex_digest_values(before) {
                                    lemma_assoc_insert_hex(before, key@, h@);
                                }
                            }
                        },
                        None => {},
                    }
                }
                assert(json_wf(es[i as int].1));
                collect_identifiers(&entries[i].1, p.as_slice(), output, depth + 1);
                i = i + 1;
            }
        },
        _ => {},
    }
}


/// An error envelope anywhere in a JSON value: an object with a non-null
/// `error` member or a `type` of `error` or `response.failed`, at any depth.
pub open spec fn json_has_error(j: Json) -> bool
    decreases j, 1nat,
{
    match j {
        Json::Object(entries) => error_envelope_here(j) || members_have_error(entries),
        Json::Array(items) => items_have_error(items),
        _ => false,
    }
}

pub open spec fn items_have_error(items: Seq<Json>) -> bool
    decreases items, 0nat,
{
    if items.len() == 0 {
        false
    } else {
        items_have_error(items.drop_last()) || json_has_error(items.last())
    }
}

pub open spec fn members_have_error(entries: Seq<(Seq<char>, Json)>) -> bool
    decreases entries, 0nat,
{
    if entries.len() == 0 {
        false
    } else {
        members_have_error(entries.drop_last()) || json_has_error(entries.last().1)
    }
}

/// An object that is itself an error envelope.
pub open spec fn error_envelope_here(j: Json) -> bool {
    j matches Json::Object(entries) && {
        ||| (obj_get(entries, "error"@) matches Some(e) && e != Json::Null)
        ||| get_str(j, "type"@) == Some("error"@)
        ||| get_str(j, "type"@) == Some("response.failed"@)
    }
}

fn error_envelope_here_exec(value: &JsonValue) -> (res: bool)
    ensures
        res == error_envelope_here(value.model()),
{
    if !value.is_object() {
        return false;
    }
    let direct = match value.get("error") {
        Some(e) => !e.is_null(),
        None => false,
    };
    let typed = match value.get_str("type") {
        Some(k) => str_eq(k, "error") || str_eq(k, "response.failed"),
        None => false,
    };
    proof {
        reveal_strlit("error");
        reveal_strlit("response.failed");
        reveal_strlit("type");
    }
    direct || typed
}

#[verifier::loop_isolation(false)]
#[verifier::rlimit(30)]
pub fn json_has_error_exec(value: &JsonValue) -> (res: bool)
    ensures
        res == json_has_error(value.model()),
    decreases value,
{
    match value {
        JsonValue::Object(entries) => {
            proof { lemma_entry_models(entries@); }
            let ghost es = entry_models(entries@);
            assert(value.model() == Json::Object(es));
            if error_envelope_here_exec(value) {
                return true;
            }
            let mut i: usize = 0;
            while i < entries.len()
                invariant
                    i <= entries@.len(),
                    es == entry_models(entries@),
                    es.len() == entries@.len(),
                    forall|m: int| 0 <= m < entries@.len() ==> #[trigger] es[m] == (entries@[m].0@, entries@[m].1.model()),
                    !members_have_error(es.take(i as int)),
                decreases entries.len() - i,
            {
                assert(es.take(i + 1).drop_last() =~= es.take(i as int));
                if json_has_error_exec(&entries[i].1) {
                    proof {
                        let t = es.take(i + 1);
                        assert(t.last() == es[i as int]);
                        assert(members_have_error(t));
                        lemma_members_have_error_prefix(es, i + 1);
                    }
                    return true;
                }
                i = i + 1;
            }
            assert(es.take(es.len() as int) =~= es);
            false
        },
        JsonValue::Array(items) => {
            proof { lemma_models(items@); }
            let ghost ms = models(items@);
            assert(value.model() == Json::Array(ms));
            let mut i: usize = 0;
            while i < items.len()
                invariant
                    i <= items@.len(),
                    ms == models(items@),
                    ms.len() == items@.len(),
                    forall|m: int| 0 <= m < items@.len() ==> #[trigger] ms[m] == items@[m].model(),
                    !items_have_error(ms.take(i as int)),
                decreases items.len() - i,
            {
                assert(ms.take(i + 1).drop_last() =~= ms.take(i as int));
                if json_has_error_exec(&items[i]) {
                    proof {
                        let t = ms.take(i + 1);
                        assert(t.last() == ms[i as int]);
                        assert(items_have_error(t));
                        lemma_items_have_error_prefix(ms, i + 1);
                    }
                    return true;
                }
                i = i + 1;
            }
            assert(ms.take(ms.len() as int) =~= ms);
            false
        },
        _ => false,
    }
}

proof fn lemma_items_have_error_prefix(items: Seq<Json>, k: int)
    requires
        0 <= k <= items.len(),
        items_have_error(items.take(k)),
    ensures
        items_have_error(items),
    decreases items.len() - k,
{
    if k < items.len() {
        assert(items.take(k + 1).drop_last() =~= items.take(k));
        lemma_items_have_error_prefix(items, k + 1);
    } else {
        assert(items.take(k) =~= items);
    }
}

proof fn lemma_members_have_error_prefix(entries: Seq<(Seq<char>, Json)>, k: int)
    requires
        0 <= k <= entries.len(),
        members_have_error(entries.take(k)),
    ensures
        members_have_error(entries),
    decreases entries.len() - k,
{
    if k < entries.len() {
        assert(entries.take(k + 1).drop_last() =~= entries.take(k));
        lemma_members_have_error_prefix(entries, k + 1);
    } else {
        assert(entries.take(k) =~= entries);
    }
}


/// A line without the `\r` that ended it before its `\n`.
pub open spec fn strip_cr(p: Seq<char>) -> Seq<char> {
    if p.len() > 0 && p.last() == '\r' {
        p.drop_last()
    } else {
        p
    }
}

/// `str::lines`: the text split at `\n`, each line that a `\n` ended losing
/// one trailing `\r`, and no empty line after a final `\n`.
pub open spec fn text_lines(s: Seq<char>) -> Seq<Seq<char>> {
    let parts = split_seq(s, '\n');
    let n = if parts.last().len() == 0 { parts.len() - 1 } else { parts.len() as int };
    Seq::new(n as nat, |i: int| if i < parts.len() - 1 { strip_cr(parts[i]) } else { parts[i] })
}

/// A `data:` line whose trimmed payload is JSON with an error envelope.
pub open spec fn data_line_error(line: Seq<char>) -> bool {
    has_prefix(line, "data:"@) && match json_parse(encode_utf8(trim(line.skip(5)))) {
        Some(v) => json_has_error(v),
        None => false,
    }
}

/// Some server-sent-event line of the text carries an error envelope.
pub open spec fn sse_has_error(text: Seq<char>) -> bool {
    exists|i: int| 0 <= i < text_lines(text).len() && #[trigger] data_line_error(text_lines(text)[i])
}

fn data_line_error_exec(line: &[char]) -> (res: bool)
    ensures
        res == data_line_error(line@),
{
    let prefix = chars_of("data:");
    proof { reveal_strlit("data:"); }
    if !chars_occur_at(line, prefix.as_slice(), 0) {
        return false;
    }
    let rest = crate::text::trim_chars(&line[5..line.len()]);
    assert(line@.subrange(5, line@.len() as int) =~= line@.skip(5));
    let text = crate::text::string_of(rest.as_slice());
    let bytes = bytes_of_str(text.as_str());
    match parse_json(bytes.as_slice()) {
        Some(v) => json_has_error_exec(&v),
        None => false,
    }
}

/// `str::lines` (see `text_lines`).
pub fn text_lines_exec(text: &[char]) -> (res: Vec<Vec<char>>)
    ensures
        res@.len() == text_lines(text@).len(),
        forall|i: int| 0 <= i < res@.len() ==> #[trigger] res@[i]@ == text_lines(text@)[i],
{
    let pieces = split_char(text, '\n');
    let ghost parts = split_seq(text@, '\n');
    proof { crate::text::lemma_split_seq_nonempty(text@, '\n'); }
    let last = pieces.len() - 1;
    let n = if pieces[last].len() == 0 { last } else { pieces.len() };
    assert(pieces@[last as int]@ == parts.last());
    let ghost lines = text_lines(text@);
    assert(lines.len() == n);
    let mut out: Vec<Vec<char>> = Vec::new();
    let mut i: usize = 0;
    while i < n
        invariant
            i <= n,
            n <= pieces@.len(),
            pieces@.len() == parts.len(),
            last == pieces@.len() - 1,
            parts == split_seq(text@, '\n'),
            lines == text_lines(text@),
            lines.len() == n,
            forall|m: int| 0 <= m < pieces@.len() ==> #[trigger] pieces@[m]@ == parts[m],
            out@.len() == i,
            forall|m: int| 0 <= m < i ==> #[trigger] out@[m]@ == lines[m],
        decreases n - i,
    {
        let piece = &pieces[i];
        let line: Vec<char> = if i < last && piece.len() > 0 && piece[piece.len() - 1] == '\r' {
            crate::text::copy_chars(&piece.as_slice()[0..piece.len() - 1])
        } else {
            crate::text::copy_chars(piece.as_slice())
        };
        assert(line@ == lines[i as int]) by {
            if i < last && piece@.len() > 0 && piece@.last() == '\r' {
                assert(piece@.subrange(0, piece@.len() - 1) =~= piece@.drop_last());
            }
        }
        out.push(line);
        i = i + 1;
    }
    out
}

pub fn sse_has_error_exec(text: &[char]) -> (res: bool)
    ensures
        res == sse_has_error(text@),
{
    let lines = text_lines_exec(text);
    let ghost ls = text_lines(text@);
    let mut i: usize = 0;
    while i < lines.len()
        invariant
            i <= lines@.len(),
            ls == text_lines(text@),
            lines@.len() == ls.len(),
            forall|m: int| 0 <= m < lines@.len() ==> #[trigger] lines@[m]@ == ls[m],
            forall|m: int| 0 <= m < i ==> !#[trigger] data_line_error(ls[m]),
        decreases lines.len() - i,
    {
        if data_line_error_exec(lines[i].as_slice()) {
            return true;
        }
        i = i + 1;
    }
    false
}

/// `str::parse::<u16>`.
pub open spec fn parse_u16_spec(s: Seq<char>) -> Option<u16> {
    match parse_usize_spec(s) {
        Some(n) => if n <= 65535 { Some(n as u16) } else { None },
        None => None,
    }
}

/// The status code of a response line: its second whitespace-separated
/// token read as a `u16`.
pub open spec fn response_status_spec(line: Seq<char>) -> Option<u16> {
    match ws_token(line, 0, 1) {
        Some(t) => parse_u16_spec(t),
        None => None,
    }
}

pub fn parse_response_status(line: &[char]) -> (res: Option<u16>)
    ensures
        res == response_status_spec(line@),
{
    match ws_token_exec(line, 1) {
        Some(t) => match parse_usize(t.as_slice()) {
            Some(n) => if n <= 65535 { Some(n as u16) } else { None },
            None => None,
        },
        None => None,
    }
}

/// Whether a response reports an error: a status of 400 or more, a JSON body
/// with an error envelope, or, when the body is not JSON, a UTF-8 event
/// stream with such a `data:` line.
pub open spec fn response_has_error_spec(r: HttpMessageModel) -> bool {
    if response_status_spec(r.start_line) matches Some(st) && st >= 400 {
        true
    } else {
        match json_parse(r.body) {
            Some(v) => json_has_error(v),
            None => valid_utf8(r.body) && sse_has_error(decode_utf8(r.body)),
        }
    }
}

pub fn response_has_error(response: &HttpMessage) -> (res: bool)
    ensures
        res == response_has_error_spec(response.model()),
{
    match parse_response_status(response.start_line.as_slice()) {
        Some(st) => {
            if st >= 400 {
                return true;
            }
        },
        None => {},
    }
    match parse_json(response.body.as_slice()) {
        Some(v) => json_has_error_exec(&v),
        None => match crate::text::utf8_decode(response.body.as_slice()) {
            Some(text) => sse_has_error_exec(text.as_slice()),
            None => false,
        },
    }
}


/// The compact JSON text of one schema field, as `serde_json` writes the
/// record (`safe_enum` left out when absent).
pub open spec fn field_json(f: FieldModel) -> Seq<char> {
    "{\"path\":"@ + json_text(Json::Str(f.path)) + ",\"value_type\":"@ + json_text(Json::Str(f.value_type))
        + match f.safe_enum {
        Some(e) => ",\"safe_enum\":"@ + json_text(Json::Str(e)),
        None => Seq::<char>::empty(),
    } + "}"@
}

pub open spec fn field_list_json(fields: Seq<FieldModel>) -> Seq<char>
    decreases fields.len(),
{
    if fields.len() == 0 {
        Seq::empty()
    } else if fields.len() == 1 {
        field_json(fields[0])
    } else {
        field_list_json(fields.drop_last()) + ","@ + field_json(fields.last())
    }
}

/// The compact JSON array of the schema fields.
pub open spec fn schema_json(fields: Seq<FieldModel>) -> Seq<char> {
    "["@ + field_list_json(fields) + "]"@
}

fn json_string_text(text: &String) -> (res: Vec<char>)
    ensures
        res@ == json_text(Json::Str(text@)),
{
    let v = JsonValue::String(crate::text::string_of(chars_of(text.as_str()).as_slice()));
    let t = to_json_text(&v);
    chars_of(t.as_str())
}

fn field_json_exec(f: &SchemaField) -> (res: Vec<char>)
    ensures
        res@ == field_json(f.model()),
{
    let mut out = chars_of("{\"path\":");
    append(&mut out, json_string_text(&f.path).as_slice());
    append(&mut out, chars_of(",\"value_type\":").as_slice());
    append(&mut out, json_string_text(&f.value_type).as_slice());
    match &f.safe_enum {
        Some(e) => {
            append(&mut out, chars_of(",\"safe_enum\":").as_slice());
            append(&mut out, json_string_text(e).as_slice());
        },
        None => {},
    }
    append(&mut out, chars_of("}").as_slice());
    proof {
        let m = f.model();
        let tail = match m.safe_enum {
            Some(e) => ",\"safe_enum\":"@ + json_text(Json::Str(e)),
            None => Seq::<char>::empty(),
        };
        assert(out@ =~= "{\"path\":"@ + json_text(Json::Str(m.path)) + ",\"value_type\":"@ + json_text(Json::Str(m.value_type)) + tail + "}"@);
    }
    out
}

pub fn schema_json_exec(fields: &Vec<SchemaField>) -> (res: Vec<char>)
    ensures
        res@ == schema_json(field_models(fields@)),
{
    let ghost fm = field_models(fields@);
    let mut body: Vec<char> = Vec::new();
    let mut i: usize = 0;
    while i < fields.len()
        invariant
            i <= fields@.len(),
            fm == field_models(fields@),
            fm.len() == fields@.len(),
            body@ == field_list_json(fm.take(i as int)),
        decreases fields.len() - i,
    {
        let piece = field_json_exec(&fields[i]);
        let ghost t = fm.take(i + 1);
        assert(t.drop_last() =~= fm.take(i as int));
        assert(t.last() == fields@[i as int].model());
        if i > 0 {
            append(&mut body, chars_of(",").as_slice());
        } else {
            assert(t.len() == 1 && t[0] == t.last());
        }
        append(&mut body, piece.as_slice());
        i = i + 1;
    }
    assert(fm.take(fm.len() as int) =~= fm);
    let mut out = chars_of("[");
    append(&mut out, body.as_slice());
    append(&mut out, chars_of("]").as_slice());
    out
}


/// The report on one request: hashes, schema, identifiers and verdict,
/// never a raw value.
pub struct TransactionReport {
    pub request_at_unix_ms: u64,
    pub method: String,
    pub target_hash: String,
    pub content_encoding: String,
    pub encoded_body_bytes: usize,
    pub decoded_body_bytes: usize,
    pub body_hash: String,
    pub schema_hash: String,
    pub schema: Vec<SchemaField>,
    /// `path -> sha256 hex`, one entry per path.
    pub identifiers: Vec<(String, String)>,
    pub response_status: Option<u16>,
    pub response_error_envelope: bool,
}

pub struct TransactionModel {
    pub request_at_unix_ms: u64,
    pub method: Seq<char>,
    pub target_hash: Seq<char>,
    pub content_encoding: Seq<char>,
    pub encoded_body_bytes: int,
    pub decoded_body_bytes: int,
    pub body_hash: Seq<char>,
    pub schema_hash: Seq<char>,
    pub schema: Seq<FieldModel>,
    pub identifiers: Seq<(Seq<char>, Seq<char>)>,
    pub response_status: Option<u16>,
    pub response_error_envelope: bool,
}

impl TransactionReport {
    pub open spec fn model(&self) -> TransactionModel {
        TransactionModel {
            request_at_unix_ms: self.request_at_unix_ms,
            method: self.method@,
            target_hash: self.target_hash@,
            content_encoding: self.content_encoding@,
            encoded_body_bytes: self.encoded_body_bytes as int,
            decoded_body_bytes: self.decoded_body_bytes as int,
            body_hash: self.body_hash@,
            schema_hash: self.schema_hash@,
            schema: field_models(self.schema@),
            identifiers: pair_models(self.identifiers@),
            response_status: self.response_status,
            response_error_envelope: self.response_error_envelope,
        }
    }
}

pub open spec fn transaction_models(t: Seq<TransactionReport>) -> Seq<TransactionModel> {
    t.map_values(|x: TransactionReport| x.model())
}

/// The reported content encoding: `identity` when the header is absent.
pub open spec fn reported_encoding(h: Option<Seq<char>>) -> Seq<char> {
    match h {
        Some(e) => safe_content_encoding_spec(e),
        None => "identity"@,
    }
}

/// The report on a request (and the response paired with it): `Ok(None)`
/// when the start line lacks a method and target or the body is not JSON.
#[verifier::opaque]
pub open spec fn request_report_spec(req: HttpMessageModel, resp: Option<HttpMessageModel>) -> Result<Option<TransactionModel>, CaptureError> {
    match (ws_token(req.start_line, 0, 0), ws_token(req.start_line, 0, 1)) {
        (Some(method), Some(target)) => match json_parse(req.body) {
            None => Ok(None),
            Some(v) => match schema_walk(v, "$"@, None, 0, Seq::empty()) {
                None => Err(CaptureError::SchemaLimitExceeded),
                Some(fields) => Ok(Some(TransactionModel {
                    request_at_unix_ms: req.timestamp_ms,
                    method: method,
                    target_hash: hex_lower(sha256(encode_utf8(target))),
                    content_encoding: reported_encoding(req.headers.content_encoding),
                    encoded_body_bytes: req.encoded_body_bytes,
                    decoded_body_bytes: req.body.len() as int,
                    body_hash: hex_lower(sha256(req.body)),
                    schema_hash: hex_lower(sha256(encode_utf8(schema_json(fields)))),
                    schema: fields,
                    identifiers: ident_walk(v, "$"@, 0, Seq::empty()),
                    response_status: match resp {
                        Some(r) => response_status_spec(r.start_line),
                        None => None,
                    },
                    response_error_envelope: match resp {
                        Some(r) => response_has_error_spec(r),
                        None => false,
                    },
                })),
            },
        },
        _ => Ok(None),
    }
}

pub fn request_report(request: &HttpMessage, response: Option<&HttpMessage>) -> (res: Result<Option<TransactionReport>, CaptureError>)
    ensures
        match (res, request_report_spec(request.model(), match response { Some(r) => Some(r.model()), None => None })) {
            (Ok(Some(t)), Ok(Some(m))) => t.model() == m,
            (Ok(None), Ok(None)) => true,
            (Err(e), Err(f)) => e == f,
            _ => false,
        },
        res matches Ok(Some(t)) ==> report_hash_forms(t.model()),
{
    proof { reveal(request_report_spec); }
    let method = match ws_token_exec(request.start_line.as_slice(), 0) {
        Some(m) => m,
        None => return Ok(None),
    };
    let target = match ws_token_exec(request.start_line.as_slice(), 1) {
        Some(t) => t,
        None => return Ok(None),
    };
    let value = match parse_json(request.body.as_slice()) {
        Some(v) => v,
        None => return Ok(None),
    };
    let mut schema: Vec<SchemaField> = Vec::new();
    let root = chars_of("$");
    proof { assert(field_models(schema@) =~= Seq::<FieldModel>::empty()); }
    match collect_schema(&value, root.as_slice(), None, 0, &mut schema) {
        Err(e) => return Err(e),
        Ok(()) => {},
    }
    let schema_text = crate::text::string_of(schema_json_exec(&schema).as_slice());
    let schema_hash = sha256_hex(bytes_of_str(schema_text.as_str()).as_slice());
    let mut identifiers: Vec<(String, String)> = Vec::new();
    proof { assert(pair_models(identifiers@) =~= Seq::<(Seq<char>, Seq<char>)>::empty()); }
    assert(hex_digest_values(pair_models(identifiers@)));
    collect_identifiers(&value, root.as_slice(), &mut identifiers, 0);
    let target_text = crate::text::string_of(target.as_slice());
    let target_hash = sha256_hex(bytes_of_str(target_text.as_str()).as_slice());
    let content_encoding = match &request.headers.content_encoding {
        Some(e) => safe_content_encoding(e.as_slice()),
        None => {
            let c = chars_of("identity");
            proof { reveal_strlit("identity"); }
            c
        },
    };
    let (response_status, response_error_envelope) = match response {
        Some(r) => (parse_response_status(r.start_line.as_slice()), response_has_error(r)),
        None => (None, false),
    };
    let body_hash = sha256_hex(request.body.as_slice());
    let report = TransactionReport {
        request_at_unix_ms: request.timestamp_ms,
        method: crate::text::string_of(method.as_slice()),
        target_hash,
        content_encoding: crate::text::string_of(content_encoding.as_slice()),
        encoded_body_bytes: request.encoded_body_bytes,
        decoded_body_bytes: request.body.len(),
        body_hash,
        schema_hash,
        schema,
        identifiers,
        response_status,
        response_error_envelope,
    };
    Ok(Some(report))
}

} // verus!
