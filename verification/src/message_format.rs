//! The shape rollout records must have for the model's message format, and
//! the repairs that are lossless: each record is checked, every deviation is
//! reported, and a repaired copy is kept when some repair changed it.
use vstd::prelude::*;
use vstd::utf8::encode_utf8;
use crate::json::{with_member, without_member, set_member, remove_member, member_copy, to_json_text, parse_json, Json, JsonValue, JsonNumber, json_get, get_str, kind_name, json_parse, json_text, entry_models, lemma_entry_models, has_str};
use crate::text::{chars_eq, decimal_text, chars_of, copy_chars, string_of, u64_text};
use crate::passive_capture::report::append;

verus! {

/// One deviation from the expected format.
pub struct FormatIssue {
    pub record_index: usize,
    pub path: String,
    pub expected: String,
    pub actual: String,
    pub repaired: bool,
}

pub struct IssueModel {
    pub record_index: usize,
    pub path: Seq<char>,
    pub expected: Seq<char>,
    pub actual: Seq<char>,
    pub repaired: bool,
}

impl FormatIssue {
    pub open spec fn model(&self) -> IssueModel {
        IssueModel {
            record_index: self.record_index,
            path: self.path@,
            expected: self.expected@,
            actual: self.actual@,
            repaired: self.repaired,
        }
    }
}

pub open spec fn issue_models(s: Seq<FormatIssue>) -> Seq<IssueModel> {
    s.map_values(|x: FormatIssue| x.model())
}

/// The JSON type of a member, or `missing`.
pub open spec fn kind_of(v: Option<Json>) -> Seq<char> {
    match v {
        None => "missing"@,
        Some(j) => kind_name(j),
    }
}

pub open spec fn iss(rec: usize, path: Seq<char>, expected: Seq<char>, actual: Option<Json>, repaired: bool) -> IssueModel {
    IssueModel { record_index: rec, path: path, expected: expected, actual: kind_of(actual), repaired: repaired }
}

/// A result of checking: the value as repaired and the issues found.
pub type Checked = (Json, Seq<IssueModel>);

pub open spec fn member(j: Json, key: Seq<char>) -> Option<Json> {
    json_get(j, key)
}

pub open spec fn has_key(j: Json, key: Seq<char>) -> bool {
    member(j, key) is Some
}

pub open spec fn opt_get_str(o: Option<Json>, key: Seq<char>) -> Option<Seq<char>> {
    match o {
        Some(j) => get_str(j, key),
        None => None,
    }
}

pub open spec fn opt_member(o: Option<Json>, key: Seq<char>) -> Option<Json> {
    match o {
        Some(j) => member(j, key),
        None => None,
    }
}

/// A task-complete event that carries a non-null error.
pub open spec fn is_task_error_spec(v: Json) -> bool {
    &&& get_str(v, "type"@) == Some("event_msg"@)
    &&& opt_get_str(member(v, "payload"@), "type"@) == Some("task_complete"@)
    &&& opt_member(member(v, "payload"@), "error"@) matches Some(e) && e != Json::Null
}

/// Pieces joined by newlines.
pub open spec fn join_lines(pieces: Seq<Seq<char>>) -> Seq<char>
    decreases pieces.len(),
{
    if pieces.len() == 0 {
        Seq::empty()
    } else if pieces.len() == 1 {
        pieces[0]
    } else {
        join_lines(pieces.drop_last()) + "\n"@ + pieces.last()
    }
}

/// The texts of the items of an array: strings as they are, objects by their
/// string `text` member; `None` at the first other item.
pub open spec fn item_texts(items: Seq<Json>) -> Option<Seq<Seq<char>>>
    decreases items.len(),
{
    if items.len() == 0 {
        Some(Seq::empty())
    } else {
        match item_texts(items.drop_last()) {
            None => None,
            Some(texts) => match items.last() {
                Json::Str(t) => Some(texts.push(t)),
                Json::Object(_) => match get_str(items.last(), "text"@) {
                    Some(t) => Some(texts.push(t)),
                    None => None,
                },
                _ => None,
            },
        }
    }
}

/// The plain text of a message given in another form.
pub open spec fn flatten_text(v: Json) -> Option<Seq<char>> {
    match v {
        Json::Str(t) => Some(t),
        Json::Array(items) => match item_texts(items) {
            Some(texts) => if texts.len() > 0 { Some(join_lines(texts)) } else { None },
            None => None,
        },
        Json::Object(_) => get_str(v, "text"@),
        _ => None,
    }
}

/// An array of one item flattens to that item's text: a string as it is, an
/// object by its string `text` member; an empty array has no text.
pub proof fn lemma_flatten_single_item(x: Json)
    ensures
        flatten_text(Json::Array(seq![x])) == match x {
            Json::Str(t) => Some(t),
            Json::Object(_) => get_str(x, "text"@),
            _ => None::<Seq<char>>,
        },
        flatten_text(Json::Array(Seq::empty())) is None,
{
    let items = seq![x];
    assert(items.drop_last() =~= Seq::<Json>::empty());
    assert(items.last() == x);
    match item_texts(items) {
        Some(texts) => {
            assert(texts.len() == 1);
        },
        None => {},
    }
}

/// Flattening an array loses no text: one more item at the end adds a
/// newline and that item's text to the flattened text of the others, and
/// the array has no text where either part has none.
pub proof fn lemma_flatten_appends_item(items: Seq<Json>, x: Json)
    requires
        items.len() > 0,
    ensures
        flatten_text(Json::Array(items.push(x))) == match (flatten_text(Json::Array(items)), flatten_text(Json::Array(seq![x]))) {
            (Some(a), Some(t)) => Some(a + "\n"@ + t),
            _ => None::<Seq<char>>,
        },
{
    lemma_flatten_single_item(x);
    let all = items.push(x);
    assert(all.drop_last() =~= items);
    assert(all.last() == x);
    lemma_item_texts_len(items);
    match item_texts(items) {
        None => {},
        Some(texts) => {
            match item_texts(all) {
                None => {},
                Some(ts) => {
                    let t = ts.last();
                    assert(ts =~= texts.push(t));
                    assert(ts.drop_last() =~= texts);
                },
            }
        },
    }
}

proof fn lemma_item_texts_len(items: Seq<Json>)
    ensures
        item_texts(items) matches Some(texts) ==> texts.len() == items.len(),
    decreases items.len(),
{
    if items.len() > 0 {
        lemma_item_texts_len(items.drop_last());
    }
}

/// `{"text": text, "type": item_type}`.
pub open spec fn text_item(item_type: Seq<char>, text: Seq<char>) -> Json {
    Json::Object(seq![("text"@, Json::Str(text)), ("type"@, Json::Str(item_type))])
}

/// The `type` of a content item: `Ok` to go on with the text check, `Err`
/// when the check of this item ends here.
#[verifier::opaque]
pub open spec fn item_type_stage(item: Json, rec: usize, path: Seq<char>, expected: Seq<char>) -> Result<Checked, Checked> {
    let tpath = path + ".type"@;
    let fixed = with_member(item, "type"@, Json::Str(expected));
    match get_str(item, "type"@) {
        None => if get_str(item, "text"@) is Some {
            Ok((fixed, seq![iss(rec, tpath, expected, None, true)]))
        } else {
            Err((item, seq![iss(rec, tpath, expected, member(item, "type"@), false)]))
        },
        Some(t) => if t == "text"@ || (t == "input_text"@ && expected == "output_text"@) || (t == "output_text"@
            && expected == "input_text"@) {
            Ok((fixed, seq![iss(rec, tpath, expected, member(item, "type"@), true)]))
        } else if t == "input_image"@ && expected == "input_text"@ {
            Err((item, if get_str(item, "image_url"@) is None {
                seq![iss(rec, path + ".image_url"@, "string"@, member(item, "image_url"@), false)]
            } else {
                Seq::empty()
            }))
        } else if t == "refusal"@ && expected == "output_text"@ {
            Err((item, if get_str(item, "refusal"@) is None {
                seq![iss(rec, path + ".refusal"@, "string"@, member(item, "refusal"@), false)]
            } else {
                Seq::empty()
            }))
        } else if t == expected {
            Ok((item, Seq::empty()))
        } else {
            Err((item, seq![iss(rec, tpath, expected, member(item, "type"@), false)]))
        },
    }
}

/// The `text` of a content item: a string `content` moves to `text`.
#[verifier::opaque]
pub open spec fn item_text_stage(item: Json, rec: usize, path: Seq<char>) -> Checked {
    if get_str(item, "text"@) is None {
        match get_str(item, "content"@) {
            Some(text) => (
                with_member(without_member(item, "content"@), "text"@, Json::Str(text)),
                seq![iss(rec, path + ".text"@, "string"@, member(item, "text"@), true)],
            ),
            None => (item, seq![iss(rec, path + ".text"@, "string"@, member(item, "text"@), false)]),
        }
    } else {
        (item, Seq::empty())
    }
}

/// One content item: a string becomes a typed text item; an object gets
/// the text type the role expects and its text in `text`.
pub open spec fn content_item_spec(item: Json, rec: usize, path: Seq<char>, expected: Seq<char>) -> Checked {
    match item {
        Json::Str(t) => (text_item(expected, t), seq![iss(rec, path, "typed content object"@, Some(item), true)]),
        Json::Object(_) => match item_type_stage(item, rec, path, expected) {
            Err(done) => done,
            Ok((typed, first)) => {
                let (texted, second) = item_text_stage(typed, rec, path);
                (texted, first + second)
            },
        },
        _ => (item, seq![iss(rec, path, "typed content object"@, Some(item), false)]),
    }
}

pub open spec fn index_path(path: Seq<char>, i: int) -> Seq<char> {
    path + "["@ + decimal_text(i as nat) + "]"@
}

/// Each content item in turn.
pub open spec fn content_items_spec(items: Seq<Json>, rec: usize, path: Seq<char>, expected: Seq<char>) -> (Seq<Json>, Seq<IssueModel>)
    decreases items.len(),
{
    if items.len() == 0 {
        (Seq::empty(), Seq::empty())
    } else {
        let (done, issues) = content_items_spec(items.drop_last(), rec, path, expected);
        let (item, more) = content_item_spec(items.last(), rec, index_path(path, items.len() - 1), expected);
        (done.push(item), issues + more)
    }
}

/// A content container: a string or an object becomes a one-item array,
/// which must not be empty; then each item is checked.
#[verifier::opaque]
pub open spec fn container_spec(content: Json, rec: usize, path: Seq<char>, expected: Seq<char>) -> Checked {
    let replacement = match content {
        Json::Str(t) => Some(Json::Array(seq![text_item(expected, t)])),
        Json::Object(_) => Some(Json::Array(seq![content])),
        _ => None,
    };
    let wrapped = match replacement { Some(r) => r, None => content };
    let first = if content is Array {
        Seq::empty()
    } else {
        seq![iss(rec, path, "non-empty content array"@, Some(content), replacement is Some)]
    };
    match wrapped {
        Json::Array(items) => if items.len() == 0 {
            (wrapped, first.push(iss(rec, path, "non-empty content array"@, Some(wrapped), false)))
        } else {
            let (fixed, more) = content_items_spec(items, rec, path, expected);
            (Json::Array(fixed), first + more)
        },
        _ => (wrapped, first),
    }
}

pub open spec fn known_role(role: Seq<char>) -> bool {
    role == "assistant"@ || role == "user"@ || role == "developer"@ || role == "system"@
}

/// The `type` of a message: `message`, added when absent but `role` and
/// `content` are there.
#[verifier::opaque]
pub open spec fn message_type_stage(message: Json, rec: usize, path: Seq<char>) -> Result<Checked, Checked> {
    if get_str(message, "type"@) == Some("message"@) {
        Ok((message, Seq::empty()))
    } else if get_str(message, "type"@) is None && has_key(message, "role"@) && has_key(message, "content"@) {
        Ok((with_member(message, "type"@, Json::Str("message"@)), seq![iss(rec, path + ".type"@, "message"@, member(message, "type"@), true)]))
    } else {
        Err((message, seq![iss(rec, path + ".type"@, "message"@, member(message, "type"@), false)]))
    }
}

/// A known role, and content checked for the text type that role expects.
#[verifier::opaque]
pub open spec fn message_body_stage(m: Json, rec: usize, path: Seq<char>) -> Checked {
    match get_str(m, "role"@) {
        Some(role) if known_role(role) => {
            let expected = if role == "assistant"@ { "output_text"@ } else { "input_text"@ };
            match member(m, "content"@) {
                None => (m, seq![iss(rec, path + ".content"@, "non-empty content array"@, None, false)]),
                Some(content) => {
                    let (c, more) = container_spec(content, rec, path + ".content"@, expected);
                    (with_member(m, "content"@, c), more)
                },
            }
        },
        _ => (m, seq![iss(rec, path + ".role"@, "assistant, user, developer, or system"@, member(m, "role"@), false)]),
    }
}

/// A message object: its type, role and content.
pub open spec fn message_spec(message: Json, rec: usize, path: Seq<char>) -> Checked {
    if !(message is Object) {
        (message, seq![iss(rec, path, "message object"@, Some(message), false)])
    } else {
        match message_type_stage(message, rec, path) {
            Err(done) => done,
            Ok((m, first)) => {
                let (r, second) = message_body_stage(m, rec, path);
                (r, first + second)
            },
        }
    }
}

/// Each message of a replacement history in turn.
pub open spec fn history_messages_spec(messages: Seq<Json>, rec: usize) -> (Seq<Json>, Seq<IssueModel>)
    decreases messages.len(),
{
    if messages.len() == 0 {
        (Seq::empty(), Seq::empty())
    } else {
        let (done, issues) = history_messages_spec(messages.drop_last(), rec);
        let (m, more) = message_spec(messages.last(), rec, index_path("payload.replacement_history"@, messages.len() - 1));
        (done.push(m), issues + more)
    }
}

/// The replacement history as an array: a JSON string holding an array or
/// an object, or a lone object, is unpacked.
#[verifier::opaque]
pub open spec fn history_container_spec(history: Json, rec: usize) -> Checked {
    if history is Array {
        (history, Seq::empty())
    } else {
        let replacement = match history {
            Json::Str(encoded) => match json_parse(encode_utf8(encoded)) {
                Some(v) => if v is Array {
                    Some(v)
                } else if v is Object {
                    Some(Json::Array(seq![v]))
                } else {
                    None
                },
                None => None,
            },
            Json::Object(_) => Some(Json::Array(seq![history])),
            _ => None,
        };
        (
            match replacement { Some(r) => r, None => history },
            seq![iss(rec, "payload.replacement_history"@, "array of message objects"@, Some(history), replacement is Some)],
        )
    }
}

/// The `message` member of a payload must be a string; other forms with a
/// plain text are flattened.
#[verifier::opaque]
pub open spec fn message_text_spec(payload: Json, rec: usize) -> Checked {
    match member(payload, "message"@) {
        None => (payload, seq![iss(rec, "payload.message"@, "string"@, None, false)]),
        Some(m) => if m is Str {
            (payload, Seq::empty())
        } else {
            (
                match flatten_text(m) { Some(t) => with_member(payload, "message"@, Json::Str(t)), None => payload },
                seq![iss(rec, "payload.message"@, "string"@, Some(m), flatten_text(m) is Some)],
            )
        },
    }
}

/// A compacted record: an object payload with a string message and a
/// non-empty replacement history of messages.
#[verifier::opaque]
pub open spec fn compacted_spec(value: Json, rec: usize) -> Checked {
    match member(value, "payload"@) {
        Some(p) if p is Object => {
            let (p1, first) = message_text_spec(p, rec);
            match member(p1, "replacement_history"@) {
                None => (
                    with_member(value, "payload"@, p1),
                    first.push(iss(rec, "payload.replacement_history"@, "array of message objects"@, None, false)),
                ),
                Some(h) => {
                    let (h1, second) = history_container_spec(h, rec);
                    match h1 {
                        Json::Array(messages) => if messages.len() == 0 {
                            (
                                with_member(value, "payload"@, with_member(p1, "replacement_history"@, h1)),
                                first + second.push(iss(rec, "payload.replacement_history"@, "non-empty array of message objects"@, Some(h1), false)),
                            )
                        } else {
                            let (ms, third) = history_messages_spec(messages, rec);
                            (
                                with_member(value, "payload"@, with_member(p1, "replacement_history"@, Json::Array(ms))),
                                first + second + third,
                            )
                        },
                        _ => (with_member(value, "payload"@, with_member(p1, "replacement_history"@, h1)), first + second),
                    }
                },
            }
        },
        _ => (value, seq![iss(rec, "payload"@, "object"@, member(value, "payload"@), false)]),
    }
}

/// A member that must be a non-empty string.
#[verifier::opaque]
pub open spec fn nonempty_string_spec(payload: Json, key: Seq<char>, rec: usize, path: Seq<char>) -> Seq<IssueModel> {
    match get_str(payload, key) {
        Some(s) => if s.len() > 0 { Seq::empty() } else { seq![iss(rec, path, "non-empty string"@, member(payload, key), false)] },
        None => seq![iss(rec, path, "non-empty string"@, member(payload, key), false)],
    }
}

/// A function call: call id and name, and arguments as JSON text.
#[verifier::opaque]
pub open spec fn function_call_spec(payload: Json, rec: usize) -> Checked {
    if !(payload is Object) {
        (payload, Seq::empty())
    } else {
        let first = nonempty_string_spec(payload, "call_id"@, rec, "payload.call_id"@) + nonempty_string_spec(payload, "name"@, rec, "payload.name"@);
        match member(payload, "arguments"@) {
            None => (payload, first.push(iss(rec, "payload.arguments"@, "JSON encoded as a string"@, None, false))),
            Some(a) => if a is Str {
                (payload, first)
            } else {
                (
                    with_member(payload, "arguments"@, Json::Str(json_text(a))),
                    first.push(iss(rec, "payload.arguments"@, "JSON encoded as a string"@, Some(a), true)),
                )
            },
        }
    }
}

/// A tool output: call id, and output as a string or typed content.
#[verifier::opaque]
pub open spec fn tool_output_spec(payload: Json, rec: usize) -> Checked {
    if !(payload is Object) {
        (payload, Seq::empty())
    } else {
        let first = nonempty_string_spec(payload, "call_id"@, rec, "payload.call_id"@);
        match member(payload, "output"@) {
            None => (payload, first.push(iss(rec, "payload.output"@, "string or typed content array"@, None, false))),
            Some(o) => if o is Str {
                (payload, first)
            } else if o is Array || (o is Object && (has_key(o, "type"@) || has_key(o, "text"@))) {
                let (o1, more) = container_spec(o, rec, "payload.output"@, "input_text"@);
                (with_member(payload, "output"@, o1), first + more)
            } else {
                (
                    with_member(payload, "output"@, Json::Str(json_text(o))),
                    first.push(iss(rec, "payload.output"@, "string or typed content array"@, Some(o), true)),
                )
            },
        }
    }
}

/// A response item: its payload checked by payload type; `false` when the
/// type is not one that is checked.
#[verifier::opaque]
pub open spec fn response_item_spec(value: Json, rec: usize) -> (Json, Seq<IssueModel>, bool) {
    match member(value, "payload"@) {
        None => (value, seq![iss(rec, "payload"@, "object"@, None, false)], true),
        Some(p) => match get_str(p, "type"@) {
            Some(t) => if t == "message"@ {
                let (p1, is) = message_spec(p, rec, "payload"@);
                (with_member(value, "payload"@, p1), is, true)
            } else if t == "function_call"@ {
                let (p1, is) = function_call_spec(p, rec);
                (with_member(value, "payload"@, p1), is, true)
            } else if t == "function_call_output"@ || t == "custom_tool_call_output"@ {
                let (p1, is) = tool_output_spec(p, rec);
                (with_member(value, "payload"@, p1), is, true)
            } else {
                (value, Seq::empty(), false)
            },
            None => (value, Seq::empty(), false),
        },
    }
}

/// A list member of a user message that must be an array; `null` becomes
/// an empty array.
#[verifier::opaque]
pub open spec fn list_field_spec(payload: Json, field: Seq<char>, rec: usize) -> Checked {
    match member(payload, field) {
        Some(v) => if v is Array {
            (payload, Seq::empty())
        } else {
            (
                if v == Json::Null { with_member(payload, field, Json::Array(Seq::empty())) } else { payload },
                seq![iss(rec, "payload."@ + field, "array"@, Some(v), v == Json::Null)],
            )
        },
        None => (payload, Seq::empty()),
    }
}

/// A user message event: message text and the image and element lists.
#[verifier::opaque]
pub open spec fn user_message_spec(value: Json, rec: usize) -> Checked {
    match member(value, "payload"@) {
        Some(p) if p is Object => {
            let (p1, a) = message_text_spec(p, rec);
            let (p2, b) = list_field_spec(p1, "images"@, rec);
            let (p3, c) = list_field_spec(p2, "local_images"@, rec);
            let (p4, d) = list_field_spec(p3, "text_elements"@, rec);
            (with_member(value, "payload"@, p4), a + b + c + d)
        },
        _ => (value, Seq::empty()),
    }
}

/// One record: compacted records, response items and user message events
/// are checked (`true`); others are passed over.
#[verifier::opaque]
pub open spec fn record_spec(value: Json, rec: usize) -> (Json, Seq<IssueModel>, bool) {
    match get_str(value, "type"@) {
        Some(t) => if t == "compacted"@ {
            let (v, is) = compacted_spec(value, rec);
            (v, is, true)
        } else if t == "response_item"@ {
            response_item_spec(value, rec)
        } else if t == "event_msg"@ && opt_get_str(member(value, "payload"@), "type"@) == Some("user_message"@) {
            let (v, is) = user_message_spec(value, rec);
            (v, is, true)
        } else {
            (value, Seq::empty(), false)
        },
        None => (value, Seq::empty(), false),
    }
}


proof fn lemma_item_quiet(item: Json, rec: usize, path: Seq<char>, expected: Seq<char>)
    ensures
        content_item_spec(item, rec, path, expected).1.len() == 0 ==> content_item_spec(item, rec, path, expected).0 == item,
{
    reveal(item_type_stage);
    reveal(item_text_stage);
}

proof fn lemma_items_quiet(items: Seq<Json>, rec: usize, path: Seq<char>, expected: Seq<char>)
    ensures
        content_items_spec(items, rec, path, expected).1.len() == 0 ==> content_items_spec(items, rec, path, expected).0 == items,
    decreases items.len(),
{
    if items.len() > 0 {
        lemma_items_quiet(items.drop_last(), rec, path, expected);
        lemma_item_quiet(items.last(), rec, index_path(path, items.len() - 1), expected);
        let (done, issues) = content_items_spec(items.drop_last(), rec, path, expected);
        let (item, more) = content_item_spec(items.last(), rec, index_path(path, items.len() - 1), expected);
        if (issues + more).len() == 0 {
            assert(done.push(item) =~= items);
        }
    }
}

proof fn lemma_container_quiet(content: Json, rec: usize, path: Seq<char>, expected: Seq<char>)
    ensures
        container_spec(content, rec, path, expected).1.len() == 0 ==> container_spec(content, rec, path, expected).0 == content,
{
    reveal(container_spec);
    if let Json::Array(items) = content {
        lemma_items_quiet(items, rec, path, expected);
    }
}

proof fn lemma_message_quiet(message: Json, rec: usize, path: Seq<char>)
    ensures
        message_spec(message, rec, path).1.len() == 0 ==> message_spec(message, rec, path).0 == message,
{
    reveal(message_type_stage);
    reveal(message_body_stage);
    if message is Object && get_str(message, "type"@) == Some("message"@) {
        if let Some(role) = get_str(message, "role"@) {
            if known_role(role) {
                let expected = if role == "assistant"@ { "output_text"@ } else { "input_text"@ };
                if let Some(content) = member(message, "content"@) {
                    lemma_container_quiet(content, rec, path + ".content"@, expected);
                    crate::json::lemma_with_member_same(message, "content"@);
                }
            }
        }
    }
}

proof fn lemma_history_quiet(messages: Seq<Json>, rec: usize)
    ensures
        history_messages_spec(messages, rec).1.len() == 0 ==> history_messages_spec(messages, rec).0 == messages,
    decreases messages.len(),
{
    if messages.len() > 0 {
        lemma_history_quiet(messages.drop_last(), rec);
        lemma_message_quiet(messages.last(), rec, index_path("payload.replacement_history"@, messages.len() - 1));
        let (done, issues) = history_messages_spec(messages.drop_last(), rec);
        let (m, more) = message_spec(messages.last(), rec, index_path("payload.replacement_history"@, messages.len() - 1));
        if (issues + more).len() == 0 {
            assert(done.push(m) =~= messages);
        }
    }
}

proof fn lemma_compacted_quiet(value: Json, rec: usize)
    ensures
        compacted_spec(value, rec).1.len() == 0 ==> compacted_spec(value, rec).0 == value,
{
    reveal(compacted_spec);
    reveal(message_text_spec);
    reveal(history_container_spec);
    if let Some(p) = member(value, "payload"@) {
        if p is Object {
            let (p1, first) = message_text_spec(p, rec);
            if first.len() == 0 {
                assert(p1 == p);
                if let Some(h) = member(p1, "replacement_history"@) {
                    let (h1, second) = history_container_spec(h, rec);
                    if let Json::Array(messages) = h1 {
                        lemma_history_quiet(messages, rec);
                        let (ms, third) = history_messages_spec(messages, rec);
                        if second.len() == 0 && third.len() == 0 && messages.len() > 0 {
                            assert(h1 == h);
                            assert(Json::Array(ms) == h);
                            crate::json::lemma_with_member_same(p1, "replacement_history"@);
                            crate::json::lemma_with_member_same(value, "payload"@);
                        }
                    }
                }
            }
        }
    }
}

proof fn lemma_response_item_quiet(value: Json, rec: usize)
    ensures
        response_item_spec(value, rec).1.len() == 0 ==> response_item_spec(value, rec).0 == value,
{
    reveal(response_item_spec);
    reveal(function_call_spec);
    reveal(tool_output_spec);
    reveal(nonempty_string_spec);
    if let Some(p) = member(value, "payload"@) {
        if let Some(t) = get_str(p, "type"@) {
            if t == "message"@ {
                lemma_message_quiet(p, rec, "payload"@);
                if message_spec(p, rec, "payload"@).1.len() == 0 {
                    crate::json::lemma_with_member_same(value, "payload"@);
                }
            } else if t == "function_call"@ {
                if function_call_spec(p, rec).1.len() == 0 {
                    assert(function_call_spec(p, rec).0 == p);
                    crate::json::lemma_with_member_same(value, "payload"@);
                }
            } else if t == "function_call_output"@ || t == "custom_tool_call_output"@ {
                if let Some(o) = member(p, "output"@) {
                    lemma_container_quiet(o, rec, "payload.output"@, "input_text"@);
                    if p is Object {
                        crate::json::lemma_with_member_same(p, "output"@);
                    }
                }
                if tool_output_spec(p, rec).1.len() == 0 {
                    assert(tool_output_spec(p, rec).0 == p);
                    crate::json::lemma_with_member_same(value, "payload"@);
                }
            }
        }
    }
}

proof fn lemma_user_message_quiet(value: Json, rec: usize)
    ensures
        user_message_spec(value, rec).1.len() == 0 ==> user_message_spec(value, rec).0 == value,
{
    reveal(user_message_spec);
    reveal(message_text_spec);
    reveal(list_field_spec);
    if let Some(p) = member(value, "payload"@) {
        if p is Object && user_message_spec(value, rec).1.len() == 0 {
            crate::json::lemma_with_member_same(value, "payload"@);
        }
    }
}

/// Nothing is changed without being reported: a record for which the check
/// reports no issue comes back exactly as it was, so every repair shows up
/// as an issue.
pub proof fn lemma_unreported_records_stay(value: Json, rec: usize)
    requires
        record_spec(value, rec).1.len() == 0,
    ensures
        record_spec(value, rec).0 == value,
{
    reveal(record_spec);
    lemma_compacted_quiet(value, rec);
    lemma_response_item_quiet(value, rec);
    lemma_user_message_quiet(value, rec);
}

pub open spec fn all_repaired(issues: Seq<IssueModel>) -> bool {
    forall|i: int| 0 <= i < issues.len() ==> #[trigger] issues[i].repaired
}

proof fn lemma_all_repaired_concat(a: Seq<IssueModel>, b: Seq<IssueModel>)
    ensures
        all_repaired(a + b) ==> all_repaired(a) && all_repaired(b),
{
    if all_repaired(a + b) {
        assert forall|i: int| 0 <= i < a.len() implies #[trigger] a[i].repaired by {
            assert((a + b)[i] == a[i]);
        }
        assert forall|i: int| 0 <= i < b.len() implies #[trigger] b[i].repaired by {
            assert((a + b)[a.len() + i] == b[i]);
        }
    }
}

proof fn lemma_keys_differ()
    ensures
        "text"@ != "type"@,
        "content"@ != "type"@,
        "content"@ != "text"@,
        "role"@ != "type"@,
        "role"@ != "content"@,
        "arguments"@ != "type"@,
        "arguments"@ != "call_id"@,
        "arguments"@ != "name"@,
        "output"@ != "type"@,
        "output"@ != "call_id"@,
        "message"@ != "replacement_history"@,
        "message"@ != "images"@,
        "message"@ != "local_images"@,
        "message"@ != "text_elements"@,
        "message"@ != "type"@,
        "images"@ != "local_images"@,
        "images"@ != "text_elements"@,
        "local_images"@ != "text_elements"@,
        "images"@ != "type"@,
        "local_images"@ != "type"@,
        "text_elements"@ != "type"@,
        "replacement_history"@ != "type"@,
        "payload"@ != "type"@,
        "input_text"@ != "text"@,
        "output_text"@ != "text"@,
        "input_text"@ != "input_image"@,
        "output_text"@ != "input_text"@,
        "output_text"@ != "input_image"@,
        "input_text"@ != "refusal"@,
        "output_text"@ != "refusal"@,
{
    reveal_strlit("text");
    reveal_strlit("type");
    reveal_strlit("content");
    reveal_strlit("role");
    reveal_strlit("arguments");
    reveal_strlit("call_id");
    reveal_strlit("name");
    reveal_strlit("output");
    reveal_strlit("message");
    reveal_strlit("replacement_history");
    reveal_strlit("images");
    reveal_strlit("local_images");
    reveal_strlit("text_elements");
    reveal_strlit("payload");
    reveal_strlit("input_text");
    reveal_strlit("output_text");
    reveal_strlit("input_image");
    reveal_strlit("refusal");
    assert("message"@[0] != "replacement_history"@[0]);
    assert("message"@[0] != "text_elements"@[0]);
    assert("text"@[1] != "type"@[1]);
    assert("role"@[0] != "type"@[0]);
    assert("output"@[0] != "type"@[0]);
    assert("output"@[0] != "call_id"@[0]);
    assert("arguments"@[0] != "name"@[0]);
    assert("images"@[0] != "local_images"@[0]);
    assert("input_text"@[6] != "input_image"@[6]);
    assert("output_text"@[0] != "input_text"@[0]);
}

pub open spec fn text_type(expected: Seq<char>) -> bool {
    expected == "input_text"@ || expected == "output_text"@
}

proof fn lemma_text_item_reads(expected: Seq<char>, t: Seq<char>)
    ensures
        text_item(expected, t) is Object,
        get_str(text_item(expected, t), "type"@) == Some(expected),
        get_str(text_item(expected, t), "text"@) == Some(t),
{
    lemma_keys_differ();
    let e = seq![("text"@, Json::Str(t)), ("type"@, Json::Str(expected))];
    crate::json::lemma_key_index_is(e, "type"@, 1);
    crate::json::lemma_key_index_is(e, "text"@, 0);
}

/// A content item whose issues were all repaired checks clean afterwards.
proof fn lemma_item_complete(item: Json, rec: usize, path: Seq<char>, expected: Seq<char>)
    requires
        text_type(expected),
        all_repaired(content_item_spec(item, rec, path, expected).1),
    ensures
        content_item_spec(content_item_spec(item, rec, path, expected).0, rec, path, expected).1.len() == 0,
{
    reveal(item_type_stage);
    reveal(item_text_stage);
    lemma_keys_differ();
    let out = content_item_spec(item, rec, path, expected).0;
    match item {
        Json::Str(t) => {
            lemma_text_item_reads(expected, t);
            let o = text_item(expected, t);
            assert(item_type_stage(o, rec, path, expected) == Ok::<Checked, Checked>((o, Seq::empty())));
            assert(item_text_stage(o, rec, path) == (o, Seq::<IssueModel>::empty()));
            assert(content_item_spec(o, rec, path, expected).1 =~= Seq::<IssueModel>::empty());
            assert(out == o);
        },
        Json::Object(_) => {
            match item_type_stage(item, rec, path, expected) {
                Err(done) => {
                    assert(out == item);
                    assert(done.1.len() > 0 ==> done.1[0].repaired);
                },
                Ok((typed, first)) => {
                    let (texted, second) = item_text_stage(typed, rec, path);
                    lemma_all_repaired_concat(first, second);
                    crate::json::lemma_member_edits_keep_objects(item, "type"@, Json::Str(expected));
                    crate::json::lemma_with_member_reads_back(item, "type"@, Json::Str(expected));
                    crate::json::lemma_with_member_keeps_others(item, "type"@, Json::Str(expected), "text"@);
                    assert(typed is Object);
                    assert(get_str(typed, "type"@) == Some(expected));
                    if get_str(typed, "text"@) is None && get_str(typed, "content"@) is Some {
                        let text = get_str(typed, "content"@).unwrap();
                        let stripped = without_member(typed, "content"@);
                        crate::json::lemma_member_edits_keep_objects(typed, "content"@, Json::Null);
                        crate::json::lemma_without_member_keeps_others(typed, "content"@, "type"@);
                        crate::json::lemma_member_edits_keep_objects(stripped, "text"@, Json::Str(text));
                        crate::json::lemma_with_member_keeps_others(stripped, "text"@, Json::Str(text), "type"@);
                        crate::json::lemma_with_member_reads_back(stripped, "text"@, Json::Str(text));
                    }
                    assert(second.len() > 0 ==> second[0].repaired);
                    assert(texted is Object);
                    assert(get_str(texted, "type"@) == Some(expected));
                    assert(get_str(texted, "text"@) is Some);
                },
            }
        },
        _ => {
            assert(content_item_spec(item, rec, path, expected).1[0].repaired);
        },
    }
}

proof fn lemma_items_complete(items: Seq<Json>, rec: usize, path: Seq<char>, expected: Seq<char>)
    requires
        text_type(expected),
        all_repaired(content_items_spec(items, rec, path, expected).1),
    ensures
        content_items_spec(items, rec, path, expected).0.len() == items.len(),
        content_items_spec(content_items_spec(items, rec, path, expected).0, rec, path, expected).1.len() == 0,
    decreases items.len(),
{
    if items.len() > 0 {
        let (done, issues) = content_items_spec(items.drop_last(), rec, path, expected);
        let (item, more) = content_item_spec(items.last(), rec, index_path(path, items.len() - 1), expected);
        lemma_all_repaired_concat(issues, more);
        lemma_items_complete(items.drop_last(), rec, path, expected);
        lemma_item_complete(items.last(), rec, index_path(path, items.len() - 1), expected);
        let fixed = done.push(item);
        assert(fixed.drop_last() =~= done);
        assert(fixed.last() == item);
    }
}

proof fn lemma_container_complete(content: Json, rec: usize, path: Seq<char>, expected: Seq<char>)
    requires
        text_type(expected),
        all_repaired(container_spec(content, rec, path, expected).1),
    ensures
        container_spec(content, rec, path, expected).0 is Array,
        container_spec(container_spec(content, rec, path, expected).0, rec, path, expected).1.len() == 0,
{
    reveal(container_spec);
    let replacement = match content {
        Json::Str(t) => Some(Json::Array(seq![text_item(expected, t)])),
        Json::Object(_) => Some(Json::Array(seq![content])),
        _ => None,
    };
    let wrapped = match replacement { Some(r) => r, None => content };
    let first = if content is Array {
        Seq::<IssueModel>::empty()
    } else {
        seq![iss(rec, path, "non-empty content array"@, Some(content), replacement is Some)]
    };
    assert(first.len() > 0 ==> first[0] == container_spec(content, rec, path, expected).1[0]);
    match wrapped {
        Json::Array(items) => {
            if items.len() == 0 {
                let all = container_spec(content, rec, path, expected).1;
                assert(all[all.len() - 1].repaired);
            } else {
                let (fixed, more) = content_items_spec(items, rec, path, expected);
                lemma_all_repaired_concat(first, more);
                lemma_items_complete(items, rec, path, expected);
                assert(container_spec(Json::Array(fixed), rec, path, expected).1 =~= Seq::<IssueModel>::empty() + content_items_spec(fixed, rec, path, expected).1);
            }
        },
        _ => {
            assert(container_spec(content, rec, path, expected).1[0].repaired);
        },
    }
}

proof fn lemma_message_complete(message: Json, rec: usize, path: Seq<char>)
    requires
        all_repaired(message_spec(message, rec, path).1),
    ensures
        message_spec(message, rec, path).0 is Object,
        get_str(message_spec(message, rec, path).0, "type"@) == get_str(message, "type"@)
            || get_str(message_spec(message, rec, path).0, "type"@) == Some("message"@),
        message_spec(message_spec(message, rec, path).0, rec, path).1.len() == 0,
{
    reveal(message_type_stage);
    reveal(message_body_stage);
    lemma_keys_differ();
    if !(message is Object) {
        assert(message_spec(message, rec, path).1[0].repaired);
    } else {
        match message_type_stage(message, rec, path) {
            Err(done) => {
                assert(done.1[0].repaired);
            },
            Ok((m, first)) => {
                let (r, second) = message_body_stage(m, rec, path);
                lemma_all_repaired_concat(first, second);
                let ty = Json::Str("message"@);
                crate::json::lemma_member_edits_keep_objects(message, "type"@, ty);
                crate::json::lemma_with_member_reads_back(message, "type"@, ty);
                crate::json::lemma_with_member_keeps_others(message, "type"@, ty, "role"@);
                crate::json::lemma_with_member_keeps_others(message, "type"@, ty, "content"@);
                assert(m is Object);
                assert(get_str(m, "type"@) == Some("message"@));
                match get_str(m, "role"@) {
                    Some(role) => {
                        if known_role(role) {
                            let expected = if role == "assistant"@ { "output_text"@ } else { "input_text"@ };
                            match member(m, "content"@) {
                                None => {
                                    assert(second[0].repaired);
                                },
                                Some(content) => {
                                    let (c, more) = container_spec(content, rec, path + ".content"@, expected);
                                    lemma_container_complete(content, rec, path + ".content"@, expected);
                                    crate::json::lemma_member_edits_keep_objects(m, "content"@, c);
                                    crate::json::lemma_with_member_reads_back(m, "content"@, c);
                                    crate::json::lemma_with_member_keeps_others(m, "content"@, c, "type"@);
                                    crate::json::lemma_with_member_keeps_others(m, "content"@, c, "role"@);
                                    assert(r == with_member(m, "content"@, c));
                                    let c2 = container_spec(c, rec, path + ".content"@, expected);
                                    assert(message_type_stage(r, rec, path) == Ok::<Checked, Checked>((r, Seq::empty())));
                                    assert(message_body_stage(r, rec, path).1 == c2.1);
                                    assert(message_spec(r, rec, path).1 =~= Seq::<IssueModel>::empty() + c2.1);
                                },
                            }
                        } else {
                            assert(second[0].repaired);
                        }
                    },
                    None => {
                        assert(second[0].repaired);
                    },
                }
            },
        }
    }
}

proof fn lemma_history_complete(messages: Seq<Json>, rec: usize)
    requires
        all_repaired(history_messages_spec(messages, rec).1),
    ensures
        history_messages_spec(messages, rec).0.len() == messages.len(),
        history_messages_spec(history_messages_spec(messages, rec).0, rec).1.len() == 0,
    decreases messages.len(),
{
    if messages.len() > 0 {
        let (done, issues) = history_messages_spec(messages.drop_last(), rec);
        let path = index_path("payload.replacement_history"@, messages.len() - 1);
        let (m, more) = message_spec(messages.last(), rec, path);
        lemma_all_repaired_concat(issues, more);
        lemma_history_complete(messages.drop_last(), rec);
        lemma_message_complete(messages.last(), rec, path);
        let fixed = done.push(m);
        assert(fixed.drop_last() =~= done);
        assert(fixed.last() == m);
    }
}

proof fn lemma_message_text_complete(payload: Json, rec: usize)
    requires
        payload is Object,
        all_repaired(message_text_spec(payload, rec).1),
    ensures
        message_text_spec(payload, rec).0 is Object,
        member(message_text_spec(payload, rec).0, "message"@) matches Some(m) && m is Str,
        forall|k: Seq<char>| k != "message"@ ==> #[trigger] json_get(message_text_spec(payload, rec).0, k) == json_get(payload, k),
{
    reveal(message_text_spec);
    match member(payload, "message"@) {
        None => {
            assert(message_text_spec(payload, rec).1[0].repaired);
        },
        Some(m) => {
            if !(m is Str) {
                assert(message_text_spec(payload, rec).1[0].repaired);
                let t = flatten_text(m).unwrap();
                crate::json::lemma_member_edits_keep_objects(payload, "message"@, Json::Str(t));
                crate::json::lemma_with_member_reads_back(payload, "message"@, Json::Str(t));
                assert forall|k: Seq<char>| k != "message"@ implies #[trigger] json_get(message_text_spec(payload, rec).0, k) == json_get(payload, k) by {
                    crate::json::lemma_with_member_keeps_others(payload, "message"@, Json::Str(t), k);
                }
            }
        },
    }
}

proof fn lemma_message_text_quiet_on_strings(payload: Json, rec: usize)
    requires
        member(payload, "message"@) matches Some(m) && m is Str,
    ensures
        message_text_spec(payload, rec) == (payload, Seq::<IssueModel>::empty()),
{
    reveal(message_text_spec);
}

proof fn lemma_compacted_complete(value: Json, rec: usize)
    requires
        all_repaired(compacted_spec(value, rec).1),
    ensures
        compacted_spec(compacted_spec(value, rec).0, rec).1.len() == 0,
        forall|k: Seq<char>| k != "payload"@ ==> #[trigger] json_get(compacted_spec(value, rec).0, k) == json_get(value, k),
{
    reveal(compacted_spec);
    reveal(history_container_spec);
    lemma_keys_differ();
    match member(value, "payload"@) {
        Some(p) => {
            if p is Object {
                let (p1, first) = message_text_spec(p, rec);
                let all = compacted_spec(value, rec).1;
                assert(first.len() > 0 ==> all[0] == first[0]);
                assert forall|i: int| 0 <= i < first.len() implies #[trigger] first[i].repaired by {
                    assert(all[i] == first[i]);
                }
                lemma_message_text_complete(p, rec);
                match member(p1, "replacement_history"@) {
                    None => {
                        assert(all[all.len() - 1].repaired);
                    },
                    Some(h) => {
                        let (h1, second) = history_container_spec(h, rec);
                        match h1 {
                            Json::Array(messages) => {
                                if messages.len() == 0 {
                                    assert(all[all.len() - 1].repaired);
                                } else {
                                    let (ms, third) = history_messages_spec(messages, rec);
                                    lemma_all_repaired_concat(first + second, third);
                                    lemma_history_complete(messages, rec);
                                    let rh = Json::Array(ms);
                                    let p2 = with_member(p1, "replacement_history"@, rh);
                                    crate::json::lemma_member_edits_keep_objects(p1, "replacement_history"@, rh);
                                    crate::json::lemma_with_member_reads_back(p1, "replacement_history"@, rh);
                                    crate::json::lemma_with_member_keeps_others(p1, "replacement_history"@, rh, "message"@);
                                    crate::json::lemma_member_edits_keep_objects(value, "payload"@, p2);
                                    crate::json::lemma_with_member_reads_back(value, "payload"@, p2);
                                    assert forall|k: Seq<char>| k != "payload"@ implies #[trigger] json_get(with_member(value, "payload"@, p2), k) == json_get(value, k) by {
                                        crate::json::lemma_with_member_keeps_others(value, "payload"@, p2, k);
                                    }
                                    lemma_message_text_quiet_on_strings(p2, rec);
                                    let v2 = with_member(value, "payload"@, p2);
                                    assert(compacted_spec(v2, rec).1 =~= Seq::<IssueModel>::empty() + Seq::<IssueModel>::empty()
                                        + history_messages_spec(ms, rec).1);
                                }
                            },
                            _ => {
                                assert(second[0] == all[first.len() as int]);
                                assert(all[first.len() as int].repaired);
                            },
                        }
                    },
                }
            } else {
                assert(compacted_spec(value, rec).1[0].repaired);
            }
        },
        None => {
            assert(compacted_spec(value, rec).1[0].repaired);
        },
    }
}

proof fn lemma_function_call_complete(payload: Json, rec: usize)
    requires
        all_repaired(function_call_spec(payload, rec).1),
    ensures
        function_call_spec(function_call_spec(payload, rec).0, rec).1.len() == 0,
        forall|k: Seq<char>| k != "arguments"@ ==> #[trigger] json_get(function_call_spec(payload, rec).0, k) == json_get(payload, k),
{
    reveal(function_call_spec);
    reveal(nonempty_string_spec);
    lemma_keys_differ();
    if payload is Object {
        let a_ids = nonempty_string_spec(payload, "call_id"@, rec, "payload.call_id"@);
        let a_name = nonempty_string_spec(payload, "name"@, rec, "payload.name"@);
        let all = function_call_spec(payload, rec).1;
        if a_ids.len() > 0 {
            assert(all[0] == a_ids[0]);
            assert(all[0].repaired);
        }
        if a_name.len() > 0 {
            assert(all[a_ids.len() as int] == a_name[0]);
            assert(all[a_ids.len() as int].repaired);
        }
        match member(payload, "arguments"@) {
            None => {
                assert(all[all.len() - 1].repaired);
            },
            Some(a) => {
                if !(a is Str) {
                    let s = Json::Str(json_text(a));
                    crate::json::lemma_member_edits_keep_objects(payload, "arguments"@, s);
                    crate::json::lemma_with_member_reads_back(payload, "arguments"@, s);
                    crate::json::lemma_with_member_keeps_others(payload, "arguments"@, s, "call_id"@);
                    crate::json::lemma_with_member_keeps_others(payload, "arguments"@, s, "name"@);
                    assert forall|k: Seq<char>| k != "arguments"@ implies #[trigger] json_get(function_call_spec(payload, rec).0, k) == json_get(payload, k) by {
                        crate::json::lemma_with_member_keeps_others(payload, "arguments"@, s, k);
                    }
                }
            },
        }
    }
}

proof fn lemma_tool_output_complete(payload: Json, rec: usize)
    requires
        all_repaired(tool_output_spec(payload, rec).1),
    ensures
        tool_output_spec(tool_output_spec(payload, rec).0, rec).1.len() == 0,
        forall|k: Seq<char>| k != "output"@ ==> #[trigger] json_get(tool_output_spec(payload, rec).0, k) == json_get(payload, k),
{
    reveal(tool_output_spec);
    reveal(nonempty_string_spec);
    lemma_keys_differ();
    if payload is Object {
        let a_ids = nonempty_string_spec(payload, "call_id"@, rec, "payload.call_id"@);
        let all = tool_output_spec(payload, rec).1;
        if a_ids.len() > 0 {
            assert(all[0] == a_ids[0]);
            assert(all[0].repaired);
        }
        match member(payload, "output"@) {
            None => {
                assert(all[all.len() - 1].repaired);
            },
            Some(o) => {
                if !(o is Str) {
                    let replaced = if o is Array || (o is Object && (has_key(o, "type"@) || has_key(o, "text"@))) {
                        let (o1, more) = container_spec(o, rec, "payload.output"@, "input_text"@);
                        lemma_all_repaired_concat(a_ids, more);
                        lemma_container_complete(o, rec, "payload.output"@, "input_text"@);
                        o1
                    } else {
                        Json::Str(json_text(o))
                    };
                    crate::json::lemma_member_edits_keep_objects(payload, "output"@, replaced);
                    crate::json::lemma_with_member_reads_back(payload, "output"@, replaced);
                    crate::json::lemma_with_member_keeps_others(payload, "output"@, replaced, "call_id"@);
                    assert forall|k: Seq<char>| k != "output"@ implies #[trigger] json_get(tool_output_spec(payload, rec).0, k) == json_get(payload, k) by {
                        crate::json::lemma_with_member_keeps_others(payload, "output"@, replaced, k);
                    }
                    let p2 = with_member(payload, "output"@, replaced);
                    assert(nonempty_string_spec(p2, "call_id"@, rec, "payload.call_id"@).len() == 0);
                    if replaced is Array {
                        let c2 = container_spec(replaced, rec, "payload.output"@, "input_text"@);
                        assert(tool_output_spec(p2, rec).1 =~= nonempty_string_spec(p2, "call_id"@, rec, "payload.call_id"@) + c2.1);
                    }
                }
            },
        }
    }
}

proof fn lemma_response_item_complete(value: Json, rec: usize)
    requires
        all_repaired(response_item_spec(value, rec).1),
    ensures
        response_item_spec(response_item_spec(value, rec).0, rec).1.len() == 0,
        forall|k: Seq<char>| k != "payload"@ ==> #[trigger] json_get(response_item_spec(value, rec).0, k) == json_get(value, k),
{
    reveal(response_item_spec);
    lemma_keys_differ();
    match member(value, "payload"@) {
        None => {
            assert(response_item_spec(value, rec).1[0].repaired);
        },
        Some(p) => {
            if let Some(t) = get_str(p, "type"@) {
                let p1 = if t == "message"@ {
                    lemma_message_complete(p, rec, "payload"@);
                    message_spec(p, rec, "payload"@).0
                } else if t == "function_call"@ {
                    lemma_function_call_complete(p, rec);
                    function_call_spec(p, rec).0
                } else if t == "function_call_output"@ || t == "custom_tool_call_output"@ {
                    lemma_tool_output_complete(p, rec);
                    tool_output_spec(p, rec).0
                } else {
                    p
                };
                if t == "message"@ || t == "function_call"@ || t == "function_call_output"@ || t == "custom_tool_call_output"@ {
                    crate::json::lemma_with_member_reads_back(value, "payload"@, p1);
                    assert forall|k: Seq<char>| k != "payload"@ implies #[trigger] json_get(response_item_spec(value, rec).0, k) == json_get(value, k) by {
                        crate::json::lemma_with_member_keeps_others(value, "payload"@, p1, k);
                    }
                    assert(get_str(p1, "type"@) == Some(t));
                }
            }
        },
    }
}

pub open spec fn list_ok(payload: Json, field: Seq<char>) -> bool {
    member(payload, field) is None || member(payload, field).unwrap() is Array
}

proof fn lemma_list_field_complete(payload: Json, field: Seq<char>, rec: usize)
    requires
        payload is Object,
        all_repaired(list_field_spec(payload, field, rec).1),
    ensures
        list_field_spec(payload, field, rec).0 is Object,
        list_ok(list_field_spec(payload, field, rec).0, field),
        forall|k: Seq<char>| k != field ==> #[trigger] json_get(list_field_spec(payload, field, rec).0, k) == json_get(payload, k),
{
    reveal(list_field_spec);
    if let Some(v) = member(payload, field) {
        if !(v is Array) {
            assert(list_field_spec(payload, field, rec).1[0].repaired);
            let empty = Json::Array(Seq::empty());
            crate::json::lemma_member_edits_keep_objects(payload, field, empty);
            crate::json::lemma_with_member_reads_back(payload, field, empty);
            assert forall|k: Seq<char>| k != field implies #[trigger] json_get(list_field_spec(payload, field, rec).0, k) == json_get(payload, k) by {
                crate::json::lemma_with_member_keeps_others(payload, field, empty, k);
            }
        }
    }
}

proof fn lemma_list_field_quiet(payload: Json, field: Seq<char>, rec: usize)
    requires
        list_ok(payload, field),
    ensures
        list_field_spec(payload, field, rec) == (payload, Seq::<IssueModel>::empty()),
{
    reveal(list_field_spec);
}

proof fn lemma_user_message_complete(value: Json, rec: usize)
    requires
        all_repaired(user_message_spec(value, rec).1),
    ensures
        user_message_spec(user_message_spec(value, rec).0, rec).1.len() == 0,
        forall|k: Seq<char>| k != "payload"@ ==> #[trigger] json_get(user_message_spec(value, rec).0, k) == json_get(value, k),
        opt_get_str(member(user_message_spec(value, rec).0, "payload"@), "type"@) == opt_get_str(member(value, "payload"@), "type"@),
{
    reveal(user_message_spec);
    lemma_keys_differ();
    match member(value, "payload"@) {
        Some(p) => {
            if p is Object {
                let (p1, a) = message_text_spec(p, rec);
                let (p2, b) = list_field_spec(p1, "images"@, rec);
                let (p3, c) = list_field_spec(p2, "local_images"@, rec);
                let (p4, d) = list_field_spec(p3, "text_elements"@, rec);
                lemma_all_repaired_concat(a + b + c, d);
                lemma_all_repaired_concat(a + b, c);
                lemma_all_repaired_concat(a, b);
                lemma_message_text_complete(p, rec);
                lemma_list_field_complete(p1, "images"@, rec);
                lemma_list_field_complete(p2, "local_images"@, rec);
                lemma_list_field_complete(p3, "text_elements"@, rec);
                crate::json::lemma_with_member_reads_back(value, "payload"@, p4);
                assert forall|k: Seq<char>| k != "payload"@ implies #[trigger] json_get(user_message_spec(value, rec).0, k) == json_get(value, k) by {
                    crate::json::lemma_with_member_keeps_others(value, "payload"@, p4, k);
                }
                assert(json_get(p4, "message"@) == json_get(p1, "message"@));
                assert(json_get(p4, "images"@) == json_get(p2, "images"@));
                assert(json_get(p4, "local_images"@) == json_get(p3, "local_images"@));
                assert(json_get(p4, "type"@) == json_get(p, "type"@));
                lemma_message_text_quiet_on_strings(p4, rec);
                lemma_list_field_quiet(p4, "images"@, rec);
                lemma_list_field_quiet(p4, "local_images"@, rec);
                lemma_list_field_quiet(p4, "text_elements"@, rec);
                let v2 = with_member(value, "payload"@, p4);
                assert(user_message_spec(v2, rec).1 =~= Seq::<IssueModel>::empty());
            }
        },
        None => {},
    }
}

/// Repairs are complete: when every issue the check reports on a record was
/// repaired, the repaired record checks clean, with nothing left to repair
/// and nothing left to report.
pub proof fn lemma_repaired_records_check_clean(value: Json, rec: usize)
    requires
        all_repaired(record_spec(value, rec).1),
    ensures
        record_spec(record_spec(value, rec).0, rec).1.len() == 0,
{
    reveal(record_spec);
    lemma_keys_differ();
    match get_str(value, "type"@) {
        Some(t) => {
            if t == "compacted"@ {
                lemma_compacted_complete(value, rec);
                assert(get_str(compacted_spec(value, rec).0, "type"@) == Some(t));
            } else if t == "response_item"@ {
                lemma_response_item_complete(value, rec);
                assert(get_str(response_item_spec(value, rec).0, "type"@) == Some(t));
            } else if t == "event_msg"@ && opt_get_str(member(value, "payload"@), "type"@) == Some("user_message"@) {
                lemma_user_message_complete(value, rec);
                assert(get_str(user_message_spec(value, rec).0, "type"@) == Some(t));
            }
        },
        None => {},
    }
}

/// No issue in the list was repaired.
pub open spec fn no_repairs(issues: Seq<IssueModel>) -> bool {
    forall|i: int| 0 <= i < issues.len() ==> !#[trigger] issues[i].repaired
}

proof fn lemma_no_repairs_concat(a: Seq<IssueModel>, b: Seq<IssueModel>)
    requires
        no_repairs(a),
        no_repairs(b),
    ensures
        no_repairs(a + b),
{
    assert forall|i: int| 0 <= i < (a + b).len() implies !#[trigger] (a + b)[i].repaired by {
        if i < a.len() {
            assert((a + b)[i] == a[i]);
        } else {
            assert((a + b)[i] == b[i - a.len()]);
        }
    }
}

/// A second check of a content item repairs nothing.
proof fn lemma_item_settles(item: Json, rec: usize, path: Seq<char>, expected: Seq<char>)
    requires
        text_type(expected),
    ensures
        no_repairs(content_item_spec(content_item_spec(item, rec, path, expected).0, rec, path, expected).1),
{
    reveal(item_type_stage);
    reveal(item_text_stage);
    lemma_keys_differ();
    let out = content_item_spec(item, rec, path, expected).0;
    match item {
        Json::Str(t) => {
            lemma_text_item_reads(expected, t);
            let o = text_item(expected, t);
            assert(item_type_stage(o, rec, path, expected) == Ok::<Checked, Checked>((o, Seq::empty())));
            assert(item_text_stage(o, rec, path) == (o, Seq::<IssueModel>::empty()));
            assert(content_item_spec(o, rec, path, expected).1 =~= Seq::<IssueModel>::empty());
        },
        Json::Object(_) => {
            match item_type_stage(item, rec, path, expected) {
                Err(done) => {
                    assert(out == item);
                    assert(no_repairs(done.1));
                },
                Ok((typed, first)) => {
                    let (texted, second) = item_text_stage(typed, rec, path);
                    crate::json::lemma_member_edits_keep_objects(item, "type"@, Json::Str(expected));
                    crate::json::lemma_with_member_reads_back(item, "type"@, Json::Str(expected));
                    crate::json::lemma_with_member_keeps_others(item, "type"@, Json::Str(expected), "text"@);
                    crate::json::lemma_with_member_keeps_others(item, "type"@, Json::Str(expected), "content"@);
                    assert(typed is Object);
                    assert(get_str(typed, "type"@) == Some(expected));
                    if get_str(typed, "text"@) is None && get_str(typed, "content"@) is Some {
                        let text = get_str(typed, "content"@).unwrap();
                        let stripped = without_member(typed, "content"@);
                        crate::json::lemma_member_edits_keep_objects(typed, "content"@, Json::Null);
                        crate::json::lemma_without_member_keeps_others(typed, "content"@, "type"@);
                        crate::json::lemma_member_edits_keep_objects(stripped, "text"@, Json::Str(text));
                        crate::json::lemma_with_member_keeps_others(stripped, "text"@, Json::Str(text), "type"@);
                        crate::json::lemma_with_member_reads_back(stripped, "text"@, Json::Str(text));
                        assert(get_str(texted, "text"@) is Some);
                    } else {
                        assert(texted == typed);
                    }
                    assert(texted is Object);
                    assert(get_str(texted, "type"@) == Some(expected));
                    assert(item_type_stage(texted, rec, path, expected) == Ok::<Checked, Checked>((texted, Seq::empty())));
                    let again = item_text_stage(texted, rec, path);
                    assert(no_repairs(again.1));
                    assert(content_item_spec(texted, rec, path, expected).1 =~= Seq::<IssueModel>::empty() + again.1);
                },
            }
        },
        _ => {
            assert(out == item);
        },
    }
}

proof fn lemma_items_settle(items: Seq<Json>, rec: usize, path: Seq<char>, expected: Seq<char>)
    requires
        text_type(expected),
    ensures
        content_items_spec(items, rec, path, expected).0.len() == items.len(),
        no_repairs(content_items_spec(content_items_spec(items, rec, path, expected).0, rec, path, expected).1),
    decreases items.len(),
{
    if items.len() > 0 {
        let (done, issues) = content_items_spec(items.drop_last(), rec, path, expected);
        let (item, more) = content_item_spec(items.last(), rec, index_path(path, items.len() - 1), expected);
        lemma_items_settle(items.drop_last(), rec, path, expected);
        lemma_item_settles(items.last(), rec, index_path(path, items.len() - 1), expected);
        let fixed = done.push(item);
        assert(fixed.drop_last() =~= done);
        assert(fixed.last() == item);
        lemma_no_repairs_concat(
            content_items_spec(done, rec, path, expected).1,
            content_item_spec(item, rec, index_path(path, items.len() - 1), expected).1,
        );
    }
}

/// A second check of a content container repairs nothing, and a container
/// that was an array, a string or an object comes out an array.
proof fn lemma_container_settles(content: Json, rec: usize, path: Seq<char>, expected: Seq<char>)
    requires
        text_type(expected),
    ensures
        no_repairs(container_spec(container_spec(content, rec, path, expected).0, rec, path, expected).1),
        (content is Array || content is Str || content is Object) ==> container_spec(content, rec, path, expected).0 is Array,
{
    reveal(container_spec);
    let replacement = match content {
        Json::Str(t) => Some(Json::Array(seq![text_item(expected, t)])),
        Json::Object(_) => Some(Json::Array(seq![content])),
        _ => None,
    };
    let wrapped = match replacement { Some(r) => r, None => content };
    let out = container_spec(content, rec, path, expected).0;
    match wrapped {
        Json::Array(items) => {
            if items.len() == 0 {
                assert(out == wrapped);
                assert(container_spec(wrapped, rec, path, expected).1 =~= Seq::<IssueModel>::empty().push(
                    iss(rec, path, "non-empty content array"@, Some(wrapped), false),
                ));
            } else {
                let (fixed, more) = content_items_spec(items, rec, path, expected);
                lemma_items_settle(items, rec, path, expected);
                assert(out == Json::Array(fixed));
                assert(container_spec(Json::Array(fixed), rec, path, expected).1 =~= Seq::<IssueModel>::empty()
                    + content_items_spec(fixed, rec, path, expected).1);
            }
        },
        _ => {
            assert(out == content);
            assert(replacement is None);
        },
    }
}

proof fn lemma_message_settles(message: Json, rec: usize, path: Seq<char>)
    ensures
        no_repairs(message_spec(message_spec(message, rec, path).0, rec, path).1),
        get_str(message_spec(message, rec, path).0, "type"@) == get_str(message, "type"@)
            || get_str(message_spec(message, rec, path).0, "type"@) == Some("message"@),
{
    reveal(message_type_stage);
    reveal(message_body_stage);
    lemma_keys_differ();
    let out = message_spec(message, rec, path).0;
    if !(message is Object) {
        assert(out == message);
    } else {
        match message_type_stage(message, rec, path) {
            Err(done) => {
                assert(out == message);
                assert(no_repairs(done.1));
            },
            Ok((m, first)) => {
                let (r, second) = message_body_stage(m, rec, path);
                let ty = Json::Str("message"@);
                crate::json::lemma_member_edits_keep_objects(message, "type"@, ty);
                crate::json::lemma_with_member_reads_back(message, "type"@, ty);
                crate::json::lemma_with_member_keeps_others(message, "type"@, ty, "role"@);
                crate::json::lemma_with_member_keeps_others(message, "type"@, ty, "content"@);
                assert(m is Object);
                assert(get_str(m, "type"@) == Some("message"@));
                match get_str(m, "role"@) {
                    Some(role) => {
                        if known_role(role) {
                            let expected = if role == "assistant"@ { "output_text"@ } else { "input_text"@ };
                            match member(m, "content"@) {
                                None => {
                                    assert(r == m);
                                    assert(message_type_stage(m, rec, path) == Ok::<Checked, Checked>((m, Seq::empty())));
                                    assert(message_spec(m, rec, path).1 =~= Seq::<IssueModel>::empty() + second);
                                },
                                Some(content) => {
                                    let (c, more) = container_spec(content, rec, path + ".content"@, expected);
                                    lemma_container_settles(content, rec, path + ".content"@, expected);
                                    crate::json::lemma_member_edits_keep_objects(m, "content"@, c);
                                    crate::json::lemma_with_member_reads_back(m, "content"@, c);
                                    crate::json::lemma_with_member_keeps_others(m, "content"@, c, "type"@);
                                    crate::json::lemma_with_member_keeps_others(m, "content"@, c, "role"@);
                                    assert(r == with_member(m, "content"@, c));
                                    let c2 = container_spec(c, rec, path + ".content"@, expected);
                                    assert(message_type_stage(r, rec, path) == Ok::<Checked, Checked>((r, Seq::empty())));
                                    assert(message_body_stage(r, rec, path).1 == c2.1);
                                    assert(message_spec(r, rec, path).1 =~= Seq::<IssueModel>::empty() + c2.1);
                                },
                            }
                        } else {
                            assert(r == m);
                            assert(message_type_stage(m, rec, path) == Ok::<Checked, Checked>((m, Seq::empty())));
                            assert(message_spec(m, rec, path).1 =~= Seq::<IssueModel>::empty() + second);
                        }
                    },
                    None => {
                        assert(r == m);
                        assert(message_type_stage(m, rec, path) == Ok::<Checked, Checked>((m, Seq::empty())));
                        assert(message_spec(m, rec, path).1 =~= Seq::<IssueModel>::empty() + second);
                    },
                }
            },
        }
    }
}

proof fn lemma_history_settles(messages: Seq<Json>, rec: usize)
    ensures
        history_messages_spec(messages, rec).0.len() == messages.len(),
        no_repairs(history_messages_spec(history_messages_spec(messages, rec).0, rec).1),
    decreases messages.len(),
{
    if messages.len() > 0 {
        let (done, issues) = history_messages_spec(messages.drop_last(), rec);
        let path = index_path("payload.replacement_history"@, messages.len() - 1);
        let (m, more) = message_spec(messages.last(), rec, path);
        lemma_history_settles(messages.drop_last(), rec);
        lemma_message_settles(messages.last(), rec, path);
        let fixed = done.push(m);
        assert(fixed.drop_last() =~= done);
        assert(fixed.last() == m);
        lemma_no_repairs_concat(history_messages_spec(done, rec).1, message_spec(m, rec, path).1);
    }
}

/// The message text check settles on its own result, reads only the
/// `message` member and changes no other.
proof fn lemma_message_text_settles(payload: Json, rec: usize)
    requires
        payload is Object,
    ensures
        message_text_spec(payload, rec).0 is Object,
        message_text_spec(message_text_spec(payload, rec).0, rec).0 == message_text_spec(payload, rec).0,
        no_repairs(message_text_spec(message_text_spec(payload, rec).0, rec).1),
        forall|k: Seq<char>| k != "message"@ ==> #[trigger] json_get(message_text_spec(payload, rec).0, k) == json_get(payload, k),
{
    reveal(message_text_spec);
    match member(payload, "message"@) {
        None => {},
        Some(m) => {
            if !(m is Str) {
                match flatten_text(m) {
                    Some(t) => {
                        crate::json::lemma_member_edits_keep_objects(payload, "message"@, Json::Str(t));
                        crate::json::lemma_with_member_reads_back(payload, "message"@, Json::Str(t));
                        assert forall|k: Seq<char>| k != "message"@ implies #[trigger] json_get(message_text_spec(payload, rec).0, k) == json_get(payload, k) by {
                            crate::json::lemma_with_member_keeps_others(payload, "message"@, Json::Str(t), k);
                        }
                    },
                    None => {},
                }
            }
        },
    }
}

/// The message text check reads only the `message` member: on an object
/// whose `message` is one the check leaves alone, it repairs nothing and
/// changes nothing.
proof fn lemma_message_text_same_member(p1: Json, q: Json, rec: usize)
    requires
        p1 is Object,
        q is Object,
        member(p1, "message"@) == member(q, "message"@),
        message_text_spec(p1, rec).0 == p1,
    ensures
        message_text_spec(q, rec).0 == q,
        no_repairs(message_text_spec(q, rec).1),
{
    reveal(message_text_spec);
    match member(p1, "message"@) {
        None => {},
        Some(m) => {
            if !(m is Str) {
                if let Some(t) = flatten_text(m) {
                    crate::json::lemma_with_member_reads_back(p1, "message"@, Json::Str(t));
                    assert(member(message_text_spec(p1, rec).0, "message"@) == Some(Json::Str(t)));
                }
            }
        },
    }
}

proof fn lemma_history_container_settles(h: Json, rec: usize)
    ensures
        history_container_spec(h, rec).0 is Array ==> history_container_spec(history_container_spec(h, rec).0, rec)
            == (history_container_spec(h, rec).0, Seq::<IssueModel>::empty()),
        !(history_container_spec(h, rec).0 is Array) ==> history_container_spec(h, rec).0 == h
            && no_repairs(history_container_spec(h, rec).1),
{
    reveal(history_container_spec);
}

/// A second check of a compacted record repairs nothing.
proof fn lemma_compacted_settles(value: Json, rec: usize)
    ensures
        no_repairs(compacted_spec(compacted_spec(value, rec).0, rec).1),
        forall|k: Seq<char>| k != "payload"@ ==> #[trigger] json_get(compacted_spec(value, rec).0, k) == json_get(value, k),
{
    reveal(compacted_spec);
    lemma_keys_differ();
    let out = compacted_spec(value, rec).0;
    match member(value, "payload"@) {
        Some(p) => {
            if p is Object {
                let (p1, first) = message_text_spec(p, rec);
                lemma_message_text_settles(p, rec);
                assert(member(p1, "replacement_history"@) == member(p, "replacement_history"@));
                match member(p1, "replacement_history"@) {
                    None => {
                        crate::json::lemma_member_edits_keep_objects(value, "payload"@, p1);
                        crate::json::lemma_with_member_reads_back(value, "payload"@, p1);
                        assert forall|k: Seq<char>| k != "payload"@ implies #[trigger] json_get(out, k) == json_get(value, k) by {
                            crate::json::lemma_with_member_keeps_others(value, "payload"@, p1, k);
                        }
                        let x = message_text_spec(p1, rec).1;
                        let last = iss(rec, "payload.replacement_history"@, "array of message objects"@, None, false);
                        assert(compacted_spec(out, rec).1 == x.push(last));
                        assert(no_repairs(x.push(last))) by {
                            assert forall|i: int| 0 <= i < x.push(last).len() implies !#[trigger] x.push(last)[i].repaired by {
                                if i < x.len() {
                                    assert(x.push(last)[i] == x[i]);
                                }
                            }
                        }
                    },
                    Some(h) => {
                        let (h1, second) = history_container_spec(h, rec);
                        lemma_history_container_settles(h, rec);
                        let rh = match h1 {
                            Json::Array(messages) => if messages.len() == 0 { h1 } else {
                                Json::Array(history_messages_spec(messages, rec).0)
                            },
                            _ => h1,
                        };
                        let p2 = with_member(p1, "replacement_history"@, rh);
                        assert(out == with_member(value, "payload"@, p2));
                        crate::json::lemma_member_edits_keep_objects(p1, "replacement_history"@, rh);
                        crate::json::lemma_with_member_reads_back(p1, "replacement_history"@, rh);
                        crate::json::lemma_with_member_keeps_others(p1, "replacement_history"@, rh, "message"@);
                        crate::json::lemma_member_edits_keep_objects(value, "payload"@, p2);
                        crate::json::lemma_with_member_reads_back(value, "payload"@, p2);
                        assert forall|k: Seq<char>| k != "payload"@ implies #[trigger] json_get(out, k) == json_get(value, k) by {
                            crate::json::lemma_with_member_keeps_others(value, "payload"@, p2, k);
                        }
                        lemma_message_text_same_member(p1, p2, rec);
                        let x = message_text_spec(p2, rec).1;
                        assert(member(out, "payload"@) == Some(p2));
                        assert(member(p2, "replacement_history"@) == Some(rh));
                        match h1 {
                            Json::Array(messages) => {
                                assert(history_container_spec(rh, rec) == (rh, Seq::<IssueModel>::empty())) by {
                                    reveal(history_container_spec);
                                }
                                if messages.len() == 0 {
                                    let last = iss(rec, "payload.replacement_history"@, "non-empty array of message objects"@, Some(rh), false);
                                    let y = Seq::<IssueModel>::empty().push(last);
                                    assert(compacted_spec(out, rec).1 == x + y);
                                    assert(no_repairs(y));
                                    lemma_no_repairs_concat(x, y);
                                } else {
                                    lemma_history_settles(messages, rec);
                                    let ms = history_messages_spec(messages, rec).0;
                                    let z = history_messages_spec(ms, rec).1;
                                    assert(compacted_spec(out, rec).1 == x + Seq::<IssueModel>::empty() + z);
                                    lemma_no_repairs_concat(x, Seq::<IssueModel>::empty());
                                    lemma_no_repairs_concat(x + Seq::<IssueModel>::empty(), z);
                                }
                            },
                            _ => {
                                assert(rh == h);
                                assert(history_container_spec(rh, rec) == history_container_spec(h, rec));
                                assert(compacted_spec(out, rec).1 == x + second);
                                lemma_no_repairs_concat(x, second);
                            },
                        }
                    },
                }
            } else {
                assert(out == value);
            }
        },
        None => {
            assert(out == value);
        },
    }
}

proof fn lemma_nonempty_string_unrepaired(payload: Json, key: Seq<char>, rec: usize, path: Seq<char>)
    ensures
        no_repairs(nonempty_string_spec(payload, key, rec, path)),
{
    reveal(nonempty_string_spec);
}

proof fn lemma_function_call_settles(payload: Json, rec: usize)
    ensures
        no_repairs(function_call_spec(function_call_spec(payload, rec).0, rec).1),
        forall|k: Seq<char>| k != "arguments"@ ==> #[trigger] json_get(function_call_spec(payload, rec).0, k) == json_get(payload, k),
{
    reveal(function_call_spec);
    lemma_keys_differ();
    let out = function_call_spec(payload, rec).0;
    if payload is Object {
        match member(payload, "arguments"@) {
            None => {
                assert(out == payload);
            },
            Some(a) => {
                if !(a is Str) {
                    let t = Json::Str(json_text(a));
                    crate::json::lemma_member_edits_keep_objects(payload, "arguments"@, t);
                    crate::json::lemma_with_member_reads_back(payload, "arguments"@, t);
                    assert forall|k: Seq<char>| k != "arguments"@ implies #[trigger] json_get(out, k) == json_get(payload, k) by {
                        crate::json::lemma_with_member_keeps_others(payload, "arguments"@, t, k);
                    }
                } else {
                    assert(out == payload);
                }
            },
        }
        lemma_nonempty_string_unrepaired(out, "call_id"@, rec, "payload.call_id"@);
        lemma_nonempty_string_unrepaired(out, "name"@, rec, "payload.name"@);
        let first = nonempty_string_spec(out, "call_id"@, rec, "payload.call_id"@) + nonempty_string_spec(out, "name"@, rec, "payload.name"@);
        lemma_no_repairs_concat(nonempty_string_spec(out, "call_id"@, rec, "payload.call_id"@), nonempty_string_spec(out, "name"@, rec, "payload.name"@));
        let again = function_call_spec(out, rec).1;
        assert forall|i: int| 0 <= i < again.len() implies !#[trigger] again[i].repaired by {
            if i < first.len() {
                assert(again[i] == first[i]);
            }
        }
    }
}

proof fn lemma_tool_output_settles(payload: Json, rec: usize)
    ensures
        no_repairs(tool_output_spec(tool_output_spec(payload, rec).0, rec).1),
        forall|k: Seq<char>| k != "output"@ ==> #[trigger] json_get(tool_output_spec(payload, rec).0, k) == json_get(payload, k),
{
    reveal(tool_output_spec);
    lemma_keys_differ();
    let out = tool_output_spec(payload, rec).0;
    if payload is Object {
        match member(payload, "output"@) {
            None => {
                assert(out == payload);
            },
            Some(o) => {
                if !(o is Str) {
                    let replaced = if o is Array || (o is Object && (has_key(o, "type"@) || has_key(o, "text"@))) {
                        lemma_container_settles(o, rec, "payload.output"@, "input_text"@);
                        container_spec(o, rec, "payload.output"@, "input_text"@).0
                    } else {
                        Json::Str(json_text(o))
                    };
                    assert(out == with_member(payload, "output"@, replaced));
                    crate::json::lemma_member_edits_keep_objects(payload, "output"@, replaced);
                    crate::json::lemma_with_member_reads_back(payload, "output"@, replaced);
                    assert forall|k: Seq<char>| k != "output"@ implies #[trigger] json_get(out, k) == json_get(payload, k) by {
                        crate::json::lemma_with_member_keeps_others(payload, "output"@, replaced, k);
                    }
                    lemma_nonempty_string_unrepaired(out, "call_id"@, rec, "payload.call_id"@);
                    let first = nonempty_string_spec(out, "call_id"@, rec, "payload.call_id"@);
                    if replaced is Array {
                        let c2 = container_spec(replaced, rec, "payload.output"@, "input_text"@);
                        assert(tool_output_spec(out, rec).1 == first + c2.1);
                        lemma_no_repairs_concat(first, c2.1);
                    } else {
                        assert(tool_output_spec(out, rec).1 == first);
                    }
                } else {
                    assert(out == payload);
                    lemma_nonempty_string_unrepaired(out, "call_id"@, rec, "payload.call_id"@);
                }
            },
        }
        if member(payload, "output"@) is None {
            lemma_nonempty_string_unrepaired(out, "call_id"@, rec, "payload.call_id"@);
            let first = nonempty_string_spec(out, "call_id"@, rec, "payload.call_id"@);
            let again = tool_output_spec(out, rec).1;
            assert forall|i: int| 0 <= i < again.len() implies !#[trigger] again[i].repaired by {
                if i < first.len() {
                    assert(again[i] == first[i]);
                }
            }
        }
    }
}

proof fn lemma_response_item_settles(value: Json, rec: usize)
    ensures
        no_repairs(response_item_spec(response_item_spec(value, rec).0, rec).1),
        forall|k: Seq<char>| k != "payload"@ ==> #[trigger] json_get(response_item_spec(value, rec).0, k) == json_get(value, k),
{
    reveal(response_item_spec);
    lemma_keys_differ();
    let out = response_item_spec(value, rec).0;
    match member(value, "payload"@) {
        None => {
            assert(out == value);
        },
        Some(p) => {
            match get_str(p, "type"@) {
                Some(t) => {
                    if t == "message"@ || t == "function_call"@ || t == "function_call_output"@ || t == "custom_tool_call_output"@ {
                        let p1 = if t == "message"@ {
                            lemma_message_settles(p, rec, "payload"@);
                            message_spec(p, rec, "payload"@).0
                        } else if t == "function_call"@ {
                            lemma_function_call_settles(p, rec);
                            function_call_spec(p, rec).0
                        } else {
                            lemma_tool_output_settles(p, rec);
                            tool_output_spec(p, rec).0
                        };
                        assert(out == with_member(value, "payload"@, p1));
                        crate::json::lemma_with_member_reads_back(value, "payload"@, p1);
                        assert forall|k: Seq<char>| k != "payload"@ implies #[trigger] json_get(out, k) == json_get(value, k) by {
                            crate::json::lemma_with_member_keeps_others(value, "payload"@, p1, k);
                        }
                        assert(get_str(p1, "type"@) == Some(t));
                        assert(member(out, "payload"@) == Some(p1));
                    } else {
                        assert(out == value);
                    }
                },
                None => {
                    assert(out == value);
                },
            }
        },
    }
}

/// After the list check, the list member is not `null`.
proof fn lemma_list_field_settles(payload: Json, field: Seq<char>, rec: usize)
    requires
        payload is Object,
    ensures
        list_field_spec(payload, field, rec).0 is Object,
        member(list_field_spec(payload, field, rec).0, field) != Some(Json::Null),
        forall|k: Seq<char>| k != field ==> #[trigger] json_get(list_field_spec(payload, field, rec).0, k) == json_get(payload, k),
{
    reveal(list_field_spec);
    if let Some(v) = member(payload, field) {
        if !(v is Array) && v == Json::Null {
            let empty = Json::Array(Seq::empty());
            crate::json::lemma_member_edits_keep_objects(payload, field, empty);
            crate::json::lemma_with_member_reads_back(payload, field, empty);
            assert forall|k: Seq<char>| k != field implies #[trigger] json_get(list_field_spec(payload, field, rec).0, k) == json_get(payload, k) by {
                crate::json::lemma_with_member_keeps_others(payload, field, empty, k);
            }
        }
    }
}

/// A list member that is not `null` is left as it is, unrepaired.
proof fn lemma_list_field_left_alone(payload: Json, field: Seq<char>, rec: usize)
    requires
        member(payload, field) != Some(Json::Null),
    ensures
        list_field_spec(payload, field, rec).0 == payload,
        no_repairs(list_field_spec(payload, field, rec).1),
{
    reveal(list_field_spec);
}

proof fn lemma_user_message_settles(value: Json, rec: usize)
    ensures
        no_repairs(user_message_spec(user_message_spec(value, rec).0, rec).1),
        forall|k: Seq<char>| k != "payload"@ ==> #[trigger] json_get(user_message_spec(value, rec).0, k) == json_get(value, k),
        opt_get_str(member(user_message_spec(value, rec).0, "payload"@), "type"@) == opt_get_str(member(value, "payload"@), "type"@),
{
    reveal(user_message_spec);
    lemma_keys_differ();
    let out = user_message_spec(value, rec).0;
    match member(value, "payload"@) {
        Some(p) => {
            if p is Object {
                let (p1, a) = message_text_spec(p, rec);
                let (p2, b) = list_field_spec(p1, "images"@, rec);
                let (p3, c) = list_field_spec(p2, "local_images"@, rec);
                let (p4, d) = list_field_spec(p3, "text_elements"@, rec);
                lemma_message_text_settles(p, rec);
                lemma_list_field_settles(p1, "images"@, rec);
                lemma_list_field_settles(p2, "local_images"@, rec);
                lemma_list_field_settles(p3, "text_elements"@, rec);
                assert(out == with_member(value, "payload"@, p4));
                crate::json::lemma_with_member_reads_back(value, "payload"@, p4);
                assert forall|k: Seq<char>| k != "payload"@ implies #[trigger] json_get(out, k) == json_get(value, k) by {
                    crate::json::lemma_with_member_keeps_others(value, "payload"@, p4, k);
                }
                assert(json_get(p4, "message"@) == json_get(p1, "message"@));
                assert(json_get(p4, "images"@) == json_get(p2, "images"@));
                assert(json_get(p4, "local_images"@) == json_get(p3, "local_images"@));
                assert(json_get(p4, "type"@) == json_get(p, "type"@));
                assert(member(out, "payload"@) == Some(p4));
                lemma_message_text_same_member(p1, p4, rec);
                let (q1, a2) = message_text_spec(p4, rec);
                assert(q1 == p4);
                lemma_list_field_left_alone(p4, "images"@, rec);
                lemma_list_field_left_alone(p4, "local_images"@, rec);
                lemma_list_field_left_alone(p4, "text_elements"@, rec);
                let b2 = list_field_spec(p4, "images"@, rec).1;
                let c2 = list_field_spec(p4, "local_images"@, rec).1;
                let d2 = list_field_spec(p4, "text_elements"@, rec).1;
                assert(user_message_spec(out, rec).1 == a2 + b2 + c2 + d2);
                lemma_no_repairs_concat(a2, b2);
                lemma_no_repairs_concat(a2 + b2, c2);
                lemma_no_repairs_concat(a2 + b2 + c2, d2);
            } else {
                assert(out == value);
            }
        },
        None => {
            assert(out == value);
        },
    }
}

/// A second check of a record repairs nothing.
proof fn lemma_record_settles(value: Json, rec: usize)
    ensures
        no_repairs(record_spec(record_spec(value, rec).0, rec).1),
{
    reveal(record_spec);
    lemma_keys_differ();
    match get_str(value, "type"@) {
        Some(t) => {
            if t == "compacted"@ {
                lemma_compacted_settles(value, rec);
                assert(get_str(compacted_spec(value, rec).0, "type"@) == Some(t));
            } else if t == "response_item"@ {
                lemma_response_item_settles(value, rec);
                assert(get_str(response_item_spec(value, rec).0, "type"@) == Some(t));
            } else if t == "event_msg"@ && opt_get_str(member(value, "payload"@), "type"@) == Some("user_message"@) {
                lemma_user_message_settles(value, rec);
                assert(get_str(user_message_spec(value, rec).0, "type"@) == Some(t));
            }
        },
        None => {},
    }
}

/// Two issue lists that agree, position by position, on what was repaired.
pub open spec fn same_repairs(a: Seq<IssueModel>, b: Seq<IssueModel>) -> bool {
    a.len() == b.len() && forall|i: int| 0 <= i < a.len() ==> #[trigger] a[i].repaired == b[i].repaired
}

proof fn lemma_same_repairs_concat(a1: Seq<IssueModel>, b1: Seq<IssueModel>, a2: Seq<IssueModel>, b2: Seq<IssueModel>)
    requires
        same_repairs(a1, b1),
        same_repairs(a2, b2),
    ensures
        same_repairs(a1 + a2, b1 + b2),
{
    assert forall|i: int| 0 <= i < (a1 + a2).len() implies #[trigger] (a1 + a2)[i].repaired == (b1 + b2)[i].repaired by {
        if i < a1.len() {
            assert((a1 + a2)[i] == a1[i] && (b1 + b2)[i] == b1[i]);
        } else {
            assert((a1 + a2)[i] == a2[i - a1.len()] && (b1 + b2)[i] == b2[i - a1.len()]);
        }
    }
}

proof fn lemma_same_repairs_push(a: Seq<IssueModel>, b: Seq<IssueModel>, x: IssueModel, y: IssueModel)
    requires
        same_repairs(a, b),
        x.repaired == y.repaired,
    ensures
        same_repairs(a.push(x), b.push(y)),
{
    assert forall|i: int| 0 <= i < a.push(x).len() implies #[trigger] a.push(x)[i].repaired == b.push(y)[i].repaired by {
        if i < a.len() {
            assert(a.push(x)[i] == a[i] && b.push(y)[i] == b[i]);
        }
    }
}

proof fn lemma_item_rec_free(item: Json, r1: usize, r2: usize, path: Seq<char>, expected: Seq<char>)
    ensures
        content_item_spec(item, r1, path, expected).0 == content_item_spec(item, r2, path, expected).0,
        same_repairs(content_item_spec(item, r1, path, expected).1, content_item_spec(item, r2, path, expected).1),
{
    reveal(item_type_stage);
    reveal(item_text_stage);
    match item {
        Json::Object(_) => {
            match (item_type_stage(item, r1, path, expected), item_type_stage(item, r2, path, expected)) {
                (Ok((t1, f1)), Ok((t2, f2))) => {
                    assert(t1 == t2);
                    assert(same_repairs(f1, f2));
                    let (x1, g1) = item_text_stage(t1, r1, path);
                    let (x2, g2) = item_text_stage(t2, r2, path);
                    assert(same_repairs(g1, g2));
                    lemma_same_repairs_concat(f1, f2, g1, g2);
                },
                (Err(d1), Err(d2)) => {
                    assert(same_repairs(d1.1, d2.1));
                },
                _ => {},
            }
        },
        _ => {},
    }
}

proof fn lemma_items_rec_free(items: Seq<Json>, r1: usize, r2: usize, path: Seq<char>, expected: Seq<char>)
    ensures
        content_items_spec(items, r1, path, expected).0 == content_items_spec(items, r2, path, expected).0,
        same_repairs(content_items_spec(items, r1, path, expected).1, content_items_spec(items, r2, path, expected).1),
    decreases items.len(),
{
    if items.len() > 0 {
        lemma_items_rec_free(items.drop_last(), r1, r2, path, expected);
        lemma_item_rec_free(items.last(), r1, r2, index_path(path, items.len() - 1), expected);
        lemma_same_repairs_concat(
            content_items_spec(items.drop_last(), r1, path, expected).1,
            content_items_spec(items.drop_last(), r2, path, expected).1,
            content_item_spec(items.last(), r1, index_path(path, items.len() - 1), expected).1,
            content_item_spec(items.last(), r2, index_path(path, items.len() - 1), expected).1,
        );
    }
}

proof fn lemma_container_rec_free(content: Json, r1: usize, r2: usize, path: Seq<char>, expected: Seq<char>)
    ensures
        container_spec(content, r1, path, expected).0 == container_spec(content, r2, path, expected).0,
        same_repairs(container_spec(content, r1, path, expected).1, container_spec(content, r2, path, expected).1),
{
    reveal(container_spec);
    let replacement = match content {
        Json::Str(t) => Some(Json::Array(seq![text_item(expected, t)])),
        Json::Object(_) => Some(Json::Array(seq![content])),
        _ => None,
    };
    let wrapped = match replacement { Some(r) => r, None => content };
    let f1 = if content is Array { Seq::<IssueModel>::empty() } else {
        seq![iss(r1, path, "non-empty content array"@, Some(content), replacement is Some)]
    };
    let f2 = if content is Array { Seq::<IssueModel>::empty() } else {
        seq![iss(r2, path, "non-empty content array"@, Some(content), replacement is Some)]
    };
    assert(same_repairs(f1, f2));
    match wrapped {
        Json::Array(items) => {
            if items.len() == 0 {
                lemma_same_repairs_push(f1, f2, iss(r1, path, "non-empty content array"@, Some(wrapped), false),
                    iss(r2, path, "non-empty content array"@, Some(wrapped), false));
            } else {
                lemma_items_rec_free(items, r1, r2, path, expected);
                lemma_same_repairs_concat(f1, f2, content_items_spec(items, r1, path, expected).1,
                    content_items_spec(items, r2, path, expected).1);
            }
        },
        _ => {},
    }
}

proof fn lemma_message_rec_free(message: Json, r1: usize, r2: usize, path: Seq<char>)
    ensures
        message_spec(message, r1, path).0 == message_spec(message, r2, path).0,
        same_repairs(message_spec(message, r1, path).1, message_spec(message, r2, path).1),
{
    reveal(message_type_stage);
    reveal(message_body_stage);
    if message is Object {
        match (message_type_stage(message, r1, path), message_type_stage(message, r2, path)) {
            (Ok((m1, f1)), Ok((m2, f2))) => {
                assert(m1 == m2);
                assert(same_repairs(f1, f2));
                let (b1, g1) = message_body_stage(m1, r1, path);
                let (b2, g2) = message_body_stage(m2, r2, path);
                match get_str(m1, "role"@) {
                    Some(role) => {
                        if known_role(role) {
                            let expected = if role == "assistant"@ { "output_text"@ } else { "input_text"@ };
                            if let Some(content) = member(m1, "content"@) {
                                lemma_container_rec_free(content, r1, r2, path + ".content"@, expected);
                            }
                        }
                    },
                    None => {},
                }
                assert(b1 == b2);
                assert(same_repairs(g1, g2));
                lemma_same_repairs_concat(f1, f2, g1, g2);
            },
            (Err(d1), Err(d2)) => {
                assert(same_repairs(d1.1, d2.1));
            },
            _ => {},
        }
    }
}

proof fn lemma_history_rec_free(messages: Seq<Json>, r1: usize, r2: usize)
    ensures
        history_messages_spec(messages, r1).0 == history_messages_spec(messages, r2).0,
        same_repairs(history_messages_spec(messages, r1).1, history_messages_spec(messages, r2).1),
    decreases messages.len(),
{
    if messages.len() > 0 {
        let path = index_path("payload.replacement_history"@, messages.len() - 1);
        lemma_history_rec_free(messages.drop_last(), r1, r2);
        lemma_message_rec_free(messages.last(), r1, r2, path);
        lemma_same_repairs_concat(
            history_messages_spec(messages.drop_last(), r1).1,
            history_messages_spec(messages.drop_last(), r2).1,
            message_spec(messages.last(), r1, path).1,
            message_spec(messages.last(), r2, path).1,
        );
    }
}

proof fn lemma_message_text_rec_free(payload: Json, r1: usize, r2: usize)
    ensures
        message_text_spec(payload, r1).0 == message_text_spec(payload, r2).0,
        same_repairs(message_text_spec(payload, r1).1, message_text_spec(payload, r2).1),
{
    reveal(message_text_spec);
}

proof fn lemma_history_container_rec_free(h: Json, r1: usize, r2: usize)
    ensures
        history_container_spec(h, r1).0 == history_container_spec(h, r2).0,
        same_repairs(history_container_spec(h, r1).1, history_container_spec(h, r2).1),
{
    reveal(history_container_spec);
}

proof fn lemma_compacted_rec_free(value: Json, r1: usize, r2: usize)
    ensures
        compacted_spec(value, r1).0 == compacted_spec(value, r2).0,
        same_repairs(compacted_spec(value, r1).1, compacted_spec(value, r2).1),
{
    reveal(compacted_spec);
    match member(value, "payload"@) {
        Some(p) => {
            if p is Object {
                lemma_message_text_rec_free(p, r1, r2);
                let (p1, a1) = message_text_spec(p, r1);
                let a2 = message_text_spec(p, r2).1;
                match member(p1, "replacement_history"@) {
                    None => {
                        lemma_same_repairs_push(a1, a2,
                            iss(r1, "payload.replacement_history"@, "array of message objects"@, None, false),
                            iss(r2, "payload.replacement_history"@, "array of message objects"@, None, false));
                    },
                    Some(h) => {
                        lemma_history_container_rec_free(h, r1, r2);
                        let (h1, b1) = history_container_spec(h, r1);
                        let b2 = history_container_spec(h, r2).1;
                        lemma_same_repairs_concat(a1, a2, b1, b2);
                        match h1 {
                            Json::Array(messages) => {
                                if messages.len() == 0 {
                                    let x1 = iss(r1, "payload.replacement_history"@, "non-empty array of message objects"@, Some(h1), false);
                                    let x2 = iss(r2, "payload.replacement_history"@, "non-empty array of message objects"@, Some(h1), false);
                                    lemma_same_repairs_push(b1, b2, x1, x2);
                                    lemma_same_repairs_concat(a1, a2, b1.push(x1), b2.push(x2));
                                } else {
                                    lemma_history_rec_free(messages, r1, r2);
                                    lemma_same_repairs_concat(a1 + b1, a2 + b2, history_messages_spec(messages, r1).1,
                                        history_messages_spec(messages, r2).1);
                                }
                            },
                            _ => {},
                        }
                    },
                }
            }
        },
        None => {},
    }
}

proof fn lemma_function_call_rec_free(payload: Json, r1: usize, r2: usize)
    ensures
        function_call_spec(payload, r1).0 == function_call_spec(payload, r2).0,
        same_repairs(function_call_spec(payload, r1).1, function_call_spec(payload, r2).1),
{
    reveal(function_call_spec);
    reveal(nonempty_string_spec);
    if payload is Object {
        let i1 = nonempty_string_spec(payload, "call_id"@, r1, "payload.call_id"@);
        let i2 = nonempty_string_spec(payload, "call_id"@, r2, "payload.call_id"@);
        let n1 = nonempty_string_spec(payload, "name"@, r1, "payload.name"@);
        let n2 = nonempty_string_spec(payload, "name"@, r2, "payload.name"@);
        assert(same_repairs(i1, i2));
        assert(same_repairs(n1, n2));
        lemma_same_repairs_concat(i1, i2, n1, n2);
        match member(payload, "arguments"@) {
            None => {
                lemma_same_repairs_push(i1 + n1, i2 + n2,
                    iss(r1, "payload.arguments"@, "JSON encoded as a string"@, None, false),
                    iss(r2, "payload.arguments"@, "JSON encoded as a string"@, None, false));
            },
            Some(a) => {
                if !(a is Str) {
                    lemma_same_repairs_push(i1 + n1, i2 + n2,
                        iss(r1, "payload.arguments"@, "JSON encoded as a string"@, Some(a), true),
                        iss(r2, "payload.arguments"@, "JSON encoded as a string"@, Some(a), true));
                }
            },
        }
    }
}

proof fn lemma_tool_output_rec_free(payload: Json, r1: usize, r2: usize)
    ensures
        tool_output_spec(payload, r1).0 == tool_output_spec(payload, r2).0,
        same_repairs(tool_output_spec(payload, r1).1, tool_output_spec(payload, r2).1),
{
    reveal(tool_output_spec);
    reveal(nonempty_string_spec);
    if payload is Object {
        let i1 = nonempty_string_spec(payload, "call_id"@, r1, "payload.call_id"@);
        let i2 = nonempty_string_spec(payload, "call_id"@, r2, "payload.call_id"@);
        assert(same_repairs(i1, i2));
        match member(payload, "output"@) {
            None => {
                lemma_same_repairs_push(i1, i2,
                    iss(r1, "payload.output"@, "string or typed content array"@, None, false),
                    iss(r2, "payload.output"@, "string or typed content array"@, None, false));
            },
            Some(o) => {
                if !(o is Str) {
                    if o is Array || (o is Object && (has_key(o, "type"@) || has_key(o, "text"@))) {
                        lemma_container_rec_free(o, r1, r2, "payload.output"@, "input_text"@);
                        lemma_same_repairs_concat(i1, i2, container_spec(o, r1, "payload.output"@, "input_text"@).1,
                            container_spec(o, r2, "payload.output"@, "input_text"@).1);
                    } else {
                        lemma_same_repairs_push(i1, i2,
                            iss(r1, "payload.output"@, "string or typed content array"@, Some(o), true),
                            iss(r2, "payload.output"@, "string or typed content array"@, Some(o), true));
                    }
                }
            },
        }
    }
}

proof fn lemma_response_item_rec_free(value: Json, r1: usize, r2: usize)
    ensures
        response_item_spec(value, r1).0 == response_item_spec(value, r2).0,
        same_repairs(response_item_spec(value, r1).1, response_item_spec(value, r2).1),
{
    reveal(response_item_spec);
    if let Some(p) = member(value, "payload"@) {
        if let Some(t) = get_str(p, "type"@) {
            if t == "message"@ {
                lemma_message_rec_free(p, r1, r2, "payload"@);
            } else if t == "function_call"@ {
                lemma_function_call_rec_free(p, r1, r2);
            } else if t == "function_call_output"@ || t == "custom_tool_call_output"@ {
                lemma_tool_output_rec_free(p, r1, r2);
            }
        }
    }
}

proof fn lemma_list_field_rec_free(payload: Json, field: Seq<char>, r1: usize, r2: usize)
    ensures
        list_field_spec(payload, field, r1).0 == list_field_spec(payload, field, r2).0,
        same_repairs(list_field_spec(payload, field, r1).1, list_field_spec(payload, field, r2).1),
{
    reveal(list_field_spec);
}

proof fn lemma_user_message_rec_free(value: Json, r1: usize, r2: usize)
    ensures
        user_message_spec(value, r1).0 == user_message_spec(value, r2).0,
        same_repairs(user_message_spec(value, r1).1, user_message_spec(value, r2).1),
{
    reveal(user_message_spec);
    if let Some(p) = member(value, "payload"@) {
        if p is Object {
            lemma_message_text_rec_free(p, r1, r2);
            let (p1, a1) = message_text_spec(p, r1);
            let a2 = message_text_spec(p, r2).1;
            lemma_list_field_rec_free(p1, "images"@, r1, r2);
            let (p2, b1) = list_field_spec(p1, "images"@, r1);
            let b2 = list_field_spec(p1, "images"@, r2).1;
            lemma_list_field_rec_free(p2, "local_images"@, r1, r2);
            let (p3, c1) = list_field_spec(p2, "local_images"@, r1);
            let c2 = list_field_spec(p2, "local_images"@, r2).1;
            lemma_list_field_rec_free(p3, "text_elements"@, r1, r2);
            let d1 = list_field_spec(p3, "text_elements"@, r1).1;
            let d2 = list_field_spec(p3, "text_elements"@, r2).1;
            lemma_same_repairs_concat(a1, a2, b1, b2);
            lemma_same_repairs_concat(a1 + b1, a2 + b2, c1, c2);
            lemma_same_repairs_concat(a1 + b1 + c1, a2 + b2 + c2, d1, d2);
        }
    }
}

/// Where a record stands does not change how it is checked: the repaired
/// record, and which of its issues were repaired, are the same at any
/// position.
proof fn lemma_record_rec_free(value: Json, r1: usize, r2: usize)
    ensures
        record_spec(value, r1).0 == record_spec(value, r2).0,
        same_repairs(record_spec(value, r1).1, record_spec(value, r2).1),
{
    reveal(record_spec);
    lemma_compacted_rec_free(value, r1, r2);
    lemma_response_item_rec_free(value, r1, r2);
    lemma_user_message_rec_free(value, r1, r2);
}

/// Every issue in the list is reported for record `rec`.
pub open spec fn all_at(issues: Seq<IssueModel>, rec: usize) -> bool {
    forall|k: int| 0 <= k < issues.len() ==> #[trigger] issues[k].record_index == rec
}

proof fn lemma_all_at_concat(a: Seq<IssueModel>, b: Seq<IssueModel>, rec: usize)
    requires
        all_at(a, rec),
        all_at(b, rec),
    ensures
        all_at(a + b, rec),
{
    assert forall|k: int| 0 <= k < (a + b).len() implies #[trigger] (a + b)[k].record_index == rec by {
        if k < a.len() {
            assert((a + b)[k] == a[k]);
        } else {
            assert((a + b)[k] == b[k - a.len()]);
        }
    }
}

proof fn lemma_all_at_push(a: Seq<IssueModel>, x: IssueModel, rec: usize)
    requires
        all_at(a, rec),
        x.record_index == rec,
    ensures
        all_at(a.push(x), rec),
{
    assert forall|k: int| 0 <= k < a.push(x).len() implies #[trigger] a.push(x)[k].record_index == rec by {
        if k < a.len() {
            assert(a.push(x)[k] == a[k]);
        }
    }
}

proof fn lemma_item_at(item: Json, rec: usize, path: Seq<char>, expected: Seq<char>)
    ensures
        all_at(content_item_spec(item, rec, path, expected).1, rec),
{
    reveal(item_type_stage);
    reveal(item_text_stage);
    if item is Object {
        match item_type_stage(item, rec, path, expected) {
            Ok((t, f)) => {
                lemma_all_at_concat(f, item_text_stage(t, rec, path).1, rec);
            },
            Err(_) => {},
        }
    }
}

proof fn lemma_items_at(items: Seq<Json>, rec: usize, path: Seq<char>, expected: Seq<char>)
    ensures
        all_at(content_items_spec(items, rec, path, expected).1, rec),
    decreases items.len(),
{
    if items.len() > 0 {
        lemma_items_at(items.drop_last(), rec, path, expected);
        lemma_item_at(items.last(), rec, index_path(path, items.len() - 1), expected);
        lemma_all_at_concat(content_items_spec(items.drop_last(), rec, path, expected).1,
            content_item_spec(items.last(), rec, index_path(path, items.len() - 1), expected).1, rec);
    }
}

proof fn lemma_container_at(content: Json, rec: usize, path: Seq<char>, expected: Seq<char>)
    ensures
        all_at(container_spec(content, rec, path, expected).1, rec),
{
    reveal(container_spec);
    let replacement = match content {
        Json::Str(t) => Some(Json::Array(seq![text_item(expected, t)])),
        Json::Object(_) => Some(Json::Array(seq![content])),
        _ => None,
    };
    let wrapped = match replacement { Some(r) => r, None => content };
    let first = if content is Array { Seq::<IssueModel>::empty() } else {
        seq![iss(rec, path, "non-empty content array"@, Some(content), replacement is Some)]
    };
    assert(all_at(first, rec));
    match wrapped {
        Json::Array(items) => {
            if items.len() == 0 {
                lemma_all_at_push(first, iss(rec, path, "non-empty content array"@, Some(wrapped), false), rec);
            } else {
                lemma_items_at(items, rec, path, expected);
                lemma_all_at_concat(first, content_items_spec(items, rec, path, expected).1, rec);
            }
        },
        _ => {},
    }
}

proof fn lemma_message_at(message: Json, rec: usize, path: Seq<char>)
    ensures
        all_at(message_spec(message, rec, path).1, rec),
{
    reveal(message_type_stage);
    reveal(message_body_stage);
    if message is Object {
        match message_type_stage(message, rec, path) {
            Ok((m, f)) => {
                match get_str(m, "role"@) {
                    Some(role) => {
                        if known_role(role) {
                            let expected = if role == "assistant"@ { "output_text"@ } else { "input_text"@ };
                            if let Some(content) = member(m, "content"@) {
                                lemma_container_at(content, rec, path + ".content"@, expected);
                            }
                        }
                    },
                    None => {},
                }
                lemma_all_at_concat(f, message_body_stage(m, rec, path).1, rec);
            },
            Err(_) => {},
        }
    }
}

proof fn lemma_history_at(messages: Seq<Json>, rec: usize)
    ensures
        all_at(history_messages_spec(messages, rec).1, rec),
    decreases messages.len(),
{
    if messages.len() > 0 {
        let path = index_path("payload.replacement_history"@, messages.len() - 1);
        lemma_history_at(messages.drop_last(), rec);
        lemma_message_at(messages.last(), rec, path);
        lemma_all_at_concat(history_messages_spec(messages.drop_last(), rec).1, message_spec(messages.last(), rec, path).1, rec);
    }
}

proof fn lemma_compacted_at(value: Json, rec: usize)
    ensures
        all_at(compacted_spec(value, rec).1, rec),
{
    reveal(compacted_spec);
    reveal(message_text_spec);
    reveal(history_container_spec);
    match member(value, "payload"@) {
        Some(p) => {
            if p is Object {
                let (p1, a) = message_text_spec(p, rec);
                match member(p1, "replacement_history"@) {
                    None => {
                        lemma_all_at_push(a, iss(rec, "payload.replacement_history"@, "array of message objects"@, None, false), rec);
                    },
                    Some(h) => {
                        let (h1, b) = history_container_spec(h, rec);
                        lemma_all_at_concat(a, b, rec);
                        match h1 {
                            Json::Array(messages) => {
                                if messages.len() == 0 {
                                    let x = iss(rec, "payload.replacement_history"@, "non-empty array of message objects"@, Some(h1), false);
                                    lemma_all_at_push(b, x, rec);
                                    lemma_all_at_concat(a, b.push(x), rec);
                                } else {
                                    lemma_history_at(messages, rec);
                                    lemma_all_at_concat(a + b, history_messages_spec(messages, rec).1, rec);
                                }
                            },
                            _ => {},
                        }
                    },
                }
            }
        },
        None => {},
    }
}

proof fn lemma_function_call_at(payload: Json, rec: usize)
    ensures
        all_at(function_call_spec(payload, rec).1, rec),
{
    reveal(function_call_spec);
    reveal(nonempty_string_spec);
    if payload is Object {
        let i = nonempty_string_spec(payload, "call_id"@, rec, "payload.call_id"@);
        let n = nonempty_string_spec(payload, "name"@, rec, "payload.name"@);
        lemma_all_at_concat(i, n, rec);
        match member(payload, "arguments"@) {
            None => {
                lemma_all_at_push(i + n, iss(rec, "payload.arguments"@, "JSON encoded as a string"@, None, false), rec);
            },
            Some(a) => {
                if !(a is Str) {
                    lemma_all_at_push(i + n, iss(rec, "payload.arguments"@, "JSON encoded as a string"@, Some(a), true), rec);
                }
            },
        }
    }
}

proof fn lemma_tool_output_at(payload: Json, rec: usize)
    ensures
        all_at(tool_output_spec(payload, rec).1, rec),
{
    reveal(tool_output_spec);
    reveal(nonempty_string_spec);
    if payload is Object {
        let i = nonempty_string_spec(payload, "call_id"@, rec, "payload.call_id"@);
        match member(payload, "output"@) {
            None => {
                lemma_all_at_push(i, iss(rec, "payload.output"@, "string or typed content array"@, None, false), rec);
            },
            Some(o) => {
                if !(o is Str) {
                    if o is Array || (o is Object && (has_key(o, "type"@) || has_key(o, "text"@))) {
                        lemma_container_at(o, rec, "payload.output"@, "input_text"@);
                        lemma_all_at_concat(i, container_spec(o, rec, "payload.output"@, "input_text"@).1, rec);
                    } else {
                        lemma_all_at_push(i, iss(rec, "payload.output"@, "string or typed content array"@, Some(o), true), rec);
                    }
                }
            },
        }
    }
}

proof fn lemma_user_message_at(value: Json, rec: usize)
    ensures
        all_at(user_message_spec(value, rec).1, rec),
{
    reveal(user_message_spec);
    reveal(message_text_spec);
    reveal(list_field_spec);
    if let Some(p) = member(value, "payload"@) {
        if p is Object {
            let (p1, a) = message_text_spec(p, rec);
            let (p2, b) = list_field_spec(p1, "images"@, rec);
            let (p3, c) = list_field_spec(p2, "local_images"@, rec);
            let d = list_field_spec(p3, "text_elements"@, rec).1;
            lemma_all_at_concat(a, b, rec);
            lemma_all_at_concat(a + b, c, rec);
            lemma_all_at_concat(a + b + c, d, rec);
        }
    }
}

/// Every issue the check reports on a record carries that record's index.
proof fn lemma_record_at(value: Json, rec: usize)
    ensures
        all_at(record_spec(value, rec).1, rec),
{
    reveal(record_spec);
    reveal(response_item_spec);
    lemma_compacted_at(value, rec);
    lemma_user_message_at(value, rec);
    if let Some(p) = member(value, "payload"@) {
        lemma_message_at(p, rec, "payload"@);
        lemma_function_call_at(p, rec);
        lemma_tool_output_at(p, rec);
    }
}

/// A record with nothing to repair at one position, checked alone, reports
/// no repaired issue and no repaired value.
proof fn lemma_recheck_alone(r: Json, i: usize)
    requires
        !any_repaired(record_spec(r, i).1),
    ensures
        forall|m: int| 0 <= m < records_spec(seq![r]).issues.len() ==> !(#[trigger] records_spec(seq![r]).issues[m]).repaired,
        records_spec(seq![r]).repaired_values.len() == 0,
{
    lemma_record_rec_free(r, i, 0);
    let one = seq![r];
    assert(one.drop_last() =~= Seq::<Json>::empty());
    assert(one[0] == r);
    let base = records_spec(Seq::<Json>::empty());
    assert(base.issues == Seq::<IssueModel>::empty() && base.repaired_values == Seq::<(usize, Json)>::empty());
    assert(records_spec(one.drop_last()) == base);
    let is0 = record_spec(r, 0).1;
    let v0 = record_spec(r, 0).0;
    assert(records_spec(one).issues == base.issues + is0);
    assert(records_spec(one).repaired_values == (if v0 != r && any_repaired(is0) { base.repaired_values.push((0usize, v0)) } else { base.repaired_values }));
    assert(Seq::<IssueModel>::empty() + is0 =~= is0);
    assert forall|m: int| 0 <= m < is0.len() implies !(#[trigger] is0[m]).repaired by {
        if is0[m].repaired {
            assert(record_spec(r, i).1[m].repaired);
        }
    }
    if any_repaired(is0) {
        let m = choose|m: int| 0 <= m < is0.len() && #[trigger] is0[m].repaired;
        assert(!is0[m].repaired);
    }
}

/// One repair pass suffices: each record that the check repaired, checked
/// again (at its position, or alone), has nothing more to repair, so it
/// would not be repaired again (what is still reported of it is left
/// unrepaired).
pub proof fn lemma_one_repair_pass_suffices(values: Seq<Json>)
    requires
        values.len() <= usize::MAX,
    ensures
        forall|k: int| 0 <= k < records_spec(values).repaired_values.len() ==> {
            let entry = #[trigger] records_spec(values).repaired_values[k];
            &&& entry.0 < values.len()
            &&& entry.1 == record_spec(values[entry.0 as int], entry.0).0
            &&& !any_repaired(record_spec(entry.1, entry.0).1)
            &&& forall|m: int| 0 <= m < records_spec(seq![entry.1]).issues.len()
                ==> !(#[trigger] records_spec(seq![entry.1]).issues[m]).repaired
            &&& records_spec(seq![entry.1]).repaired_values.len() == 0
        },
    decreases values.len(),
{
    if values.len() > 0 {
        let init = values.drop_last();
        lemma_one_repair_pass_suffices(init);
        let n = values.len() - 1;
        let prev = records_spec(init).repaired_values;
        let now = records_spec(values).repaired_values;
        lemma_record_settles(values[n], n as usize);
        let (v, is, checked) = record_spec(values[n], n as usize);
        assert(now == (if v != values[n] && any_repaired(is) { prev.push((n as usize, v)) } else { prev }));
        assert forall|k: int| 0 <= k < now.len() implies {
            let entry = #[trigger] now[k];
            &&& entry.0 < values.len()
            &&& entry.1 == record_spec(values[entry.0 as int], entry.0).0
            &&& !any_repaired(record_spec(entry.1, entry.0).1)
            &&& forall|m: int| 0 <= m < records_spec(seq![entry.1]).issues.len()
                ==> !(#[trigger] records_spec(seq![entry.1]).issues[m]).repaired
            &&& records_spec(seq![entry.1]).repaired_values.len() == 0
        } by {
            if k < prev.len() {
                assert(now[k] == prev[k]);
                let entry = prev[k];
                assert(entry.0 < init.len());
                assert(init[entry.0 as int] == values[entry.0 as int]);
            } else {
                assert(now[k] == (n as usize, v));
                let again = record_spec(v, n as usize).1;
                if any_repaired(again) {
                    let j = choose|j: int| 0 <= j < again.len() && #[trigger] again[j].repaired;
                    assert(!again[j].repaired);
                }
                lemma_recheck_alone(v, n as usize);
            }
        }
    }
}

/// A record that the check repaired differs from what was read, and the
/// issues hold a repaired one reported for that record.
pub proof fn lemma_repaired_records_are_marked(values: Seq<Json>)
    requires
        values.len() <= usize::MAX,
    ensures
        forall|k: int| 0 <= k < records_spec(values).repaired_values.len() ==> {
            let entry = #[trigger] records_spec(values).repaired_values[k];
            &&& entry.0 < values.len()
            &&& entry.1 != values[entry.0 as int]
            &&& exists|m: int| 0 <= m < records_spec(values).issues.len() && (#[trigger] records_spec(values).issues[m]).repaired
                && records_spec(values).issues[m].record_index == entry.0
        },
    decreases values.len(),
{
    if values.len() > 0 {
        let init = values.drop_last();
        lemma_repaired_records_are_marked(init);
        let n = values.len() - 1;
        let prev = records_spec(init);
        let now = records_spec(values);
        let (v, is, checked) = record_spec(values[n], n as usize);
        lemma_record_at(values[n], n as usize);
        assert(now.issues == prev.issues + is);
        assert(now.repaired_values == (if v != values[n] && any_repaired(is) {
            prev.repaired_values.push((n as usize, v))
        } else {
            prev.repaired_values
        }));
        assert forall|k: int| 0 <= k < now.repaired_values.len() implies {
            let entry = #[trigger] now.repaired_values[k];
            &&& entry.0 < values.len()
            &&& entry.1 != values[entry.0 as int]
            &&& exists|m: int| 0 <= m < now.issues.len() && (#[trigger] now.issues[m]).repaired
                && now.issues[m].record_index == entry.0
        } by {
            if k < prev.repaired_values.len() {
                let entry = prev.repaired_values[k];
                assert(now.repaired_values[k] == entry);
                assert(init[entry.0 as int] == values[entry.0 as int]);
                let m = choose|m: int| 0 <= m < prev.issues.len() && (#[trigger] prev.issues[m]).repaired
                    && prev.issues[m].record_index == entry.0;
                assert(now.issues[m] == prev.issues[m]);
            } else {
                assert(now.repaired_values[k] == (n as usize, v));
                let j = choose|j: int| 0 <= j < is.len() && #[trigger] is[j].repaired;
                assert(now.issues[prev.issues.len() + j] == is[j]);
                assert(is[j].record_index == n as usize);
            }
        }
    }
}

pub open spec fn opt_model(v: Option<&JsonValue>) -> Option<Json> {
    match v {
        Some(x) => Some(x.model()),
        None => None,
    }
}

fn value_kind(v: Option<&JsonValue>) -> (res: &'static str)
    ensures
        res@ == kind_of(opt_model(v)),
{
    match v {
        None => "missing",
        Some(x) => x.kind_name(),
    }
}

fn text_of(s: &str) -> (res: String)
    ensures
        res@ == s@,
{
    string_of(chars_of(s).as_slice())
}

fn push_issue(issues: &mut Vec<FormatIssue>, rec: usize, path: &[char], expected: &[char], actual: Option<&JsonValue>, repaired: bool)
    ensures
        issue_models(final(issues)@) == issue_models(old(issues)@).push(iss(rec, path@, expected@, opt_model(actual), repaired)),
{
    let issue = FormatIssue {
        record_index: rec,
        path: string_of(path),
        expected: string_of(expected),
        actual: text_of(value_kind(actual)),
        repaired,
    };
    let ghost before = issues@;
    issues.push(issue);
    assert(issue_models(issues@) =~= issue_models(before).push(issue.model()));
}

fn path_with(path: &[char], suffix: &str) -> (res: Vec<char>)
    ensures
        res@ == path@ + suffix@,
{
    let mut out = copy_chars(path);
    append(&mut out, chars_of(suffix).as_slice());
    out
}

fn index_path_exec(path: &[char], i: usize) -> (res: Vec<char>)
    ensures
        res@ == index_path(path@, i as int),
{
    let mut out = copy_chars(path);
    append(&mut out, chars_of("[").as_slice());
    append(&mut out, u64_text(i as u64).as_slice());
    append(&mut out, chars_of("]").as_slice());
    out
}

/// `{"text": text, "type": item_type}`.
fn text_item_exec(item_type: &[char], text: &[char]) -> (res: JsonValue)
    ensures
        res.model() == text_item(item_type@, text@),
{
    let mut entries: Vec<(String, JsonValue)> = Vec::new();
    entries.push((text_of("text"), JsonValue::String(string_of(text))));
    entries.push((text_of("type"), JsonValue::String(string_of(item_type))));
    proof {
        lemma_entry_models(entries@);
        assert(entry_models(entries@) =~= seq![("text"@, Json::Str(text@)), ("type"@, Json::Str(item_type@))]);
    }
    JsonValue::Object(entries)
}

/// Whether a task-complete event carries an error.
pub fn is_task_error(value: &JsonValue) -> (res: bool)
    ensures
        res == is_task_error_spec(value.model()),
{
    if !value.has_str("type", "event_msg") {
        return false;
    }
    match value.get("payload") {
        None => false,
        Some(payload) => payload.has_str("type", "task_complete") && match payload.get("error") {
            Some(e) => !e.is_null(),
            None => false,
        },
    }
}


/// The plain text of a message given in another form (see `flatten_text`).
pub fn flatten_text_exec(value: &JsonValue) -> (res: Option<Vec<char>>)
    ensures
        match res {
            Some(t) => flatten_text(value.model()) == Some(t@),
            None => flatten_text(value.model()) is None,
        },
{
    match value {
        JsonValue::String(t) => Some(chars_of(t.as_str())),
        JsonValue::Array(items) => {
            proof { crate::json::lemma_models(items@); }
            let ghost ms = crate::json::models(items@);
            assert(value.model() == Json::Array(ms));
            let mut out: Vec<char> = Vec::new();
            let mut i: usize = 0;
            let ghost mut texts: Seq<Seq<char>> = Seq::empty();
            while i < items.len()
                invariant
                    i <= items@.len(),
                    ms == crate::json::models(items@),
                    ms.len() == items@.len(),
                    value.model() == Json::Array(ms),
                    forall|m: int| 0 <= m < items@.len() ==> #[trigger] ms[m] == items@[m].model(),
                    item_texts(ms.take(i as int)) == Some(texts),
                    texts.len() == i,
                    out@ == join_lines(texts),
                decreases items.len() - i,
            {
                assert(ms.take(i + 1).drop_last() =~= ms.take(i as int));
                assert(ms.take(i + 1).last() == items@[i as int].model());
                let piece: Vec<char> = match &items[i] {
                    JsonValue::String(t) => chars_of(t.as_str()),
                    JsonValue::Object(_) => match items[i].get_str("text") {
                        Some(t) => chars_of(t),
                        None => {
                            proof { lemma_item_texts_none(ms, i as int); }
                            return None;
                        },
                    },
                    _ => {
                        proof { lemma_item_texts_none(ms, i as int); }
                        return None;
                    },
                };
                if i > 0 {
                    append(&mut out, chars_of("\n").as_slice());
                }
                append(&mut out, piece.as_slice());
                proof {
                    let t2 = texts.push(piece@);
                    assert(t2.drop_last() =~= texts);
                    texts = t2;
                }
                i = i + 1;
            }
            assert(ms.take(ms.len() as int) =~= ms);
            if i == 0 {
                None
            } else {
                Some(out)
            }
        },
        JsonValue::Object(_) => match value.get_str("text") {
            Some(t) => Some(chars_of(t)),
            None => None,
        },
        _ => None,
    }
}

proof fn lemma_item_texts_none(items: Seq<Json>, i: int)
    requires
        0 <= i < items.len(),
        item_texts(items.take(i + 1)) is None,
    ensures
        item_texts(items) is None,
    decreases items.len() - i,
{
    if i + 1 < items.len() {
        assert(items.take(i + 2).drop_last() =~= items.take(i + 1));
        lemma_item_texts_none(items, i + 1);
    } else {
        assert(items.take(i + 1) =~= items);
    }
}


fn is_text(s: &[char], t: &str) -> (res: bool)
    ensures
        res == (s@ == t@),
{
    chars_eq(s, chars_of(t).as_slice())
}

#[verifier::rlimit(30)]
fn item_type_stage_exec(item: JsonValue, rec: usize, path: &[char], expected: &[char], issues: &mut Vec<FormatIssue>) -> (res: Result<JsonValue, JsonValue>)
    requires
        item.model() is Object,
    ensures
        match (res, item_type_stage(item.model(), rec, path@, expected@)) {
            (Ok(v), Ok((m, is))) => v.model() == m && issue_models(final(issues)@) == issue_models(old(issues)@) + is,
            (Err(v), Err((m, is))) => v.model() == m && issue_models(final(issues)@) == issue_models(old(issues)@) + is,
            _ => false,
        },
{
    proof { reveal(item_type_stage); }
    let ghost before = issue_models(issues@);
    let ghost im = item.model();
    let tpath = path_with(path, ".type");
    let ty: Option<Vec<char>> = match item.get_str("type") {
        Some(t) => Some(chars_of(t)),
        None => None,
    };
    let fix = match ty {
        None => item.get_str("text").is_some(),
        Some(ref t) => is_text(t.as_slice(), "text") || (is_text(t.as_slice(), "input_text") && is_text(expected, "output_text"))
            || (is_text(t.as_slice(), "output_text") && is_text(expected, "input_text")),
    };
    if fix {
        match ty {
            None => push_issue(issues, rec, tpath.as_slice(), expected, None, true),
            Some(_) => push_issue(issues, rec, tpath.as_slice(), expected, item.get("type"), true),
        }
        let fixed = set_member(item, "type", JsonValue::String(string_of(expected)));
        proof { assert(issue_models(issues@) =~= before + seq![iss(rec, tpath@, expected@, if ty is None { None } else { member(im, "type"@) }, true)]); }
        return Ok(fixed);
    }
    match ty {
        None => {
            push_issue(issues, rec, tpath.as_slice(), expected, item.get("type"), false);
            proof { assert(issue_models(issues@) =~= before + seq![iss(rec, tpath@, expected@, member(im, "type"@), false)]); }
            Err(item)
        },
        Some(t) => {
            if is_text(t.as_slice(), "input_image") && is_text(expected, "input_text") {
                if item.get_str("image_url").is_none() {
                    let p = path_with(path, ".image_url");
                    push_issue(issues, rec, p.as_slice(), chars_of("string").as_slice(), item.get("image_url"), false);
                    proof { assert(issue_models(issues@) =~= before + seq![iss(rec, p@, "string"@, member(im, "image_url"@), false)]); }
                } else {
                    assert(issue_models(issues@) =~= before + Seq::<IssueModel>::empty());
                }
                Err(item)
            } else if is_text(t.as_slice(), "refusal") && is_text(expected, "output_text") {
                if item.get_str("refusal").is_none() {
                    let p = path_with(path, ".refusal");
                    push_issue(issues, rec, p.as_slice(), chars_of("string").as_slice(), item.get("refusal"), false);
                    proof { assert(issue_models(issues@) =~= before + seq![iss(rec, p@, "string"@, member(im, "refusal"@), false)]); }
                } else {
                    assert(issue_models(issues@) =~= before + Seq::<IssueModel>::empty());
                }
                Err(item)
            } else if chars_eq(t.as_slice(), expected) {
                assert(issue_models(issues@) =~= before + Seq::<IssueModel>::empty());
                Ok(item)
            } else {
                push_issue(issues, rec, tpath.as_slice(), expected, item.get("type"), false);
                proof { assert(issue_models(issues@) =~= before + seq![iss(rec, tpath@, expected@, member(im, "type"@), false)]); }
                Err(item)
            }
        },
    }
}


fn item_text_stage_exec(item: JsonValue, rec: usize, path: &[char], issues: &mut Vec<FormatIssue>) -> (res: JsonValue)
    ensures
        res.model() == item_text_stage(item.model(), rec, path@).0,
        issue_models(final(issues)@) == issue_models(old(issues)@) + item_text_stage(item.model(), rec, path@).1,
{
    proof { reveal(item_text_stage); }
    let ghost before = issue_models(issues@);
    let ghost im = item.model();
    if item.get_str("text").is_some() {
        assert(issue_models(issues@) =~= before + Seq::<IssueModel>::empty());
        return item;
    }
    let p = path_with(path, ".text");
    let content: Option<Vec<char>> = match item.get_str("content") {
        Some(t) => Some(chars_of(t)),
        None => None,
    };
    match content {
        Some(text) => {
            push_issue(issues, rec, p.as_slice(), chars_of("string").as_slice(), item.get("text"), true);
            let removed = remove_member(item, "content");
            let res = set_member(removed, "text", JsonValue::String(string_of(text.as_slice())));
            proof { assert(issue_models(issues@) =~= before + seq![iss(rec, p@, "string"@, member(im, "text"@), true)]); }
            res
        },
        None => {
            push_issue(issues, rec, p.as_slice(), chars_of("string").as_slice(), item.get("text"), false);
            proof { assert(issue_models(issues@) =~= before + seq![iss(rec, p@, "string"@, member(im, "text"@), false)]); }
            item
        },
    }
}

/// Checks and repairs one content item (see `content_item_spec`).
pub fn normalize_content_item(item: JsonValue, rec: usize, path: &[char], expected: &[char], issues: &mut Vec<FormatIssue>) -> (res: JsonValue)
    ensures
        res.model() == content_item_spec(item.model(), rec, path@, expected@).0,
        issue_models(final(issues)@) == issue_models(old(issues)@) + content_item_spec(item.model(), rec, path@, expected@).1,
{
    let ghost before = issue_models(issues@);
    let ghost im = item.model();
    let text: Option<Vec<char>> = match item.as_str() {
        Some(t) => Some(chars_of(t)),
        None => None,
    };
    match text {
        Some(t) => {
            push_issue(issues, rec, path, chars_of("typed content object").as_slice(), Some(&item), true);
            proof { assert(issue_models(issues@) =~= before + seq![iss(rec, path@, "typed content object"@, Some(im), true)]); }
            return text_item_exec(expected, t.as_slice());
        },
        None => {},
    }
    if !item.is_object() {
        push_issue(issues, rec, path, chars_of("typed content object").as_slice(), Some(&item), false);
        proof { assert(issue_models(issues@) =~= before + seq![iss(rec, path@, "typed content object"@, Some(im), false)]); }
        return item;
    }
    match item_type_stage_exec(item, rec, path, expected, issues) {
        Err(done) => done,
        Ok(typed) => {
            let ghost mid = issue_models(issues@);
            let res = item_text_stage_exec(typed, rec, path, issues);
            proof {
                let first = match item_type_stage(im, rec, path@, expected@) { Ok((_, f)) => f, Err((_, f)) => f };
                assert(issue_models(issues@) =~= before + (first + item_text_stage(typed.model(), rec, path@).1));
            }
            res
        },
    }
}

/// Checks and repairs the items of a content array in turn.
fn normalize_content_items(items: Vec<JsonValue>, rec: usize, path: &[char], expected: &[char], issues: &mut Vec<FormatIssue>) -> (res: Vec<JsonValue>)
    ensures
        crate::json::models(res@) == content_items_spec(crate::json::models(items@), rec, path@, expected@).0,
        issue_models(final(issues)@) == issue_models(old(issues)@) + content_items_spec(crate::json::models(items@), rec, path@, expected@).1,
{
    let ghost ms = crate::json::models(items@);
    proof { crate::json::lemma_models(items@); }
    let ghost before = issue_models(issues@);
    let mut rest = items;
    let mut out: Vec<JsonValue> = Vec::new();
    let mut i: usize = 0;
    let total = rest.len();
    // Items are taken from the back and the results are reversed at the end.
    let mut rev: Vec<JsonValue> = Vec::new();
    while rest.len() > 0
        invariant
            rest@.len() + rev@.len() == total,
            total == ms.len(),
            forall|m: int| 0 <= m < rest@.len() ==> #[trigger] rest@[m].model() == ms[m],
            forall|m: int| 0 <= m < rev@.len() ==> #[trigger] rev@[m].model() == ms[total - 1 - m],
        decreases rest.len(),
    {
        let x = rest.pop().unwrap();
        rev.push(x);
    }
    assert(content_items_spec(ms.take(0), rec, path@, expected@) == (Seq::<Json>::empty(), Seq::<IssueModel>::empty()));
    assert(crate::json::models(out@) =~= Seq::<Json>::empty());
    while rev.len() > 0
        invariant
            i + rev@.len() == total,
            total == ms.len(),
            forall|m: int| 0 <= m < rev@.len() ==> #[trigger] rev@[m].model() == ms[total - 1 - m],
            crate::json::models(out@) == content_items_spec(ms.take(i as int), rec, path@, expected@).0,
            issue_models(issues@) == before + content_items_spec(ms.take(i as int), rec, path@, expected@).1,
        decreases rev.len(),
    {
        let x = rev.pop().unwrap();
        assert(x.model() == ms[i as int]);
        let p = index_path_exec(path, i);
        let ghost mid = issue_models(issues@);
        let y = normalize_content_item(x, rec, p.as_slice(), expected, issues);
        proof {
            assert(ms.take(i + 1).drop_last() =~= ms.take(i as int));
            assert(ms.take(i + 1).last() == ms[i as int]);
            crate::json::lemma_models_push(out@, y);
        }
        out.push(y);
        proof {
            let prev = content_items_spec(ms.take(i as int), rec, path@, expected@);
            assert(issue_models(issues@) =~= before + (prev.1 + content_item_spec(ms[i as int], rec, index_path(path@, i as int), expected@).1));
        }
        i = i + 1;
    }
    assert(ms.take(ms.len() as int) =~= ms);
    out
}


/// Checks and repairs a content container (see `container_spec`).
pub fn normalize_content_container(content: JsonValue, rec: usize, path: &[char], expected: &[char], issues: &mut Vec<FormatIssue>) -> (res: JsonValue)
    ensures
        res.model() == container_spec(content.model(), rec, path@, expected@).0,
        issue_models(final(issues)@) == issue_models(old(issues)@) + container_spec(content.model(), rec, path@, expected@).1,
{
    proof { reveal(container_spec); }
    let ghost before = issue_models(issues@);
    let ghost cm = content.model();
    let label = chars_of("non-empty content array");
    let wrapped: JsonValue = if content.is_array() {
        assert(issue_models(issues@) =~= before + Seq::<IssueModel>::empty());
        content
    } else {
        let text: Option<Vec<char>> = match content.as_str() {
            Some(t) => Some(chars_of(t)),
            None => None,
        };
        match text {
            Some(t) => {
                push_issue(issues, rec, path, label.as_slice(), Some(&content), true);
                let mut one: Vec<JsonValue> = Vec::new();
                one.push(text_item_exec(expected, t.as_slice()));
                proof { crate::json::lemma_models(one@); assert(crate::json::models(one@) =~= seq![text_item(expected@, t@)]); }
                JsonValue::Array(one)
            },
            None => {
                if content.is_object() {
                    push_issue(issues, rec, path, label.as_slice(), Some(&content), true);
                    let mut one: Vec<JsonValue> = Vec::new();
                    one.push(content);
                    proof { crate::json::lemma_models(one@); assert(crate::json::models(one@) =~= seq![cm]); }
                    JsonValue::Array(one)
                } else {
                    push_issue(issues, rec, path, label.as_slice(), Some(&content), false);
                    return content;
                }
            },
        }
    };
    let ghost first = issue_models(issues@).skip(before.len() as int);
    assert(issue_models(issues@) =~= before + first);
    let ghost wm = wrapped.model();
    match wrapped {
        JsonValue::Array(items) => {
            if items.len() == 0 {
                let w = JsonValue::Array(items);
                push_issue(issues, rec, path, label.as_slice(), Some(&w), false);
                proof { assert(issue_models(issues@) =~= before + first.push(iss(rec, path@, "non-empty content array"@, Some(wm), false))); }
                w
            } else {
                proof { crate::json::lemma_models(items@); }
                let fixed = normalize_content_items(items, rec, path, expected, issues);
                proof { assert(issue_models(issues@) =~= before + (first + content_items_spec(crate::json::models(items@), rec, path@, expected@).1)); }
                JsonValue::Array(fixed)
            }
        },
        other => other,
    }
}


fn message_type_stage_exec(message: JsonValue, rec: usize, path: &[char], issues: &mut Vec<FormatIssue>) -> (res: Result<JsonValue, JsonValue>)
    ensures
        match (res, message_type_stage(message.model(), rec, path@)) {
            (Ok(v), Ok((m, is))) => v.model() == m && issue_models(final(issues)@) == issue_models(old(issues)@) + is,
            (Err(v), Err((m, is))) => v.model() == m && issue_models(final(issues)@) == issue_models(old(issues)@) + is,
            _ => false,
        },
{
    proof { reveal(message_type_stage); }
    let ghost before = issue_models(issues@);
    let ghost mm = message.model();
    let tpath = path_with(path, ".type");
    if message.has_str("type", "message") {
        assert(issue_models(issues@) =~= before + Seq::<IssueModel>::empty());
        Ok(message)
    } else if message.get_str("type").is_none() && message.get("role").is_some() && message.get("content").is_some() {
        push_issue(issues, rec, tpath.as_slice(), chars_of("message").as_slice(), message.get("type"), true);
        proof { assert(issue_models(issues@) =~= before + seq![iss(rec, tpath@, "message"@, member(mm, "type"@), true)]); }
        Ok(set_member(message, "type", JsonValue::String(text_of("message"))))
    } else {
        push_issue(issues, rec, tpath.as_slice(), chars_of("message").as_slice(), message.get("type"), false);
        proof { assert(issue_models(issues@) =~= before + seq![iss(rec, tpath@, "message"@, member(mm, "type"@), false)]); }
        Err(message)
    }
}

fn message_body_stage_exec(m: JsonValue, rec: usize, path: &[char], issues: &mut Vec<FormatIssue>) -> (res: JsonValue)
    ensures
        res.model() == message_body_stage(m.model(), rec, path@).0,
        issue_models(final(issues)@) == issue_models(old(issues)@) + message_body_stage(m.model(), rec, path@).1,
{
    proof { reveal(message_body_stage); }
    let ghost before = issue_models(issues@);
    let ghost m1 = m.model();
    let role: Option<Vec<char>> = match m.get_str("role") {
        Some(r) => Some(chars_of(r)),
        None => None,
    };
    let known = match role {
        Some(ref r) => is_text(r.as_slice(), "assistant") || is_text(r.as_slice(), "user") || is_text(r.as_slice(), "developer") || is_text(r.as_slice(), "system"),
        None => false,
    };
    if !known {
        let rpath = path_with(path, ".role");
        push_issue(issues, rec, rpath.as_slice(), chars_of("assistant, user, developer, or system").as_slice(), m.get("role"), false);
        proof { assert(issue_models(issues@) =~= before + seq![iss(rec, rpath@, "assistant, user, developer, or system"@, member(m1, "role"@), false)]); }
        return m;
    }
    let expected = match role {
        Some(ref r) => if is_text(r.as_slice(), "assistant") { chars_of("output_text") } else { chars_of("input_text") },
        None => chars_of("input_text"),
    };
    let cpath = path_with(path, ".content");
    match member_copy(&m, "content") {
        None => {
            push_issue(issues, rec, cpath.as_slice(), chars_of("non-empty content array").as_slice(), None, false);
            proof { assert(issue_models(issues@) =~= before + seq![iss(rec, cpath@, "non-empty content array"@, None, false)]); }
            m
        },
        Some(content) => {
            let c = normalize_content_container(content, rec, cpath.as_slice(), expected.as_slice(), issues);
            set_member(m, "content", c)
        },
    }
}

/// Checks and repairs a message object (see `message_spec`).
pub fn diagnose_message(message: JsonValue, rec: usize, path: &[char], issues: &mut Vec<FormatIssue>) -> (res: JsonValue)
    ensures
        res.model() == message_spec(message.model(), rec, path@).0,
        issue_models(final(issues)@) == issue_models(old(issues)@) + message_spec(message.model(), rec, path@).1,
{
    let ghost before = issue_models(issues@);
    let ghost mm = message.model();
    if !message.is_object() {
        push_issue(issues, rec, path, chars_of("message object").as_slice(), Some(&message), false);
        proof { assert(issue_models(issues@) =~= before + seq![iss(rec, path@, "message object"@, Some(mm), false)]); }
        return message;
    }
    match message_type_stage_exec(message, rec, path, issues) {
        Err(done) => done,
        Ok(m) => {
            let ghost first = issue_models(issues@).skip(before.len() as int);
            assert(issue_models(issues@) =~= before + first);
            let ghost m1 = m.model();
            let r = message_body_stage_exec(m, rec, path, issues);
            proof { assert(issue_models(issues@) =~= before + (first + message_body_stage(m1, rec, path@).1)); }
            r
        },
    }
}


fn utf8_of(s: &str) -> (res: Vec<u8>)
    ensures
        res@ == encode_utf8(s@),
{
    let b = s.as_bytes();
    let mut out: Vec<u8> = Vec::new();
    let mut i: usize = 0;
    while i < b.len()
        invariant
            i <= b@.len(),
            out@ == b@.take(i as int),
        decreases b.len() - i,
    {
        out.push(b[i]);
        assert(b@.take(i + 1) =~= b@.take(i as int).push(b@[i as int]));
        i = i + 1;
    }
    assert(b@.take(b@.len() as int) =~= b@);
    out
}

fn one_item(v: JsonValue) -> (res: JsonValue)
    ensures
        res.model() == Json::Array(seq![v.model()]),
{
    let mut one: Vec<JsonValue> = Vec::new();
    one.push(v);
    proof { crate::json::lemma_models(one@); assert(crate::json::models(one@) =~= seq![one@[0].model()]); }
    JsonValue::Array(one)
}

/// The replacement history as an array (see `history_container_spec`).
pub fn normalize_history_container(history: JsonValue, rec: usize, issues: &mut Vec<FormatIssue>) -> (res: JsonValue)
    ensures
        res.model() == history_container_spec(history.model(), rec).0,
        issue_models(final(issues)@) == issue_models(old(issues)@) + history_container_spec(history.model(), rec).1,
{
    proof { reveal(history_container_spec); }
    let ghost before = issue_models(issues@);
    let ghost hm = history.model();
    if history.is_array() {
        assert(issue_models(issues@) =~= before + Seq::<IssueModel>::empty());
        return history;
    }
    let path = chars_of("payload.replacement_history");
    let label = chars_of("array of message objects");
    let replacement: Option<JsonValue> = match &history {
        JsonValue::String(encoded) => match parse_json(utf8_of(encoded.as_str()).as_slice()) {
            Some(v) => if v.is_array() {
                Some(v)
            } else if v.is_object() {
                Some(one_item(v))
            } else {
                None
            },
            None => None,
        },
        JsonValue::Object(_) => Some(one_item(history.deep_clone())),
        _ => None,
    };
    push_issue(issues, rec, path.as_slice(), label.as_slice(), Some(&history), replacement.is_some());
    proof { assert(issue_models(issues@) =~= before + history_container_spec(hm, rec).1); }
    match replacement {
        Some(r) => r,
        None => history,
    }
}

/// The `message` member as a string (see `message_text_spec`).
fn message_text_exec(payload: JsonValue, rec: usize, issues: &mut Vec<FormatIssue>) -> (res: JsonValue)
    ensures
        res.model() == message_text_spec(payload.model(), rec).0,
        issue_models(final(issues)@) == issue_models(old(issues)@) + message_text_spec(payload.model(), rec).1,
{
    proof { reveal(message_text_spec); }
    let ghost before = issue_models(issues@);
    let path = chars_of("payload.message");
    let label = chars_of("string");
    match payload.get("message") {
        None => {
            push_issue(issues, rec, path.as_slice(), label.as_slice(), None, false);
            proof { assert(issue_models(issues@) =~= before + seq![iss(rec, "payload.message"@, "string"@, None, false)]); }
            payload
        },
        Some(m) => {
            if m.is_string() {
                assert(issue_models(issues@) =~= before + Seq::<IssueModel>::empty());
                return payload;
            }
            let flat = flatten_text_exec(m);
            push_issue(issues, rec, path.as_slice(), label.as_slice(), Some(m), flat.is_some());
            proof { assert(issue_models(issues@) =~= before + message_text_spec(payload.model(), rec).1); }
            match flat {
                Some(t) => set_member(payload, "message", JsonValue::String(string_of(t.as_slice()))),
                None => payload,
            }
        },
    }
}

/// Each message of a replacement history in turn.
fn diagnose_history_messages(messages: Vec<JsonValue>, rec: usize, issues: &mut Vec<FormatIssue>) -> (res: Vec<JsonValue>)
    ensures
        crate::json::models(res@) == history_messages_spec(crate::json::models(messages@), rec).0,
        issue_models(final(issues)@) == issue_models(old(issues)@) + history_messages_spec(crate::json::models(messages@), rec).1,
{
    let ghost ms = crate::json::models(messages@);
    proof { crate::json::lemma_models(messages@); }
    let ghost before = issue_models(issues@);
    let mut rest = messages;
    let mut out: Vec<JsonValue> = Vec::new();
    let mut i: usize = 0;
    let total = rest.len();
    let mut rev: Vec<JsonValue> = Vec::new();
    while rest.len() > 0
        invariant
            rest@.len() + rev@.len() == total,
            total == ms.len(),
            forall|m: int| 0 <= m < rest@.len() ==> #[trigger] rest@[m].model() == ms[m],
            forall|m: int| 0 <= m < rev@.len() ==> #[trigger] rev@[m].model() == ms[total - 1 - m],
        decreases rest.len(),
    {
        let x = rest.pop().unwrap();
        rev.push(x);
    }
    assert(history_messages_spec(ms.take(0), rec) == (Seq::<Json>::empty(), Seq::<IssueModel>::empty()));
    assert(crate::json::models(out@) =~= Seq::<Json>::empty());
    let base = chars_of("payload.replacement_history");
    while rev.len() > 0
        invariant
            i + rev@.len() == total,
            total == ms.len(),
            base@ == "payload.replacement_history"@,
            forall|m: int| 0 <= m < rev@.len() ==> #[trigger] rev@[m].model() == ms[total - 1 - m],
            crate::json::models(out@) == history_messages_spec(ms.take(i as int), rec).0,
            issue_models(issues@) == before + history_messages_spec(ms.take(i as int), rec).1,
        decreases rev.len(),
    {
        let x = rev.pop().unwrap();
        assert(x.model() == ms[i as int]);
        let p = index_path_exec(base.as_slice(), i);
        let y = diagnose_message(x, rec, p.as_slice(), issues);
        proof {
            assert(ms.take(i + 1).drop_last() =~= ms.take(i as int));
            assert(ms.take(i + 1).last() == ms[i as int]);
            crate::json::lemma_models_push(out@, y);
        }
        out.push(y);
        proof {
            let prev = history_messages_spec(ms.take(i as int), rec);
            assert(issue_models(issues@) =~= before + (prev.1 + message_spec(ms[i as int], rec, index_path("payload.replacement_history"@, i as int)).1));
        }
        i = i + 1;
    }
    assert(ms.take(ms.len() as int) =~= ms);
    out
}


/// Checks and repairs a compacted record (see `compacted_spec`).
#[verifier::rlimit(30)]
pub fn diagnose_compacted(value: JsonValue, rec: usize, issues: &mut Vec<FormatIssue>) -> (res: JsonValue)
    ensures
        res.model() == compacted_spec(value.model(), rec).0,
        issue_models(final(issues)@) == issue_models(old(issues)@) + compacted_spec(value.model(), rec).1,
{
    proof { reveal(compacted_spec); }
    let ghost before = issue_models(issues@);
    let ghost vm = value.model();
    let payload = match member_copy(&value, "payload") {
        Some(p) => p,
        None => {
            push_issue(issues, rec, chars_of("payload").as_slice(), chars_of("object").as_slice(), None, false);
            proof { assert(issue_models(issues@) =~= before + seq![iss(rec, "payload"@, "object"@, None, false)]); }
            return value;
        },
    };
    if !payload.is_object() {
        push_issue(issues, rec, chars_of("payload").as_slice(), chars_of("object").as_slice(), Some(&payload), false);
        proof { assert(issue_models(issues@) =~= before + seq![iss(rec, "payload"@, "object"@, member(vm, "payload"@), false)]); }
        return value;
    }
    let ghost pm = payload.model();
    let p1 = message_text_exec(payload, rec, issues);
    let ghost first = message_text_spec(pm, rec).1;
    let ghost p1m = p1.model();
    let hpath = chars_of("payload.replacement_history");
    let history = match member_copy(&p1, "replacement_history") {
        Some(h) => h,
        None => {
            push_issue(issues, rec, hpath.as_slice(), chars_of("array of message objects").as_slice(), None, false);
            proof { assert(issue_models(issues@) =~= before + first.push(iss(rec, "payload.replacement_history"@, "array of message objects"@, None, false))); }
            return set_member(value, "payload", p1);
        },
    };
    let ghost hm = history.model();
    let h1 = normalize_history_container(history, rec, issues);
    let ghost second = history_container_spec(hm, rec).1;
    let ghost h1m = h1.model();
    assert(issue_models(issues@) =~= before + (first + second));
    match h1 {
        JsonValue::Array(messages) => {
            if messages.len() == 0 {
                let h = JsonValue::Array(messages);
                push_issue(issues, rec, hpath.as_slice(), chars_of("non-empty array of message objects").as_slice(), Some(&h), false);
                proof { assert(issue_models(issues@) =~= before + (first + second.push(iss(rec, "payload.replacement_history"@, "non-empty array of message objects"@, Some(h1m), false)))); }
                let p2 = set_member(p1, "replacement_history", h);
                set_member(value, "payload", p2)
            } else {
                proof { crate::json::lemma_models(messages@); }
                let ghost mm = crate::json::models(messages@);
                let fixed = diagnose_history_messages(messages, rec, issues);
                proof { assert(issue_models(issues@) =~= before + (first + second + history_messages_spec(mm, rec).1)); }
                let p2 = set_member(p1, "replacement_history", JsonValue::Array(fixed));
                set_member(value, "payload", p2)
            }
        },
        other => {
            let p2 = set_member(p1, "replacement_history", other);
            set_member(value, "payload", p2)
        },
    }
}


fn require_nonempty_string(payload: &JsonValue, key: &str, rec: usize, path: &str, issues: &mut Vec<FormatIssue>)
    ensures
        issue_models(final(issues)@) == issue_models(old(issues)@) + nonempty_string_spec(payload.model(), key@, rec, path@),
{
    proof { reveal(nonempty_string_spec); }
    let ghost before = issue_models(issues@);
    let ok = match payload.get_str(key) {
        Some(s) => chars_of(s).len() > 0,
        None => false,
    };
    if !ok {
        push_issue(issues, rec, chars_of(path).as_slice(), chars_of("non-empty string").as_slice(), payload.get(key), false);
        assert(issue_models(issues@) =~= before + nonempty_string_spec(payload.model(), key@, rec, path@));
    } else {
        assert(issue_models(issues@) =~= before + nonempty_string_spec(payload.model(), key@, rec, path@));
    }
}


/// Checks and repairs a function call payload (see `function_call_spec`).
pub fn diagnose_function_call(payload: JsonValue, rec: usize, issues: &mut Vec<FormatIssue>) -> (res: JsonValue)
    ensures
        res.model() == function_call_spec(payload.model(), rec).0,
        issue_models(final(issues)@) == issue_models(old(issues)@) + function_call_spec(payload.model(), rec).1,
{
    proof { reveal(function_call_spec); }
    let ghost before = issue_models(issues@);
    let ghost pm = payload.model();
    if !payload.is_object() {
        assert(issue_models(issues@) =~= before + Seq::<IssueModel>::empty());
        return payload;
    }
    require_nonempty_string(&payload, "call_id", rec, "payload.call_id", issues);
    require_nonempty_string(&payload, "name", rec, "payload.name", issues);
    let ghost first = nonempty_string_spec(pm, "call_id"@, rec, "payload.call_id"@) + nonempty_string_spec(pm, "name"@, rec, "payload.name"@);
    assert(issue_models(issues@) =~= before + first);
    let apath = chars_of("payload.arguments");
    let label = chars_of("JSON encoded as a string");
    match payload.get("arguments") {
        None => {
            push_issue(issues, rec, apath.as_slice(), label.as_slice(), None, false);
            proof { assert(issue_models(issues@) =~= before + first.push(iss(rec, "payload.arguments"@, "JSON encoded as a string"@, None, false))); }
            payload
        },
        Some(a) => {
            if a.is_string() {
                return payload;
            }
            let text = to_json_text(a);
            push_issue(issues, rec, apath.as_slice(), label.as_slice(), Some(a), true);
            proof { assert(issue_models(issues@) =~= before + first.push(iss(rec, "payload.arguments"@, "JSON encoded as a string"@, member(pm, "arguments"@), true))); }
            set_member(payload, "arguments", JsonValue::String(text))
        },
    }
}

/// Checks and repairs a tool output payload (see `tool_output_spec`).
#[verifier::rlimit(30)]
pub fn diagnose_tool_output(payload: JsonValue, rec: usize, issues: &mut Vec<FormatIssue>) -> (res: JsonValue)
    ensures
        res.model() == tool_output_spec(payload.model(), rec).0,
        issue_models(final(issues)@) == issue_models(old(issues)@) + tool_output_spec(payload.model(), rec).1,
{
    proof { reveal(tool_output_spec); }
    let ghost before = issue_models(issues@);
    let ghost pm = payload.model();
    if !payload.is_object() {
        assert(issue_models(issues@) =~= before + Seq::<IssueModel>::empty());
        return payload;
    }
    require_nonempty_string(&payload, "call_id", rec, "payload.call_id", issues);
    let ghost first = nonempty_string_spec(pm, "call_id"@, rec, "payload.call_id"@);
    let opath = chars_of("payload.output");
    let label = chars_of("string or typed content array");
    let output = match member_copy(&payload, "output") {
        None => {
            push_issue(issues, rec, opath.as_slice(), label.as_slice(), None, false);
            proof { assert(issue_models(issues@) =~= before + first.push(iss(rec, "payload.output"@, "string or typed content array"@, None, false))); }
            return payload;
        },
        Some(o) => o,
    };
    let ghost om = output.model();
    if output.is_string() {
        return payload;
    }
    let typed = output.is_array() || (output.is_object() && (output.get("type").is_some() || output.get("text").is_some()));
    if typed {
        let o1 = normalize_content_container(output, rec, opath.as_slice(), chars_of("input_text").as_slice(), issues);
        proof { assert(issue_models(issues@) =~= before + (first + container_spec(om, rec, "payload.output"@, "input_text"@).1)); }
        set_member(payload, "output", o1)
    } else {
        let text = to_json_text(&output);
        push_issue(issues, rec, opath.as_slice(), label.as_slice(), Some(&output), true);
        proof { assert(issue_models(issues@) =~= before + first.push(iss(rec, "payload.output"@, "string or typed content array"@, Some(om), true))); }
        set_member(payload, "output", JsonValue::String(text))
    }
}

/// Checks and repairs a response item (see `response_item_spec`).
pub fn diagnose_response_item(value: JsonValue, rec: usize, issues: &mut Vec<FormatIssue>) -> (res: (JsonValue, bool))
    ensures
        res.0.model() == response_item_spec(value.model(), rec).0,
        issue_models(final(issues)@) == issue_models(old(issues)@) + response_item_spec(value.model(), rec).1,
        res.1 == response_item_spec(value.model(), rec).2,
{
    proof { reveal(response_item_spec); }
    let ghost before = issue_models(issues@);
    let ghost vm = value.model();
    let payload = match member_copy(&value, "payload") {
        None => {
            push_issue(issues, rec, chars_of("payload").as_slice(), chars_of("object").as_slice(), None, false);
            proof { assert(issue_models(issues@) =~= before + seq![iss(rec, "payload"@, "object"@, None, false)]); }
            return (value, true);
        },
        Some(p) => p,
    };
    let ghost pm = payload.model();
    let kind: Option<Vec<char>> = match payload.get_str("type") {
        Some(t) => Some(chars_of(t)),
        None => None,
    };
    match kind {
        None => {
            assert(issue_models(issues@) =~= before + Seq::<IssueModel>::empty());
            (value, false)
        },
        Some(t) => {
            if is_text(t.as_slice(), "message") {
                let p1 = diagnose_message(payload, rec, chars_of("payload").as_slice(), issues);
                (set_member(value, "payload", p1), true)
            } else if is_text(t.as_slice(), "function_call") {
                let p1 = diagnose_function_call(payload, rec, issues);
                (set_member(value, "payload", p1), true)
            } else if is_text(t.as_slice(), "function_call_output") || is_text(t.as_slice(), "custom_tool_call_output") {
                let p1 = diagnose_tool_output(payload, rec, issues);
                (set_member(value, "payload", p1), true)
            } else {
                assert(issue_models(issues@) =~= before + Seq::<IssueModel>::empty());
                (value, false)
            }
        },
    }
}

fn list_field_exec(payload: JsonValue, field: &str, rec: usize, issues: &mut Vec<FormatIssue>) -> (res: JsonValue)
    ensures
        res.model() == list_field_spec(payload.model(), field@, rec).0,
        issue_models(final(issues)@) == issue_models(old(issues)@) + list_field_spec(payload.model(), field@, rec).1,
{
    proof { reveal(list_field_spec); }
    let ghost before = issue_models(issues@);
    match payload.get(field) {
        None => {
            assert(issue_models(issues@) =~= before + Seq::<IssueModel>::empty());
            payload
        },
        Some(v) => {
            if v.is_array() {
                assert(issue_models(issues@) =~= before + Seq::<IssueModel>::empty());
                return payload;
            }
            let null = v.is_null();
            assert(null == (v.model() == Json::Null));
            let p = path_with(chars_of("payload.").as_slice(), field);
            push_issue(issues, rec, p.as_slice(), chars_of("array").as_slice(), Some(v), null);
            proof { assert(issue_models(issues@) =~= before + list_field_spec(payload.model(), field@, rec).1); }
            if null {
                set_member(payload, field, JsonValue::Array(Vec::new()))
            } else {
                payload
            }
        },
    }
}

/// Checks and repairs a user message event (see `user_message_spec`).
pub fn diagnose_user_message(value: JsonValue, rec: usize, issues: &mut Vec<FormatIssue>) -> (res: JsonValue)
    ensures
        res.model() == user_message_spec(value.model(), rec).0,
        issue_models(final(issues)@) == issue_models(old(issues)@) + user_message_spec(value.model(), rec).1,
{
    proof { reveal(user_message_spec); }
    let ghost before = issue_models(issues@);
    let payload = match member_copy(&value, "payload") {
        Some(p) => p,
        None => {
            assert(issue_models(issues@) =~= before + Seq::<IssueModel>::empty());
            return value;
        },
    };
    if !payload.is_object() {
        assert(issue_models(issues@) =~= before + Seq::<IssueModel>::empty());
        return value;
    }
    let ghost p0 = payload.model();
    let p1 = message_text_exec(payload, rec, issues);
    let ghost p1m = p1.model();
    let p2 = list_field_exec(p1, "images", rec, issues);
    let ghost p2m = p2.model();
    let p3 = list_field_exec(p2, "local_images", rec, issues);
    let ghost p3m = p3.model();
    let p4 = list_field_exec(p3, "text_elements", rec, issues);
    proof {
        assert(issue_models(issues@) =~= before + (message_text_spec(p0, rec).1 + list_field_spec(p1m, "images"@, rec).1
            + list_field_spec(p2m, "local_images"@, rec).1 + list_field_spec(p3m, "text_elements"@, rec).1));
    }
    set_member(value, "payload", p4)
}


/// Checks and repairs one record (see `record_spec`).
pub fn diagnose_record(value: JsonValue, rec: usize, issues: &mut Vec<FormatIssue>) -> (res: (JsonValue, bool))
    ensures
        res.0.model() == record_spec(value.model(), rec).0,
        issue_models(final(issues)@) == issue_models(old(issues)@) + record_spec(value.model(), rec).1,
        res.1 == record_spec(value.model(), rec).2,
{
    proof { reveal(record_spec); }
    let ghost before = issue_models(issues@);
    let kind: Option<Vec<char>> = match value.get_str("type") {
        Some(t) => Some(chars_of(t)),
        None => None,
    };
    match kind {
        None => {
            assert(issue_models(issues@) =~= before + Seq::<IssueModel>::empty());
            (value, false)
        },
        Some(t) => {
            if is_text(t.as_slice(), "compacted") {
                (diagnose_compacted(value, rec, issues), true)
            } else if is_text(t.as_slice(), "response_item") {
                diagnose_response_item(value, rec, issues)
            } else if is_text(t.as_slice(), "event_msg") && match value.get("payload") {
                Some(p) => p.has_str("type", "user_message"),
                None => false,
            } {
                (diagnose_user_message(value, rec, issues), true)
            } else {
                assert(issue_models(issues@) =~= before + Seq::<IssueModel>::empty());
                (value, false)
            }
        },
    }
}

pub struct DiagnosisModel {
    pub checked_records: nat,
    pub issues: Seq<IssueModel>,
    pub repaired_values: Seq<(usize, Json)>,
}

pub open spec fn any_repaired(issues: Seq<IssueModel>) -> bool {
    exists|k: int| 0 <= k < issues.len() && #[trigger] issues[k].repaired
}

/// All records in order: how many were checked, every issue, and the
/// repaired copy of each record that a repair changed.
pub open spec fn records_spec(values: Seq<Json>) -> DiagnosisModel
    decreases values.len(),
{
    if values.len() == 0 {
        DiagnosisModel { checked_records: 0, issues: Seq::empty(), repaired_values: Seq::empty() }
    } else {
        let prev = records_spec(values.drop_last());
        let i = values.len() - 1;
        let (v, is, checked) = record_spec(values[i], i as usize);
        DiagnosisModel {
            checked_records: prev.checked_records + if checked { 1nat } else { 0nat },
            issues: prev.issues + is,
            repaired_values: if v != values[i] && any_repaired(is) {
                prev.repaired_values.push((i as usize, v))
            } else {
                prev.repaired_values
            },
        }
    }
}

/// The result of checking a rollout's records.
pub struct MessageDiagnosis {
    pub checked_records: usize,
    pub issues: Vec<FormatIssue>,
    /// `(record index, repaired record)`, by increasing index.
    pub repaired_values: Vec<(usize, JsonValue)>,
}

pub open spec fn repaired_models(r: Seq<(usize, JsonValue)>) -> Seq<(usize, Json)> {
    r.map_values(|p: (usize, JsonValue)| (p.0, p.1.model()))
}

impl MessageDiagnosis {
    pub open spec fn model(&self) -> DiagnosisModel {
        DiagnosisModel {
            checked_records: self.checked_records as nat,
            issues: issue_models(self.issues@),
            repaired_values: repaired_models(self.repaired_values@),
        }
    }

    /// How many records were repaired.
    pub fn repaired_records(&self) -> (res: usize)
        ensures
            res == self.repaired_values@.len(),
    {
        self.repaired_values.len()
    }

    /// How many issues were not repaired.
    pub fn unrepaired_issues(&self) -> (res: usize)
        ensures
            res == unrepaired_count(issue_models(self.issues@)),
    {
        let ghost im = issue_models(self.issues@);
        let mut n: usize = 0;
        let mut i: usize = 0;
        while i < self.issues.len()
            invariant
                i <= self.issues@.len(),
                im == issue_models(self.issues@),
                n == unrepaired_count(im.take(i as int)),
                n <= i,
            decreases self.issues.len() - i,
        {
            assert(im.take(i + 1).drop_last() =~= im.take(i as int));
            if !self.issues[i].repaired {
                n = n + 1;
            }
            i = i + 1;
        }
        assert(im.take(im.len() as int) =~= im);
        n
    }

    /// The repaired copy of a record, if it was repaired.
    pub fn repaired_value(&self, record_index: usize) -> (res: Option<&JsonValue>)
        ensures
            match res {
                Some(v) => exists|k: int| 0 <= k < self.repaired_values@.len() && self.repaired_values@[k].0 == record_index
                    && #[trigger] self.repaired_values@[k].1 == *v,
                None => forall|k: int| 0 <= k < self.repaired_values@.len() ==> #[trigger] self.repaired_values@[k].0 != record_index,
            },
    {
        let mut k: usize = 0;
        while k < self.repaired_values.len()
            invariant
                k <= self.repaired_values@.len(),
                forall|j: int| 0 <= j < k ==> #[trigger] self.repaired_values@[j].0 != record_index,
            decreases self.repaired_values.len() - k,
        {
            if self.repaired_values[k].0 == record_index {
                return Some(&self.repaired_values[k].1);
            }
            k = k + 1;
        }
        None
    }
}

pub open spec fn unrepaired_count(issues: Seq<IssueModel>) -> nat
    decreases issues.len(),
{
    if issues.len() == 0 {
        0
    } else {
        unrepaired_count(issues.drop_last()) + if issues.last().repaired { 0nat } else { 1nat }
    }
}

/// Checks every record (see `records_spec`).
pub fn diagnose_records(values: &Vec<JsonValue>) -> (res: MessageDiagnosis)
    ensures
        res.model() == records_spec(crate::json::models(values@)),
{
    let ghost vm = crate::json::models(values@);
    proof { crate::json::lemma_models(values@); }
    let mut checked: usize = 0;
    let mut issues: Vec<FormatIssue> = Vec::new();
    let mut repaired: Vec<(usize, JsonValue)> = Vec::new();
    let mut i: usize = 0;
    assert(issue_models(issues@) =~= Seq::<IssueModel>::empty());
    assert(repaired_models(repaired@) =~= Seq::<(usize, Json)>::empty());
    while i < values.len()
        invariant
            i <= values@.len(),
            vm == crate::json::models(values@),
            vm.len() == values@.len(),
            forall|m: int| 0 <= m < values@.len() ==> #[trigger] vm[m] == values@[m].model(),
            checked <= i,
            checked as nat == records_spec(vm.take(i as int)).checked_records,
            issue_models(issues@) == records_spec(vm.take(i as int)).issues,
            repaired_models(repaired@) == records_spec(vm.take(i as int)).repaired_values,
        decreases values.len() - i,
    {
        let ghost before = issue_models(issues@);
        let start = issues.len();
        let original = &values[i];
        let (value, was_checked) = diagnose_record(original.deep_clone(), i, &mut issues);
        proof {
            assert(vm.take(i + 1).drop_last() =~= vm.take(i as int));
            assert(vm.take(i + 1)[i as int] == original.model());
        }
        let ghost is = record_spec(original.model(), i).1;
        assert(issue_models(issues@).len() == issues@.len());
        assert(before.len() == start);
        let mut any = false;
        let mut k = start;
        while k < issues.len()
            invariant
                start <= k <= issues@.len(),
                start == before.len(),
                issue_models(issues@) == before + is,
                issues@.len() == start + is.len(),
                any == exists|j: int| 0 <= j < k - start && #[trigger] is[j].repaired,
            decreases issues.len() - k,
        {
            assert(issue_models(issues@)[k as int] == is[k - start]);
            assert(issue_models(issues@)[k as int] == issues@[k as int].model());
            let ghost old_any = any;
            if issues[k].repaired {
                any = true;
            }
            proof {
                if old_any {
                    let j = choose|j: int| 0 <= j < k - start && #[trigger] is[j].repaired;
                    assert(0 <= j < k + 1 - start && is[j].repaired);
                }
                if any && !old_any {
                    assert(is[k - start].repaired);
                }
                if !any {
                    assert forall|j: int| 0 <= j < k + 1 - start implies !#[trigger] is[j].repaired by {
                        if j < k - start {
                        }
                    }
                }
            }
            k = k + 1;
        }
        if was_checked {
            checked = checked + 1;
        }
        let changed = !crate::json::json_equal(&value, original);
        if changed && any {
            let ghost rb = repaired_models(repaired@);
            repaired.push((i, value));
            proof { assert(repaired_models(repaired@) =~= rb.push((i, record_spec(original.model(), i).0))); }
        }
        i = i + 1;
    }
    assert(vm.take(vm.len() as int) =~= vm);
    MessageDiagnosis { checked_records: checked, issues, repaired_values: repaired }
}


pub open spec fn json_count(n: int) -> Json {
    Json::Number(decimal_text(n as nat), Some(n as u64))
}

fn entry(key: &str, value: JsonValue) -> (res: (String, JsonValue))
    ensures
        res.0@ == key@,
        res.1 == value,
{
    (text_of(key), value)
}

/// An issue as reported: `line` counts records from one.
pub open spec fn issue_json(i: IssueModel) -> Json {
    Json::Object(seq![
        ("actual"@, Json::Str(i.actual)),
        ("expected"@, Json::Str(i.expected)),
        ("line"@, json_count(i.record_index + 1)),
        ("path"@, Json::Str(i.path)),
        ("repaired"@, Json::Bool(i.repaired)),
    ])
}

impl FormatIssue {
    pub fn as_json(&self) -> (res: JsonValue)
        requires
            self.record_index < u64::MAX,
        ensures
            res.model() == issue_json(self.model()),
    {
        let line = self.record_index as u64 + 1;
        let mut entries: Vec<(String, JsonValue)> = Vec::new();
        entries.push(entry("actual", JsonValue::String(text_of(self.actual.as_str()))));
        entries.push(entry("expected", JsonValue::String(text_of(self.expected.as_str()))));
        entries.push(entry("line", JsonValue::Number(JsonNumber { text: string_of(u64_text(line).as_slice()), unsigned: Some(line) })));
        entries.push(entry("path", JsonValue::String(text_of(self.path.as_str()))));
        entries.push(entry("repaired", JsonValue::Bool(self.repaired)));
        proof {
            lemma_entry_models(entries@);
            assert(entry_models(entries@) =~= seq![
                ("actual"@, Json::Str(self.actual@)),
                ("expected"@, Json::Str(self.expected@)),
                ("line"@, json_count(self.record_index + 1)),
                ("path"@, Json::Str(self.path@)),
                ("repaired"@, Json::Bool(self.repaired)),
            ]);
        }
        JsonValue::Object(entries)
    }
}

/// The outcome of a live probe of the model.
pub struct LiveProbeResult {
    pub attempted: bool,
    pub succeeded: bool,
    pub status: String,
}

pub open spec fn probe_json(attempted: bool, succeeded: bool, status: Seq<char>) -> Json {
    Json::Object(seq![
        ("attempted"@, Json::Bool(attempted)),
        ("status"@, Json::Str(status)),
        ("succeeded"@, Json::Bool(succeeded)),
    ])
}

impl LiveProbeResult {
    pub fn not_requested() -> (res: Self)
        ensures
            !res.attempted,
            !res.succeeded,
            res.status@ == "not_requested"@,
    {
        LiveProbeResult { attempted: false, succeeded: false, status: text_of("not_requested") }
    }

    pub fn as_json(&self) -> (res: JsonValue)
        ensures
            res.model() == probe_json(self.attempted, self.succeeded, self.status@),
    {
        let mut entries: Vec<(String, JsonValue)> = Vec::new();
        entries.push(entry("attempted", JsonValue::Bool(self.attempted)));
        entries.push(entry("status", JsonValue::String(text_of(self.status.as_str()))));
        entries.push(entry("succeeded", JsonValue::Bool(self.succeeded)));
        proof {
            lemma_entry_models(entries@);
            assert(entry_models(entries@) =~= seq![
                ("attempted"@, Json::Bool(self.attempted)),
                ("status"@, Json::Str(self.status@)),
                ("succeeded"@, Json::Bool(self.succeeded)),
            ]);
        }
        JsonValue::Object(entries)
    }
}

/// Decimal text of an integer, with a minus sign when negative.
pub open spec fn int_text(n: int) -> Seq<char> {
    if n < 0 { "-"@ + decimal_text((-n) as nat) } else { decimal_text(n as nat) }
}

/// What the probe loop observed.
pub enum ProbeEvent {
    /// The probe exited; `code` is its exit code when it has one.
    Exited { success: bool, code: Option<i32> },
    /// The probe is still running.
    Running { timed_out: bool },
    /// Waiting for the probe failed with an error of this kind.
    WaitFailed { kind: String },
}

/// What to do next: wait and look again, or stop (killing the probe unless it
/// exited) with this result.
pub enum ProbeStep {
    Wait,
    Finish { kill: bool, result: LiveProbeResult },
}

pub open spec fn probe_step_spec(event: ProbeEvent) -> Option<(bool, bool, Seq<char>)> {
    match event {
        ProbeEvent::Exited { success, code } => if success {
            Some((false, true, "succeeded"@))
        } else {
            Some((false, false, "probe_exit:"@ + int_text(match code { Some(c) => c as int, None => -1 })))
        },
        ProbeEvent::Running { timed_out } => if timed_out { Some((true, false, "timed_out"@)) } else { None },
        ProbeEvent::WaitFailed { kind } => Some((true, false, "probe_wait_failed:"@ + kind@)),
    }
}

fn int_text_exec(n: i32) -> (res: Vec<char>)
    ensures
        res@ == int_text(n as int),
{
    if n < 0 {
        let mut out = chars_of("-");
        let m: u64 = (-(n as i64)) as u64;
        append(&mut out, u64_text(m).as_slice());
        out
    } else {
        u64_text(n as u64)
    }
}

/// One step of the live probe loop: `(kill, succeeded, status)` when it ends.
pub fn probe_step(event: ProbeEvent) -> (res: ProbeStep)
    ensures
        match (res, probe_step_spec(event)) {
            (ProbeStep::Wait, None) => true,
            (ProbeStep::Finish { kill, result }, Some((k, s, st))) => kill == k && result.attempted && result.succeeded == s && result.status@ == st,
            _ => false,
        },
{
    match event {
        ProbeEvent::Exited { success, code } => {
            if success {
                ProbeStep::Finish { kill: false, result: LiveProbeResult { attempted: true, succeeded: true, status: text_of("succeeded") } }
            } else {
                let c: i32 = match code { Some(c) => c, None => -1 };
                let mut out = chars_of("probe_exit:");
                append(&mut out, int_text_exec(c).as_slice());
                ProbeStep::Finish { kill: false, result: LiveProbeResult { attempted: true, succeeded: false, status: string_of(out.as_slice()) } }
            }
        },
        ProbeEvent::Running { timed_out } => {
            if timed_out {
                ProbeStep::Finish { kill: true, result: LiveProbeResult { attempted: true, succeeded: false, status: text_of("timed_out") } }
            } else {
                ProbeStep::Wait
            }
        },
        ProbeEvent::WaitFailed { kind } => {
            let mut out = chars_of("probe_wait_failed:");
            append(&mut out, chars_of(kind.as_str()).as_slice());
            ProbeStep::Finish { kill: true, result: LiveProbeResult { attempted: true, succeeded: false, status: string_of(out.as_slice()) } }
        },
    }
}

/// The result when the probe could not be set up or started: `prefix` is
/// `probe_setup_failed` or `probe_spawn_failed`, `kind` the error kind.
pub fn probe_failure(prefix: &str, kind: &str) -> (res: LiveProbeResult)
    ensures
        res.attempted,
        !res.succeeded,
        res.status@ == prefix@ + ":"@ + kind@,
{
    let mut out = chars_of(prefix);
    append(&mut out, chars_of(":").as_slice());
    append(&mut out, chars_of(kind).as_slice());
    LiveProbeResult { attempted: true, succeeded: false, status: string_of(out.as_slice()) }
}

/// The arguments of the probe command, run in `probe_dir`.
pub fn probe_arguments(probe_dir: &str) -> (res: Vec<String>)
    ensures
        res@.len() == 10,
        res@[0]@ == "exec"@,
        res@[1]@ == "--ephemeral"@,
        res@[2]@ == "--json"@,
        res@[3]@ == "--skip-git-repo-check"@,
        res@[4]@ == "--ignore-rules"@,
        res@[5]@ == "--sandbox"@,
        res@[6]@ == "read-only"@,
        res@[7]@ == "--cd"@,
        res@[8]@ == probe_dir@,
        res@[9]@ == "Reply with exactly CONTEXT_GUARDIAN_PROBE_OK. Do not call tools."@,
{
    let mut out: Vec<String> = Vec::new();
    out.push(text_of("exec"));
    out.push(text_of("--ephemeral"));
    out.push(text_of("--json"));
    out.push(text_of("--skip-git-repo-check"));
    out.push(text_of("--ignore-rules"));
    out.push(text_of("--sandbox"));
    out.push(text_of("read-only"));
    out.push(text_of("--cd"));
    out.push(text_of(probe_dir));
    out.push(text_of("Reply with exactly CONTEXT_GUARDIAN_PROBE_OK. Do not call tools."));
    out
}

} // verus!
