//! Reading rollout events: token counts, recoverable task errors, and the
//! function calls whose outputs may be pruned later.
use vstd::prelude::*;
use crate::json::{Json, JsonValue, JsonNumber, json_get, get_str, json_as_u64, json_parse, json_text, to_json_text,
    parse_json, entry_models, lemma_entry_models, with_member, set_member, member_copy, lemma_key_index_is,
    lemma_with_member_reads_back, lemma_with_member_keeps_others, lemma_member_edits_keep_objects};
use crate::text::{chars_of, str_eq, string_of, u64_text, ascii_lower, ascii_lower_exec, contains_seq, decimal_text};
use crate::passive_capture::report::append;
use vstd::utf8::encode_utf8;

verus! {

/// `value[key]`: the member, or `null` when absent.
pub open spec fn index(j: Json, key: Seq<char>) -> Json {
    match json_get(j, key) {
        Some(v) => v,
        None => Json::Null,
    }
}

/// A count member as `u64`, zero when absent or not one.
pub open spec fn count_of(j: Json, key: Seq<char>) -> u64 {
    match json_as_u64(index(j, key)) {
        Some(n) => n,
        None => 0,
    }
}

pub open spec fn max_u64(a: u64, b: u64) -> u64 {
    if a >= b { a } else { b }
}

/// The tokens a usage record reports: the larger of input and total.
pub open spec fn usage_tokens(usage: Json) -> u64 {
    max_u64(count_of(usage, "input_tokens"@), count_of(usage, "total_tokens"@))
}

/// The context size a token-count payload reports: the larger of its last
/// and total usage.
pub open spec fn context_tokens(payload: Json) -> u64 {
    max_u64(
        usage_tokens(index(index(payload, "info"@), "last_token_usage"@)),
        usage_tokens(index(index(payload, "info"@), "total_token_usage"@)),
    )
}

pub open spec fn is_event(v: Json, payload_type: Seq<char>) -> bool {
    get_str(v, "type"@) == Some("event_msg"@) && match json_get(v, "payload"@) {
        Some(p) => get_str(p, "type"@) == Some(payload_type),
        None => false,
    }
}

/// A token-count event at or over the trigger.
pub open spec fn is_high_token_count_spec(v: Json, trigger: u64) -> bool {
    is_event(v, "token_count"@) && context_tokens(index(v, "payload"@)) >= trigger
}

/// The context size a token-count payload reports is the largest of the
/// input and total counts of `info.last_token_usage` and
/// `info.total_token_usage`: at least each of the four, and equal to one.
pub proof fn lemma_context_tokens_is_largest_count(payload: Json)
    ensures
        ({
            let last = index(index(payload, "info"@), "last_token_usage"@);
            let total = index(index(payload, "info"@), "total_token_usage"@);
            let r = context_tokens(payload);
            &&& r >= count_of(last, "input_tokens"@)
            &&& r >= count_of(last, "total_tokens"@)
            &&& r >= count_of(total, "input_tokens"@)
            &&& r >= count_of(total, "total_tokens"@)
            &&& (r == count_of(last, "input_tokens"@) || r == count_of(last, "total_tokens"@)
                || r == count_of(total, "input_tokens"@) || r == count_of(total, "total_tokens"@))
        }),
{
}

/// A token-count event is high exactly when one of the input or total
/// counts of its last or total usage reaches the trigger.
pub proof fn lemma_high_token_count_iff_any_count(v: Json, trigger: u64)
    ensures
        ({
            let payload = index(v, "payload"@);
            let last = index(index(payload, "info"@), "last_token_usage"@);
            let total = index(index(payload, "info"@), "total_token_usage"@);
            is_high_token_count_spec(v, trigger) <==> is_event(v, "token_count"@) && (
                count_of(last, "input_tokens"@) >= trigger || count_of(last, "total_tokens"@) >= trigger
                || count_of(total, "input_tokens"@) >= trigger || count_of(total, "total_tokens"@) >= trigger)
        }),
{
    lemma_context_tokens_is_largest_count(index(v, "payload"@));
}

fn index_ref<'a>(j: &'a JsonValue, key: &str) -> (res: Option<&'a JsonValue>)
    ensures
        match res {
            Some(v) => index(j.model(), key@) == v.model(),
            None => index(j.model(), key@) == Json::Null,
        },
{
    match j.get(key) {
        Some(v) => Some(v),
        None => None,
    }
}

fn count_exec(j: Option<&JsonValue>, key: &str) -> (res: u64)
    ensures
        res == count_of(match j { Some(x) => x.model(), None => Json::Null }, key@),
{
    match j {
        Some(x) => match index_ref(x, key) {
            Some(v) => match v.as_u64() {
                Some(n) => n,
                None => 0,
            },
            None => 0,
        },
        None => 0,
    }
}

fn usage_exec(u: Option<&JsonValue>) -> (res: u64)
    ensures
        res == usage_tokens(match u { Some(x) => x.model(), None => Json::Null }),
{
    let a = count_exec(u, "input_tokens");
    let b = count_exec(u, "total_tokens");
    if a >= b { a } else { b }
}

fn nested<'a>(j: Option<&'a JsonValue>, key: &str) -> (res: Option<&'a JsonValue>)
    ensures
        match res {
            Some(v) => index(match j { Some(x) => x.model(), None => Json::Null }, key@) == v.model(),
            None => index(match j { Some(x) => x.model(), None => Json::Null }, key@) == Json::Null,
        },
{
    match j {
        Some(x) => index_ref(x, key),
        None => None,
    }
}

/// The context size a token-count payload reports.
pub fn observed_context_tokens(payload: &JsonValue) -> (res: u64)
    ensures
        res == context_tokens(payload.model()),
{
    let info = nested(Some(payload), "info");
    let last = usage_exec(nested(info, "last_token_usage"));
    let total = usage_exec(nested(info, "total_token_usage"));
    if last >= total { last } else { total }
}

fn is_event_exec<'a>(v: &'a JsonValue, payload_type: &str) -> (res: Option<&'a JsonValue>)
    ensures
        match res {
            Some(p) => is_event(v.model(), payload_type@) && json_get(v.model(), "payload"@) == Some(p.model()),
            None => !is_event(v.model(), payload_type@),
        },
{
    if !v.has_str("type", "event_msg") {
        return None;
    }
    match v.get("payload") {
        Some(p) => if p.has_str("type", payload_type) { Some(p) } else { None },
        None => None,
    }
}

/// Whether a record is a token-count event at or over the trigger.
pub fn is_high_token_count(value: &JsonValue, trigger: u64) -> (res: bool)
    ensures
        res == is_high_token_count_spec(value.model(), trigger),
{
    match is_event_exec(value, "token_count") {
        Some(p) => observed_context_tokens(p) >= trigger,
        None => false,
    }
}

/// A lower-cased string member of an error, or the empty text.
pub open spec fn lower_member(error: Json, key: Seq<char>) -> Seq<char> {
    match get_str(error, key) {
        Some(s) => ascii_lower(s),
        None => Seq::empty(),
    }
}

/// A task that ended because the context window was exceeded or an image
/// URL was refused: the error is recoverable by cleaning the rollout.
pub open spec fn is_recoverable_task_error_spec(v: Json) -> bool {
    is_event(v, "task_complete"@) && match json_get(index(v, "payload"@), "error"@) {
        None => false,
        Some(error) => {
            let info = lower_member(error, "codex_error_info"@);
            let message = lower_member(error, "message"@);
            ||| contains_seq(info, "context_window_exceeded"@)
            ||| contains_seq(message, "context window"@)
            ||| contains_seq(message, "exceeds the context"@)
            ||| contains_seq(message, "input exceeds"@)
            ||| contains_seq(message, "image_url"@) && (contains_seq(message, "invalid format"@) || contains_seq(message, "valid url"@))
        },
    }
}

pub fn contains_text(s: &[char], pattern: &str) -> (res: bool)
    ensures
        res == contains_seq(s@, pattern@),
{
    let p = chars_of(pattern);
    let found = crate::text::find_chars(s, p.as_slice(), 0);
    proof {
        crate::text::lemma_first_occurrence_from(s@, p@, 0);
        if found is None {
            assert forall|i: int| !#[trigger] crate::text::occurs_at(s@, p@, i) by {
                if 0 <= i {}
            }
        }
    }
    found.is_some()
}

fn lower_member_exec(error: &JsonValue, key: &str) -> (res: Vec<char>)
    ensures
        res@ == lower_member(error.model(), key@),
{
    match error.get_str(key) {
        Some(s) => ascii_lower_exec(chars_of(s).as_slice()),
        None => Vec::new(),
    }
}

/// Whether a record is a recoverable task error.
pub fn is_recoverable_task_error(value: &JsonValue) -> (res: bool)
    ensures
        res == is_recoverable_task_error_spec(value.model()),
{
    let payload = match is_event_exec(value, "task_complete") {
        Some(p) => p,
        None => return false,
    };
    let error = match payload.get("error") {
        Some(e) => e,
        None => return false,
    };
    let info = lower_member_exec(error, "codex_error_info");
    let message = lower_member_exec(error, "message");
    contains_text(info.as_slice(), "context_window_exceeded")
        || contains_text(message.as_slice(), "context window")
        || contains_text(message.as_slice(), "exceeds the context")
        || contains_text(message.as_slice(), "input exceeds")
        || (contains_text(message.as_slice(), "image_url") && (contains_text(message.as_slice(), "invalid format")
            || contains_text(message.as_slice(), "valid url")))
}


/// The token estimate of a rollout: a quarter of its bytes, at least one,
/// at most the recovery size.
pub open spec fn estimate_rollout_tokens_spec(total_bytes: int, recovery: u64) -> u64 {
    let quarter = if total_bytes / 4 < 1 { 1 } else { total_bytes / 4 };
    if quarter < recovery { quarter as u64 } else { recovery }
}

pub fn estimate_rollout_tokens(total_bytes: usize, recovery_tokens: u64) -> (res: u64)
    ensures
        res == estimate_rollout_tokens_spec(total_bytes as int, recovery_tokens),
{
    let quarter: u128 = if total_bytes / 4 < 1 { 1 } else { (total_bytes / 4) as u128 };
    if quarter < recovery_tokens as u128 { quarter as u64 } else { recovery_tokens }
}

pub open spec fn json_u64(n: u64) -> Json {
    Json::Number(decimal_text(n as nat), Some(n))
}

/// The usage record written in place of an oversized total.
pub open spec fn usage_json(tokens: u64) -> Json {
    Json::Object(seq![
        ("cache_write_input_tokens"@, json_u64(0)),
        ("cached_input_tokens"@, json_u64(0)),
        ("input_tokens"@, json_u64(tokens)),
        ("output_tokens"@, json_u64(0)),
        ("reasoning_output_tokens"@, json_u64(0)),
        ("total_tokens"@, json_u64(tokens)),
    ])
}

/// A token-count event at or over the trigger has its total usage replaced
/// by the rollout's estimate (when it has an `info` object).
pub open spec fn normalize_token_count_spec(v: Json, total_bytes: int, trigger: u64, recovery: u64) -> (Json, bool) {
    let payload = index(v, "payload"@);
    let info = index(payload, "info"@);
    if is_event(v, "token_count"@) && context_tokens(payload) >= trigger && info is Object {
        let usage = usage_json(estimate_rollout_tokens_spec(total_bytes, recovery));
        (with_member(v, "payload"@, with_member(payload, "info"@, with_member(info, "total_token_usage"@, usage))), true)
    } else {
        (v, false)
    }
}

proof fn lemma_usage_json_counts(tokens: u64)
    ensures
        count_of(usage_json(tokens), "input_tokens"@) == tokens,
        count_of(usage_json(tokens), "total_tokens"@) == tokens,
{
    reveal_strlit("cache_write_input_tokens");
    reveal_strlit("cached_input_tokens");
    reveal_strlit("input_tokens");
    reveal_strlit("output_tokens");
    reveal_strlit("reasoning_output_tokens");
    reveal_strlit("total_tokens");
    let e = seq![
        ("cache_write_input_tokens"@, json_u64(0)),
        ("cached_input_tokens"@, json_u64(0)),
        ("input_tokens"@, json_u64(tokens)),
        ("output_tokens"@, json_u64(0)),
        ("reasoning_output_tokens"@, json_u64(0)),
        ("total_tokens"@, json_u64(tokens)),
    ];
    assert(usage_json(tokens) == Json::Object(e));
    assert("cache_write_input_tokens"@.len() != "input_tokens"@.len());
    assert("cached_input_tokens"@.len() != "input_tokens"@.len());
    lemma_key_index_is(e, "input_tokens"@, 2);
    assert("cache_write_input_tokens"@.len() != "total_tokens"@.len());
    assert("cached_input_tokens"@.len() != "total_tokens"@.len());
    assert("input_tokens"@[0] != "total_tokens"@[0]);
    assert("output_tokens"@.len() != "total_tokens"@.len());
    assert("reasoning_output_tokens"@.len() != "total_tokens"@.len());
    lemma_key_index_is(e, "total_tokens"@, 5);
}

/// A token-count event is normalized exactly when it is high and has an
/// `info` object; it then stays a token-count event whose total usage
/// reports the rollout's estimate as its input and total tokens, an
/// estimate at most the recovery size and at least one token where that
/// size allows, and its last usage is kept. Any other record is left as it
/// was.
pub proof fn lemma_normalized_token_count_reports_estimate(v: Json, total_bytes: int, trigger: u64, recovery: u64)
    ensures
        ({
            let (out, changed) = normalize_token_count_spec(v, total_bytes, trigger, recovery);
            let info = index(index(v, "payload"@), "info"@);
            let info2 = index(index(out, "payload"@), "info"@);
            let e = estimate_rollout_tokens_spec(total_bytes, recovery);
            &&& changed == (is_high_token_count_spec(v, trigger) && info is Object)
            &&& !changed ==> out == v
            &&& changed ==> {
                &&& is_event(out, "token_count"@)
                &&& count_of(index(info2, "total_token_usage"@), "input_tokens"@) == e
                &&& count_of(index(info2, "total_token_usage"@), "total_tokens"@) == e
                &&& index(info2, "last_token_usage"@) == index(info, "last_token_usage"@)
            }
            &&& e <= recovery
            &&& recovery >= 1 ==> e >= 1
        }),
{
    let (out, changed) = normalize_token_count_spec(v, total_bytes, trigger, recovery);
    if changed {
        reveal_strlit("payload");
        reveal_strlit("info");
        reveal_strlit("type");
        reveal_strlit("total_token_usage");
        reveal_strlit("last_token_usage");
        let payload = index(v, "payload"@);
        let info = index(payload, "info"@);
        let e = estimate_rollout_tokens_spec(total_bytes, recovery);
        let usage = usage_json(e);
        let info2 = with_member(info, "total_token_usage"@, usage);
        let payload2 = with_member(payload, "info"@, info2);
        assert(v is Object);
        assert(payload is Object);
        lemma_member_edits_keep_objects(info, "total_token_usage"@, usage);
        lemma_member_edits_keep_objects(payload, "info"@, info2);
        lemma_with_member_reads_back(v, "payload"@, payload2);
        lemma_with_member_keeps_others(v, "payload"@, payload2, "type"@);
        lemma_with_member_reads_back(payload, "info"@, info2);
        assert("type"@[0] != "info"@[0]);
        lemma_with_member_keeps_others(payload, "info"@, info2, "type"@);
        lemma_with_member_reads_back(info, "total_token_usage"@, usage);
        assert("last_token_usage"@[0] != "total_token_usage"@[0]);
        lemma_with_member_keeps_others(info, "total_token_usage"@, usage, "last_token_usage"@);
        lemma_usage_json_counts(e);
        assert(out == with_member(v, "payload"@, payload2));
        assert(index(out, "payload"@) == payload2);
        assert(index(payload2, "info"@) == info2);
    }
}

fn json_u64_exec(n: u64) -> (res: JsonValue)
    ensures
        res.model() == json_u64(n),
{
    JsonValue::Number(JsonNumber { text: string_of(u64_text(n).as_slice()), unsigned: Some(n) })
}

fn text_of(s: &str) -> (res: String)
    ensures
        res@ == s@,
{
    string_of(chars_of(s).as_slice())
}

fn usage_json_exec(tokens: u64) -> (res: JsonValue)
    ensures
        res.model() == usage_json(tokens),
{
    let mut entries: Vec<(String, JsonValue)> = Vec::new();
    entries.push((text_of("cache_write_input_tokens"), json_u64_exec(0)));
    entries.push((text_of("cached_input_tokens"), json_u64_exec(0)));
    entries.push((text_of("input_tokens"), json_u64_exec(tokens)));
    entries.push((text_of("output_tokens"), json_u64_exec(0)));
    entries.push((text_of("reasoning_output_tokens"), json_u64_exec(0)));
    entries.push((text_of("total_tokens"), json_u64_exec(tokens)));
    proof {
        lemma_entry_models(entries@);
        assert(entry_models(entries@) =~= seq![
            ("cache_write_input_tokens"@, json_u64(0)),
            ("cached_input_tokens"@, json_u64(0)),
            ("input_tokens"@, json_u64(tokens)),
            ("output_tokens"@, json_u64(0)),
            ("reasoning_output_tokens"@, json_u64(0)),
            ("total_tokens"@, json_u64(tokens)),
        ]);
    }
    JsonValue::Object(entries)
}

/// Replaces an oversized token count (see `normalize_token_count_spec`).
pub fn normalize_token_count_event(value: JsonValue, total_bytes: usize, trigger: u64, recovery_tokens: u64) -> (res: (JsonValue, bool))
    ensures
        (res.0.model(), res.1) == normalize_token_count_spec(value.model(), total_bytes as int, trigger, recovery_tokens),
{
    let payload = match is_event_exec(&value, "token_count") {
        Some(p) => p.deep_clone(),
        None => return (value, false),
    };
    if observed_context_tokens(&payload) < trigger {
        return (value, false);
    }
    let info = match member_copy(&payload, "info") {
        Some(i) => i,
        None => return (value, false),
    };
    if !info.is_object() {
        return (value, false);
    }
    let usage = usage_json_exec(estimate_rollout_tokens(total_bytes, recovery_tokens));
    let info2 = set_member(info, "total_token_usage", usage);
    let payload2 = set_member(payload, "info", info2);
    (set_member(value, "payload", payload2), true)
}

/// A goal update at or over the trigger has its tokens set to the
/// recovery size.
pub open spec fn normalize_goal_spec(v: Json, trigger: u64, recovery: u64) -> (Json, bool) {
    let payload = index(v, "payload"@);
    let goal = index(payload, "goal"@);
    let used = count_of(goal, "tokensUsed"@);
    if is_event(v, "thread_goal_updated"@) && goal is Object && used >= trigger {
        (with_member(v, "payload"@, with_member(payload, "goal"@, with_member(goal, "tokensUsed"@, json_u64(recovery)))), true)
    } else {
        (v, false)
    }
}

/// A goal update is normalized exactly when it is a `thread_goal_updated`
/// event whose goal object reports at least the trigger in `tokensUsed`;
/// it then stays such an event and its goal reports the recovery size.
/// Any other record is left as it was.
pub proof fn lemma_normalized_goal_reports_recovery(v: Json, trigger: u64, recovery: u64)
    ensures
        ({
            let (out, changed) = normalize_goal_spec(v, trigger, recovery);
            let goal = index(index(v, "payload"@), "goal"@);
            let goal2 = index(index(out, "payload"@), "goal"@);
            &&& changed == (is_event(v, "thread_goal_updated"@) && goal is Object && count_of(goal, "tokensUsed"@) >= trigger)
            &&& !changed ==> out == v
            &&& changed ==> is_event(out, "thread_goal_updated"@) && goal2 is Object && count_of(goal2, "tokensUsed"@) == recovery
        }),
{
    let (out, changed) = normalize_goal_spec(v, trigger, recovery);
    if changed {
        reveal_strlit("payload");
        reveal_strlit("goal");
        reveal_strlit("type");
        let payload = index(v, "payload"@);
        let goal = index(payload, "goal"@);
        let goal2 = with_member(goal, "tokensUsed"@, json_u64(recovery));
        let payload2 = with_member(payload, "goal"@, goal2);
        assert(v is Object);
        assert(payload is Object);
        lemma_member_edits_keep_objects(goal, "tokensUsed"@, json_u64(recovery));
        lemma_member_edits_keep_objects(payload, "goal"@, goal2);
        lemma_with_member_reads_back(v, "payload"@, payload2);
        lemma_with_member_keeps_others(v, "payload"@, payload2, "type"@);
        lemma_with_member_reads_back(payload, "goal"@, goal2);
        assert("type"@[0] != "goal"@[0]);
        lemma_with_member_keeps_others(payload, "goal"@, goal2, "type"@);
        lemma_with_member_reads_back(goal, "tokensUsed"@, json_u64(recovery));
        assert(index(out, "payload"@) == payload2);
        assert(index(payload2, "goal"@) == goal2);
    }
}

/// Lowers an oversized goal token count (see `normalize_goal_spec`).
pub fn normalize_thread_goal_token_count(value: JsonValue, trigger: u64, recovery_tokens: u64) -> (res: (JsonValue, bool))
    ensures
        (res.0.model(), res.1) == normalize_goal_spec(value.model(), trigger, recovery_tokens),
{
    let payload = match is_event_exec(&value, "thread_goal_updated") {
        Some(p) => p.deep_clone(),
        None => return (value, false),
    };
    let goal = match member_copy(&payload, "goal") {
        Some(g) => g,
        None => return (value, false),
    };
    if !goal.is_object() {
        return (value, false);
    }
    if count_exec(Some(&goal), "tokensUsed") < trigger {
        return (value, false);
    }
    let goal2 = set_member(goal, "tokensUsed", json_u64_exec(recovery_tokens));
    let payload2 = set_member(payload, "goal", goal2);
    (set_member(value, "payload", payload2), true)
}

/// The first `max` characters of a text, with `...` when it is longer.
pub open spec fn preview_spec(input: Seq<char>, max: nat) -> Seq<char> {
    if input.len() > max { input.take(max as int) + "..."@ } else { input }
}

pub fn preview(input: &[char], max_chars: usize) -> (res: Vec<char>)
    ensures
        res@ == preview_spec(input@, max_chars as nat),
{
    if input.len() > max_chars {
        let mut out = crate::text::copy_chars(&input[0..max_chars]);
        assert(out@ =~= input@.take(max_chars as int));
        append(&mut out, chars_of("...").as_slice());
        out
    } else {
        crate::text::copy_chars(input)
    }
}

/// The value, or the fallback when it is empty.
pub open spec fn nonempty_spec(value: Seq<char>, fallback: Seq<char>) -> Seq<char> {
    if value.len() == 0 { fallback } else { value }
}

pub fn nonempty(value: &[char], fallback: &[char]) -> (res: Vec<char>)
    ensures
        res@ == nonempty_spec(value@, fallback@),
{
    if value.len() == 0 { crate::text::copy_chars(fallback) } else { crate::text::copy_chars(value) }
}


/// What the rollout recorded about a function call.
pub struct ToolCallInfo {
    pub name: String,
    pub image_path: Option<String>,
    pub arguments_preview: Option<String>,
}

pub struct ToolInfoModel {
    pub name: Seq<char>,
    pub image_path: Option<Seq<char>>,
    pub arguments_preview: Option<Seq<char>>,
}

pub open spec fn opt_text(o: Option<String>) -> Option<Seq<char>> {
    match o {
        Some(s) => Some(s@),
        None => None,
    }
}

impl ToolCallInfo {
    pub open spec fn model(&self) -> ToolInfoModel {
        ToolInfoModel { name: self.name@, image_path: opt_text(self.image_path), arguments_preview: opt_text(self.arguments_preview) }
    }

    /// An unknown call: no name, path or arguments.
    pub fn unknown() -> (res: Self)
        ensures
            res.model() == (ToolInfoModel { name: Seq::empty(), image_path: None, arguments_preview: None }),
    {
        let res = ToolCallInfo { name: String::new(), image_path: None, arguments_preview: None };
        assert(res.name@ =~= Seq::<char>::empty());
        res
    }
}

/// Arguments as text: a string as it is, anything else as JSON.
pub open spec fn argument_text(a: Json) -> Seq<char> {
    match a {
        Json::Str(t) => t,
        _ => json_text(a),
    }
}

/// The `path` argument, from JSON text or an object.
pub open spec fn argument_path_spec(a: Json) -> Option<Seq<char>> {
    match a {
        Json::Str(s) => match json_parse(encode_utf8(s)) {
            Some(v) => get_str(v, "path"@),
            None => None,
        },
        Json::Object(_) => get_str(a, "path"@),
        _ => None,
    }
}

/// The call id and what is known of a function call record.
pub open spec fn tool_call_info_spec(v: Json) -> Option<(Seq<char>, ToolInfoModel)> {
    match json_get(v, "payload"@) {
        None => None,
        Some(payload) => if get_str(payload, "type"@) != Some("function_call"@) {
            None
        } else {
            match (get_str(payload, "call_id"@), get_str(payload, "name"@)) {
                (Some(call_id), Some(name)) => {
                    let args = json_get(payload, "arguments"@);
                    Some((call_id, ToolInfoModel {
                        name: name,
                        image_path: if name == "view_image"@ {
                            match args { Some(a) => argument_path_spec(a), None => None }
                        } else {
                            None
                        },
                        arguments_preview: match args { Some(a) => Some(preview_spec(argument_text(a), 400)), None => None },
                    }))
                },
                _ => None,
            }
        },
    }
}

fn argument_text_exec(a: &JsonValue) -> (res: Vec<char>)
    ensures
        res@ == argument_text(a.model()),
{
    match a {
        JsonValue::String(t) => chars_of(t.as_str()),
        _ => chars_of(to_json_text(a).as_str()),
    }
}

fn utf8_of(s: &str) -> (res: Vec<u8>)
    ensures
        res@ == encode_utf8(s@),
{
    let b = s.as_bytes();
    let mut out: Vec<u8> = Vec::new();
    let mut i: usize = 0;
    while i < b.len()
        invariant
            i <= b@.len(),
            out@ == b@.take(i as int),
        decreases b.len() - i,
    {
        out.push(b[i]);
        assert(b@.take(i + 1) =~= b@.take(i as int).push(b@[i as int]));
        i = i + 1;
    }
    assert(b@.take(b@.len() as int) =~= b@);
    out
}

/// The `path` argument of a call (see `argument_path_spec`).
pub fn argument_path(a: &JsonValue) -> (res: Option<String>)
    ensures
        opt_text(res) == argument_path_spec(a.model()),
{
    match a {
        JsonValue::String(s) => match parse_json(utf8_of(s.as_str()).as_slice()) {
            Some(v) => match v.get_str("path") {
                Some(p) => Some(text_of(p)),
                None => None,
            },
            None => None,
        },
        JsonValue::Object(_) => match a.get_str("path") {
            Some(p) => Some(text_of(p)),
            None => None,
        },
        _ => None,
    }
}

/// The call id and what is known of a function call record (see
/// `tool_call_info_spec`).
pub fn tool_call_info(value: &JsonValue) -> (res: Option<(String, ToolCallInfo)>)
    ensures
        match res {
            Some((id, info)) => tool_call_info_spec(value.model()) == Some((id@, info.model())),
            None => tool_call_info_spec(value.model()) is None,
        },
{
    let payload = match value.get("payload") {
        Some(p) => p,
        None => return None,
    };
    if !payload.has_str("type", "function_call") {
        return None;
    }
    let call_id = match payload.get_str("call_id") {
        Some(c) => text_of(c),
        None => return None,
    };
    let name = match payload.get_str("name") {
        Some(n) => text_of(n),
        None => return None,
    };
    let args = payload.get("arguments");
    let arguments_preview = match args {
        Some(a) => Some(string_of(preview(argument_text_exec(a).as_slice(), 400).as_slice())),
        None => None,
    };
    let image_path = if str_eq(name.as_str(), "view_image") {
        match args {
            Some(a) => argument_path(a),
            None => None,
        }
    } else {
        None
    };
    Some((call_id, ToolCallInfo { name, image_path, arguments_preview }))
}

} // verus!
