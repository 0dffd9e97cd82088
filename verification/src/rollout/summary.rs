//! Summarizing a large tool output by map-reduce over a chat completion
//! service: the output is cut into chunks, each chunk is summarized, the
//! summaries are cut again, for a bounded number of rounds, and a last call
//! combines what is left. The calls themselves are made by the caller; this
//! module decides what to ask and what to do with the answers.
use vstd::prelude::*;
use crate::json::{Json, JsonValue, JsonNumber, json_get, entry_models, lemma_entry_models, models, lemma_models};
use crate::text::{chars_of, string_of, decimal_text, u64_text, trim, trim_chars};
use crate::passive_capture::report::append;
use super::{utf8_len, utf8_len_exec, chunk_spec, chunk_by_estimated_tokens, estimate_tokens_spec, estimate_tokens, text_seqs};
use super::events::{ToolCallInfo, nonempty_spec, nonempty};

verus! {

/// Chunks are never cut smaller than this many tokens.
pub const MIN_CHUNK_TARGET_TOKENS: usize = 8000;
/// Rounds of chunk summaries before the parts are given up on and joined.
pub const MAX_REDUCE_ROUNDS: usize = 4;
/// The answer size asked for a chunk summary.
pub const CHUNK_SUMMARY_MAX_TOKENS: usize = 700;
/// The answer size asked for the combined summary.
pub const FINAL_SUMMARY_MAX_TOKENS: usize = 900;

/// A summary in progress.
pub struct SummaryJob {
    pub parts: Vec<Vec<char>>,
    pub round: usize,
    pub target_tokens: usize,
    pub original_len: usize,
    pub original_chunks: usize,
    pub tool: Vec<char>,
    pub arguments: Vec<char>,
}

/// What to do next.
pub enum SummaryStep {
    /// Summarize each of these prompts (`CHUNK_SUMMARY_MAX_TOKENS` each),
    /// then hand all the answers to `reduce_round`; if any call fails, the
    /// summary fails.
    Chunks(Vec<String>),
    /// Ask for this combined summary (`FINAL_SUMMARY_MAX_TOKENS`); if the
    /// call fails, the summary is `fallback`.
    Combine { prompt: String, fallback: String },
    /// The rounds ran out: the summary is this text.
    Done(String),
}

/// The texts joined with a separator between them.
pub open spec fn join_texts(parts: Seq<Seq<char>>, sep: Seq<char>) -> Seq<char>
    decreases parts.len(),
{
    if parts.len() == 0 {
        Seq::empty()
    } else if parts.len() == 1 {
        parts[0]
    } else {
        join_texts(parts.drop_last(), sep) + sep + parts.last()
    }
}

pub fn join(parts: &Vec<Vec<char>>, sep: &str) -> (res: Vec<char>)
    ensures
        res@ == join_texts(text_seqs(parts@), sep@),
{
    let ghost ps = text_seqs(parts@);
    let mut out: Vec<char> = Vec::new();
    let mut i: usize = 0;
    while i < parts.len()
        invariant
            i <= parts@.len(),
            ps == text_seqs(parts@),
            out@ == join_texts(ps.take(i as int), sep@),
        decreases parts.len() - i,
    {
        assert(ps.take(i + 1).drop_last() =~= ps.take(i as int));
        assert(ps.take(i + 1).last() == parts@[i as int]@);
        if i > 0 {
            append(&mut out, chars_of(sep).as_slice());
        }
        append(&mut out, parts[i].as_slice());
        proof {
            if i == 0 {
                assert(out@ =~= ps.take(1)[0]);
            }
        }
        i = i + 1;
    }
    assert(ps.take(ps.len() as int) =~= ps);
    out
}

fn strings_to_parts(texts: &Vec<String>) -> (res: Vec<Vec<char>>)
    ensures
        text_seqs(res@) == texts@.map_values(|t: String| t@),
{
    let mut out: Vec<Vec<char>> = Vec::new();
    let mut i: usize = 0;
    while i < texts.len()
        invariant
            i <= texts@.len(),
            out@.len() == i,
            forall|k: int| 0 <= k < i ==> #[trigger] out@[k]@ == texts@[k]@,
        decreases texts.len() - i,
    {
        out.push(chars_of(texts[i].as_str()));
        i = i + 1;
    }
    assert(text_seqs(out@) =~= texts@.map_values(|t: String| t@));
    out
}

/// Whether the parts still have to be summarized: more than one, or one
/// over the target.
pub open spec fn needs_reduction(parts: Seq<Seq<char>>, target: int) -> bool {
    parts.len() > 1 || estimate_tokens_spec(if parts.len() > 0 { parts[0] } else { Seq::empty() }) > target
}

pub open spec fn chunk_prompt(tool: Seq<char>, args: Seq<char>, original_len: int, round: int, index: int, count: int, part: Seq<char>) -> Seq<char> {
    "Tool: "@ + tool + "\nArguments: "@ + args + "\nOriginal output bytes: "@ + decimal_text(original_len as nat)
        + "\nCompression round: "@ + decimal_text((round + 1) as nat) + "\nChunk: "@ + decimal_text((index + 1) as nat) + " of "@
        + decimal_text(count as nat) + "\nChunk bytes: "@ + decimal_text(utf8_len(part))
        + "\n\nSummarize this chunk for Codex context recovery. Preserve concrete file paths, commands, errors, test results, and decisions. Do not invent content outside this chunk.\n\n"@
        + part
}

pub open spec fn final_prompt(tool: Seq<char>, args: Seq<char>, original_len: int, original_chunks: int, joined: Seq<char>) -> Seq<char> {
    "Tool: "@ + tool + "\nArguments: "@ + args + "\nOriginal output bytes: "@ + decimal_text(original_len as nat)
        + "\nOriginal chunks: "@ + decimal_text(original_chunks as nat)
        + "\n\nCombine these chunk summaries into one concise recovery summary for Codex. Preserve actionable facts and paths.\n\n"@
        + joined
}

pub open spec fn chunk_target(requested: usize) -> int {
    if requested < MIN_CHUNK_TARGET_TOKENS { MIN_CHUNK_TARGET_TOKENS as int } else { requested as int }
}

/// Starts a summary of `original` (the output as text): `None` when it
/// gives no chunk at all.
pub fn start_summary(original: &str, info: &ToolCallInfo, chunk_target_tokens: usize) -> (res: Option<SummaryJob>)
    ensures
        match res {
            Some(job) => {
                &&& chunk_spec(original@, chunk_target(chunk_target_tokens)).len() > 0
                &&& text_seqs(job.parts@) == chunk_spec(original@, chunk_target(chunk_target_tokens))
                &&& job.round == 0
                &&& job.target_tokens == chunk_target(chunk_target_tokens)
                &&& job.original_len == utf8_len(original@)
                &&& job.original_chunks == job.parts@.len()
                &&& job.tool@ == nonempty_spec(info.name@, "unknown-tool"@)
                &&& job.arguments@ == match info.arguments_preview { Some(a) => a@, None => "unknown arguments"@ }
            },
            None => chunk_spec(original@, chunk_target(chunk_target_tokens)).len() == 0,
        },
{
    let target = if chunk_target_tokens < MIN_CHUNK_TARGET_TOKENS { MIN_CHUNK_TARGET_TOKENS } else { chunk_target_tokens };
    let text = chars_of(original);
    let parts = chunk_by_estimated_tokens(text.as_slice(), target);
    if parts.len() == 0 {
        return None;
    }
    let count = parts.len();
    Some(SummaryJob {
        parts,
        round: 0,
        target_tokens: target,
        original_len: utf8_len_exec(original),
        original_chunks: count,
        tool: nonempty(chars_of(info.name.as_str()).as_slice(), chars_of("unknown-tool").as_slice()),
        arguments: match &info.arguments_preview { Some(a) => chars_of(a.as_str()), None => chars_of("unknown arguments") },
    })
}

fn number_text(n: usize) -> (res: Vec<char>)
    ensures
        res@ == decimal_text(n as nat),
{
    u64_text(n as u64)
}

fn chunk_prompt_exec(job: &SummaryJob, index: usize) -> (res: String)
    requires
        index < job.parts@.len(),
        job.round < MAX_REDUCE_ROUNDS,
    ensures
        res@ == chunk_prompt(job.tool@, job.arguments@, job.original_len as int, job.round as int, index as int,
            job.parts@.len() as int, job.parts@[index as int]@),
{
    let count = job.parts.len();
    let part = job.parts[index].as_slice();
    let mut out = chars_of("Tool: ");
    append(&mut out, job.tool.as_slice());
    append(&mut out, chars_of("\nArguments: ").as_slice());
    append(&mut out, job.arguments.as_slice());
    append(&mut out, chars_of("\nOriginal output bytes: ").as_slice());
    append(&mut out, number_text(job.original_len).as_slice());
    append(&mut out, chars_of("\nCompression round: ").as_slice());
    append(&mut out, number_text(job.round + 1).as_slice());
    append(&mut out, chars_of("\nChunk: ").as_slice());
    append(&mut out, number_text(index + 1).as_slice());
    append(&mut out, chars_of(" of ").as_slice());
    append(&mut out, number_text(count).as_slice());
    append(&mut out, chars_of("\nChunk bytes: ").as_slice());
    let part_text = string_of(part);
    append(&mut out, number_text(utf8_len_exec(part_text.as_str())).as_slice());
    append(&mut out, chars_of("\n\nSummarize this chunk for Codex context recovery. Preserve concrete file paths, commands, errors, test results, and decisions. Do not invent content outside this chunk.\n\n").as_slice());
    append(&mut out, part);
    string_of(out.as_slice())
}

/// The next step of a summary.
pub fn next_summary_step(job: &SummaryJob) -> (res: SummaryStep)
    ensures
        ({
            let parts = text_seqs(job.parts@);
            match res {
                SummaryStep::Chunks(prompts) => {
                    &&& needs_reduction(parts, job.target_tokens as int)
                    &&& job.round < MAX_REDUCE_ROUNDS
                    &&& prompts@.len() == parts.len()
                    &&& forall|i: int| 0 <= i < parts.len() ==> #[trigger] prompts@[i]@ == chunk_prompt(job.tool@, job.arguments@,
                        job.original_len as int, job.round as int, i, parts.len() as int, parts[i])
                },
                SummaryStep::Done(text) => {
                    &&& needs_reduction(parts, job.target_tokens as int)
                    &&& job.round >= MAX_REDUCE_ROUNDS
                    &&& text@ == join_texts(parts, "\n\n"@)
                },
                SummaryStep::Combine { prompt, fallback } => {
                    &&& !needs_reduction(parts, job.target_tokens as int)
                    &&& fallback@ == join_texts(parts, "\n\n"@)
                    &&& prompt@ == final_prompt(job.tool@, job.arguments@, job.original_len as int, job.original_chunks as int,
                        join_texts(parts, "\n\n"@))
                },
            }
        }),
{
    let ghost parts = text_seqs(job.parts@);
    let empty: Vec<char> = Vec::new();
    let first_tokens = if job.parts.len() > 0 {
        estimate_tokens(job.parts[0].as_slice())
    } else {
        estimate_tokens(empty.as_slice())
    };
    proof {
        if job.parts@.len() > 0 {
            assert(parts[0] == job.parts@[0]@);
        } else {
            assert(empty@ =~= Seq::<char>::empty());
        }
    }
    if job.parts.len() > 1 || first_tokens > job.target_tokens as u128 {
        if job.round >= MAX_REDUCE_ROUNDS {
            let joined = join(&job.parts, "\n\n");
            return SummaryStep::Done(string_of(joined.as_slice()));
        }
        let mut prompts: Vec<String> = Vec::new();
        let mut i: usize = 0;
        while i < job.parts.len()
            invariant
                i <= job.parts@.len(),
                job.round < MAX_REDUCE_ROUNDS,
                parts == text_seqs(job.parts@),
                prompts@.len() == i,
                forall|k: int| 0 <= k < i ==> #[trigger] prompts@[k]@ == chunk_prompt(job.tool@, job.arguments@,
                    job.original_len as int, job.round as int, k, parts.len() as int, parts[k]),
            decreases job.parts.len() - i,
        {
            let p = chunk_prompt_exec(job, i);
            prompts.push(p);
            i = i + 1;
        }
        return SummaryStep::Chunks(prompts);
    }
    let joined = join(&job.parts, "\n\n");
    let mut prompt = chars_of("Tool: ");
    append(&mut prompt, job.tool.as_slice());
    append(&mut prompt, chars_of("\nArguments: ").as_slice());
    append(&mut prompt, job.arguments.as_slice());
    append(&mut prompt, chars_of("\nOriginal output bytes: ").as_slice());
    append(&mut prompt, number_text(job.original_len).as_slice());
    append(&mut prompt, chars_of("\nOriginal chunks: ").as_slice());
    append(&mut prompt, number_text(job.original_chunks).as_slice());
    append(&mut prompt, chars_of("\n\nCombine these chunk summaries into one concise recovery summary for Codex. Preserve actionable facts and paths.\n\n").as_slice());
    append(&mut prompt, joined.as_slice());
    SummaryStep::Combine { prompt: string_of(prompt.as_slice()), fallback: string_of(joined.as_slice()) }
}

/// The separator between chunk summaries when they are cut again.
pub open spec fn summary_separator() -> Seq<char> {
    "\n\n--- next chunk summary ---\n\n"@
}

/// Takes the answers to a round of chunk prompts: they are joined and cut
/// into the parts of the next round.
pub fn reduce_round(job: SummaryJob, summaries: &Vec<String>) -> (res: SummaryJob)
    requires
        job.round < MAX_REDUCE_ROUNDS,
    ensures
        text_seqs(res.parts@) == chunk_spec(join_texts(summaries@.map_values(|t: String| t@), summary_separator()), job.target_tokens as int),
        res.round == job.round + 1,
        res.target_tokens == job.target_tokens,
        res.original_len == job.original_len,
        res.original_chunks == job.original_chunks,
        res.tool@ == job.tool@,
        res.arguments@ == job.arguments@,
{
    let texts = strings_to_parts(summaries);
    let joined = join(&texts, "\n\n--- next chunk summary ---\n\n");
    let parts = chunk_by_estimated_tokens(joined.as_slice(), job.target_tokens);
    SummaryJob {
        parts,
        round: job.round + 1,
        target_tokens: job.target_tokens,
        original_len: job.original_len,
        original_chunks: job.original_chunks,
        tool: job.tool,
        arguments: job.arguments,
    }
}

pub open spec fn system_prompt() -> Seq<char> {
    "You summarize oversized Codex context fragments for local recovery. Preserve concrete file paths, commands, errors, test results, and decisions. Be concise and factual."@
}

pub open spec fn message_json(role: Seq<char>, content: Seq<char>) -> Json {
    Json::Object(seq![("content"@, Json::Str(content)), ("role"@, Json::Str(role))])
}

/// The request body of one summary call.
pub open spec fn summary_request_spec(model: Seq<char>, prompt: Seq<char>, max_tokens: usize) -> Json {
    Json::Object(seq![
        ("max_tokens"@, Json::Number(decimal_text(max_tokens as nat), Some(max_tokens as u64))),
        ("messages"@, Json::Array(seq![message_json("system"@, system_prompt()), message_json("user"@, prompt)])),
        ("model"@, Json::Str(model)),
    ])
}

fn message_exec(role: &str, content: &str) -> (res: JsonValue)
    ensures
        res.model() == message_json(role@, content@),
{
    let mut entries: Vec<(String, JsonValue)> = Vec::new();
    entries.push((string_of(chars_of("content").as_slice()), JsonValue::String(string_of(chars_of(content).as_slice()))));
    entries.push((string_of(chars_of("role").as_slice()), JsonValue::String(string_of(chars_of(role).as_slice()))));
    proof {
        lemma_entry_models(entries@);
        assert(entry_models(entries@) =~= seq![("content"@, Json::Str(content@)), ("role"@, Json::Str(role@))]);
    }
    JsonValue::Object(entries)
}

pub fn summary_request(model: &str, prompt: &str, max_tokens: usize) -> (res: JsonValue)
    ensures
        res.model() == summary_request_spec(model@, prompt@, max_tokens),
{
    let mut messages: Vec<JsonValue> = Vec::new();
    messages.push(message_exec("system", "You summarize oversized Codex context fragments for local recovery. Preserve concrete file paths, commands, errors, test results, and decisions. Be concise and factual."));
    messages.push(message_exec("user", prompt));
    proof {
        lemma_models(messages@);
        assert(models(messages@) =~= seq![message_json("system"@, system_prompt()), message_json("user"@, prompt@)]);
    }
    let mut entries: Vec<(String, JsonValue)> = Vec::new();
    let n = max_tokens as u64;
    entries.push((string_of(chars_of("max_tokens").as_slice()),
        JsonValue::Number(JsonNumber { text: string_of(u64_text(n).as_slice()), unsigned: Some(n) })));
    entries.push((string_of(chars_of("messages").as_slice()), JsonValue::Array(messages)));
    entries.push((string_of(chars_of("model").as_slice()), JsonValue::String(string_of(chars_of(model).as_slice()))));
    proof {
        lemma_entry_models(entries@);
        assert(entry_models(entries@) =~= seq![
            ("max_tokens"@, Json::Number(decimal_text(max_tokens as nat), Some(max_tokens as u64))),
            ("messages"@, Json::Array(seq![message_json("system"@, system_prompt()), message_json("user"@, prompt@)])),
            ("model"@, Json::Str(model@)),
        ]);
    }
    JsonValue::Object(entries)
}

/// The summary in a chat completion answer: the first choice's message
/// content, trimmed, when it is a non-empty string.
pub open spec fn response_summary(v: Json) -> Option<Seq<char>> {
    match json_get(v, "choices"@) {
        Some(Json::Array(items)) => if items.len() > 0 {
            match json_get(items[0], "message"@) {
                Some(m) => match json_get(m, "content"@) {
                    Some(Json::Str(t)) => if trim(t).len() > 0 { Some(trim(t)) } else { None },
                    _ => None,
                },
                None => None,
            }
        } else {
            None
        },
        _ => None,
    }
}

pub fn summary_from_response(v: &JsonValue) -> (res: Option<String>)
    ensures
        match res {
            Some(s) => response_summary(v.model()) == Some(s@),
            None => response_summary(v.model()) is None,
        },
{
    let items = match v.get("choices") {
        Some(JsonValue::Array(items)) => items,
        _ => return None,
    };
    if items.len() == 0 {
        return None;
    }
    proof { lemma_models(items@); }
    let message = match items[0].get("message") {
        Some(m) => m,
        None => return None,
    };
    let content = match message.get("content") {
        Some(JsonValue::String(t)) => t,
        _ => return None,
    };
    let trimmed = trim_chars(chars_of(content.as_str()).as_slice());
    if trimmed.len() == 0 {
        return None;
    }
    Some(string_of(trimmed.as_slice()))
}

} // verus!
