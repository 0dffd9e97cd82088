use context_guardian::json::{json_equal, parse_json, remove_member, set_member, to_json_text, JsonValue};
use context_guardian::rollout::clean::{
    analyze_records, parse_records, prune_inline_image_output, scrub_user_message_images, should_fold_line,
};
use context_guardian::rollout::events::{
    estimate_rollout_tokens, is_high_token_count, is_recoverable_task_error, normalize_thread_goal_token_count,
    normalize_token_count_event, preview, tool_call_info, ToolCallInfo,
};
use context_guardian::rollout::janitor::{
    backup_file_name, check_scope, clean_pass, clean_record, is_safe_thread_id, render_line, total_line_bytes, CleanParams,
    CleanStats, RecordAction, ScopeError,
};
use context_guardian::rollout::summary::{
    next_summary_step, reduce_round, start_summary, summary_from_response, summary_request, SummaryStep,
};
use context_guardian::rollout::{chunk_by_estimated_tokens, estimate_tokens, inline_data_image_bytes, scrub_inline_images};

const TEST_THREAD_ID: &str = "019f7193-7201-7a91-a2c7-c2653f4b6c78";
const DEFAULT_CONTEXT_TRIGGER_TOKENS: u64 = 200_000;

fn j(text: &str) -> JsonValue {
    parse_json(text.as_bytes()).expect("valid JSON")
}

fn at<'a>(v: &'a JsonValue, key: &str) -> &'a JsonValue {
    v.get(key).expect(key)
}

fn item(v: &JsonValue, i: usize) -> &JsonValue {
    match v {
        JsonValue::Array(items) => &items[i],
        _ => panic!("not an array"),
    }
}

fn len(v: &JsonValue) -> usize {
    match v {
        JsonValue::Array(items) => items.len(),
        _ => panic!("not an array"),
    }
}

fn chars(s: &str) -> Vec<char> {
    s.chars().collect()
}

fn text(v: &JsonValue) -> String {
    v.as_str().expect("a string").to_string()
}

#[test]
fn extracts_view_image_path_from_string_arguments() {
    let value = j(r#"{"type":"response_item","payload":{"type":"function_call","name":"view_image","arguments":"{\"detail\":\"high\",\"path\":\"/tmp/page.png\"}","call_id":"call_1"}}"#);
    let (_, info) = tool_call_info(&value).unwrap();
    assert_eq!(info.image_path, Some("/tmp/page.png".to_string()));
}

#[test]
fn prunes_structured_inline_image_outputs() {
    let image_url = "data:image/png;base64,abc";
    let value = j(&format!(
        r#"{{"type":"response_item","payload":{{"type":"function_call_output","call_id":"call_1","output":[{{"type":"input_image","image_url":"{image_url}","detail":"high"}}]}}}}"#
    ));
    let tool_calls = vec![(
        "call_1".to_string(),
        ToolCallInfo {
            name: "view_image".to_string(),
            image_path: Some("/tmp/page.png".to_string()),
            arguments_preview: None,
        },
    )];
    let (value, removed) = prune_inline_image_output(value, &tool_calls, &chars(TEST_THREAD_ID));
    assert_eq!(removed, Some(image_url.len()));
    let output = at(at(&value, "payload"), "output");
    assert!(output.is_array());
    assert_eq!(text(at(item(output, 0), "type")), "input_text");
    assert!(item(output, 0).get("image_url").is_none());
    let placeholder = text(at(item(output, 0), "text"));
    assert!(placeholder.contains("inline-image-placeholder"));
    assert!(placeholder.contains("/tmp/page.png"));
    assert!(placeholder.contains("removed_bytes=25"));
}

#[test]
fn migrates_legacy_invalid_image_placeholders() {
    let value = j(r#"{"type":"response_item","payload":{"type":"function_call_output","call_id":"call_1","output":[{"type":"input_image","image_url":"[codex-context-janitor:inline-image-placeholder thread=test mime=image/png removed_bytes=25 original_file=/tmp/page.png]","detail":"high"}]}}"#);
    let (value, removed) = prune_inline_image_output(value, &Vec::new(), &chars(TEST_THREAD_ID));
    assert_eq!(removed, Some(1));
    let output = item(at(at(&value, "payload"), "output"), 0);
    assert_eq!(text(at(output, "type")), "input_text");
    assert!(output.get("image_url").is_none());
    assert!(text(at(output, "text")).contains("inline-image-placeholder"));
}

#[test]
fn prunes_string_inline_image_outputs() {
    let value = j(r#"{"type":"response_item","payload":{"type":"function_call_output","call_id":"call_1","output":"literal text containing \"image_url\":\"data:image/png;base64,abc\""}}"#);
    let (value, removed) = prune_inline_image_output(value, &Vec::new(), &chars(TEST_THREAD_ID));
    assert_eq!(removed, Some("data:image/png;base64,abc".len()));
    let output = text(at(at(&value, "payload"), "output"));
    assert!(output.contains("literal text containing"));
    assert!(output.contains("inline-image-placeholder"));
    assert!(!output.contains("data:image"));
}

#[test]
fn scrubs_user_message_image_references_once() {
    let inline_image = "data:image/png;base64,abc";
    let value = j(&format!(
        r#"{{"type":"event_msg","payload":{{"type":"user_message","message":"inspect these","images":["{inline_image}"],"local_images":["/tmp/page.png"],"text_elements":[]}}}}"#
    ));
    let (value, count, removed_bytes) = scrub_user_message_images(value, &chars(TEST_THREAD_ID), &Vec::new());
    assert_eq!(count, 2);
    assert!(removed_bytes >= inline_image.len() + "/tmp/page.png".len());
    let payload = at(&value, "payload");
    assert!(json_equal(at(payload, "images"), &j("[]")));
    assert!(json_equal(at(payload, "local_images"), &j("[]")));
    let placeholders = at(payload, "image_placeholders").deep_clone();
    assert_eq!(len(&placeholders), 2);
    assert!(text(item(&placeholders, 0)).contains("field=images"));
    assert!(text(item(&placeholders, 1)).contains("field=local_images"));
    assert!(text(at(payload, "message")).contains("payload.image_placeholders"));

    let (value, count, removed_bytes) = scrub_user_message_images(value, &chars(TEST_THREAD_ID), &Vec::new());
    assert_eq!((count, removed_bytes), (0, 0));
    assert!(json_equal(at(at(&value, "payload"), "image_placeholders"), &placeholders));
}

#[test]
fn user_image_bytes_come_from_the_file_size() {
    let value = j(r#"{"type":"event_msg","payload":{"type":"user_message","message":"x","local_images":["/tmp/a.png"]}}"#);
    let sizes = vec![("/tmp/a.png".to_string(), 4096usize)];
    let (value, count, removed_bytes) = scrub_user_message_images(value, &chars("t"), &sizes);
    assert_eq!((count, removed_bytes), (1, 4096));
    let placeholder = text(item(at(at(&value, "payload"), "image_placeholders"), 0));
    assert_eq!(
        placeholder,
        "[context-guardian:user-image-placeholder thread=t field=local_images estimated_removed_bytes=4096 original=/tmp/a.png]"
    );
}

#[test]
fn detects_context_alerts() {
    let value = j(r#"{"type":"event_msg","payload":{"type":"task_complete","error":{"message":"stream disconnected before completion: Your input exceeds the context window of this model.","codex_error_info":"other"}}}"#);
    assert!(is_recoverable_task_error(&value));
}

#[test]
fn detects_invalid_image_url_errors() {
    let value = j(r#"{"type":"event_msg","payload":{"type":"task_complete","error":{"message":"Invalid 'input[327].content[2].image_url'. Expected a valid URL, but got a value with an invalid format."}}}"#);
    assert!(is_recoverable_task_error(&value));
}

#[test]
fn ignores_unrelated_task_errors() {
    let value = j(r#"{"type":"event_msg","payload":{"type":"task_complete","error":{"message":"rate limited"}}}"#);
    assert!(!is_recoverable_task_error(&value));
    let info = j(r#"{"type":"event_msg","payload":{"type":"task_complete","error":{"codex_error_info":"Context_Window_Exceeded"}}}"#);
    assert!(is_recoverable_task_error(&info));
}

#[test]
fn detects_200k_token_trigger() {
    let value = j(r#"{"type":"event_msg","payload":{"type":"token_count","info":{"last_token_usage":{"input_tokens":200000,"total_tokens":200123}}}}"#);
    assert!(is_high_token_count(&value, DEFAULT_CONTEXT_TRIGGER_TOKENS));
    let low = j(r#"{"type":"event_msg","payload":{"type":"token_count","info":{"last_token_usage":{"input_tokens":199999,"total_tokens":199999}}}}"#);
    assert!(!is_high_token_count(&low, DEFAULT_CONTEXT_TRIGGER_TOKENS));
}

#[test]
fn detects_inline_images_inside_string_outputs() {
    let value = j(r#""prefix data:image/png;base64,abcdef suffix""#);
    assert_eq!(inline_data_image_bytes(&value), "data:image/png;base64,abcdef".len());
}

#[test]
fn scrubs_inline_images_anywhere() {
    let value = j(r#"{"a":["x data:image/gif;base64,QUJD y"],"b":{"image_url":"data:image/png;base64,zz"}}"#);
    let (scrubbed, removed) = scrub_inline_images(&value, &chars("t"), &chars("unknown image path"));
    assert_eq!(removed, "data:image/gif;base64,QUJD".len() + "data:image/png;base64,zz".len());
    let out = to_json_text(&scrubbed);
    assert!(!out.contains("data:image"));
    let (again, removed_again) = scrub_inline_images(&scrubbed, &chars("t"), &chars("unknown image path"));
    assert_eq!(removed_again, 0);
    assert!(json_equal(&again, &scrubbed));
}

#[test]
fn estimates_tokens_by_character_class() {
    assert_eq!(estimate_tokens(&chars("")), 1);
    assert_eq!(estimate_tokens(&chars("abc")), 3);
    assert_eq!(estimate_tokens(&chars("aé")), 3);
    assert_eq!(estimate_rollout_tokens(0, 100), 1);
    assert_eq!(estimate_rollout_tokens(400, 1_000), 100);
    assert_eq!(estimate_rollout_tokens(400_000, 1_000), 1_000);
}

#[test]
fn chunks_concatenate_back_to_the_input() {
    let input = "line one\nline two\nthree\n";
    let chunks = chunk_by_estimated_tokens(&chars(input), 10);
    let joined: String = chunks.iter().map(|c| c.iter().collect::<String>()).collect();
    assert_eq!(joined, input);
    assert_eq!(chunks.len(), 3);
    let long = chunk_by_estimated_tokens(&chars("abcdefghij"), 4);
    let pieces: Vec<String> = long.iter().map(|c| c.iter().collect()).collect();
    assert_eq!(pieces, vec!["abcd", "efgh", "ij"]);
}

#[test]
fn previews_cut_and_mark_long_text() {
    assert_eq!(preview(&chars("abcdef"), 3), chars("abc..."));
    assert_eq!(preview(&chars("abc"), 3), chars("abc"));
}

#[test]
fn normalizes_oversized_token_counts_and_goals() {
    let value = j(r#"{"type":"event_msg","payload":{"type":"token_count","info":{"last_token_usage":{"input_tokens":250000}}}}"#);
    let (value, changed) = normalize_token_count_event(value, 4_000, 200_000, 100_000);
    assert!(changed);
    let usage = at(at(at(&value, "payload"), "info"), "total_token_usage");
    assert_eq!(at(usage, "input_tokens").as_u64(), Some(1_000));
    assert_eq!(at(usage, "total_tokens").as_u64(), Some(1_000));
    assert_eq!(at(usage, "output_tokens").as_u64(), Some(0));

    let goal = j(r#"{"type":"event_msg","payload":{"type":"thread_goal_updated","goal":{"tokensUsed":300000}}}"#);
    let (goal, changed) = normalize_thread_goal_token_count(goal, 200_000, 100_000);
    assert!(changed);
    assert_eq!(at(at(at(&goal, "payload"), "goal"), "tokensUsed").as_u64(), Some(100_000));
    let small = j(r#"{"type":"event_msg","payload":{"type":"thread_goal_updated","goal":{"tokensUsed":5}}}"#);
    let (_, changed) = normalize_thread_goal_token_count(small, 200_000, 100_000);
    assert!(!changed);
}

const ROLLOUT: &str = "{\"type\":\"session_meta\",\"payload\":{}}\n\
{\"type\":\"response_item\",\"payload\":{\"type\":\"function_call\",\"name\":\"shell\",\"arguments\":\"ls\",\"call_id\":\"c1\"}}\n\
\n\
{\"type\":\"compacted\",\"payload\":{\"message\":\"summary\"}}\n\
{\"type\":\"event_msg\",\"payload\":{\"type\":\"token_count\",\"info\":{\"last_token_usage\":{\"input_tokens\":250000}}}}\n\
{\"type\":\"response_item\",\"payload\":{\"type\":\"message\"}}";

#[test]
fn parses_and_analyzes_a_rollout() {
    let records = parse_records(ROLLOUT).unwrap();
    assert_eq!(records.len(), 5);
    assert_eq!(records[4].newline, "");
    assert_eq!(records[0].newline, "\n");
    let analysis = analyze_records(&records, DEFAULT_CONTEXT_TRIGGER_TOKENS);
    assert_eq!(analysis.tool_calls.len(), 1);
    assert_eq!(analysis.tool_calls[0].0, "c1");
    assert_eq!(analysis.fold_start_index, Some(2));
    assert_eq!(analysis.trigger_start_index, Some(3));
    assert!(!should_fold_line(0, &records[0].value, analysis.fold_start_index));
    assert!(should_fold_line(1, &records[1].value, analysis.fold_start_index));
    assert!(!should_fold_line(2, &records[2].value, analysis.fold_start_index));
    assert_eq!(parse_records("{\"a\":1}\n{\"b\":\n").err(), Some(2));
}

#[test]
fn cleans_record_by_record() {
    let records = parse_records(ROLLOUT).unwrap();
    let analysis = analyze_records(&records, DEFAULT_CONTEXT_TRIGGER_TOKENS);
    let params = CleanParams {
        thread_id: TEST_THREAD_ID.to_string(),
        context_trigger_tokens: DEFAULT_CONTEXT_TRIGGER_TOKENS,
        recovery_tokens: 100_000,
        large_tool_output_bytes: 160_000,
    };
    let total = total_line_bytes(&records);
    assert_eq!(total, ROLLOUT.len() - 5);
    let mut stats = CleanStats::new();
    let mut output = String::new();
    for (index, record) in records.iter().enumerate() {
        let action = clean_record(index, record, &analysis, &params, total, &Vec::new());
        stats.count(&action);
        if let RecordAction::Keep(kept) = action {
            let value = kept.finish(None);
            output.push_str(&render_line(record, &value));
        }
    }
    assert_eq!(stats.folded_obsolete_lines, 1);
    assert_eq!(stats.dropped_context_alert_lines, 1);
    assert!(stats.changed());
    assert!(stats.needs_backup());
    assert_eq!(
        output,
        "{\"type\":\"session_meta\",\"payload\":{}}\n\
{\"type\":\"compacted\",\"payload\":{\"message\":\"summary\"}}\n\
{\"type\":\"response_item\",\"payload\":{\"type\":\"message\"}}"
    );
}

#[test]
fn prunes_large_tool_outputs_with_a_note() {
    let big = "x".repeat(200);
    let line = format!(
        "{{\"type\":\"response_item\",\"payload\":{{\"type\":\"function_call_output\",\"call_id\":\"c1\",\"output\":\"{big}\"}}}}\n"
    );
    let records = parse_records(&line).unwrap();
    let analysis = analyze_records(&records, DEFAULT_CONTEXT_TRIGGER_TOKENS);
    let params = CleanParams {
        thread_id: "t".to_string(),
        context_trigger_tokens: DEFAULT_CONTEXT_TRIGGER_TOKENS,
        recovery_tokens: 100_000,
        large_tool_output_bytes: 100,
    };
    let action = clean_record(0, &records[0], &analysis, &params, 10, &Vec::new());
    let mut stats = CleanStats::new();
    stats.count(&action);
    assert_eq!(stats.pruned_large_tool_outputs, 1);
    assert_eq!(stats.removed_large_output_bytes, 202);
    let kept = match action {
        RecordAction::Keep(kept) => kept,
        _ => panic!("kept"),
    };
    let value = kept.finish(Some("short"));
    let output = text(at(at(&value, "payload"), "output"));
    assert_eq!(
        output,
        "Large tool output summarized by context-guardian via CC Switch because the original tool result was 202 bytes and could exceed the model context window. Tool: unknown-tool. Arguments: unknown arguments.\n\nSummary:\nshort"
    );
}

#[test]
fn dropping_alerts_alone_needs_no_backup() {
    let mut stats = CleanStats::new();
    assert!(!stats.changed());
    stats.count(&RecordAction::DropAlert);
    assert!(stats.changed());
    assert!(!stats.needs_backup());
}

#[test]
fn checks_scope_before_cleaning() {
    assert!(is_safe_thread_id(TEST_THREAD_ID));
    assert!(!is_safe_thread_id(""));
    assert!(!is_safe_thread_id("../x"));
    assert!(!is_safe_thread_id(&"a".repeat(81)));
    let path = format!("/home/u/.codex/sessions/rollout-{TEST_THREAD_ID}.jsonl");
    assert!(check_scope(TEST_THREAD_ID, 200_000, 100_000, &path, &path).is_ok());
    assert!(matches!(check_scope("x/y", 200_000, 100_000, &path, &path), Err(ScopeError::UnsafeThreadId)));
    assert!(matches!(
        check_scope(TEST_THREAD_ID, 100_000, 100_000, &path, &path),
        Err(ScopeError::RecoveryNotBelowTrigger)
    ));
    assert!(matches!(
        check_scope(TEST_THREAD_ID, 200_000, 100_000, "/tmp/other.jsonl", &path),
        Err(ScopeError::RolloutPathWithoutThread)
    ));
    let error = check_scope(TEST_THREAD_ID, 200_000, 100_000, &path, "/tmp/other.jsonl").unwrap_err();
    assert_eq!(error.message(), "canonical rollout path does not contain the configured thread id");
}

#[test]
fn names_backups_after_the_rollout() {
    assert_eq!(backup_file_name(Some("r.jsonl"), 17), "r.jsonl.before-janitor-17.jsonl");
    assert_eq!(backup_file_name(None, 0), "rollout.jsonl.before-janitor-0.jsonl");
}

#[test]
fn summarizes_in_rounds() {
    let info = ToolCallInfo { name: "shell".to_string(), image_path: None, arguments_preview: Some("ls".to_string()) };
    let job = start_summary("short output", &info, 1).unwrap();
    assert_eq!(job.target_tokens, 8000);
    match next_summary_step(&job) {
        SummaryStep::Combine { prompt, fallback } => {
            assert_eq!(fallback, "short output");
            assert_eq!(
                prompt,
                "Tool: shell\nArguments: ls\nOriginal output bytes: 12\nOriginal chunks: 1\n\nCombine these chunk summaries into one concise recovery summary for Codex. Preserve actionable facts and paths.\n\nshort output"
            );
        }
        _ => panic!("one short chunk is combined directly"),
    }
    assert!(start_summary("", &info, 1).is_none());

    let long = "y\n".repeat(5_000);
    let job = start_summary(&long, &info, 8_000).unwrap();
    assert_eq!(job.parts.len(), 2);
    let prompts = match next_summary_step(&job) {
        SummaryStep::Chunks(prompts) => prompts,
        _ => panic!("two chunks are summarized first"),
    };
    assert_eq!(prompts.len(), 2);
    assert!(prompts[0].starts_with("Tool: shell\nArguments: ls\nOriginal output bytes: 10000\nCompression round: 1\nChunk: 1 of 2\n"));
    let job = reduce_round(job, &vec!["a".to_string(), "b".to_string()]);
    assert_eq!(job.round, 1);
    match next_summary_step(&job) {
        SummaryStep::Combine { fallback, .. } => assert_eq!(fallback, "a\n\n--- next chunk summary ---\n\nb"),
        _ => panic!("the summaries fit in one chunk"),
    }
}

#[test]
fn reads_summary_answers() {
    let answer = j(r#"{"choices":[{"message":{"content":"  the gist \n"}}]}"#);
    assert_eq!(summary_from_response(&answer), Some("the gist".to_string()));
    assert_eq!(summary_from_response(&j(r#"{"choices":[{"message":{"content":"   "}}]}"#)), None);
    assert_eq!(summary_from_response(&j(r#"{"choices":[]}"#)), None);
    let request = summary_request("m", "p", 700);
    assert_eq!(at(&request, "max_tokens").as_u64(), Some(700));
    assert_eq!(text(at(&request, "model")), "m");
    assert_eq!(text(at(item(at(&request, "messages"), 1), "content")), "p");
    assert_eq!(text(at(item(at(&request, "messages"), 0), "role")), "system");
}

#[test]
fn json_members_read_back_what_was_written() {
    let value = j(r#"{"b":1,"d":2}"#);
    let value = set_member(value, "c", j("true"));
    assert_eq!(to_json_text(&value), r#"{"b":1,"c":true,"d":2}"#);
    let value = set_member(value, "b", j(r#""x""#));
    assert_eq!(at(&value, "b").as_str(), Some("x"));
    assert_eq!(at(&value, "d").as_u64(), Some(2));
    let value = remove_member(value, "c");
    assert!(value.get("c").is_none());
    assert_eq!(to_json_text(&value), r#"{"b":"x","d":2}"#);
}

#[test]
fn one_pass_cleans_the_whole_rollout() {
    let records = parse_records(ROLLOUT).unwrap();
    let analysis = analyze_records(&records, DEFAULT_CONTEXT_TRIGGER_TOKENS);
    let params = CleanParams {
        thread_id: TEST_THREAD_ID.to_string(),
        context_trigger_tokens: DEFAULT_CONTEXT_TRIGGER_TOKENS,
        recovery_tokens: 100_000,
        large_tool_output_bytes: 160_000,
    };
    let total = total_line_bytes(&records);
    let (output, stats) = clean_pass(&records, &analysis, &params, total, &Vec::new());
    assert_eq!(stats.folded_obsolete_lines, 1);
    assert_eq!(stats.dropped_context_alert_lines, 1);
    assert!(stats.backup_path.is_none());
    assert_eq!(
        output,
        "{\"type\":\"session_meta\",\"payload\":{}}\n\
{\"type\":\"compacted\",\"payload\":{\"message\":\"summary\"}}\n\
{\"type\":\"response_item\",\"payload\":{\"type\":\"message\"}}"
    );
    let again = parse_records(&output).unwrap();
    let analysis = analyze_records(&again, DEFAULT_CONTEXT_TRIGGER_TOKENS);
    let total = total_line_bytes(&again);
    let (second, stats) = clean_pass(&again, &analysis, &params, total, &Vec::new());
    assert!(!stats.changed());
    assert_eq!(second, output);
}

#[test]
fn a_scrub_that_counts_nothing_changes_nothing() {
    let chars = |s: &str| s.chars().collect::<Vec<char>>();
    let value = parse_json(br#"{"type":"message","content":[{"type":"input_text","text":"no images here"}]}"#).unwrap();
    let (scrubbed, removed) = scrub_inline_images(&value, &chars("t"), &chars("unknown image path"));
    assert_eq!(removed, 0);
    assert!(json_equal(&scrubbed, &value));
    let empty_uri = parse_json(br#"{"text":"see data:image"}"#).unwrap();
    let (changed, removed) = scrub_inline_images(&empty_uri, &chars("t"), &chars("unknown image path"));
    assert!(removed > 0);
    assert!(!json_equal(&changed, &empty_uri));
}
