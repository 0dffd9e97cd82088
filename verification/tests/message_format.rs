use context_guardian::json::{json_equal, parse_json, to_json_text, JsonValue};
use context_guardian::message_format::{diagnose_records, is_task_error, probe_failure, LiveProbeResult};

fn j(text: &str) -> JsonValue {
    parse_json(text.as_bytes()).expect("valid JSON")
}

fn at<'a>(v: &'a JsonValue, key: &str) -> &'a JsonValue {
    v.get(key).expect(key)
}

fn item(v: &JsonValue, i: usize) -> &JsonValue {
    match v {
        JsonValue::Array(items) => &items[i],
        _ => panic!("not an array"),
    }
}

#[test]
fn accepts_current_compacted_message_shape() {
    let value = j(r#"{"type":"compacted","payload":{"message":"summary","replacement_history":[{"type":"message","role":"user","content":[{"type":"input_text","text":"hello"}]}]}}"#);
    let diagnosis = diagnose_records(&vec![value]);
    assert!(diagnosis.issues.is_empty());
    assert!(diagnosis.repaired_values.is_empty());
}

#[test]
fn repairs_stringified_compacted_history_and_content() {
    let value = j(r#"{"type":"compacted","payload":{"message":[{"text":"summary"}],"replacement_history":"[{\"role\":\"user\",\"content\":\"hello\"}]"}}"#);
    let diagnosis = diagnose_records(&vec![value]);
    assert_eq!(diagnosis.repaired_records(), 1);
    assert_eq!(diagnosis.unrepaired_issues(), 0);
    let repaired = diagnosis.repaired_value(0).unwrap();
    assert_eq!(at(at(repaired, "payload"), "message").as_str(), Some("summary"));
    let first = item(at(at(repaired, "payload"), "replacement_history"), 0);
    assert_eq!(at(first, "type").as_str(), Some("message"));
    assert!(json_equal(item(at(first, "content"), 0), &j(r#"{"type":"input_text","text":"hello"}"#)));
}

#[test]
fn repairs_role_mismatched_text_types() {
    let value = j(r#"{"type":"response_item","payload":{"type":"message","role":"assistant","content":[{"type":"input_text","content":"answer"}]}}"#);
    let diagnosis = diagnose_records(&vec![value]);
    let repaired = diagnosis.repaired_value(0).unwrap();
    let part = item(at(at(repaired, "payload"), "content"), 0);
    assert_eq!(at(part, "type").as_str(), Some("output_text"));
    assert_eq!(at(part, "text").as_str(), Some("answer"));
    assert!(part.get("content").is_none());
}

#[test]
fn serializes_structured_function_arguments() {
    let value = j(r#"{"type":"response_item","payload":{"type":"function_call","name":"tool","call_id":"call_1","arguments":{"path":"/tmp/a"}}}"#);
    let diagnosis = diagnose_records(&vec![value]);
    let repaired = diagnosis.repaired_value(0).unwrap();
    assert_eq!(at(at(repaired, "payload"), "arguments").as_str(), Some("{\"path\":\"/tmp/a\"}"));
}

#[test]
fn reports_unrepairable_missing_message_role() {
    let value = j(r#"{"type":"compacted","payload":{"message":"summary","replacement_history":[{"type":"message","content":[{"type":"input_text","text":"hello"}]}]}}"#);
    let diagnosis = diagnose_records(&vec![value]);
    assert_eq!(diagnosis.unrepaired_issues(), 1);
    assert!(diagnosis.repaired_values.is_empty());
}

#[test]
fn detects_task_errors_without_reading_error_text() {
    let value = j(r#"{"type":"event_msg","payload":{"type":"task_complete","error":{"message":"unknown"}}}"#);
    assert!(is_task_error(&value));
    let fine = j(r#"{"type":"event_msg","payload":{"type":"task_complete"}}"#);
    assert!(!is_task_error(&fine));
}

#[test]
fn repaired_records_diagnose_clean() {
    let value = j(r#"{"type":"response_item","payload":{"type":"message","role":"assistant","content":[{"type":"input_text","content":"answer"}]}}"#);
    let first = diagnose_records(&vec![value]);
    let repaired = first.repaired_value(0).unwrap().deep_clone();
    let second = diagnose_records(&vec![repaired]);
    assert!(second.issues.is_empty());
    assert_eq!(second.repaired_records(), 0);
}

#[test]
fn counts_checked_records_and_indexes_issues() {
    let good = j(r#"{"type":"response_item","payload":{"type":"message","role":"user","content":[{"type":"input_text","text":"hi"}]}}"#);
    let bad = j(r#"{"type":"response_item","payload":{"type":"function_call","name":"tool","call_id":"c","arguments":{"a":1}}}"#);
    let other = j(r#"{"type":"session_meta","payload":{}}"#);
    let diagnosis = diagnose_records(&vec![good, other, bad]);
    assert_eq!(diagnosis.issues.len(), 1);
    assert_eq!(diagnosis.issues[0].record_index, 2);
    assert!(diagnosis.issues[0].repaired);
    assert!(diagnosis.repaired_value(2).is_some());
    assert!(diagnosis.repaired_value(0).is_none());
}

#[test]
fn probe_results_read_as_json() {
    let unrequested = LiveProbeResult::not_requested();
    assert!(!unrequested.attempted);
    let json = unrequested.as_json();
    assert_eq!(at(&json, "status").as_str(), Some("not_requested"));
    let failed = probe_failure("failed", "timeout");
    assert!(failed.attempted);
    assert!(!failed.succeeded);
}

#[test]
fn one_repair_pass_suffices_beside_unrepairable_issues() {
    let value = j(r#"{"type":"response_item","payload":{"type":"message","role":"user","content":"hello","extra":1}}"#);
    let mixed = j(r#"{"type":"compacted","payload":{"message":[{"text":"summary"}]}}"#);
    let diagnosis = diagnose_records(&vec![value, mixed]);
    assert_eq!(diagnosis.repaired_records(), 2);
    assert_eq!(diagnosis.unrepaired_issues(), 1);
    let first = j(&to_json_text(diagnosis.repaired_value(0).unwrap()));
    let second = j(&to_json_text(diagnosis.repaired_value(1).unwrap()));
    let again = diagnose_records(&vec![first, second]);
    assert!(again.repaired_values.is_empty());
    assert!(again.issues.iter().all(|issue| !issue.repaired));
    assert_eq!(again.unrepaired_issues(), 1);
    let alone = diagnose_records(&vec![j(&to_json_text(diagnosis.repaired_value(0).unwrap()))]);
    assert!(alone.repaired_values.is_empty());
    assert!(alone.issues.is_empty());
}
