use context_guardian::passive_capture::http::decode_chunked;
use context_guardian::json::parse_json;
use context_guardian::passive_capture::analyze::{analyze_pcap, sort_reports};
use context_guardian::passive_capture::capture::{
    capture_step, report_file_name, reports_to_prune, reports_to_read, validate_options, CaptureAction, CaptureEvent,
    CaptureOptions,
};
use context_guardian::passive_capture::correlate::{correlate_reports, schema_differences, PassiveEvidence};
use context_guardian::passive_capture::report::{collect_identifiers, safe_content_encoding, SchemaField, TransactionReport};
use sha2::{Digest, Sha256};
use flate2::{write::GzEncoder, Compression};
use std::io::Write;

fn field(path: &str, value_type: &str) -> SchemaField {
    SchemaField { path: path.to_string(), value_type: value_type.to_string(), safe_enum: None }
}

fn report_text(report: &TransactionReport) -> String {
    let mut out = format!(
        "{} {} {} {} {}",
        report.method, report.target_hash, report.content_encoding, report.body_hash, report.schema_hash
    );
    for f in &report.schema {
        out.push_str(&f.path);
        out.push_str(&f.value_type);
        if let Some(e) = &f.safe_enum {
            out.push_str(e);
        }
    }
    for (path, hash) in &report.identifiers {
        out.push_str(path);
        out.push_str(hash);
    }
    out
}

fn http_request(body: &[u8], extra_headers: &[u8]) -> Vec<u8> {
    let mut request = format!(
        "POST /v1/responses HTTP/1.1\r\nHost: 127.0.0.1\r\nAuthorization: Bearer forbidden\r\nContent-Length: {}\r\n",
        body.len()
    )
    .into_bytes();
    request.extend_from_slice(extra_headers);
    request.extend_from_slice(b"\r\n");
    request.extend_from_slice(body);
    request
}

fn synthetic_pcap(request: &[u8], response: &[u8], port: u16, seconds: u32) -> Vec<u8> {
    synthetic_pcap_split(request, response, port, seconds, usize::MAX)
}

fn synthetic_pcap_split(request: &[u8], response: &[u8], port: u16, seconds: u32, split: usize) -> Vec<u8> {
    let mut pcap = Vec::new();
    pcap.extend_from_slice(&0xa1b2c3d4u32.to_le_bytes());
    pcap.extend_from_slice(&2u16.to_le_bytes());
    pcap.extend_from_slice(&4u16.to_le_bytes());
    pcap.extend_from_slice(&0i32.to_le_bytes());
    pcap.extend_from_slice(&0u32.to_le_bytes());
    pcap.extend_from_slice(&65535u32.to_le_bytes());
    pcap.extend_from_slice(&0u32.to_le_bytes());
    let mut sequence = 1000u32;
    for (index, chunk) in request.chunks(split.max(1)).enumerate() {
        let packet = null_ipv4_tcp(45123, port, sequence, chunk);
        push_pcap_packet(&mut pcap, seconds, index as u32 * 1000, &packet);
        sequence = sequence.wrapping_add(chunk.len() as u32);
    }
    let mut sequence = 9000u32;
    for (index, chunk) in response.chunks(split.max(1)).enumerate() {
        let packet = null_ipv4_tcp(port, 45123, sequence, chunk);
        push_pcap_packet(&mut pcap, seconds + 1, index as u32 * 1000, &packet);
        sequence = sequence.wrapping_add(chunk.len() as u32);
    }
    pcap
}

fn push_pcap_packet(pcap: &mut Vec<u8>, seconds: u32, micros: u32, packet: &[u8]) {
    pcap.extend_from_slice(&seconds.to_le_bytes());
    pcap.extend_from_slice(&micros.to_le_bytes());
    pcap.extend_from_slice(&(packet.len() as u32).to_le_bytes());
    pcap.extend_from_slice(&(packet.len() as u32).to_le_bytes());
    pcap.extend_from_slice(packet);
}

fn null_ipv4_tcp(source_port: u16, destination_port: u16, sequence: u32, payload: &[u8]) -> Vec<u8> {
    let mut packet = Vec::new();
    packet.extend_from_slice(&2u32.to_ne_bytes());
    let total_length = 20 + 20 + payload.len();
    packet.push(0x45);
    packet.push(0);
    packet.extend_from_slice(&(total_length as u16).to_be_bytes());
    packet.extend_from_slice(&[0; 5]);
    packet.push(6);
    packet.extend_from_slice(&[0; 2]);
    packet.extend_from_slice(&[127, 0, 0, 1]);
    packet.extend_from_slice(&[127, 0, 0, 1]);
    packet.extend_from_slice(&source_port.to_be_bytes());
    packet.extend_from_slice(&destination_port.to_be_bytes());
    packet.extend_from_slice(&sequence.to_be_bytes());
    packet.extend_from_slice(&0u32.to_be_bytes());
    packet.push(0x50);
    packet.push(0x18);
    packet.extend_from_slice(&65535u16.to_be_bytes());
    packet.extend_from_slice(&0u16.to_be_bytes());
    packet.extend_from_slice(&0u16.to_be_bytes());
    packet.extend_from_slice(payload);
    packet
}

#[test]
fn parses_synthetic_pcap_content_length_and_redacts_scalars() {
    let body = br#"{"model":"secret-model","input":[{"role":"user","content":[{"type":"input_text","text":"never persist me"}]}],"thread_id":"thread-secret","filename-secret":"value"}"#;
    let request = http_request(body, &[]);
    let response = b"HTTP/1.1 200 OK\r\nContent-Length: 2\r\n\r\n{}".to_vec();
    let pcap = synthetic_pcap(&request, &response, 15721, 1_700_000_000);
    let reports = analyze_pcap(&pcap, 15721, 1024 * 1024).unwrap();
    assert_eq!(reports.len(), 1);
    assert_eq!(reports[0].response_status, Some(200));
    assert!(reports[0]
        .schema
        .iter()
        .any(|field| field.path == "$.input[0].content[0].text" && field.value_type == "string"));
    let serialized = report_text(&reports[0]);
    assert!(!serialized.contains("never persist me"));
    assert!(!serialized.contains("thread-secret"));
    assert!(!serialized.contains("secret-model"));
    assert!(!serialized.contains("filename-secret"));
}

#[test]
fn parses_synthetic_pcap_chunked_gzip_request() {
    let body = br#"{"input":[{"role":"assistant","content":[{"type":"output_text","text":"compressed secret"}]}]}"#;
    let mut encoder = GzEncoder::new(Vec::new(), Compression::default());
    encoder.write_all(body).unwrap();
    let gzip = encoder.finish().unwrap();
    let mut encoded = format!("{:x}\r\n", gzip.len()).into_bytes();
    encoded.extend_from_slice(&gzip);
    encoded.extend_from_slice(b"\r\n0\r\n\r\n");
    let mut request = b"POST /v1/responses HTTP/1.1\r\nHost: 127.0.0.1\r\nAuthorization: Bearer forbidden\r\nTransfer-Encoding: chunked\r\nContent-Encoding: gzip\r\n\r\n".to_vec();
    request.extend_from_slice(&encoded);
    let response_body = br#"{"error":{"type":"unknown_error","message":"also secret"}}"#;
    let mut response_full =
        format!("HTTP/1.1 500 Internal Server Error\r\nContent-Length: {}\r\n\r\n", response_body.len()).into_bytes();
    response_full.extend_from_slice(response_body);
    let pcap = synthetic_pcap_split(&request, &response_full, 15721, 1_700_000_100, 37);
    let reports = analyze_pcap(&pcap, 15721, 1024 * 1024).unwrap();
    assert_eq!(reports.len(), 1);
    assert_eq!(reports[0].content_encoding, "gzip");
    assert_eq!(reports[0].decoded_body_bytes, body.len());
    assert!(reports[0].response_error_envelope);
    let serialized = report_text(&reports[0]);
    assert!(!serialized.contains("compressed secret"));
    assert!(!serialized.contains("forbidden"));
    assert!(!serialized.contains("also secret"));
}

#[test]
fn classifies_only_known_lossless_schema_changes() {
    let good = vec![field("$.input[0].content", "array")];
    let bad = vec![field("$.input[0].content", "string")];
    let differences = schema_differences(&good, &bad);
    assert_eq!(differences[0].classification, "lossless_known_transform");
}

#[test]
fn identical_schemas_have_no_differences() {
    let fields = vec![field("$.a", "string"), field("$.b", "number")];
    assert!(schema_differences(&fields, &fields).is_empty());
}

fn transaction(timestamp: u64, status: u16, schema: Vec<SchemaField>) -> TransactionReport {
    TransactionReport {
        request_at_unix_ms: timestamp,
        method: "POST".to_string(),
        target_hash: "target-hash".to_string(),
        content_encoding: "identity".to_string(),
        encoded_body_bytes: 100,
        decoded_body_bytes: 100,
        body_hash: format!("body-{timestamp}"),
        schema_hash: format!("schema-{timestamp}"),
        schema,
        identifiers: vec![("$.thread_id".to_string(), "thread-hash".to_string())],
        response_status: Some(status),
        response_error_envelope: status >= 400,
    }
}

#[test]
fn correlates_failed_capture_with_successful_baseline() {
    let stamp = 1_700_000_000_000u64;
    let transactions = vec![
        transaction(
            stamp - 1_000,
            200,
            vec![field("$.input[0].content", "array"), field("$.input[0].content[0]", "object")],
        ),
        transaction(stamp, 500, vec![field("$.input[0].content", "string")]),
    ];
    let evidence = correlate_reports(transactions, stamp, 30_000);
    assert!(evidence.supports_lossless_repair);
    assert_eq!(evidence.status, "lossless_schema_delta");
    assert_eq!(evidence.failed_request_at_unix_ms, Some(stamp));
    assert_eq!(evidence.baseline_request_at_unix_ms, Some(stamp - 1_000));
}

#[test]
fn correlation_without_a_failure_says_so() {
    let stamp = 1_700_000_000_000u64;
    let evidence = correlate_reports(vec![transaction(stamp, 200, vec![])], stamp, 30_000);
    assert!(evidence.attempted);
    assert!(!evidence.supports_lossless_repair);
    assert_eq!(evidence.failed_request_at_unix_ms, None);
    let unrequested = PassiveEvidence::not_requested();
    assert!(!unrequested.attempted);
}

fn options() -> CaptureOptions {
    CaptureOptions {
        interface: "lo0".to_string(),
        port: 15721,
        duration_secs: 30,
        duration_subsec_nanos: 0,
        max_pcap_bytes: 64 * 1024 * 1024,
        max_reports: 20,
        report_dir: "/tmp/reports".to_string(),
        tcpdump: "/usr/sbin/tcpdump".to_string(),
    }
}

#[test]
fn validates_capture_options() {
    assert!(validate_options(&options()).is_ok());
    let mut zero = options();
    zero.port = 0;
    assert!(validate_options(&zero).is_err());
    let mut iface = options();
    iface.interface = "lo0; rm -rf".to_string();
    assert!(validate_options(&iface).is_err());
}

#[test]
fn plans_report_files() {
    let names = vec![
        "passive-capture-3.json".to_string(),
        "other.txt".to_string(),
        "passive-capture-1.json".to_string(),
        "passive-capture-2.json".to_string(),
    ];
    let read = reports_to_read(&names);
    assert_eq!(read.len(), 3);
    let prune = reports_to_prune(&names, 2);
    assert_eq!(prune, vec!["passive-capture-1.json".to_string()]);
    assert_eq!(report_file_name(5, 7), "passive-capture-5-7.json");
}

#[test]
fn steps_the_capture_loop() {
    let o = options();
    assert_eq!(capture_step(&o, false, CaptureEvent::Exited { success: false, elapsed_nanos: 10 }), (false, CaptureAction::FailEarlyExit));
    assert_eq!(capture_step(&o, false, CaptureEvent::Exited { success: true, elapsed_nanos: 10 }), (false, CaptureAction::Finish));
    assert_eq!(
        capture_step(&o, false, CaptureEvent::Running { pcap_len: 64 * 1024 * 1024, elapsed_nanos: 0 }),
        (true, CaptureAction::Stop)
    );
    assert_eq!(capture_step(&o, false, CaptureEvent::Running { pcap_len: 1, elapsed_nanos: 1 }), (false, CaptureAction::Wait));
    assert_eq!(
        capture_step(&o, false, CaptureEvent::Running { pcap_len: 1, elapsed_nanos: 30_000_000_000 }),
        (false, CaptureAction::Stop)
    );
}

#[test]
fn sorts_reports_by_time_keeping_ties_in_order() {
    let mut a = transaction(30, 200, vec![]);
    a.method = "A".to_string();
    let mut b = transaction(10, 200, vec![]);
    b.method = "B".to_string();
    let mut c = transaction(30, 500, vec![]);
    c.method = "C".to_string();
    let mut d = transaction(20, 200, vec![]);
    d.method = "D".to_string();
    let sorted = sort_reports(vec![a, b, c, d]);
    let order: Vec<&str> = sorted.iter().map(|t| t.method.as_str()).collect();
    assert_eq!(order, vec!["B", "D", "A", "C"]);
}

#[test]
fn identifiers_are_recorded_as_digests() {
    let value = parse_json(br#"{"thread_id":"thread-secret","input":[{"call_id":"c-1"}],"other":"x"}"#).unwrap();
    let mut output = Vec::new();
    let path: Vec<char> = "$".chars().collect();
    collect_identifiers(&value, &path, &mut output, 0);
    assert_eq!(output.len(), 2);
    let thread = output.iter().find(|(p, _)| p == "$.thread_id").unwrap();
    assert_eq!(thread.1, hex::encode(Sha256::digest(b"thread-secret")));
    assert!(output.iter().all(|(_, v)| v.len() == 64 && !v.contains("secret")));
}

#[test]
fn chunked_encodings_decode_to_their_chunks() {
    let encoded = b"4\r\nWiki\r\n05\r\npedia\r\nE\r\n in\r\n\r\nchunks.\r\n0\r\n\r\n";
    let mut bytes = encoded.to_vec();
    bytes.extend_from_slice(b"HTTP/1.1 200 OK\r\n");
    let (body, consumed) = decode_chunked(&bytes, 1024).unwrap().unwrap();
    assert_eq!(body, b"Wikipedia in\r\n\r\nchunks.".to_vec());
    assert_eq!(consumed, encoded.len());
    for cut in 0..encoded.len() {
        assert_eq!(decode_chunked(&encoded[..cut], 1024), Ok(None), "prefix of {cut} bytes");
    }
    assert!(decode_chunked(encoded, 8).is_err());
}

#[test]
fn schema_differences_ascend_and_mark_missing_fields_ambiguous() {
    let good = vec![field("$.z", "string"), field("$.a", "number"), field("$.m", "boolean")];
    let bad = vec![field("$.m", "string"), field("$.b", "number"), field("$.z", "string")];
    let differences = schema_differences(&good, &bad);
    let paths: Vec<&str> = differences.iter().map(|d| d.path.as_str()).collect();
    assert_eq!(paths, vec!["$.a", "$.b", "$.m"]);
    assert_eq!(differences[0].failing_type, "missing");
    assert_eq!(differences[0].classification, "ambiguous");
    assert_eq!(differences[1].successful_type, "missing");
    assert_eq!(differences[1].classification, "ambiguous");
    assert_eq!(differences[2].successful_type, "boolean");
    assert_eq!(differences[2].failing_type, "string");
}

#[test]
fn unrelated_records_leave_the_analysis_unchanged() {
    let request = http_request(br#"{"model":"m","input":[]}"#, &[]);
    let response = b"HTTP/1.1 200 OK\r\nContent-Length: 2\r\n\r\n{}".to_vec();
    let pcap = synthetic_pcap(&request, &response, 15721, 1_700_000_000);
    let mut extended = pcap.clone();
    push_pcap_packet(&mut extended, 1_700_000_005, 0, &null_ipv4_tcp(40000, 8080, 1, b"GET / HTTP/1.1\r\n\r\n"));
    push_pcap_packet(&mut extended, 1_700_000_006, 0, &null_ipv4_tcp(45123, 15721, 7, b""));
    push_pcap_packet(&mut extended, 1_700_000_007, 0, &[2, 0, 0, 0, 0x60]);
    let plain = analyze_pcap(&pcap, 15721, 1024 * 1024).unwrap();
    let more = analyze_pcap(&extended, 15721, 1024 * 1024).unwrap();
    assert_eq!(plain.len(), 1);
    assert_eq!(report_text(&plain[0]), report_text(&more[0]));
    assert_eq!(plain.len(), more.len());
}

#[test]
fn report_hashes_have_their_written_forms() {
    let request = http_request(br#"{"model":"m","input":[],"thread_id":"t-1"}"#, &[]);
    let response = b"HTTP/1.1 200 OK\r\nContent-Length: 2\r\n\r\n{}".to_vec();
    let pcap = synthetic_pcap(&request, &response, 15721, 1_700_000_000);
    let reports = analyze_pcap(&pcap, 15721, 1024 * 1024).unwrap();
    let is_hex = |text: &str, len: usize| text.len() == len && text.bytes().all(|b| b.is_ascii_digit() || (b'a'..=b'f').contains(&b));
    assert_eq!(reports.len(), 1);
    assert!(!reports[0].identifiers.is_empty());
    {
        for report in &reports {
            assert!(is_hex(&report.target_hash, 64));
            assert!(is_hex(&report.body_hash, 64));
            assert!(is_hex(&report.schema_hash, 64));
            for (_, value) in &report.identifiers {
                assert!(is_hex(value, 64));
            }
            let encoding = report.content_encoding.as_str();
            assert!(encoding == "identity" || encoding == "gzip" || (encoding.starts_with("other:") && is_hex(&encoding[6..], 16)));
        }
    }
    let other: String = safe_content_encoding(&" BR ".chars().collect::<Vec<char>>()).into_iter().collect();
    assert!(other.starts_with("other:") && is_hex(&other[6..], 16));
}
