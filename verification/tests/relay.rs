use context_guardian::relay::{
    blind_slots, blind_tunnel_url, check_client_endpoints, image_job_path, poll_outcome, random_hex, ClientSettingsError, PollOutcome, relay_result, result_upload_ok, secret_hash, served_image,
    tenant_from_server_name, valid_dns_suffix, valid_image_path, valid_secret, valid_tenant_id, ClientIdentity,
    RelayResult,
};

#[test]
fn builds_secure_blind_tunnel_urls() {
    let tenant = "a".repeat(32);
    assert_eq!(
        blind_tunnel_url("https://relay.example.com:5003", &tenant).unwrap(),
        format!("wss://relay.example.com:5003/v2/tunnel/{tenant}")
    );
    assert!(blind_tunnel_url("http://relay.example.com", &tenant).is_err());
}

#[test]
fn image_paths_are_narrow() {
    assert!(valid_image_path(&format!("/image/{}.png?expires=1&sig=2", "a".repeat(64))));
    assert!(!valid_image_path("/image/../../etc/passwd"));
    assert!(!valid_image_path(&format!("/image/{}.svg", "a".repeat(64))));
}

#[test]
fn maps_only_exact_tenant_sni() {
    let tenant = "a".repeat(32);
    let suffix = "relay.example.com";
    assert_eq!(tenant_from_server_name(&format!("{tenant}.{suffix}"), suffix), Some(tenant.clone()));
    assert!(tenant_from_server_name(&format!("x.{tenant}.{suffix}"), suffix).is_none());
    assert!(tenant_from_server_name("relay.example.com", suffix).is_none());
    assert!(tenant_from_server_name(&format!("{}.other.example", tenant), suffix).is_none());
}

#[test]
fn identities_are_independent() {
    let first = ClientIdentity::generate();
    let second = ClientIdentity::generate();
    assert!(valid_tenant_id(&first.tenant_id));
    assert!(valid_secret(&first.tenant_secret));
    assert_ne!(first.tenant_id, second.tenant_id);
    assert_ne!(secret_hash(&first.tenant_secret), secret_hash(&second.tenant_secret));
}

#[test]
fn tenant_ids_and_secrets_have_exact_lengths() {
    assert!(valid_tenant_id(&"0123456789abcdefABCDEF0123456789".to_string()));
    assert!(!valid_tenant_id(&"a".repeat(31)));
    assert!(!valid_tenant_id(&"a".repeat(33)));
    assert!(!valid_tenant_id(&format!("{}g", "a".repeat(31))));
    assert!(valid_secret(&"f".repeat(64)));
    assert!(!valid_secret(&"f".repeat(63)));
    assert!(!valid_secret(&format!("{}-", "f".repeat(63))));
}

#[test]
fn secret_hash_is_sha256_hex() {
    assert_eq!(secret_hash(""), "e3b0c44298fc1c149afbf4c8996fb92427ae41e4649b934ca495991b7852b855");
    assert_eq!(secret_hash("abc"), "ba7816bf8f01cfea414140de5dae2223b00361a396177a9cb410ff61f20015ad");
}

#[test]
fn image_paths_accept_each_allowed_extension_only() {
    let digest = "0".repeat(64);
    for ext in ["png", "jpg", "webp", "gif"] {
        assert!(valid_image_path(&format!("/image/{digest}.{ext}")));
    }
    assert!(!valid_image_path(&format!("/image/{digest}.jpeg")));
    assert!(!valid_image_path(&format!("/image/{}.png", "0".repeat(63))));
    assert!(!valid_image_path(&format!("/img/{digest}.png")));
}

#[test]
fn tunnel_url_drops_trailing_slashes() {
    let tenant = "b".repeat(32);
    assert_eq!(
        blind_tunnel_url("https://relay.example.com//", &tenant).unwrap(),
        format!("wss://relay.example.com/v2/tunnel/{tenant}")
    );
    assert_eq!(
        blind_tunnel_url("ftp://relay.example.com", &tenant).unwrap_err(),
        "blind tunnel control URL must use HTTPS"
    );
}

#[test]
fn dns_suffixes_are_validated_label_by_label() {
    assert!(valid_dns_suffix("relay.example.com"));
    assert!(valid_dns_suffix("a-b.c"));
    assert!(!valid_dns_suffix(""));
    assert!(!valid_dns_suffix("relay..example"));
    assert!(!valid_dns_suffix("-relay.example"));
    assert!(!valid_dns_suffix("relay-.example"));
    assert!(!valid_dns_suffix(&format!("{}.com", "a".repeat(64))));
    assert!(!valid_dns_suffix("relay_example.com"));
}

#[test]
fn builds_image_jobs_only_for_well_formed_requests() {
    let tenant = "a".repeat(32);
    let name = format!("{}.png", "b".repeat(64));
    let sig = "c".repeat(64);
    assert_eq!(
        image_job_path(&tenant, &name, Some("123"), Some(&sig)),
        Some(format!("/image/{name}?expires=123&sig={sig}"))
    );
    assert_eq!(image_job_path(&tenant, &name, None, Some(&sig)), None);
    assert_eq!(image_job_path(&tenant, &name, Some("12a"), Some(&sig)), None);
    assert_eq!(image_job_path(&tenant, &name, Some(&"1".repeat(21)), Some(&sig)), None);
    assert_eq!(image_job_path(&tenant, &name, Some("1"), Some("abc")), None);
    assert_eq!(image_job_path("short", &name, Some("1"), Some(&sig)), None);
    assert_eq!(image_job_path(&tenant, "../x.png", Some("1"), Some(&sig)), None);
}

#[test]
fn relays_image_bodies_in_base64() {
    let result = relay_result(200, Some("image/png"), b"hello").unwrap();
    assert_eq!(result.body_base64, "aGVsbG8=");
    assert_eq!(result.content_type, "image/png");
    assert!(result_upload_ok(&result));
    assert_eq!(served_image(&result), Some(b"hello".to_vec()));
    let untyped = relay_result(404, None, b"").unwrap();
    assert_eq!(untyped.content_type, "application/octet-stream");
    assert_eq!(served_image(&untyped), None);
    assert!(relay_result(200, None, &vec![0u8; 20 * 1024 * 1024 + 1]).is_none());
}

#[test]
fn refuses_bad_relay_results() {
    let text = RelayResult { status: 200, content_type: "text/plain".to_string(), body_base64: "aGVsbG8=".to_string() };
    assert_eq!(served_image(&text), None);
    let broken = RelayResult { status: 200, content_type: "image/png".to_string(), body_base64: "!!".to_string() };
    assert_eq!(served_image(&broken), None);
}

#[test]
fn reads_poll_answers() {
    assert_eq!(poll_outcome(204), PollOutcome::Idle);
    assert_eq!(poll_outcome(404), PollOutcome::Unregistered);
    assert_eq!(poll_outcome(200), PollOutcome::Job);
    assert_eq!(poll_outcome(500), PollOutcome::Failed(500));
    assert_eq!(poll_outcome(302), PollOutcome::Failed(302));
}

#[test]
fn checks_client_settings() {
    assert!(check_client_endpoints("https://relay.example.com", "http://[::1]:8787").is_ok());
    assert!(check_client_endpoints("https://relay.example.com", "http://127.0.0.1:8787").is_ok());
    assert_eq!(
        check_client_endpoints("http://relay.example.com", "http://[::1]:8787"),
        Err(ClientSettingsError::RelayNotHttps)
    );
    assert_eq!(
        check_client_endpoints("https://relay.example.com", "http://localhost:8787").unwrap_err().message(),
        "local gateway must be loopback port 8787"
    );
    assert_eq!(blind_slots("4"), Ok(4));
    assert_eq!(blind_slots("+8"), Ok(8));
    assert_eq!(blind_slots("0"), Err(ClientSettingsError::SlotsOutOfRange));
    assert_eq!(blind_slots("9"), Err(ClientSettingsError::SlotsOutOfRange));
    assert_eq!(blind_slots("four"), Err(ClientSettingsError::SlotsNotInteger));
}

#[test]
fn random_request_ids_are_fresh_hex() {
    let a = random_hex(16);
    let b = random_hex(16);
    assert_eq!(a.len(), 32);
    assert!(a.chars().all(|c| c.is_ascii_hexdigit() && !c.is_ascii_uppercase()));
    assert_ne!(a, b);
    assert_eq!(random_hex(0), "");
}

use context_guardian::relay::serving::{
    accept_result, enqueue_image_request, hidden_not_found, image_admission, image_reply, release_image_request,
    InflightRequest, QueuedJob, MAX_INFLIGHT, MAX_QUEUED_PER_TENANT,
};

fn image_request_parts() -> (String, String, String, String) {
    ("a".repeat(32), format!("{}.png", "b".repeat(64)), "1700000000".to_string(), "c".repeat(64))
}

#[test]
fn admits_only_checked_requests_within_limits() {
    let (tenant, file, expires, sig) = image_request_parts();
    let path = format!("/image/{file}?expires={expires}&sig={sig}");
    assert_eq!(image_admission(&tenant, &file, Some(&expires), Some(&sig), true, 0, 0), Some(path.clone()));
    assert_eq!(
        image_admission(&tenant, &file, Some(&expires), Some(&sig), true, MAX_INFLIGHT - 1, MAX_QUEUED_PER_TENANT - 1),
        Some(path)
    );
    assert_eq!(image_admission(&tenant, &file, Some(&expires), Some(&sig), false, 0, 0), None);
    assert_eq!(image_admission(&tenant, &file, Some(&expires), Some(&sig), true, MAX_INFLIGHT, 0), None);
    assert_eq!(image_admission(&tenant, &file, Some(&expires), Some(&sig), true, 0, MAX_QUEUED_PER_TENANT), None);
    assert_eq!(image_admission(&tenant, &file, None, Some(&sig), true, 0, 0), None);
    assert_eq!(image_admission(&tenant, "x.svg", Some(&expires), Some(&sig), true, 0, 0), None);
}

#[test]
fn refusals_share_one_reply() {
    let hidden = hidden_not_found();
    assert_eq!(hidden.status, 404);
    assert_eq!(hidden.headers, vec![("cache-control".to_string(), "no-store".to_string())]);
    assert!(hidden.body.is_empty());
    let timed_out = image_reply(None);
    let bad_status = image_reply(Some(&RelayResult {
        status: 500,
        content_type: "image/png".to_string(),
        body_base64: "AAEC".to_string(),
    }));
    let not_image = image_reply(Some(&RelayResult {
        status: 200,
        content_type: "text/html".to_string(),
        body_base64: "AAEC".to_string(),
    }));
    let bad_base64 = image_reply(Some(&RelayResult {
        status: 200,
        content_type: "image/png".to_string(),
        body_base64: "***".to_string(),
    }));
    for reply in [timed_out, bad_status, not_image, bad_base64] {
        assert_eq!(reply.status, hidden.status);
        assert_eq!(reply.headers, hidden.headers);
        assert_eq!(reply.body, hidden.body);
    }
}

#[test]
fn serves_fetched_images_privately() {
    let reply = image_reply(Some(&RelayResult {
        status: 200,
        content_type: "image/png".to_string(),
        body_base64: "AAEC".to_string(),
    }));
    assert_eq!(reply.status, 200);
    assert_eq!(reply.body, vec![0u8, 1, 2]);
    assert_eq!(
        reply.headers,
        vec![
            ("content-type".to_string(), "image/png".to_string()),
            ("cache-control".to_string(), "private, no-store".to_string()),
            ("x-content-type-options".to_string(), "nosniff".to_string()),
        ]
    );
    let control = image_reply(Some(&RelayResult {
        status: 200,
        content_type: "image/png\n".to_string(),
        body_base64: "AAEC".to_string(),
    }));
    assert_eq!(control.status, 404);
}

#[test]
fn releases_only_the_finished_request() {
    let mut inflight: Vec<InflightRequest> = Vec::new();
    let mut queue: Vec<QueuedJob> = Vec::new();
    enqueue_image_request(&mut inflight, &mut queue, "t1", "r1", "/image/one".to_string());
    enqueue_image_request(&mut inflight, &mut queue, "t2", "r2", "/image/two".to_string());
    assert_eq!(inflight.len(), 2);
    assert_eq!(queue.len(), 2);
    release_image_request(&mut inflight, &mut queue, "r1");
    assert_eq!(inflight.len(), 1);
    assert_eq!(inflight[0].request_id, "r2");
    assert_eq!(inflight[0].tenant_id, "t2");
    assert_eq!(queue.len(), 1);
    assert_eq!(queue[0].path_and_query, "/image/two");
    release_image_request(&mut inflight, &mut queue, "r9");
    assert_eq!(inflight.len(), 1);
    assert_eq!(queue.len(), 1);
}

#[test]
fn results_are_taken_only_from_their_tenant() {
    let mut inflight: Vec<InflightRequest> = Vec::new();
    let mut queue: Vec<QueuedJob> = Vec::new();
    enqueue_image_request(&mut inflight, &mut queue, "t1", "r1", "/image/one".to_string());
    assert!(!accept_result(&mut inflight, "r1", "t2"));
    assert_eq!(inflight.len(), 1);
    assert!(!accept_result(&mut inflight, "r2", "t1"));
    assert!(accept_result(&mut inflight, "r1", "t1"));
    assert!(inflight.is_empty());
    assert!(!accept_result(&mut inflight, "r1", "t1"));
}

use context_guardian::relay::blind::{
    check_blind_gateway, hello_progress, hello_too_large, read_client_hello_piece, BlindGatewayError, HelloProgress,
    MAX_CLIENT_HELLO_BYTES,
};

/// The address octets of a socket address text, for the forms these tests
/// use: dotted IPv4, `[::N]`, or none for anything else.
fn address_octets(value: &str) -> Option<Vec<u8>> {
    let (host, port) = value.rsplit_once(':')?;
    port.parse::<u16>().ok()?;
    if let Some(inner) = host.strip_prefix("[::").and_then(|rest| rest.strip_suffix(']')) {
        let mut octets = vec![0u8; 15];
        octets.push(inner.parse::<u8>().ok()?);
        return Some(octets);
    }
    let parts: Vec<u8> = host.split('.').map(|part| part.parse::<u8>().ok()).collect::<Option<Vec<u8>>>()?;
    (parts.len() == 4).then_some(parts)
}

fn validate_blind_gateway(value: &str) -> Result<(), BlindGatewayError> {
    check_blind_gateway(address_octets(value).as_deref())
}

#[test]
fn restricts_blind_gateway_to_loopback() {
    assert!(validate_blind_gateway("127.0.0.1:8788").is_ok());
    assert!(validate_blind_gateway("[::1]:8788").is_ok());
    assert!(validate_blind_gateway("0.0.0.0:8788").is_err());
    assert!(validate_blind_gateway("192.0.2.1:8788").is_err());
}

#[test]
fn blind_gateway_errors_say_why() {
    assert_eq!(validate_blind_gateway("localhost:8788"), Err(BlindGatewayError::NotSocketAddress));
    assert_eq!(validate_blind_gateway("[::2]:8788"), Err(BlindGatewayError::NotLoopback));
    assert_eq!(
        BlindGatewayError::NotLoopback.message(),
        "blind TLS gateway must use a loopback address"
    );
}

fn client_hello(hostname: &str) -> Vec<u8> {
    let provider = rustls::crypto::ring::default_provider();
    let config = rustls::ClientConfig::builder_with_provider(std::sync::Arc::new(provider))
        .with_safe_default_protocol_versions()
        .unwrap()
        .with_root_certificates(rustls::RootCertStore::empty())
        .with_no_client_auth();
    let name = rustls::pki_types::ServerName::try_from(hostname.to_string()).unwrap();
    let mut connection = rustls::ClientConnection::new(std::sync::Arc::new(config), name).unwrap();
    let mut bytes = Vec::new();
    connection.write_tls(&mut bytes).unwrap();
    bytes
}

#[test]
fn reads_sni_piece_by_piece_without_terminating_tls() {
    let tenant = "b".repeat(32);
    let hostname = format!("{tenant}.Relay.Example.com");
    let hello = client_hello(&hostname);
    let mut pieces = Vec::new();
    let mut captured = Vec::new();
    let (first, second) = hello.split_at(10);
    assert!(matches!(read_client_hello_piece(&mut pieces, &mut captured, first), HelloProgress::ReadMore));
    match read_client_hello_piece(&mut pieces, &mut captured, second) {
        HelloProgress::ServerName(name) => assert_eq!(name, format!("{tenant}.relay.example.com")),
        _ => panic!("expected a server name"),
    }
    assert_eq!(captured, hello);
    assert_eq!(pieces, vec![first.to_vec(), second.to_vec()]);
    let mut garbage_pieces = Vec::new();
    let mut garbage = Vec::new();
    assert!(matches!(
        read_client_hello_piece(&mut garbage_pieces, &mut garbage, b"GET / HTTP/1.1\r\n\r\n"),
        HelloProgress::Failed(_)
    ));
    assert!(!hello_too_large(captured.len()));
    assert!(hello_too_large(MAX_CLIENT_HELLO_BYTES));
}

#[test]
fn hello_progress_reports_each_outcome() {
    assert!(matches!(hello_progress(Ok(None)), HelloProgress::ReadMore));
    match hello_progress(Ok(Some(None))) {
        HelloProgress::Failed(message) => assert_eq!(message, "TLS ClientHello has no SNI"),
        _ => panic!("expected a failure"),
    }
    match hello_progress(Err("bad".to_string())) {
        HelloProgress::Failed(message) => assert_eq!(message, "bad"),
        _ => panic!("expected a failure"),
    }
    match hello_progress(Ok(Some(Some("A.B".to_string())))) {
        HelloProgress::ServerName(name) => assert_eq!(name, "a.b"),
        _ => panic!("expected a name"),
    }
}

#[test]
fn secret_hashes_match_only_their_secret() {
    let secret = "c".repeat(64);
    let stored = context_guardian::relay::secret_hash(&secret);
    assert!(context_guardian::relay::secret_hash_matches(&stored, &secret));
    assert!(!context_guardian::relay::secret_hash_matches(&stored, &"d".repeat(64)));
    assert!(!context_guardian::relay::secret_hash_matches(&stored[..10], &secret));
}
