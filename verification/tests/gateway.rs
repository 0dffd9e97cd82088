use context_guardian::gateway::{
    content_type, hex_decode, query_value, read_action, response_head, route_request, valid_filename, verify,
    GatewayResponse, ReadAction,
};
use hmac::{Hmac, Mac};
use sha2::Sha256;

fn sign(key: &[u8], filename: &str, expires: u64) -> String {
    let mut mac = Hmac::<Sha256>::new_from_slice(key).unwrap();
    mac.update(format!("{filename}\n{expires}").as_bytes());
    hex::encode(mac.finalize().into_bytes())
}

#[test]
fn validates_cache_filenames() {
    assert!(valid_filename(&format!("{}.png", "a".repeat(64))));
    assert!(!valid_filename("../../secret.png"));
    assert!(!valid_filename(&format!("{}.svg", "a".repeat(64))));
}

#[test]
fn verifies_signatures() {
    let key = b"01234567890123456789012345678901";
    let filename = format!("{}.png", "a".repeat(64));
    let expires = 4_000_000_000u64 + 60;
    let signature = sign(key, &filename, expires);
    assert!(verify(key, &filename, expires, &signature));
    assert!(!verify(key, &filename, expires + 1, &signature));
}

#[test]
fn rejects_malformed_signatures() {
    let key = b"01234567890123456789012345678901";
    let filename = format!("{}.png", "a".repeat(64));
    assert!(!verify(key, &filename, 10, "zz"));
    assert!(!verify(key, &filename, 10, "abc"));
    assert!(!verify(key, &filename, 10, ""));
}

#[test]
fn content_types_follow_extensions() {
    assert_eq!(content_type("x.jpg"), "image/jpeg");
    assert_eq!(content_type("x.webp"), "image/webp");
    assert_eq!(content_type("x.gif"), "image/gif");
    assert_eq!(content_type("x.png"), "image/png");
}

#[test]
fn decodes_hex_pairs() {
    let chars: Vec<char> = "00ff7Fa0".chars().collect();
    assert_eq!(hex_decode(&chars), Some(vec![0x00, 0xff, 0x7f, 0xa0]));
    let odd: Vec<char> = "abc".chars().collect();
    assert_eq!(hex_decode(&odd), None);
    let bad: Vec<char> = "0g".chars().collect();
    assert_eq!(hex_decode(&bad), None);
}

#[test]
fn reads_query_values() {
    let query: Vec<char> = "expires=12&sig=ab&sig=cd".chars().collect();
    assert_eq!(query_value(&query, "expires"), Some("12".chars().collect()));
    assert_eq!(query_value(&query, "sig"), Some("ab".chars().collect()));
    assert_eq!(query_value(&query, "missing"), None);
}

#[test]
fn routes_signed_requests() {
    let key = b"01234567890123456789012345678901";
    let filename = format!("{}.png", "c".repeat(64));
    let sig = sign(key, &filename, 1_000);
    let request = format!("GET /image/{filename}?expires=1000&sig={sig} HTTP/1.1\r\nHost: x\r\n\r\n");
    match route_request(request.as_bytes(), key, 999) {
        GatewayResponse::Serve { filename: f, head_only } => {
            assert_eq!(f, filename);
            assert!(!head_only);
        }
        _ => panic!("expected the image"),
    }
    let head = format!("HEAD /image/{filename}?expires=1000&sig={sig} HTTP/1.1\r\n\r\n");
    assert!(matches!(route_request(head.as_bytes(), key, 1_000), GatewayResponse::Serve { head_only: true, .. }));
    match route_request(request.as_bytes(), key, 1_001) {
        GatewayResponse::Reject { status, message } => {
            assert_eq!(status, 403);
            assert_eq!(message, "expired or invalid signature");
        }
        _ => panic!("expected a rejection"),
    }
}

fn rejection(request: &str) -> (u16, String) {
    match route_request(request.as_bytes(), b"k", 0) {
        GatewayResponse::Reject { status, message } => (status, message),
        _ => panic!("expected a rejection"),
    }
}

#[test]
fn rejects_each_kind_of_bad_request() {
    assert_eq!(rejection(""), (400, "bad request".to_string()));
    assert_eq!(rejection("POST /image/x HTTP/1.1\r\n\r\n"), (405, "method not allowed".to_string()));
    assert_eq!(rejection("GET /image/x HTTP/1.1\r\n\r\n"), (403, "signature required".to_string()));
    assert_eq!(rejection("GET /other/x?a=1 HTTP/1.1\r\n\r\n"), (404, "not found".to_string()));
    assert_eq!(rejection("GET /image/../x.png?a=1 HTTP/1.1\r\n\r\n"), (400, "invalid filename".to_string()));
    let name = format!("{}.png", "d".repeat(64));
    assert_eq!(
        rejection(&format!("GET /image/{name}?expires=5 HTTP/1.1\r\n\r\n")),
        (403, "invalid signature".to_string())
    );
}

#[test]
fn read_action_waits_for_the_blank_line() {
    assert_eq!(read_action(b"GET / HTTP/1.1\r\n"), ReadAction::ReadMore);
    assert_eq!(read_action(b"GET / HTTP/1.1\r\n\r\n"), ReadAction::Complete);
    assert_eq!(read_action(&vec![b'a'; 16 * 1024]), ReadAction::TooLarge);
}

#[test]
fn response_heads_are_complete() {
    assert_eq!(
        response_head(200, "image/png", 5),
        "HTTP/1.1 200 OK\r\nContent-Type: image/png\r\nContent-Length: 5\r\nCache-Control: private, no-store\r\nX-Content-Type-Options: nosniff\r\nConnection: close\r\n\r\n"
    );
}

#[test]
fn serves_files_within_the_size_limit_with_their_image_type() {
    let name = format!("{}.webp", "a".repeat(64));
    match context_guardian::gateway::file_reply(&name, 20 * 1024 * 1024) {
        context_guardian::gateway::FileReply::Image { content_type } => assert_eq!(content_type, "image/webp"),
        _ => panic!("expected an image"),
    }
    match context_guardian::gateway::file_reply(&name, 20 * 1024 * 1024 + 1) {
        context_guardian::gateway::FileReply::Reject { status, message } => {
            assert_eq!(status, 413);
            assert_eq!(message, "image too large");
        }
        _ => panic!("expected a refusal"),
    }
}
