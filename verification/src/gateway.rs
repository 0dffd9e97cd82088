//! The image gateway's request rules: signed, expiring URLs for cached
//! images, and the HTTP response head it writes.
use vstd::prelude::*;
use vstd::utf8::{decode_utf8, encode_utf8, valid_utf8};
use crate::text::{
    split_once, split_once_exec, all_hex, chars_eq, chars_of, copy_chars, decimal_text, hex_digit_value, is_hex_digit_char,
    parse_u64, parse_u64_spec, split_char, split_seq, string_of, u64_text, ws_token, ws_token_exec,
};
use crate::passive_capture::report::{append, text_lines};
use hmac::{Hmac, Mac};
use sha2::Sha256;

verus! {

/// Requests larger than this without a blank line are refused.
pub const MAX_REQUEST_BYTES: usize = 16384;

/// Images larger than this are not served.
pub const MAX_IMAGE_BYTES: u64 = 20971520;

/// A cache file name: 64 hexadecimal digits, a dot, and an image extension.
pub open spec fn valid_filename_spec(name: Seq<char>) -> bool {
    match split_once(name, '.') {
        None => false,
        Some((digest, extension)) => digest.len() == 64 && all_hex(digest) && (extension == "png"@
            || extension == "jpg"@ || extension == "webp"@ || extension == "gif"@),
    }
}

fn all_hex_exec(s: &[char]) -> (res: bool)
    ensures
        res == all_hex(s@),
{
    let mut i: usize = 0;
    while i < s.len()
        invariant
            i <= s@.len(),
            forall|j: int| 0 <= j < i ==> #[trigger] is_hex_digit_char(s@[j]),
        decreases s.len() - i,
    {
        let c = s[i];
        if !(('0' <= c && c <= '9') || ('a' <= c && c <= 'f') || ('A' <= c && c <= 'F')) {
            assert(!is_hex_digit_char(s@[i as int]));
            return false;
        }
        i = i + 1;
    }
    true
}

/// Whether `name` is a cache file name the gateway serves.
pub fn valid_filename(name: &str) -> (res: bool)
    ensures
        res == valid_filename_spec(name@),
{
    let chars = chars_of(name);
    match split_once_exec(chars.as_slice(), '.') {
        None => false,
        Some((digest, extension)) => {
            digest.len() == 64 && all_hex_exec(digest.as_slice()) && (chars_eq(extension.as_slice(), chars_of("png").as_slice())
                || chars_eq(extension.as_slice(), chars_of("jpg").as_slice()) || chars_eq(extension.as_slice(), chars_of("webp").as_slice())
                || chars_eq(extension.as_slice(), chars_of("gif").as_slice()))
        },
    }
}

/// The value of the first `key=value` pair named `key` among the pieces
/// from index `i` on.
pub open spec fn query_value_from(pieces: Seq<Seq<char>>, key: Seq<char>, i: int) -> Option<Seq<char>>
    decreases pieces.len() - i,
{
    if i < 0 || i >= pieces.len() {
        None
    } else {
        match split_once(pieces[i], '=') {
            Some((name, value)) => if name == key {
                Some(value)
            } else {
                query_value_from(pieces, key, i + 1)
            },
            None => query_value_from(pieces, key, i + 1),
        }
    }
}

/// The value of `key` in an `&`-separated query string.
pub open spec fn query_value_spec(query: Seq<char>, key: Seq<char>) -> Option<Seq<char>> {
    query_value_from(split_seq(query, '&'), key, 0)
}

/// The value of `key` in an `&`-separated query string.
pub fn query_value(query: &[char], key: &str) -> (res: Option<Vec<char>>)
    ensures
        match res {
            Some(v) => query_value_spec(query@, key@) == Some(v@),
            None => query_value_spec(query@, key@) is None,
        },
{
    let pieces = split_char(query, '&');
    let ghost ps = split_seq(query@, '&');
    let k = chars_of(key);
    let mut i: usize = 0;
    while i < pieces.len()
        invariant
            i <= pieces@.len(),
            pieces@.len() == ps.len(),
            ps == split_seq(query@, '&'),
            k@ == key@,
            forall|m: int| 0 <= m < pieces@.len() ==> #[trigger] pieces@[m]@ == ps[m],
            query_value_from(ps, key@, 0) == query_value_from(ps, key@, i as int),
        decreases pieces.len() - i,
    {
        match split_once_exec(pieces[i].as_slice(), '=') {
            Some((name, value)) => {
                if chars_eq(name.as_slice(), k.as_slice()) {
                    return Some(value);
                }
            },
            None => {},
        }
        i = i + 1;
    }
    None
}

/// `hex::decode`: an even number of hexadecimal digits (either case), two
/// per byte.
pub open spec fn hex_decode_spec(s: Seq<char>) -> Option<Seq<u8>> {
    if s.len() % 2 == 0 && all_hex(s) {
        Some(Seq::new((s.len() / 2) as nat, |i: int| (hex_digit_value(s[2 * i]) * 16 + hex_digit_value(s[2 * i + 1])) as u8))
    } else {
        None
    }
}

proof fn lemma_hex_lower_at(data: Seq<u8>, i: int)
    requires
        0 <= i < data.len(),
    ensures
        crate::digest::hex_lower(data)[2 * i] == crate::digest::hex_digit(data[i] / 16),
        crate::digest::hex_lower(data)[2 * i + 1] == crate::digest::hex_digit(data[i] % 16),
    decreases data.len(),
{
    crate::digest::lemma_hex_lower_len(data.drop_last());
    if i < data.len() - 1 {
        lemma_hex_lower_at(data.drop_last(), i);
    }
}

proof fn lemma_hex_digit_value(v: u8)
    requires
        v < 16,
    ensures
        is_hex_digit_char(crate::digest::hex_digit(v)),
        hex_digit_value(crate::digest::hex_digit(v)) == v,
{
}

/// Decoding the lowercase hex text of bytes gives the bytes back: what
/// `hex::encode` writes (a digest, a signature), `hex_decode` reads.
pub proof fn lemma_hex_round_trip(data: Seq<u8>)
    ensures
        hex_decode_spec(crate::digest::hex_lower(data)) == Some(data),
{
    let h = crate::digest::hex_lower(data);
    crate::digest::lemma_hex_lower_len(data);
    assert forall|k: int| 0 <= k < h.len() implies is_hex_digit_char(#[trigger] h[k]) by {
        let i = k / 2;
        lemma_hex_lower_at(data, i);
        lemma_hex_digit_value(data[i] / 16);
        lemma_hex_digit_value(data[i] % 16);
        if k % 2 == 0 {
            assert(k == 2 * i);
        } else {
            assert(k == 2 * i + 1);
        }
    }
    let decoded = Seq::new((h.len() / 2) as nat, |i: int| (hex_digit_value(h[2 * i]) * 16 + hex_digit_value(h[2 * i + 1])) as u8);
    assert forall|i: int| 0 <= i < data.len() implies decoded[i] == data[i] by {
        lemma_hex_lower_at(data, i);
        lemma_hex_digit_value(data[i] / 16);
        lemma_hex_digit_value(data[i] % 16);
    }
    assert(decoded =~= data);
}

pub fn hex_decode(s: &[char]) -> (res: Option<Vec<u8>>)
    ensures
        match res {
            Some(b) => hex_decode_spec(s@) == Some(b@),
            None => hex_decode_spec(s@) is None,
        },
{
    if s.len() % 2 != 0 || !all_hex_exec(s) {
        return None;
    }
    let mut out: Vec<u8> = Vec::new();
    let mut i: usize = 0;
    let len = s.len();
    let n = len / 2;
    while i < n
        invariant
            i <= n,
            len == s@.len(),
            n == s@.len() / 2,
            s@.len() % 2 == 0,
            all_hex(s@),
            out@.len() == i,
            forall|j: int| 0 <= j < i ==> #[trigger] out@[j] == (hex_digit_value(s@[2 * j]) * 16 + hex_digit_value(s@[2 * j + 1])) as u8,
        decreases n - i,
    {
        let hi = hex_value_exec(s[2 * i]);
        let lo = hex_value_exec(s[2 * i + 1]);
        assert(is_hex_digit_char(s@[2 * i]));
        assert(is_hex_digit_char(s@[2 * i + 1]));
        out.push(hi * 16 + lo);
        i = i + 1;
    }
    assert(out@ =~= Seq::new((s@.len() / 2) as nat, |i: int| (hex_digit_value(s@[2 * i]) * 16 + hex_digit_value(s@[2 * i + 1])) as u8));
    Some(out)
}

fn hex_value_exec(c: char) -> (res: u8)
    requires
        is_hex_digit_char(c),
    ensures
        res == hex_digit_value(c),
        res < 16,
{
    if '0' <= c && c <= '9' {
        ((c as u32) - ('0' as u32)) as u8
    } else if 'a' <= c && c <= 'f' {
        ((c as u32) - ('a' as u32) + 10) as u8
    } else {
        ((c as u32) - ('A' as u32) + 10) as u8
    }
}

/// The HMAC-SHA256 tag of a message under a key.
pub uninterp spec fn hmac_sha256(key: Seq<u8>, message: Seq<u8>) -> Seq<u8>;

/// Checks a tag with `Hmac::<Sha256>::verify_slice` (a constant-time
/// comparison with the 32-byte tag of `message` under `key`).
///
/// Trusted: the result is whether the tag equals the name `hmac_sha256`
/// applied to the key and message (a tag of another length than the 32-byte
/// MAC is refused); creating the MAC from a key of any length succeeds.
#[verifier::external_body]
fn hmac_sha256_verify(key: &[u8], message: &[u8], tag: &[u8]) -> (res: bool)
    ensures
        res == (tag@ == hmac_sha256(key@, message@)),
{
    match <Hmac<Sha256> as Mac>::new_from_slice(key) {
        Ok(mut mac) => {
            mac.update(message);
            mac.verify_slice(tag).is_ok()
        },
        Err(_) => false,
    }
}

/// The signed text: the file name, a newline, and the expiry in seconds.
pub open spec fn signed_text(filename: Seq<char>, expires: u64) -> Seq<char> {
    filename + "\n"@ + decimal_text(expires as nat)
}

/// A signature is the hex of the HMAC-SHA256 of the signed text.
pub open spec fn verify_spec(key: Seq<u8>, filename: Seq<char>, expires: u64, signature: Seq<char>) -> bool {
    match hex_decode_spec(signature) {
        None => false,
        Some(tag) => tag == hmac_sha256(key, encode_utf8(signed_text(filename, expires))),
    }
}

/// A signature made as the signer makes it (the lowercase hex of the
/// HMAC-SHA256 of `<filename>\n<expires>`) verifies.
pub proof fn lemma_signed_urls_verify(key: Seq<u8>, filename: Seq<char>, expires: u64)
    ensures
        verify_spec(key, filename, expires, crate::digest::hex_lower(hmac_sha256(key, encode_utf8(signed_text(filename, expires))))),
{
    lemma_hex_round_trip(hmac_sha256(key, encode_utf8(signed_text(filename, expires))));
}

fn utf8_bytes(s: &[char]) -> (res: Vec<u8>)
    ensures
        res@ == encode_utf8(s@),
{
    let text = string_of(s);
    let b = text.as_str().as_bytes();
    let mut out: Vec<u8> = Vec::new();
    let mut i: usize = 0;
    while i < b.len()
        invariant
            i <= b@.len(),
            out@ == b@.take(i as int),
        decreases b.len() - i,
    {
        out.push(b[i]);
        assert(b@.take(i + 1) =~= b@.take(i as int).push(b@[i as int]));
        i = i + 1;
    }
    assert(b@.take(b@.len() as int) =~= b@);
    out
}

/// Whether `signature` signs `filename` and `expires` under `key`.
pub fn verify(key: &[u8], filename: &str, expires: u64, signature: &str) -> (res: bool)
    ensures
        res == verify_spec(key@, filename@, expires, signature@),
{
    let sig = chars_of(signature);
    let tag = match hex_decode(sig.as_slice()) {
        Some(t) => t,
        None => return false,
    };
    let mut text = chars_of(filename);
    append(&mut text, chars_of("\n").as_slice());
    append(&mut text, u64_text(expires).as_slice());
    let message = utf8_bytes(text.as_slice());
    hmac_sha256_verify(key, message.as_slice(), tag.as_slice())
}

/// The `Content-Type` of a cached image, by extension.
pub open spec fn content_type_spec(filename: Seq<char>) -> Seq<char> {
    if crate::text::has_suffix(filename, ".jpg"@) {
        "image/jpeg"@
    } else if crate::text::has_suffix(filename, ".webp"@) {
        "image/webp"@
    } else if crate::text::has_suffix(filename, ".gif"@) {
        "image/gif"@
    } else {
        "image/png"@
    }
}

fn ends_with(s: &[char], suffix: &str) -> (res: bool)
    ensures
        res == crate::text::has_suffix(s@, suffix@),
{
    let p = chars_of(suffix);
    if p.len() > s.len() {
        return false;
    }
    crate::text::chars_occur_at(s, p.as_slice(), s.len() - p.len())
}

pub fn content_type(filename: &str) -> (res: &'static str)
    ensures
        res@ == content_type_spec(filename@),
{
    let f = chars_of(filename);
    if ends_with(f.as_slice(), ".jpg") {
        "image/jpeg"
    } else if ends_with(f.as_slice(), ".webp") {
        "image/webp"
    } else if ends_with(f.as_slice(), ".gif") {
        "image/gif"
    } else {
        "image/png"
    }
}


/// The text `String::from_utf8_lossy` makes of some bytes.
pub uninterp spec fn utf8_lossy(bytes: Seq<u8>) -> Seq<char>;

/// Decodes bytes with `String::from_utf8_lossy`, which replaces each
/// invalid sequence with U+FFFD.
///
/// Trusted: the result is the name `utf8_lossy` applied to the bytes, and
/// for valid UTF-8 it is the decoded text, as the documentation states.
#[verifier::external_body]
fn decode_lossy(bytes: &[u8]) -> (res: Vec<char>)
    ensures
        res@ == utf8_lossy(bytes@),
        valid_utf8(bytes@) ==> res@ == decode_utf8(bytes@),
{
    String::from_utf8_lossy(bytes).chars().collect()
}

/// What to do with a request buffer.
#[derive(Clone, Copy, Debug, PartialEq, Eq, Structural)]
pub enum ReadAction {
    /// The head is complete (or the peer closed): route it.
    Complete,
    /// No blank line within the size limit: answer 431.
    TooLarge,
    /// Read more.
    ReadMore,
}

pub open spec fn read_action_spec(buffer: Seq<u8>) -> ReadAction {
    if crate::text::contains_seq(buffer, seq![13u8, 10u8, 13u8, 10u8]) {
        ReadAction::Complete
    } else if buffer.len() >= MAX_REQUEST_BYTES {
        ReadAction::TooLarge
    } else {
        ReadAction::ReadMore
    }
}

pub fn read_action(buffer: &[u8]) -> (res: ReadAction)
    ensures
        res == read_action_spec(buffer@),
{
    let terminator: [u8; 4] = [13, 10, 13, 10];
    assert(terminator@ =~= seq![13u8, 10u8, 13u8, 10u8]);
    let found = crate::text::find_bytes(buffer, &terminator, 0);
    proof {
        crate::text::lemma_first_occurrence_from(buffer@, terminator@, 0);
        if found is None {
            assert forall|i: int| !#[trigger] crate::text::occurs_at(buffer@, terminator@, i) by {
                if 0 <= i {}
            }
        }
    }
    if found.is_some() {
        ReadAction::Complete
    } else if buffer.len() >= MAX_REQUEST_BYTES {
        ReadAction::TooLarge
    } else {
        ReadAction::ReadMore
    }
}

/// How the gateway answers a request.
pub enum GatewayResponse {
    /// An error status with a plain-text message.
    Reject { status: u16, message: String },
    /// The cached image `filename`, with or without its body.
    Serve { filename: String, head_only: bool },
}

pub enum ResponseModel {
    Reject(u16, Seq<char>),
    Serve(Seq<char>, bool),
}

impl GatewayResponse {
    pub open spec fn model(&self) -> ResponseModel {
        match self {
            GatewayResponse::Reject { status, message } => ResponseModel::Reject(*status, message@),
            GatewayResponse::Serve { filename, head_only } => ResponseModel::Serve(filename@, *head_only),
        }
    }
}

pub open spec fn reject(status: u16, message: Seq<char>) -> ResponseModel {
    ResponseModel::Reject(status, message)
}

/// The answer to a request head received at `now_secs`: the first line's
/// method must be `GET` or `HEAD` and its target `/image/<name>?<query>`
/// with a valid cache file name, an `expires` not in the past and a `sig`
/// that signs them.
pub open spec fn route_spec(buffer: Seq<u8>, key: Seq<u8>, now_secs: u64) -> ResponseModel {
    let lines = text_lines(utf8_lossy(buffer));
    if lines.len() == 0 {
        reject(400, "bad request"@)
    } else {
        let line = lines[0];
        let method = match ws_token(line, 0, 0) { Some(m) => m, None => Seq::empty() };
        let target = match ws_token(line, 0, 1) { Some(t) => t, None => Seq::empty() };
        if method != "GET"@ && method != "HEAD"@ {
            reject(405, "method not allowed"@)
        } else {
            match split_once(target, '?') {
                None => reject(403, "signature required"@),
                Some((path, query)) => if !crate::text::has_prefix(path, "/image/"@) {
                    reject(404, "not found"@)
                } else {
                    let filename = path.skip(7);
                    if !valid_filename_spec(filename) {
                        reject(400, "invalid filename"@)
                    } else {
                        let expires = match query_value_spec(query, "expires"@) {
                            Some(v) => parse_u64_spec(v),
                            None => None,
                        };
                        let signature = query_value_spec(query, "sig"@);
                        match (expires, signature) {
                            (Some(e), Some(sig)) => if e < now_secs || !verify_spec(key, filename, e, sig) {
                                reject(403, "expired or invalid signature"@)
                            } else {
                                ResponseModel::Serve(filename, method == "HEAD"@)
                            },
                            _ => reject(403, "invalid signature"@),
                        }
                    }
                }
            }
        }
    }
}

/// The gateway serves an image only under a valid cache file name, for a
/// `GET` or `HEAD` request whose signature over that name and an expiry
/// not yet past verifies under the key.
pub proof fn lemma_served_requests_are_signed(buffer: Seq<u8>, key: Seq<u8>, now_secs: u64, filename: Seq<char>, head_only: bool)
    requires
        route_spec(buffer, key, now_secs) == ResponseModel::Serve(filename, head_only),
    ensures
        valid_filename_spec(filename),
        exists|expires: u64, signature: Seq<char>| expires >= now_secs && #[trigger] verify_spec(key, filename, expires, signature),
{
    let lines = text_lines(utf8_lossy(buffer));
    let line = lines[0];
    let target = match ws_token(line, 0, 1) { Some(t) => t, None => Seq::empty() };
    let (path, query) = split_once(target, '?').unwrap();
    let expires = match query_value_spec(query, "expires"@) { Some(v) => parse_u64_spec(v), None => None };
    let signature = query_value_spec(query, "sig"@);
    let e = expires.unwrap();
    let sig = signature.unwrap();
    assert(path.skip(7) == filename);
    assert(verify_spec(key, filename, e, sig));
}

fn reject_exec(status: u16, message: &str) -> (res: GatewayResponse)
    ensures
        res.model() == reject(status, message@),
{
    GatewayResponse::Reject { status, message: string_of(chars_of(message).as_slice()) }
}

/// Routes a complete request head (see `route_spec`).
pub fn route_request(buffer: &[u8], signing_key: &[u8], now_secs: u64) -> (res: GatewayResponse)
    ensures
        res.model() == route_spec(buffer@, signing_key@, now_secs),
{
    let text = decode_lossy(buffer);
    let lines = crate::passive_capture::report::text_lines_exec(text.as_slice());
    if lines.len() == 0 {
        return reject_exec(400, "bad request");
    }
    let line = lines[0].as_slice();
    let method = match ws_token_exec(line, 0) { Some(m) => m, None => Vec::new() };
    let target = match ws_token_exec(line, 1) { Some(t) => t, None => Vec::new() };
    proof {
        if ws_token(line@, 0, 0) is None { assert(method@ =~= Seq::<char>::empty()); }
        if ws_token(line@, 0, 1) is None { assert(target@ =~= Seq::<char>::empty()); }
    }
    let is_get = chars_eq(method.as_slice(), chars_of("GET").as_slice());
    let is_head = chars_eq(method.as_slice(), chars_of("HEAD").as_slice());
    if !is_get && !is_head {
        return reject_exec(405, "method not allowed");
    }
    let (path, query) = match split_once_exec(target.as_slice(), '?') {
        None => return reject_exec(403, "signature required"),
        Some(x) => x,
    };
    let prefix = chars_of("/image/");
    proof { reveal_strlit("/image/"); }
    if !crate::text::chars_occur_at(path.as_slice(), prefix.as_slice(), 0) {
        return reject_exec(404, "not found");
    }
    let filename_chars = copy_chars(&path.as_slice()[7..path.len()]);
    assert(filename_chars@ =~= path@.skip(7));
    let filename = string_of(filename_chars.as_slice());
    if !valid_filename(filename.as_str()) {
        return reject_exec(400, "invalid filename");
    }
    let expires = match query_value(query.as_slice(), "expires") {
        Some(v) => parse_u64(v.as_slice()),
        None => None,
    };
    let signature = query_value(query.as_slice(), "sig");
    match (expires, signature) {
        (Some(e), Some(sig)) => {
            let sig_text = string_of(sig.as_slice());
            if e < now_secs || !verify(signing_key, filename.as_str(), e, sig_text.as_str()) {
                reject_exec(403, "expired or invalid signature")
            } else {
                GatewayResponse::Serve { filename, head_only: is_head }
            }
        },
        _ => reject_exec(403, "invalid signature"),
    }
}

/// The reason phrase of a status the gateway sends.
pub open spec fn reason_spec(status: u16) -> Seq<char> {
    if status == 200 {
        "OK"@
    } else if status == 400 {
        "Bad Request"@
    } else if status == 403 {
        "Forbidden"@
    } else if status == 404 {
        "Not Found"@
    } else if status == 405 {
        "Method Not Allowed"@
    } else if status == 413 {
        "Payload Too Large"@
    } else if status == 431 {
        "Request Header Fields Too Large"@
    } else {
        "Error"@
    }
}

fn reason(status: u16) -> (res: &'static str)
    ensures
        res@ == reason_spec(status),
{
    match status {
        200 => "OK",
        400 => "Bad Request",
        403 => "Forbidden",
        404 => "Not Found",
        405 => "Method Not Allowed",
        413 => "Payload Too Large",
        431 => "Request Header Fields Too Large",
        _ => "Error",
    }
}

/// The response head: status line and fixed headers, ending in a blank line.
pub open spec fn response_head_spec(status: u16, content_type: Seq<char>, body_len: usize) -> Seq<char> {
    "HTTP/1.1 "@ + decimal_text(status as nat) + " "@ + reason_spec(status) + "\r\nContent-Type: "@ + content_type
        + "\r\nContent-Length: "@ + decimal_text(body_len as nat)
        + "\r\nCache-Control: private, no-store\r\nX-Content-Type-Options: nosniff\r\nConnection: close\r\n\r\n"@
}

pub fn response_head(status: u16, content_type: &str, body_len: usize) -> (res: String)
    ensures
        res@ == response_head_spec(status, content_type@, body_len),
{
    let mut out = chars_of("HTTP/1.1 ");
    append(&mut out, u64_text(status as u64).as_slice());
    append(&mut out, chars_of(" ").as_slice());
    append(&mut out, chars_of(reason(status)).as_slice());
    append(&mut out, chars_of("\r\nContent-Type: ").as_slice());
    append(&mut out, chars_of(content_type).as_slice());
    append(&mut out, chars_of("\r\nContent-Length: ").as_slice());
    append(&mut out, u64_text(body_len as u64).as_slice());
    append(&mut out, chars_of("\r\nCache-Control: private, no-store\r\nX-Content-Type-Options: nosniff\r\nConnection: close\r\n\r\n").as_slice());
    string_of(out.as_slice())
}

/// The reply to a served request once the cached file's size is known.
pub enum FileReply {
    /// An error status with a plain-text message.
    Reject { status: u16, message: &'static str },
    /// The file itself, with this content type.
    Image { content_type: &'static str },
}

impl FileReply {
    pub open spec fn model(&self) -> ResponseModel {
        match self {
            FileReply::Reject { status, message } => ResponseModel::Reject(*status, message@),
            FileReply::Image { content_type } => ResponseModel::Serve(content_type@, false),
        }
    }
}

/// A file over the size limit is refused with `413 image too large`; any
/// other is served with the image type its name gives.
pub open spec fn file_reply_spec(filename: Seq<char>, file_len: u64) -> ResponseModel {
    if file_len > MAX_IMAGE_BYTES {
        reject(413, "image too large"@)
    } else {
        ResponseModel::Serve(content_type_spec(filename), false)
    }
}

/// Decides the reply to a served request from the cached file's length.
pub fn file_reply(filename: &str, file_len: u64) -> (res: FileReply)
    ensures
        res.model() == file_reply_spec(filename@, file_len),
{
    if file_len > MAX_IMAGE_BYTES {
        FileReply::Reject { status: 413, message: "image too large" }
    } else {
        FileReply::Image { content_type: content_type(filename) }
    }
}

} // verus!
