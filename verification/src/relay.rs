//! Relay identities and the narrow request shapes the relay forwards.
use vstd::prelude::*;
use vstd::utf8::encode_utf8;
use crate::digest::{hex_encode, hex_lower, sha256, sha256_hex};
use crate::text::{
    chars_of, has_prefix, has_suffix, string_of, push_str, push_chars, first_index, before_first,
    first_index_byte, first_index_char, bytes_occur_at, chars_occur_at, split_seq, lemma_split_seq_step,
    trim_end_char, trim_end_char_exec,
};
use rand::RngCore;

pub mod blind;
pub mod serving;

verus! {

/// The largest image body, in bytes, that the relay carries.
pub const MAX_IMAGE_BYTES: usize = 20971520;

/// Registration of a tenant with the relay.
pub struct RegisterRequest {
    pub tenant_id: String,
    pub tenant_secret: String,
}

/// A queued image request handed to a polling client.
pub struct PollResponse {
    pub request_id: String,
    pub path_and_query: String,
}

/// The client's answer to a queued image request.
pub struct RelayResult {
    pub status: u16,
    pub content_type: String,
    pub body_base64: String,
}

/// A client's locally generated tenant identity.
pub struct ClientIdentity {
    pub tenant_id: String,
    pub tenant_secret: String,
}

/// Whether a byte is an ASCII hexadecimal digit (either case).
pub open spec fn is_hex_byte(b: u8) -> bool {
    (0x30 <= b <= 0x39) || (0x41 <= b <= 0x46) || (0x61 <= b <= 0x66)
}

/// Exactly `n` bytes, each an ASCII hex digit.
pub open spec fn hex_bytes_of_len(s: Seq<u8>, n: nat) -> bool {
    s.len() == n && forall|i: int| 0 <= i < s.len() ==> is_hex_byte(#[trigger] s[i])
}

/// A tenant id is 32 hex digits (checked on the UTF-8 bytes of the text).
pub open spec fn tenant_id_ok(text: Seq<char>) -> bool {
    hex_bytes_of_len(encode_utf8(text), 32)
}

/// A tenant secret is 64 hex digits.
pub open spec fn secret_ok(text: Seq<char>) -> bool {
    hex_bytes_of_len(encode_utf8(text), 64)
}

pub fn is_hex_byte_exec(b: u8) -> (res: bool)
    ensures
        res == is_hex_byte(b),
{
    (0x30 <= b && b <= 0x39) || (0x41 <= b && b <= 0x46) || (0x61 <= b && b <= 0x66)
}

/// Whether `s` is exactly `n` hex digit bytes.
pub fn hex_bytes_exact(s: &[u8], n: usize) -> (res: bool)
    ensures
        res == hex_bytes_of_len(s@, n as nat),
{
    if s.len() != n {
        return false;
    }
    let mut i: usize = 0;
    while i < s.len()
        invariant
            i <= s.len(),
            forall|j: int| 0 <= j < i ==> is_hex_byte(#[trigger] s@[j]),
        decreases s.len() - i,
    {
        if !is_hex_byte_exec(s[i]) {
            return false;
        }
        i = i + 1;
    }
    true
}

pub fn valid_tenant_id(value: &str) -> (res: bool)
    ensures
        res == tenant_id_ok(value@),
{
    hex_bytes_exact(value.as_bytes(), 32)
}

pub fn valid_secret(value: &str) -> (res: bool)
    ensures
        res == secret_ok(value@),
{
    hex_bytes_exact(value.as_bytes(), 64)
}

/// Lowercase hex of the SHA-256 digest of the secret's UTF-8 bytes.
pub fn secret_hash(secret: &str) -> (res: String)
    ensures
        res@ == hex_lower(sha256(encode_utf8(secret@))),
{
    sha256_hex(secret.as_bytes())
}

/// Whether a stored secret hash is the hash of `secret`. The comparison
/// looks at every byte whatever it finds, so its time does not tell how
/// much of the hash matched.
pub fn secret_hash_matches(stored: &str, secret: &str) -> (res: bool)
    ensures
        res == (stored@ == hex_lower(sha256(encode_utf8(secret@)))),
{
    let expected = secret_hash(secret);
    let a = stored.as_bytes();
    let b = expected.as_str().as_bytes();
    proof {
        vstd::utf8::encode_utf8_decode_utf8(stored@);
        vstd::utf8::encode_utf8_decode_utf8(expected@);
    }
    if a.len() != b.len() {
        proof {
            if stored@ == expected@ {
                assert(a@ == b@);
            }
        }
        return false;
    }
    let mut difference: u8 = 0;
    let mut i: usize = 0;
    while i < a.len()
        invariant
            a@.len() == b@.len(),
            i <= a@.len(),
            (difference == 0) == (forall|j: int| 0 <= j < i ==> #[trigger] a@[j] == b@[j]),
        decreases a.len() - i,
    {
        let x = a[i];
        let y = b[i];
        let d = difference;
        assert(((d | (x ^ y)) == 0u8) == (d == 0u8 && x == y)) by (bit_vector);
        difference = d | (x ^ y);
        proof {
            if difference == 0 {
                assert forall|j: int| 0 <= j < i + 1 implies #[trigger] a@[j] == b@[j] by {
                    if j < i {
                    }
                }
            }
        }
        i = i + 1;
    }
    proof {
        if difference == 0 {
            assert(a@ =~= b@);
        }
        if stored@ == expected@ {
            assert(a@ == b@);
        }
    }
    difference == 0
}

/// `count` bytes drawn from the operating system's random source.
///
/// Trusted: `rand::rngs::OsRng::fill_bytes` fills the whole buffer; the
/// values themselves are left unsaid because they come from chance.
#[verifier::external_body]
fn os_random_bytes(count: usize) -> (res: Vec<u8>)
    ensures
        res@.len() == count,
{
    let mut buffer = vec![0u8; count];
    rand::rngs::OsRng.fill_bytes(&mut buffer);
    buffer
}

/// Lowercase hex text is ASCII, so its UTF-8 bytes are its characters.
pub proof fn lemma_hex_text_bytes(data: Seq<u8>)
    ensures
        hex_bytes_of_len(encode_utf8(hex_lower(data)), 2 * data.len()),
{
    crate::digest::lemma_hex_lower_len(data);
    crate::digest::lemma_hex_lower_digits(data);
    let t = hex_lower(data);
    assert(vstd::utf8::is_ascii_chars(t));
    vstd::utf8::is_ascii_chars_encode_utf8(t);
    assert forall|i: int| 0 <= i < encode_utf8(t).len() implies is_hex_byte(#[trigger] encode_utf8(t)[i]) by {
        assert(crate::digest::is_lower_hex_char(t[i]));
    }
}

/// `bytes` random bytes as lowercase hex (a request id).
pub fn random_hex(bytes: usize) -> (res: String)
    ensures
        exists|b: Seq<u8>| b.len() == bytes && res@ == hex_lower(b),
        res@.len() == 2 * bytes,
{
    let raw = os_random_bytes(bytes);
    proof { crate::digest::lemma_hex_lower_len(raw@); }
    hex_encode(raw.as_slice())
}

impl ClientIdentity {
    /// A fresh identity: 16 random bytes as the tenant id and 32 random
    /// bytes as the secret, both written as lowercase hex.
    pub fn generate() -> (res: ClientIdentity)
        ensures
            tenant_id_ok(res.tenant_id@),
            secret_ok(res.tenant_secret@),
            exists|t: Seq<u8>| t.len() == 16 && res.tenant_id@ == hex_lower(t),
            exists|s: Seq<u8>| s.len() == 32 && res.tenant_secret@ == hex_lower(s),
    {
        let tenant = os_random_bytes(16);
        let secret = os_random_bytes(32);
        let tenant_id = hex_encode(tenant.as_slice());
        let tenant_secret = hex_encode(secret.as_slice());
        proof {
            lemma_hex_text_bytes(tenant@);
            lemma_hex_text_bytes(secret@);
        }
        ClientIdentity { tenant_id, tenant_secret }
    }
}


/// The image extensions the gateway serves: `png`, `jpg`, `webp`, `gif`.
pub open spec fn allowed_extension(e: Seq<u8>) -> bool {
    e == seq![0x70u8, 0x6eu8, 0x67u8] || e == seq![0x6au8, 0x70u8, 0x67u8] || e == seq![
        0x77u8,
        0x65u8,
        0x62u8,
        0x70u8,
    ] || e == seq![0x67u8, 0x69u8, 0x66u8]
}

/// A cache file name: 64 hex digits, a dot, and an allowed extension
/// (everything after the first dot).
pub open spec fn image_name_ok(name: Seq<u8>) -> bool {
    match first_index(name, 0x2eu8) {
        Some(k) => hex_bytes_of_len(name.take(k), 64) && allowed_extension(name.skip(k + 1)),
        None => false,
    }
}

/// The bytes of `/image/`.
pub open spec fn image_prefix() -> Seq<u8> {
    seq![0x2fu8, 0x69u8, 0x6du8, 0x61u8, 0x67u8, 0x65u8, 0x2fu8]
}

/// An image path: `/image/`, then a cache file name, optionally followed by
/// `?` and a query.
pub open spec fn image_path_ok(path: Seq<u8>) -> bool {
    has_prefix(path, image_prefix()) && image_name_ok(before_first(path.skip(7), 0x3fu8))
}

pub fn allowed_extension_exec(e: &[u8]) -> (res: bool)
    ensures
        res == allowed_extension(e@),
{
    let r = (e.len() == 3 && e[0] == 0x70 && e[1] == 0x6e && e[2] == 0x67) || (e.len() == 3 && e[0]
        == 0x6a && e[1] == 0x70 && e[2] == 0x67) || (e.len() == 4 && e[0] == 0x77 && e[1] == 0x65
        && e[2] == 0x62 && e[3] == 0x70) || (e.len() == 3 && e[0] == 0x67 && e[1] == 0x69 && e[2]
        == 0x66);
    proof {
        if r {
            if e.len() == 3 && e[0] == 0x70 && e[1] == 0x6e && e[2] == 0x67 {
                assert(e@ =~= seq![0x70u8, 0x6eu8, 0x67u8]);
            } else if e.len() == 3 && e[0] == 0x6a && e[1] == 0x70 && e[2] == 0x67 {
                assert(e@ =~= seq![0x6au8, 0x70u8, 0x67u8]);
            } else if e.len() == 4 {
                assert(e@ =~= seq![0x77u8, 0x65u8, 0x62u8, 0x70u8]);
            } else {
                assert(e@ =~= seq![0x67u8, 0x69u8, 0x66u8]);
            }
        } else {
            assert(e@ != seq![0x70u8, 0x6eu8, 0x67u8]);
            assert(e@ != seq![0x6au8, 0x70u8, 0x67u8]);
            assert(e@ != seq![0x77u8, 0x65u8, 0x62u8, 0x70u8]);
            assert(e@ != seq![0x67u8, 0x69u8, 0x66u8]);
        }
    }
    r
}

/// Whether a byte string is a servable cache file name.
pub fn image_name_bytes_ok(name: &[u8]) -> (res: bool)
    ensures
        res == image_name_ok(name@),
{
    match first_index_byte(name, 0x2e) {
        None => false,
        Some(k) => {
            hex_bytes_exact(&name[0..k], 64) && allowed_extension_exec(&name[k + 1..name.len()])
        },
    }
}

#[verifier::rlimit(40)]
pub fn valid_image_path(path: &str) -> (res: bool)
    ensures
        res == image_path_ok(encode_utf8(path@)),
{
    let b = path.as_bytes();
    let prefix: [u8; 7] = [0x2f, 0x69, 0x6d, 0x61, 0x67, 0x65, 0x2f];
    if !bytes_occur_at(b, &prefix, 0) {
        proof { assert(prefix@ == image_prefix()); }
        return false;
    }
    proof { assert(prefix@ == image_prefix()); }
    let rest = &b[7..b.len()];
    let name = match first_index_byte(rest, 0x3f) {
        Some(q) => &rest[0..q],
        None => rest,
    };
    image_name_bytes_ok(name)
}


/// The websocket tunnel URL for a relay base URL, which must be `https://`.
pub open spec fn blind_tunnel_url_spec(relay_url: Seq<char>, tenant_id: Seq<char>) -> Option<Seq<char>> {
    if has_prefix(relay_url, "https://"@) {
        Some("wss://"@ + trim_end_char(relay_url.skip("https://"@.len() as int), '/') + "/v2/tunnel/"@
            + tenant_id)
    } else {
        None
    }
}

pub fn blind_tunnel_url(relay_url: &str, tenant_id: &str) -> (res: Result<String, String>)
    ensures
        res matches Ok(url) ==> blind_tunnel_url_spec(relay_url@, tenant_id@) == Some(url@),
        res matches Err(message) ==> blind_tunnel_url_spec(relay_url@, tenant_id@) is None
            && message@ == "blind tunnel control URL must use HTTPS"@,
{
    let url = chars_of(relay_url);
    let scheme = chars_of("https://");
    if !chars_occur_at(url.as_slice(), scheme.as_slice(), 0) {
        return Err(string_of(chars_of("blind tunnel control URL must use HTTPS").as_slice()));
    }
    let base = &url.as_slice()[scheme.len()..url.len()];
    let keep = trim_end_char_exec(base, '/');
    let mut out = string_of(chars_of("wss://").as_slice());
    push_chars(&mut out, &base[0..keep]);
    push_str(&mut out, "/v2/tunnel/");
    push_str(&mut out, tenant_id);
    proof {
        assert(base@ == relay_url@.skip("https://"@.len() as int));
        assert(base@.take(keep as int) == base@.subrange(0, keep as int));
    }
    Ok(out)
}

pub open spec fn is_dns_byte(b: u8) -> bool {
    (0x30 <= b <= 0x39) || (0x41 <= b <= 0x5a) || (0x61 <= b <= 0x7a) || b == 0x2d
}

/// One DNS label: 1 to 63 letters, digits or hyphens, not starting or
/// ending with a hyphen.
pub open spec fn dns_label_ok(l: Seq<u8>) -> bool {
    &&& 0 < l.len() <= 63
    &&& l[0] != 0x2d
    &&& l.last() != 0x2d
    &&& forall|i: int| 0 <= i < l.len() ==> is_dns_byte(#[trigger] l[i])
}

/// A DNS suffix: at most 253 bytes, every dot-separated label valid.
pub open spec fn dns_suffix_ok(v: Seq<u8>) -> bool {
    &&& 0 < v.len() <= 253
    &&& forall|i: int| 0 <= i < split_seq(v, 0x2eu8).len() ==> dns_label_ok(#[trigger] split_seq(v, 0x2eu8)[i])
}

fn dns_label_exec(l: &[u8]) -> (res: bool)
    ensures
        res == dns_label_ok(l@),
{
    if l.len() == 0 || l.len() > 63 || l[0] == 0x2d || l[l.len() - 1] == 0x2d {
        return false;
    }
    let mut i: usize = 0;
    while i < l.len()
        invariant
            i <= l.len(),
            forall|j: int| 0 <= j < i ==> is_dns_byte(#[trigger] l@[j]),
        decreases l.len() - i,
    {
        let b = l[i];
        if !((0x30 <= b && b <= 0x39) || (0x41 <= b && b <= 0x5a) || (0x61 <= b && b <= 0x7a) || b == 0x2d) {
            return false;
        }
        i = i + 1;
    }
    true
}

pub fn valid_dns_suffix(value: &str) -> (res: bool)
    ensures
        res == dns_suffix_ok(encode_utf8(value@)),
{
    let v = value.as_bytes();
    let ghost sv = v@;
    let mut start: usize = 0;
    let mut ok = true;
    let mut i: usize = 0;
    assert(sv.take(0) =~= Seq::<u8>::empty());
    while i < v.len()
        invariant
            i <= v.len(),
            start <= i,
            sv == v@,
            split_seq(sv.take(i as int), 0x2eu8).len() >= 1,
            split_seq(sv.take(i as int), 0x2eu8).last() == sv.subrange(start as int, i as int),
            ok == forall|j: int| 0 <= j < split_seq(sv.take(i as int), 0x2eu8).len() - 1
                ==> dns_label_ok(#[trigger] split_seq(sv.take(i as int), 0x2eu8)[j]),
        decreases v.len() - i,
    {
        let ghost before = split_seq(sv.take(i as int), 0x2eu8);
        proof { lemma_split_seq_step(sv, 0x2eu8, i as int); }
        if v[i] == 0x2e {
            let label_ok = dns_label_exec(&v[start..i]);
            let ghost after = split_seq(sv.take(i + 1), 0x2eu8);
            assert(after == before.push(Seq::<u8>::empty()));
            proof {
                assert forall|j: int| 0 <= j < after.len() - 1 implies after[j] == before[j] by {}
            }
            ok = ok && label_ok;
            start = i + 1;
            assert(sv.subrange(start as int, i + 1) =~= Seq::<u8>::empty());
        } else {
            let ghost after = split_seq(sv.take(i + 1), 0x2eu8);
            assert(after == before.update(before.len() - 1, before.last().push(sv[i as int])));
            assert(sv.subrange(start as int, i + 1) =~= sv.subrange(start as int, i as int).push(sv[i as int]));
            proof {
                assert forall|j: int| 0 <= j < after.len() - 1 implies after[j] == before[j] by {}
            }
        }
        i = i + 1;
    }
    let last_ok = dns_label_exec(&v[start..v.len()]);
    proof {
        assert(sv.take(v.len() as int) =~= sv);
        let parts = split_seq(sv, 0x2eu8);
        if ok && last_ok {
            assert forall|j: int| 0 <= j < parts.len() implies dns_label_ok(#[trigger] parts[j]) by {
                if j == parts.len() - 1 { } else { }
            }
        }
        if !last_ok {
            assert(!dns_label_ok(parts[parts.len() - 1]));
        }
    }
    v.len() > 0 && v.len() <= 253 && ok && last_ok
}

/// The tenant named by a TLS server name `<tenant>.<suffix>`, when the
/// tenant part is a single valid tenant id label.
pub open spec fn tenant_from_server_name_spec(server_name: Seq<char>, suffix: Seq<char>) -> Option<Seq<char>> {
    let pattern = seq!['.'] + suffix;
    if has_suffix(server_name, pattern) {
        let tenant = server_name.take(server_name.len() - pattern.len());
        if !tenant.contains('.') && tenant_id_ok(tenant) {
            Some(tenant)
        } else {
            None
        }
    } else {
        None
    }
}

proof fn lemma_dot_encodes_to_dot_byte(t: Seq<char>, k: int)
    requires
        0 <= k < t.len(),
        t[k] == '.',
    ensures
        exists|j: int| 0 <= j < encode_utf8(t).len() && #[trigger] encode_utf8(t)[j] == 0x2eu8,
    decreases t.len(),
{
    let first = vstd::utf8::encode_scalar(t[0] as u32);
    if k == 0 {
        assert(('.' as u32) == 0x2e);
        assert((0x2eu32 & 0x7f) == 0x2e) by (bit_vector);
        assert(first =~= seq![0x2eu8]);
        assert(encode_utf8(t)[0] == 0x2eu8);
    } else {
        lemma_dot_encodes_to_dot_byte(t.drop_first(), k - 1);
        let j = choose|j: int| 0 <= j < encode_utf8(t.drop_first()).len() && #[trigger] encode_utf8(t.drop_first())[j] == 0x2eu8;
        assert(encode_utf8(t)[first.len() + j] == 0x2eu8);
    }
}

/// A valid tenant id has no dot.
proof fn lemma_tenant_id_has_no_dot(t: Seq<char>)
    requires
        tenant_id_ok(t),
    ensures
        !t.contains('.'),
{
    if t.contains('.') {
        let k = choose|k: int| 0 <= k < t.len() && t[k] == '.';
        lemma_dot_encodes_to_dot_byte(t, k);
        let j = choose|j: int| 0 <= j < encode_utf8(t).len() && #[trigger] encode_utf8(t)[j] == 0x2eu8;
        assert(is_hex_byte(encode_utf8(t)[j]));
    }
}

/// The server name `<tenant>.<suffix>` of a valid tenant id routes to that
/// tenant.
pub proof fn lemma_tenant_server_name_round_trip(tenant: Seq<char>, suffix: Seq<char>)
    requires
        tenant_id_ok(tenant),
    ensures
        tenant_from_server_name_spec(tenant + seq!['.'] + suffix, suffix) == Some(tenant),
{
    let name = tenant + seq!['.'] + suffix;
    let pattern = seq!['.'] + suffix;
    assert(name =~= tenant + pattern);
    assert(name.skip(name.len() - pattern.len()) =~= pattern);
    assert(name.take(name.len() - pattern.len()) =~= tenant);
    lemma_tenant_id_has_no_dot(tenant);
}

/// Only the exact server name `<tenant>.<suffix>`, with a valid tenant id
/// of one label, routes to a tenant.
pub proof fn lemma_tenant_server_name_exact(server_name: Seq<char>, suffix: Seq<char>, tenant: Seq<char>)
    requires
        tenant_from_server_name_spec(server_name, suffix) == Some(tenant),
    ensures
        server_name == tenant + seq!['.'] + suffix,
        tenant_id_ok(tenant),
        !tenant.contains('.'),
{
    let pattern = seq!['.'] + suffix;
    assert(server_name =~= server_name.take(server_name.len() - pattern.len()) + server_name.skip(server_name.len() - pattern.len()));
    assert(server_name =~= tenant + seq!['.'] + suffix);
}

pub fn tenant_from_server_name(server_name: &str, suffix: &str) -> (res: Option<String>)
    ensures
        res matches Some(t) ==> tenant_from_server_name_spec(server_name@, suffix@) == Some(t@),
        res is None ==> tenant_from_server_name_spec(server_name@, suffix@) is None,
{
    let name = chars_of(server_name);
    let mut pattern: Vec<char> = Vec::new();
    pattern.push('.');
    let suffix_chars = chars_of(suffix);
    let mut k: usize = 0;
    while k < suffix_chars.len()
        invariant
            k <= suffix_chars.len(),
            pattern@ == seq!['.'] + suffix_chars@.take(k as int),
        decreases suffix_chars.len() - k,
    {
        pattern.push(suffix_chars[k]);
        assert(suffix_chars@.take(k + 1) == suffix_chars@.take(k as int).push(suffix_chars@[k as int]));
        k = k + 1;
    }
    assert(suffix_chars@.take(suffix_chars@.len() as int) =~= suffix_chars@);
    if pattern.len() > name.len() || !chars_occur_at(name.as_slice(), pattern.as_slice(), name.len() - pattern.len()) {
        return None;
    }
    let tenant_chars = &name.as_slice()[0..name.len() - pattern.len()];
    assert(tenant_chars@ == name@.take(name@.len() - pattern@.len()));
    match first_index_char(tenant_chars, '.') {
        Some(_) => {
            proof { assert(tenant_chars@.contains('.')); }
            return None;
        },
        None => {},
    }
    let tenant = string_of(tenant_chars);
    if valid_tenant_id(tenant.as_str()) {
        Some(tenant)
    } else {
        None
    }
}


pub open spec fn is_digit_byte(b: u8) -> bool {
    0x30 <= b <= 0x39
}

/// The job path the relay queues for an image request
/// `/image/<filename>?expires=<expires>&sig=<sig>`: `None` (answered as
/// not found) unless both are given, `expires` is at most 20 digits, `sig`
/// is 64 hex digits, the tenant id is valid and the path is a servable
/// image path.
pub open spec fn image_job_path_spec(tenant_id: Seq<char>, filename: Seq<char>, expires: Option<Seq<char>>, sig: Option<Seq<char>>) -> Option<Seq<char>> {
    match (expires, sig) {
        (Some(e), Some(g)) => {
            let eb = encode_utf8(e);
            if eb.len() > 20 || !(forall|i: int| 0 <= i < eb.len() ==> is_digit_byte(#[trigger] eb[i])) || !hex_bytes_of_len(encode_utf8(g), 64) {
                None
            } else {
                let path = "/image/"@ + filename + "?expires="@ + e + "&sig="@ + g;
                if tenant_id_ok(tenant_id) && image_path_ok(encode_utf8(path)) { Some(path) } else { None }
            }
        },
        _ => None,
    }
}

fn digits_only(b: &[u8]) -> (res: bool)
    ensures
        res == forall|i: int| 0 <= i < b@.len() ==> is_digit_byte(#[trigger] b@[i]),
{
    let mut i: usize = 0;
    while i < b.len()
        invariant
            i <= b@.len(),
            forall|j: int| 0 <= j < i ==> is_digit_byte(#[trigger] b@[j]),
        decreases b.len() - i,
    {
        if !(0x30 <= b[i] && b[i] <= 0x39) {
            return false;
        }
        i = i + 1;
    }
    true
}

/// Checks an image request and builds the job path (see
/// `image_job_path_spec`).
pub fn image_job_path(tenant_id: &str, filename: &str, expires: Option<&str>, sig: Option<&str>) -> (res: Option<String>)
    ensures
        opt_text(res) == image_job_path_spec(tenant_id@, filename@, opt_str(expires), opt_str(sig)),
{
    let (e, g) = match (expires, sig) {
        (Some(e), Some(g)) => (e, g),
        _ => return None,
    };
    let eb = e.as_bytes();
    if eb.len() > 20 || !digits_only(eb) || !hex_bytes_exact(g.as_bytes(), 64) {
        return None;
    }
    let mut path = string_of(chars_of("/image/").as_slice());
    push_str(&mut path, filename);
    push_str(&mut path, "?expires=");
    push_str(&mut path, e);
    push_str(&mut path, "&sig=");
    push_str(&mut path, g);
    if valid_tenant_id(tenant_id) && valid_image_path(path.as_str()) {
        Some(path)
    } else {
        None
    }
}

pub open spec fn opt_text(o: Option<String>) -> Option<Seq<char>> {
    match o {
        Some(s) => Some(s@),
        None => None,
    }
}

pub open spec fn opt_str(o: Option<&str>) -> Option<Seq<char>> {
    match o {
        Some(s) => Some(s@),
        None => None,
    }
}

/// The padded standard-alphabet base64 text of some bytes.
pub uninterp spec fn base64_standard(data: Seq<u8>) -> Seq<char>;

/// The bytes a padded standard-alphabet base64 text decodes to, if it is
/// valid base64.
pub uninterp spec fn base64_standard_decoded(text: Seq<u8>) -> Option<Seq<u8>>;

/// Encodes with `base64::engine::general_purpose::STANDARD.encode`.
///
/// Trusted: the text is the name `base64_standard` of the bytes, four
/// characters for every started group of three bytes (with `=` padding).
/// The size bound keeps the length computation, which panics on overflow,
/// far from its limit.
#[verifier::external_body]
fn base64_encode(data: &[u8]) -> (res: String)
    requires
        data@.len() <= MAX_IMAGE_BYTES,
    ensures
        res@ == base64_standard(data@),
        res@.len() == 4 * ((data@.len() + 2) / 3),
{
    base64::Engine::encode(&base64::engine::general_purpose::STANDARD, data)
}

/// Decodes with `base64::engine::general_purpose::STANDARD.decode`.
///
/// Trusted: the result is the name `base64_standard_decoded` of the text;
/// an invalid text gives `None`.
#[verifier::external_body]
fn base64_decode(text: &[u8]) -> (res: Option<Vec<u8>>)
    ensures
        match res {
            Some(b) => base64_standard_decoded(text@) == Some(b@),
            None => base64_standard_decoded(text@) is None,
        },
{
    base64::Engine::decode(&base64::engine::general_purpose::STANDARD, text).ok()
}

/// What a client sends back for a fetched image: the status, the content
/// type (`application/octet-stream` when the gateway sent none) and the
/// body in base64; `None` when the body is over the size limit.
pub open spec fn relay_result_spec(status: u16, content_type: Option<Seq<char>>, body: Seq<u8>) -> Option<(u16, Seq<char>, Seq<char>)> {
    if body.len() > MAX_IMAGE_BYTES {
        None
    } else {
        Some((
            status,
            match content_type { Some(c) => c, None => "application/octet-stream"@ },
            base64_standard(body),
        ))
    }
}

impl RelayResult {
    pub open spec fn model(&self) -> (u16, Seq<char>, Seq<char>) {
        (self.status, self.content_type@, self.body_base64@)
    }
}

pub fn relay_result(status: u16, content_type: Option<&str>, body: &[u8]) -> (res: Option<RelayResult>)
    ensures
        match res {
            Some(r) => relay_result_spec(status, opt_str(content_type), body@) == Some(r.model()),
            None => relay_result_spec(status, opt_str(content_type), body@) is None,
        },
{
    if body.len() > MAX_IMAGE_BYTES {
        return None;
    }
    let content_type = match content_type {
        Some(c) => string_of(chars_of(c).as_slice()),
        None => string_of(chars_of("application/octet-stream").as_slice()),
    };
    Some(RelayResult { status, content_type, body_base64: base64_encode(body) })
}

/// Whether the relay takes a client's result upload: its base64 body may
/// hold at most an image of the size limit.
pub fn result_upload_ok(result: &RelayResult) -> (res: bool)
    ensures
        res == (encode_utf8(result.body_base64@).len() <= 2 * MAX_IMAGE_BYTES),
{
    result.body_base64.as_str().as_bytes().len() <= 2 * MAX_IMAGE_BYTES
}

/// The image the relay serves from a client's result: the decoded body,
/// when it decodes, is within the size limit, the status is 200 and the
/// content type is an `image/` type.
pub open spec fn served_image_spec(result: (u16, Seq<char>, Seq<char>)) -> Option<Seq<u8>> {
    match base64_standard_decoded(encode_utf8(result.2)) {
        None => None,
        Some(body) => if body.len() > MAX_IMAGE_BYTES || result.0 != 200 || !has_prefix(result.1, "image/"@) {
            None
        } else {
            Some(body)
        },
    }
}

pub fn served_image(result: &RelayResult) -> (res: Option<Vec<u8>>)
    ensures
        match res {
            Some(b) => served_image_spec(result.model()) == Some(b@),
            None => served_image_spec(result.model()) is None,
        },
{
    let body = match base64_decode(result.body_base64.as_str().as_bytes()) {
        Some(b) => b,
        None => return None,
    };
    let ct = chars_of(result.content_type.as_str());
    let prefix = chars_of("image/");
    if body.len() > MAX_IMAGE_BYTES || result.status != 200 || !chars_occur_at(ct.as_slice(), prefix.as_slice(), 0) {
        return None;
    }
    Some(body)
}


/// What a client does with the relay's answer to a poll.
#[derive(Clone, Copy, Debug, PartialEq, Eq, Structural)]
pub enum PollOutcome {
    /// `204`: nothing queued; poll again.
    Idle,
    /// `404`: the relay does not know this tenant; register again.
    Unregistered,
    /// Another success: the body is a queued job.
    Job,
    /// Any other status: the poll failed with it.
    Failed(u16),
}

pub open spec fn poll_outcome_spec(status: u16) -> PollOutcome {
    if status == 204 {
        PollOutcome::Idle
    } else if status == 404 {
        PollOutcome::Unregistered
    } else if 200 <= status <= 299 {
        PollOutcome::Job
    } else {
        PollOutcome::Failed(status)
    }
}

pub fn poll_outcome(status: u16) -> (res: PollOutcome)
    ensures
        res == poll_outcome_spec(status),
{
    if status == 204 {
        PollOutcome::Idle
    } else if status == 404 {
        PollOutcome::Unregistered
    } else if 200 <= status && status <= 299 {
        PollOutcome::Job
    } else {
        PollOutcome::Failed(status)
    }
}

/// Why a client refuses its settings.
#[derive(Clone, Copy, Debug, PartialEq, Eq, Structural)]
pub enum ClientSettingsError {
    RelayNotHttps,
    GatewayNotLoopback,
    SlotsNotInteger,
    SlotsOutOfRange,
}

impl ClientSettingsError {
    pub open spec fn message_spec(self) -> Seq<char> {
        match self {
            ClientSettingsError::RelayNotHttps => "CONTEXT_RELAY_URL must use https://"@,
            ClientSettingsError::GatewayNotLoopback => "local gateway must be loopback port 8787"@,
            ClientSettingsError::SlotsNotInteger => "CONTEXT_RELAY_BLIND_SLOTS must be an integer"@,
            ClientSettingsError::SlotsOutOfRange => "CONTEXT_RELAY_BLIND_SLOTS must be between 1 and 8"@,
        }
    }

    pub fn message(&self) -> (res: &'static str)
        ensures
            res@ == self.message_spec(),
    {
        match self {
            ClientSettingsError::RelayNotHttps => "CONTEXT_RELAY_URL must use https://",
            ClientSettingsError::GatewayNotLoopback => "local gateway must be loopback port 8787",
            ClientSettingsError::SlotsNotInteger => "CONTEXT_RELAY_BLIND_SLOTS must be an integer",
            ClientSettingsError::SlotsOutOfRange => "CONTEXT_RELAY_BLIND_SLOTS must be between 1 and 8",
        }
    }
}

/// The client's endpoints: an `https://` relay, and the local gateway on
/// loopback port 8787 (IPv6 or IPv4 form).
pub open spec fn client_endpoints_spec(relay_url: Seq<char>, local_gateway: Seq<char>) -> Result<(), ClientSettingsError> {
    if !has_prefix(relay_url, "https://"@) {
        Err(ClientSettingsError::RelayNotHttps)
    } else if local_gateway != "http://[::1]:8787"@ && local_gateway != "http://127.0.0.1:8787"@ {
        Err(ClientSettingsError::GatewayNotLoopback)
    } else {
        Ok(())
    }
}

pub fn check_client_endpoints(relay_url: &str, local_gateway: &str) -> (res: Result<(), ClientSettingsError>)
    ensures
        res == client_endpoints_spec(relay_url@, local_gateway@),
{
    let url = chars_of(relay_url);
    let scheme = chars_of("https://");
    if !chars_occur_at(url.as_slice(), scheme.as_slice(), 0) {
        return Err(ClientSettingsError::RelayNotHttps);
    }
    if !crate::text::str_eq(local_gateway, "http://[::1]:8787") && !crate::text::str_eq(local_gateway, "http://127.0.0.1:8787") {
        return Err(ClientSettingsError::GatewayNotLoopback);
    }
    Ok(())
}

/// The number of blind tunnel slots: an integer from 1 to 8.
pub open spec fn blind_slots_spec(text: Seq<char>) -> Result<usize, ClientSettingsError> {
    match crate::text::parse_usize_spec(text) {
        None => Err(ClientSettingsError::SlotsNotInteger),
        Some(n) => if 1 <= n <= 8 { Ok(n) } else { Err(ClientSettingsError::SlotsOutOfRange) },
    }
}

pub fn blind_slots(text: &str) -> (res: Result<usize, ClientSettingsError>)
    ensures
        res == blind_slots_spec(text@),
{
    match crate::text::parse_usize(chars_of(text).as_slice()) {
        None => Err(ClientSettingsError::SlotsNotInteger),
        Some(n) => if 1 <= n && n <= 8 { Ok(n) } else { Err(ClientSettingsError::SlotsOutOfRange) },
    }
}

} // verus!
