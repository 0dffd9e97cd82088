//! How the relay server answers image requests: which requests it takes on,
//! the one reply it gives to every refusal, the reply to a fetched result,
//! and the bookkeeping of requests in flight and queued jobs.
use vstd::prelude::*;
use vstd::utf8::encode_utf8;
use crate::text::{chars_of, string_of, str_eq};
use super::{
    image_job_path, image_job_path_spec, opt_str, opt_text, served_image, served_image_spec,
    RelayResult,
};

verus! {

/// The most image requests the relay keeps in flight at once.
pub const MAX_INFLIGHT: usize = 1024;

/// The most jobs queued for one tenant.
pub const MAX_QUEUED_PER_TENANT: usize = 16;

/// The job path of an image request the relay takes on: the checked path
/// (`image_job_path_spec`) when the tenant is registered, fewer than
/// `MAX_INFLIGHT` requests are in flight and fewer than
/// `MAX_QUEUED_PER_TENANT` jobs wait for the tenant; `None` otherwise.
pub open spec fn image_admission_spec(
    tenant_id: Seq<char>,
    filename: Seq<char>,
    expires: Option<Seq<char>>,
    sig: Option<Seq<char>>,
    tenant_known: bool,
    inflight: nat,
    queued: nat,
) -> Option<Seq<char>> {
    match image_job_path_spec(tenant_id, filename, expires, sig) {
        Some(path) => if tenant_known && inflight < MAX_INFLIGHT && queued < MAX_QUEUED_PER_TENANT {
            Some(path)
        } else {
            None
        },
        None => None,
    }
}

/// Decides whether the relay takes on an image request; a `None` is
/// answered with `hidden_not_found`.
pub fn image_admission(
    tenant_id: &str,
    filename: &str,
    expires: Option<&str>,
    sig: Option<&str>,
    tenant_known: bool,
    inflight: usize,
    queued: usize,
) -> (res: Option<String>)
    ensures
        opt_text(res) == image_admission_spec(
            tenant_id@,
            filename@,
            opt_str(expires),
            opt_str(sig),
            tenant_known,
            inflight as nat,
            queued as nat,
        ),
{
    let path = match image_job_path(tenant_id, filename, expires, sig) {
        Some(p) => p,
        None => return None,
    };
    if !tenant_known || inflight >= MAX_INFLIGHT || queued >= MAX_QUEUED_PER_TENANT {
        return None;
    }
    Some(path)
}

/// An HTTP reply: status, headers (lower-case names) in order, and body.
pub struct HttpReply {
    pub status: u16,
    pub headers: Vec<(String, String)>,
    pub body: Vec<u8>,
}

/// Header pairs as text.
pub open spec fn header_pairs(h: Seq<(String, String)>) -> Seq<(Seq<char>, Seq<char>)> {
    Seq::new(h.len(), |i: int| (h[i].0@, h[i].1@))
}

impl HttpReply {
    pub open spec fn model(&self) -> (u16, Seq<(Seq<char>, Seq<char>)>, Seq<u8>) {
        (self.status, header_pairs(self.headers@), self.body@)
    }
}

/// The reply to every refused image request: `404`, `cache-control:
/// no-store`, an empty body.
pub open spec fn hidden_not_found_spec() -> (u16, Seq<(Seq<char>, Seq<char>)>, Seq<u8>) {
    (404, seq![("cache-control"@, "no-store"@)], Seq::empty())
}

/// Builds the reply to a refused image request.
pub fn hidden_not_found() -> (res: HttpReply)
    ensures
        res.model() == hidden_not_found_spec(),
{
    let mut headers: Vec<(String, String)> = Vec::new();
    headers.push(
        (string_of(chars_of("cache-control").as_slice()), string_of(chars_of("no-store").as_slice())),
    );
    let res = HttpReply { status: 404, headers, body: Vec::new() };
    assert(header_pairs(res.headers@) =~= seq![("cache-control"@, "no-store"@)]);
    res
}

/// A header value the HTTP layer accepts: no control byte but tab.
pub open spec fn header_value_ok(v: Seq<u8>) -> bool {
    forall|i: int| 0 <= i < v.len() ==> ((#[trigger] v[i] >= 32 && v[i] != 127) || v[i] == 9)
}

fn header_value_bytes_ok(v: &[u8]) -> (res: bool)
    ensures
        res == header_value_ok(v@),
{
    let mut i: usize = 0;
    while i < v.len()
        invariant
            i <= v@.len(),
            forall|j: int| 0 <= j < i ==> ((#[trigger] v@[j] >= 32 && v@[j] != 127) || v@[j] == 9),
        decreases v.len() - i,
    {
        if !((v[i] >= 32 && v[i] != 127) || v[i] == 9) {
            return false;
        }
        i = i + 1;
    }
    true
}

/// The relay's answer once a request's wait is over: `None` when no result
/// came back in time; otherwise the served image (`served_image_spec`)
/// with status `200`, its content type, `cache-control: private, no-store`
/// and `x-content-type-options: nosniff`. A result with no image to serve,
/// or whose content type the HTTP layer refuses, gets `hidden_not_found`.
pub open spec fn image_reply_spec(result: Option<(u16, Seq<char>, Seq<char>)>) -> (
    u16,
    Seq<(Seq<char>, Seq<char>)>,
    Seq<u8>,
) {
    match result {
        None => hidden_not_found_spec(),
        Some(r) => match served_image_spec(r) {
            None => hidden_not_found_spec(),
            Some(body) => if header_value_ok(encode_utf8(r.1)) {
                (
                    200,
                    seq![
                        ("content-type"@, r.1),
                        ("cache-control"@, "private, no-store"@),
                        ("x-content-type-options"@, "nosniff"@),
                    ],
                    body,
                )
            } else {
                hidden_not_found_spec()
            },
        },
    }
}

pub open spec fn opt_result(result: Option<&RelayResult>) -> Option<(u16, Seq<char>, Seq<char>)> {
    match result {
        Some(r) => Some(r.model()),
        None => None,
    }
}

/// Builds the relay's answer to a waited-for image request.
pub fn image_reply(result: Option<&RelayResult>) -> (res: HttpReply)
    ensures
        res.model() == image_reply_spec(opt_result(result)),
{
    let r = match result {
        Some(r) => r,
        None => return hidden_not_found(),
    };
    let body = match served_image(r) {
        Some(b) => b,
        None => return hidden_not_found(),
    };
    if !header_value_bytes_ok(r.content_type.as_str().as_bytes()) {
        return hidden_not_found();
    }
    let mut headers: Vec<(String, String)> = Vec::new();
    headers.push(
        (string_of(chars_of("content-type").as_slice()), string_of(chars_of(r.content_type.as_str()).as_slice())),
    );
    headers.push(
        (string_of(chars_of("cache-control").as_slice()), string_of(chars_of("private, no-store").as_slice())),
    );
    headers.push(
        (string_of(chars_of("x-content-type-options").as_slice()), string_of(chars_of("nosniff").as_slice())),
    );
    let res = HttpReply { status: 200, headers, body };
    assert(header_pairs(res.headers@) =~= seq![
        ("content-type"@, r.content_type@),
        ("cache-control"@, "private, no-store"@),
        ("x-content-type-options"@, "nosniff"@),
    ]);
    res
}

/// Every refused image request gets one and the same reply, whatever the
/// reason: a request not taken on, a wait that ended without a result, and
/// a result with no image to serve are all answered with
/// `hidden_not_found`; any other reply is a `200` that carries exactly the
/// served image.
pub proof fn lemma_refusals_are_uniform(
    tenant_id: Seq<char>,
    filename: Seq<char>,
    expires: Option<Seq<char>>,
    sig: Option<Seq<char>>,
    tenant_known: bool,
    inflight: nat,
    queued: nat,
    result: Option<(u16, Seq<char>, Seq<char>)>,
)
    ensures
        image_admission_spec(tenant_id, filename, expires, sig, tenant_known, inflight, queued) is None
            ==> image_job_path_spec(tenant_id, filename, expires, sig) is None || !tenant_known
            || inflight >= MAX_INFLIGHT || queued >= MAX_QUEUED_PER_TENANT,
        image_reply_spec(None) == hidden_not_found_spec(),
        (match result {
            None => true,
            Some(r) => served_image_spec(r) is None,
        }) ==> image_reply_spec(result) == hidden_not_found_spec(),
        image_reply_spec(result) == hidden_not_found_spec() || (image_reply_spec(result).0 == 200
            && result is Some && served_image_spec(result->0) == Some(image_reply_spec(result).2)),
{
}

/// A request waiting for its image: its id and the tenant it was sent to.
pub struct InflightRequest {
    pub request_id: String,
    pub tenant_id: String,
}

/// A job waiting in a tenant's queue.
pub struct QueuedJob {
    pub request_id: String,
    pub path_and_query: String,
}

pub open spec fn inflight_model(s: Seq<InflightRequest>) -> Seq<(Seq<char>, Seq<char>)> {
    Seq::new(s.len(), |i: int| (s[i].request_id@, s[i].tenant_id@))
}

pub open spec fn queue_model(s: Seq<QueuedJob>) -> Seq<(Seq<char>, Seq<char>)> {
    Seq::new(s.len(), |i: int| (s[i].request_id@, s[i].path_and_query@))
}

/// Entries that belong to another request than `request_id`.
pub open spec fn other_request(request_id: Seq<char>) -> spec_fn((Seq<char>, Seq<char>)) -> bool {
    |e: (Seq<char>, Seq<char>)| e.0 != request_id
}

/// No request id occurs twice among the entries in flight.
pub open spec fn ids_distinct(s: Seq<(Seq<char>, Seq<char>)>) -> bool {
    forall|i: int, j: int| 0 <= i < j < s.len() ==> #[trigger] s[i].0 != #[trigger] s[j].0
}

fn without_inflight(v: Vec<InflightRequest>, request_id: &str) -> (res: Vec<InflightRequest>)
    ensures
        inflight_model(res@) == inflight_model(v@).filter(other_request(request_id@)),
{
    let ghost orig = v@;
    let mut rest = v;
    let mut out: Vec<InflightRequest> = Vec::new();
    let ghost mut k: int = 0;
    while rest.len() > 0
        invariant
            0 <= k <= orig.len(),
            rest@ == orig.skip(k),
            inflight_model(out@) == inflight_model(orig).take(k).filter(other_request(request_id@)),
        decreases rest.len(),
    {
        let e = rest.remove(0);
        proof {
            assert(e == orig[k]);
            assert(orig.skip(k).remove(0) =~= orig.skip(k + 1));
            let m = inflight_model(orig);
            assert(m.take(k + 1).drop_last() =~= m.take(k));
            assert(m.take(k + 1).last() == (e.request_id@, e.tenant_id@));
            reveal(Seq::filter);
        }
        if !str_eq(e.request_id.as_str(), request_id) {
            let ghost before = out@;
            out.push(e);
            proof {
                assert(inflight_model(out@) =~= inflight_model(before).push((e.request_id@, e.tenant_id@)));
            }
        }
        proof {
            k = k + 1;
        }
    }
    proof {
        assert(inflight_model(orig).take(k) =~= inflight_model(orig));
    }
    out
}

fn without_job(v: Vec<QueuedJob>, request_id: &str) -> (res: Vec<QueuedJob>)
    ensures
        queue_model(res@) == queue_model(v@).filter(other_request(request_id@)),
{
    let ghost orig = v@;
    let mut rest = v;
    let mut out: Vec<QueuedJob> = Vec::new();
    let ghost mut k: int = 0;
    while rest.len() > 0
        invariant
            0 <= k <= orig.len(),
            rest@ == orig.skip(k),
            queue_model(out@) == queue_model(orig).take(k).filter(other_request(request_id@)),
        decreases rest.len(),
    {
        let e = rest.remove(0);
        proof {
            assert(e == orig[k]);
            assert(orig.skip(k).remove(0) =~= orig.skip(k + 1));
            let m = queue_model(orig);
            assert(m.take(k + 1).drop_last() =~= m.take(k));
            assert(m.take(k + 1).last() == (e.request_id@, e.path_and_query@));
            reveal(Seq::filter);
        }
        if !str_eq(e.request_id.as_str(), request_id) {
            let ghost before = out@;
            out.push(e);
            proof {
                assert(queue_model(out@) =~= queue_model(before).push((e.request_id@, e.path_and_query@)));
            }
        }
        proof {
            k = k + 1;
        }
    }
    proof {
        assert(queue_model(orig).take(k) =~= queue_model(orig));
    }
    out
}

/// Takes on an image request: records it in flight for its tenant (in
/// place of any entry with the same id) and queues its job last.
pub fn enqueue_image_request(
    inflight: &mut Vec<InflightRequest>,
    queue: &mut Vec<QueuedJob>,
    tenant_id: &str,
    request_id: &str,
    path_and_query: String,
)
    ensures
        inflight_model(final(inflight)@) == inflight_model(old(inflight)@).filter(
            other_request(request_id@),
        ).push((request_id@, tenant_id@)),
        queue_model(final(queue)@) == queue_model(old(queue)@).push((request_id@, path_and_query@)),
{
    let mut taken: Vec<InflightRequest> = Vec::new();
    std::mem::swap(&mut taken, inflight);
    let mut kept = without_inflight(taken, request_id);
    let ghost before = kept@;
    kept.push(
        InflightRequest {
            request_id: string_of(chars_of(request_id).as_slice()),
            tenant_id: string_of(chars_of(tenant_id).as_slice()),
        },
    );
    assert(inflight_model(kept@) =~= inflight_model(before).push((request_id@, tenant_id@)));
    *inflight = kept;
    let ghost qbefore = queue@;
    queue.push(QueuedJob { request_id: string_of(chars_of(request_id).as_slice()), path_and_query });
    assert(queue_model(queue@) =~= queue_model(qbefore).push((request_id@, path_and_query@)));
}

/// Ends an image request's wait, whatever its outcome: drops its in-flight
/// entry and any job still queued for it, keeping the others in order.
pub fn release_image_request(
    inflight: &mut Vec<InflightRequest>,
    queue: &mut Vec<QueuedJob>,
    request_id: &str,
)
    ensures
        inflight_model(final(inflight)@) == inflight_model(old(inflight)@).filter(
            other_request(request_id@),
        ),
        queue_model(final(queue)@) == queue_model(old(queue)@).filter(other_request(request_id@)),
{
    let mut taken: Vec<InflightRequest> = Vec::new();
    std::mem::swap(&mut taken, inflight);
    *inflight = without_inflight(taken, request_id);
    let mut jobs: Vec<QueuedJob> = Vec::new();
    std::mem::swap(&mut jobs, queue);
    *queue = without_job(jobs, request_id);
}

/// Whether some request in flight has this id and was sent to this tenant.
pub open spec fn inflight_for(s: Seq<(Seq<char>, Seq<char>)>, request_id: Seq<char>, tenant_id: Seq<char>) -> bool {
    exists|i: int| 0 <= i < s.len() && #[trigger] s[i] == (request_id, tenant_id)
}

/// Accepts a tenant's result for a request in flight: only when the request
/// is in flight for that very tenant, and then it leaves the books; any
/// other upload (answered as not found) changes nothing.
fn find_inflight(v: &Vec<InflightRequest>, request_id: &str, tenant_id: &str) -> (res: bool)
    ensures
        res == inflight_for(inflight_model(v@), request_id@, tenant_id@),
{
    let mut i: usize = 0;
    while i < v.len()
        invariant
            i <= v@.len(),
            forall|j: int| 0 <= j < i ==> #[trigger] inflight_model(v@)[j] != (request_id@, tenant_id@),
        decreases v.len() - i,
    {
        if str_eq(v[i].request_id.as_str(), request_id) && str_eq(v[i].tenant_id.as_str(), tenant_id) {
            assert(inflight_model(v@)[i as int] == (request_id@, tenant_id@));
            return true;
        }
        i = i + 1;
    }
    false
}

pub fn accept_result(inflight: &mut Vec<InflightRequest>, request_id: &str, tenant_id: &str) -> (res: bool)
    ensures
        res == inflight_for(inflight_model(old(inflight)@), request_id@, tenant_id@),
        res ==> inflight_model(final(inflight)@) == inflight_model(old(inflight)@).filter(
            other_request(request_id@),
        ),
        !res ==> final(inflight)@ == old(inflight)@,
{
    if !find_inflight(inflight, request_id, tenant_id) {
        return false;
    }
    let mut taken: Vec<InflightRequest> = Vec::new();
    std::mem::swap(&mut taken, inflight);
    *inflight = without_inflight(taken, request_id);
    true
}

} // verus!
