//! From a PCAP file to transaction reports: packets are grouped into TCP
//! flows towards one server port, each direction is reassembled and framed,
//! and each request is reported with the response at the same position.
use vstd::prelude::*;
use super::CaptureError;
use super::pcap::{PcapPacket, copy_range, packets_from, parse_pcap, parse_pcap_spec, parse_tcp_packet, tcp_packet_spec, host_is_little_endian};
use super::http::{Segment, SegmentModel, segment_models, reassemble, reassemble_spec, parse_http_messages, messages_from, HttpMessageModel, message_models};
use super::report::{TransactionReport, TransactionModel, transaction_models, request_report, request_report_spec, reports_hash_forms, report_hash_forms};
use crate::text::bytes_eq;

verus! {

/// A flow's endpoints: client address and port, server address and port.
pub type FlowKey = (Seq<u8>, u16, Seq<u8>, u16);

/// One TCP flow: the segments sent to the server and those sent back.
pub struct Flow {
    pub client_address: Vec<u8>,
    pub client_port: u16,
    pub server_address: Vec<u8>,
    pub server_port: u16,
    pub requests: Vec<Segment>,
    pub responses: Vec<Segment>,
}

pub struct FlowModel {
    pub key: FlowKey,
    pub requests: Seq<SegmentModel>,
    pub responses: Seq<SegmentModel>,
}

impl Flow {
    pub open spec fn model(&self) -> FlowModel {
        FlowModel {
            key: (self.client_address@, self.client_port, self.server_address@, self.server_port),
            requests: segment_models(self.requests@),
            responses: segment_models(self.responses@),
        }
    }
}

pub open spec fn flow_models(f: Seq<Flow>) -> Seq<FlowModel> {
    f.map_values(|x: Flow| x.model())
}

/// The data of a packet record.
pub open spec fn packet_data(bytes: Seq<u8>, p: PcapPacket) -> Seq<u8> {
    bytes.subrange(p.start as int, p.start + p.len)
}

/// What one packet contributes: a non-empty TCP payload to or from the
/// server port, with its flow key and direction (`true` towards the server).
pub open spec fn packet_event(bytes: Seq<u8>, p: PcapPacket, link_type: u32, host_little: bool, port: u16) -> Option<(FlowKey, bool, SegmentModel)> {
    let data = packet_data(bytes, p);
    match tcp_packet_spec(data, link_type, host_little) {
        None => None,
        Some(t) => {
            let payload = data.skip(t.payload_start);
            let segment = SegmentModel { sequence: t.sequence, timestamp_ms: p.timestamp_ms, bytes: payload };
            if payload.len() == 0 {
                None
            } else if t.destination_port == port {
                Some(((t.source_address, t.source_port, t.destination_address, t.destination_port), true, segment))
            } else if t.source_port == port {
                Some(((t.destination_address, t.destination_port, t.source_address, t.source_port), false, segment))
            } else {
                None
            }
        },
    }
}

/// The position of the flow with the given key.
pub open spec fn flow_index(flows: Seq<FlowModel>, key: FlowKey) -> Option<int> {
    if exists|i: int| 0 <= i < flows.len() && flows[i].key == key {
        Some(choose|i: int| 0 <= i < flows.len() && flows[i].key == key && forall|j: int| 0 <= j < i ==> flows[j].key != key)
    } else {
        None
    }
}

/// Adding a segment to its flow; a flow seen for the first time goes last.
pub open spec fn add_event(flows: Seq<FlowModel>, event: Option<(FlowKey, bool, SegmentModel)>) -> Seq<FlowModel> {
    match event {
        None => flows,
        Some((key, towards_server, segment)) => match flow_index(flows, key) {
            Some(i) => flows.update(i, if towards_server {
                FlowModel { requests: flows[i].requests.push(segment), ..flows[i] }
            } else {
                FlowModel { responses: flows[i].responses.push(segment), ..flows[i] }
            }),
            None => flows.push(FlowModel {
                key: key,
                requests: if towards_server { seq![segment] } else { Seq::empty() },
                responses: if towards_server { Seq::empty() } else { seq![segment] },
            }),
        },
    }
}

/// The flows of the packets, in the order each flow was first seen.
pub open spec fn flows_of(bytes: Seq<u8>, packets: Seq<PcapPacket>, link_type: u32, host_little: bool, port: u16) -> Seq<FlowModel>
    decreases packets.len(),
{
    if packets.len() == 0 {
        Seq::empty()
    } else {
        add_event(flows_of(bytes, packets.drop_last(), link_type, host_little, port), packet_event(bytes, packets.last(), link_type, host_little, port))
    }
}

/// The response paired with request `i`: the one at the same position.
pub open spec fn response_at(responses: Seq<HttpMessageModel>, i: int) -> Option<HttpMessageModel> {
    if 0 <= i < responses.len() {
        Some(responses[i])
    } else {
        None
    }
}

/// The reports of the first `n` requests, in order; the first error stops.
pub open spec fn reports_upto(requests: Seq<HttpMessageModel>, responses: Seq<HttpMessageModel>, n: int) -> Result<Seq<TransactionModel>, CaptureError>
    decreases n,
{
    if n <= 0 {
        Ok(Seq::empty())
    } else {
        match reports_upto(requests, responses, n - 1) {
            Err(e) => Err(e),
            Ok(acc) => match request_report_spec(requests[n - 1], response_at(responses, n - 1)) {
                Err(e) => Err(e),
                Ok(None) => Ok(acc),
                Ok(Some(t)) => Ok(acc.push(t)),
            },
        }
    }
}

/// The reports of one flow: both directions reassembled and framed, then
/// each request reported.
pub open spec fn flow_reports(flow: FlowModel, max: usize) -> Result<Seq<TransactionModel>, CaptureError> {
    let (request_bytes, request_marks) = reassemble_spec(flow.requests);
    let (response_bytes, response_marks) = reassemble_spec(flow.responses);
    match messages_from(request_bytes, request_marks, 0, false, max) {
        Err(e) => Err(e),
        Ok(requests) => match messages_from(response_bytes, response_marks, 0, true, max) {
            Err(e) => Err(e),
            Ok(responses) => reports_upto(requests, responses, requests.len() as int),
        },
    }
}

/// The reports of all flows, flow after flow; the first error stops.
pub open spec fn all_reports(flows: Seq<FlowModel>, max: usize) -> Result<Seq<TransactionModel>, CaptureError>
    decreases flows.len(),
{
    if flows.len() == 0 {
        Ok(Seq::empty())
    } else {
        match all_reports(flows.drop_last(), max) {
            Err(e) => Err(e),
            Ok(acc) => match flow_reports(flows.last(), max) {
                Err(e) => Err(e),
                Ok(more) => Ok(acc + more),
            },
        }
    }
}

/// Where a report with time `t` goes among `s`: after every trailing one
/// whose time is not greater.
pub open spec fn report_insert_pos(s: Seq<TransactionModel>, t: u64) -> int
    decreases s.len(),
{
    if s.len() == 0 {
        0
    } else if s.last().request_at_unix_ms > t {
        report_insert_pos(s.drop_last(), t)
    } else {
        s.len() as int
    }
}

/// Reports ordered by request time, keeping the order of equal times.
pub open spec fn sort_by_time(s: Seq<TransactionModel>) -> Seq<TransactionModel>
    decreases s.len(),
{
    if s.len() == 0 {
        s
    } else {
        let r = sort_by_time(s.drop_last());
        r.insert(report_insert_pos(r, s.last().request_at_unix_ms), s.last())
    }
}

/// The transactions in a PCAP file towards `port`, ordered by request time,
/// for a capture written by a host of the given byte order.
pub open spec fn analyze_spec(bytes: Seq<u8>, port: u16, max: usize, host_little: bool) -> Result<Seq<TransactionModel>, CaptureError> {
    match parse_pcap_spec(bytes) {
        Err(e) => Err(e),
        Ok((packets, link_type)) => match all_reports(flows_of(bytes, packets, link_type, host_little, port), max) {
            Err(e) => Err(e),
            Ok(reports) => Ok(sort_by_time(reports)),
        },
    }
}

proof fn lemma_packets_in_bounds(b: Seq<u8>, offset: int, little: bool, nanos: bool)
    requires
        0 <= offset,
        packets_from(b, offset, little, nanos) is Ok,
    ensures
        forall|i: int| #![auto] 0 <= i < packets_from(b, offset, little, nanos).unwrap().len() ==>
            packets_from(b, offset, little, nanos).unwrap()[i].start + packets_from(b, offset, little, nanos).unwrap()[i].len <= b.len(),
    decreases b.len() - offset,
{
    if offset < b.len() && b.len() - offset >= 16 {
        let included = super::pcap::read_u32(b, offset + 8, little);
        let data = offset + 16;
        if included <= b.len() - data {
            lemma_packets_in_bounds(b, data + included, little, nanos);
        }
    }
}

proof fn lemma_payload_in_bounds(p: Seq<u8>, link_type: u32, host_little: bool)
    ensures
        tcp_packet_spec(p, link_type, host_little) matches Some(t) ==> 0 <= t.payload_start <= p.len(),
{
}

proof fn lemma_flow_index_is(flows: Seq<FlowModel>, key: FlowKey, i: int)
    requires
        0 <= i < flows.len(),
        flows[i].key == key,
        forall|j: int| 0 <= j < i ==> flows[j].key != key,
    ensures
        flow_index(flows, key) == Some(i),
{
    let w = choose|w: int| 0 <= w < flows.len() && flows[w].key == key && forall|j: int| 0 <= j < w ==> flows[j].key != key;
    if w < i {
        assert(flows[w].key != key);
    } else if w > i {
        assert(flows[i].key != key);
    }
}


fn find_flow(flows: &Vec<Flow>, client_address: &[u8], client_port: u16, server_address: &[u8], server_port: u16) -> (res: Option<usize>)
    ensures
        match res {
            Some(i) => i < flows@.len() && flow_index(flow_models(flows@), (client_address@, client_port, server_address@, server_port)) == Some(i as int),
            None => flow_index(flow_models(flows@), (client_address@, client_port, server_address@, server_port)) is None,
        },
{
    let ghost key = (client_address@, client_port, server_address@, server_port);
    let ghost fm = flow_models(flows@);
    let mut i: usize = 0;
    while i < flows.len()
        invariant
            i <= flows@.len(),
            fm == flow_models(flows@),
            key == (client_address@, client_port, server_address@, server_port),
            forall|j: int| 0 <= j < i ==> #[trigger] fm[j].key != key,
        decreases flows.len() - i,
    {
        let f = &flows[i];
        assert(fm[i as int] == f.model());
        let same_ports = f.client_port == client_port && f.server_port == server_port;
        let same_client = bytes_eq(f.client_address.as_slice(), client_address);
        let same_server = bytes_eq(f.server_address.as_slice(), server_address);
        assert(fm[i as int].key == (f.client_address@, f.client_port, f.server_address@, f.server_port));
        if same_ports && same_client && same_server {
            proof { lemma_flow_index_is(fm, key, i as int); }
            return Some(i);
        }
        i = i + 1;
    }
    None
}

/// The contribution of one packet (see `packet_event`).
fn packet_segment(bytes: &[u8], packet: PcapPacket, link_type: u32, host_little: bool, port: u16) -> (res: Option<(Vec<u8>, u16, Vec<u8>, u16, bool, Segment)>)
    requires
        packet.start + packet.len <= bytes@.len(),
    ensures
        match res {
            Some((ca, cp, sa, sp, dir, seg)) => packet_event(bytes@, packet, link_type, host_little, port) == Some(((ca@, cp, sa@, sp), dir, seg.model())),
            None => packet_event(bytes@, packet, link_type, host_little, port) is None,
        },
{
    let total = bytes.len();
    let end = packet.start + packet.len;
    let data = &bytes[packet.start..end];
    assert(data@ =~= packet_data(bytes@, packet));
    let parsed = match parse_tcp_packet(data, link_type, host_little) {
        Some(t) => t,
        None => return None,
    };
    proof { lemma_payload_in_bounds(data@, link_type, host_little); }
    if parsed.payload_start >= data.len() {
        assert(data@.skip(parsed.payload_start as int).len() == 0);
        return None;
    }
    let towards_server = if parsed.destination.port == port {
        true
    } else if parsed.source.port == port {
        false
    } else {
        return None;
    };
    let payload = copy_range(data, parsed.payload_start, data.len());
    assert(payload@ =~= data@.skip(parsed.payload_start as int));
    let segment = Segment { sequence: parsed.sequence, timestamp_ms: packet.timestamp_ms, bytes: payload };
    if towards_server {
        Some((parsed.source.address, parsed.source.port, parsed.destination.address, parsed.destination.port, true, segment))
    } else {
        Some((parsed.destination.address, parsed.destination.port, parsed.source.address, parsed.source.port, false, segment))
    }
}

/// Adds a segment to its flow (see `add_event`).
fn add_segment(flows: &mut Vec<Flow>, ca: Vec<u8>, cp: u16, sa: Vec<u8>, sp: u16, towards_server: bool, segment: Segment)
    ensures
        flow_models(final(flows)@) == add_event(flow_models(old(flows)@), Some(((ca@, cp, sa@, sp), towards_server, segment.model()))),
{
    let ghost before = flow_models(flows@);
    match find_flow(flows, ca.as_slice(), cp, sa.as_slice(), sp) {
        Some(i) => {
            let mut flow = flows.remove(i);
            let ghost old_flow = flow.model();
            assert(old_flow == before[i as int]);
            if towards_server {
                flow.requests.push(segment);
                assert(segment_models(flow.requests@) =~= old_flow.requests.push(segment.model()));
            } else {
                flow.responses.push(segment);
                assert(segment_models(flow.responses@) =~= old_flow.responses.push(segment.model()));
            }
            flows.insert(i, flow);
            proof {
                assert(flow_models(flows@) =~= before.update(i as int, flow.model()));
            }
        },
        None => {
            let mut requests: Vec<Segment> = Vec::new();
            let mut responses: Vec<Segment> = Vec::new();
            let ghost sm = segment.model();
            if towards_server {
                requests.push(segment);
            } else {
                responses.push(segment);
            }
            let flow = Flow {
                client_address: ca,
                client_port: cp,
                server_address: sa,
                server_port: sp,
                requests,
                responses,
            };
            assert(segment_models(flow.requests@) =~= (if towards_server { seq![sm] } else { Seq::<SegmentModel>::empty() }));
            assert(segment_models(flow.responses@) =~= (if towards_server { Seq::<SegmentModel>::empty() } else { seq![sm] }));
            flows.push(flow);
            proof {
                assert(flow_models(flows@) =~= before.push(flow.model()));
            }
        },
    }
}

/// Groups the packets' TCP payloads into flows towards `port`.
pub fn group_flows(bytes: &[u8], packets: &Vec<PcapPacket>, link_type: u32, host_little: bool, port: u16) -> (res: Vec<Flow>)
    requires
        forall|i: int| #![auto] 0 <= i < packets@.len() ==> packets@[i].start + packets@[i].len <= bytes@.len(),
    ensures
        flow_models(res@) == flows_of(bytes@, packets@, link_type, host_little, port),
{
    let mut flows: Vec<Flow> = Vec::new();
    let mut n: usize = 0;
    assert(flow_models(flows@) =~= Seq::<FlowModel>::empty());
    while n < packets.len()
        invariant
            n <= packets@.len(),
            forall|i: int| #![auto] 0 <= i < packets@.len() ==> packets@[i].start + packets@[i].len <= bytes@.len(),
            flow_models(flows@) == flows_of(bytes@, packets@.take(n as int), link_type, host_little, port),
        decreases packets.len() - n,
    {
        let packet = packets[n];
        assert(packets@[n as int].start + packets@[n as int].len <= bytes@.len());
        assert(packets@.take(n + 1).drop_last() =~= packets@.take(n as int));
        assert(packets@.take(n + 1).last() == packet);
        let ghost before = flow_models(flows@);
        n = n + 1;
        let (ca, cp, sa, sp, towards_server, segment) = match packet_segment(bytes, packet, link_type, host_little, port) {
            Some(x) => x,
            None => continue,
        };
        add_segment(&mut flows, ca, cp, sa, sp, towards_server, segment);
    }
    assert(packets@.take(packets@.len() as int) =~= packets@);
    flows
}


proof fn lemma_reports_error_stays(requests: Seq<HttpMessageModel>, responses: Seq<HttpMessageModel>, n: int, m: int)
    requires
        0 <= n <= m,
        reports_upto(requests, responses, n) is Err,
    ensures
        reports_upto(requests, responses, m) == reports_upto(requests, responses, n),
    decreases m - n,
{
    if m > n {
        lemma_reports_error_stays(requests, responses, n, m - 1);
    }
}

/// The reports of one flow (see `flow_reports`).
#[verifier::loop_isolation(false)]
pub fn flow_reports_exec(flow: Flow, max_body_bytes: usize) -> (res: Result<Vec<TransactionReport>, CaptureError>)
    requires
        max_body_bytes < 0xffff_ffff_ffff_ffff,
    ensures
        match (res, flow_reports(flow.model(), max_body_bytes)) {
            (Ok(r), Ok(m)) => transaction_models(r@) == m,
            (Err(e), Err(f)) => e == f,
            _ => false,
        },
        res matches Ok(r) ==> reports_hash_forms(transaction_models(r@)),
{
    let ghost fm = flow.model();
    let request_stream = reassemble(flow.requests);
    let response_stream = reassemble(flow.responses);
    let requests = match parse_http_messages(&request_stream, false, max_body_bytes) {
        Ok(m) => m,
        Err(e) => return Err(e),
    };
    let responses = match parse_http_messages(&response_stream, true, max_body_bytes) {
        Ok(m) => m,
        Err(e) => return Err(e),
    };
    let ghost rm = message_models(requests@);
    let ghost sm = message_models(responses@);
    let mut out: Vec<TransactionReport> = Vec::new();
    let mut i: usize = 0;
    assert(transaction_models(out@) =~= Seq::<TransactionModel>::empty());
    assert(flow_reports(fm, max_body_bytes) == reports_upto(rm, sm, rm.len() as int));
    while i < requests.len()
        invariant
            i <= requests@.len(),
            flow_reports(fm, max_body_bytes) == reports_upto(rm, sm, rm.len() as int),
            rm == message_models(requests@),
            sm == message_models(responses@),
            reports_upto(rm, sm, i as int) == Ok::<Seq<TransactionModel>, CaptureError>(transaction_models(out@)),
            reports_hash_forms(transaction_models(out@)),
        decreases requests.len() - i,
    {
        let response = if i < responses.len() { Some(&responses[i]) } else { None };
        assert(response_at(sm, i as int) == match response { Some(r) => Some(r.model()), None => None::<HttpMessageModel> });
        let ghost before = transaction_models(out@);
        match request_report(&requests[i], response) {
            Err(e) => {
                assert(rm[i as int] == requests@[i as int].model());
                proof { lemma_reports_error_stays(rm, sm, i + 1, rm.len() as int); }
                return Err(e);
            },
            Ok(None) => {},
            Ok(Some(t)) => {
                out.push(t);
                assert(transaction_models(out@) =~= before.push(t.model()));
                assert forall|k: int| 0 <= k < transaction_models(out@).len() implies report_hash_forms(#[trigger] transaction_models(out@)[k]) by {
                    if k < before.len() {
                        assert(transaction_models(out@)[k] == before[k]);
                    }
                }
            },
        }
        i = i + 1;
    }
    Ok(out)
}


proof fn lemma_all_reports_error_stays(flows: Seq<FlowModel>, max: usize, n: int)
    requires
        0 <= n <= flows.len(),
        all_reports(flows.take(n), max) is Err,
    ensures
        all_reports(flows, max) == all_reports(flows.take(n), max),
    decreases flows.len() - n,
{
    if n < flows.len() {
        assert(flows.take(n + 1).drop_last() =~= flows.take(n));
        lemma_all_reports_error_stays(flows, max, n + 1);
    } else {
        assert(flows.take(n) =~= flows);
    }
}

proof fn lemma_next_flow(fms: Seq<FlowModel>, n: int, rest: Seq<Flow>)
    requires
        0 <= n < fms.len(),
        rest.len() > 0,
        flow_models(rest) == fms.skip(n),
    ensures
        rest[0].model() == fms[n],
        flow_models(rest.remove(0)) == fms.skip(n + 1),
        fms.take(n + 1).drop_last() == fms.take(n),
        fms.take(n + 1).last() == fms[n],
{
    assert(fms.skip(n)[0] == fms[n]);
    assert(flow_models(rest)[0] == rest[0].model());
    assert(flow_models(rest).len() == rest.len());
    assert(rest.len() == fms.len() - n);
    assert(flow_models(rest.remove(0)) =~= fms.skip(n + 1)) by {
        assert forall|i: int| 0 <= i < fms.skip(n + 1).len() implies #[trigger] flow_models(rest.remove(0))[i] == fms.skip(n + 1)[i] by {
            assert(rest.remove(0)[i] == rest[i + 1]);
            assert(flow_models(rest)[i + 1] == fms.skip(n)[i + 1]);
        }
    }
    assert(fms.take(n + 1).drop_last() =~= fms.take(n));
}

/// The reports of all flows, flow after flow (see `all_reports`).
#[verifier::loop_isolation(false)]
pub fn all_reports_exec(flows: Vec<Flow>, max_body_bytes: usize) -> (res: Result<Vec<TransactionReport>, CaptureError>)
    requires
        max_body_bytes < 0xffff_ffff_ffff_ffff,
    ensures
        match (res, all_reports(flow_models(flows@), max_body_bytes)) {
            (Ok(r), Ok(m)) => transaction_models(r@) == m,
            (Err(e), Err(f)) => e == f,
            _ => false,
        },
        res matches Ok(r) ==> reports_hash_forms(transaction_models(r@)),
{
    let ghost fms = flow_models(flows@);
    let mut rest = flows;
    let mut out: Vec<TransactionReport> = Vec::new();
    let ghost mut n: int = 0;
    assert(fms.take(0) =~= Seq::<FlowModel>::empty());
    assert(transaction_models(out@) =~= Seq::<TransactionModel>::empty());
    assert(flow_models(rest@) =~= fms.skip(0));
    while rest.len() > 0
        invariant
            0 <= n <= fms.len(),
            fms.len() == n + rest@.len(),
            max_body_bytes < 0xffff_ffff_ffff_ffff,
            flow_models(rest@) == fms.skip(n),
            all_reports(fms.take(n), max_body_bytes) == Ok::<Seq<TransactionModel>, CaptureError>(transaction_models(out@)),
            reports_hash_forms(transaction_models(out@)),
        decreases rest.len(),
    {
        let ghost old_rest = rest@;
        let flow = rest.remove(0);
        proof { lemma_next_flow(fms, n, old_rest); }
        let ghost before = transaction_models(out@);
        match flow_reports_exec(flow, max_body_bytes) {
            Err(e) => {
                proof {
                    assert(all_reports(fms.take(n + 1), max_body_bytes) == Err::<Seq<TransactionModel>, CaptureError>(e));
                    lemma_all_reports_error_stays(fms, max_body_bytes, n + 1);
                }
                return Err(e);
            },
            Ok(more) => {
                let mut more = more;
                let ghost mm = more@;
                out.append(&mut more);
                assert(transaction_models(out@) =~= before + transaction_models(mm));
                assert forall|k: int| 0 <= k < transaction_models(out@).len() implies report_hash_forms(#[trigger] transaction_models(out@)[k]) by {
                    if k < before.len() {
                        assert(transaction_models(out@)[k] == before[k]);
                    } else {
                        assert(transaction_models(out@)[k] == transaction_models(mm)[k - before.len()]);
                    }
                }
            },
        }
        proof { n = n + 1; }
    }
    proof {
        assert(fms.skip(n).len() == 0);
        assert(fms.take(n) =~= fms);
    }
    Ok(out)
}


pub proof fn lemma_report_insert_pos(s: Seq<TransactionModel>, t: u64)
    ensures
        0 <= report_insert_pos(s, t) <= s.len(),
    decreases s.len(),
{
    if s.len() > 0 {
        lemma_report_insert_pos(s.drop_last(), t);
    }
}

pub proof fn lemma_sort_by_time_len(s: Seq<TransactionModel>)
    ensures
        sort_by_time(s).len() == s.len(),
    decreases s.len(),
{
    if s.len() > 0 {
        lemma_sort_by_time_len(s.drop_last());
        lemma_report_insert_pos(sort_by_time(s.drop_last()), s.last().request_at_unix_ms);
    }
}

pub open spec fn time_sorted(s: Seq<TransactionModel>) -> bool {
    forall|i: int, j: int| 0 <= i < j < s.len() ==> #[trigger] s[i].request_at_unix_ms <= #[trigger] s[j].request_at_unix_ms
}

proof fn lemma_report_insert_pos_splits(s: Seq<TransactionModel>, t: u64)
    requires
        time_sorted(s),
    ensures
        forall|i: int| 0 <= i < report_insert_pos(s, t) ==> #[trigger] s[i].request_at_unix_ms <= t,
        forall|i: int| report_insert_pos(s, t) <= i < s.len() ==> #[trigger] s[i].request_at_unix_ms > t,
    decreases s.len(),
{
    lemma_report_insert_pos(s, t);
    if s.len() > 0 {
        let r = s.drop_last();
        assert(time_sorted(r));
        lemma_report_insert_pos_splits(r, t);
        let p = report_insert_pos(s, t);
        if s.last().request_at_unix_ms <= t {
            assert forall|i: int| 0 <= i < s.len() implies #[trigger] s[i].request_at_unix_ms <= t by {
                if i < s.len() - 1 {
                    assert(s[i].request_at_unix_ms <= s[s.len() - 1].request_at_unix_ms);
                }
            }
        } else {
            assert(p == report_insert_pos(r, t));
            assert forall|i: int| 0 <= i < p implies #[trigger] s[i].request_at_unix_ms <= t by {
                assert(s[i] == r[i]);
            }
            assert forall|i: int| p <= i < s.len() implies #[trigger] s[i].request_at_unix_ms > t by {
                if i < s.len() - 1 {
                    assert(s[i] == r[i]);
                }
            }
        }
    }
}

/// Sorting by time orders the reports by request time and keeps every
/// report: the result is sorted and has the same reports, each as often.
pub proof fn lemma_sort_by_time_orders_and_keeps(s: Seq<TransactionModel>)
    ensures
        time_sorted(sort_by_time(s)),
        sort_by_time(s).to_multiset() == s.to_multiset(),
    decreases s.len(),
{
    broadcast use vstd::seq_lib::to_multiset_insert, vstd::seq_lib::to_multiset_build;
    if s.len() > 0 {
        let r = sort_by_time(s.drop_last());
        let x = s.last();
        lemma_sort_by_time_orders_and_keeps(s.drop_last());
        lemma_report_insert_pos_splits(r, x.request_at_unix_ms);
        lemma_report_insert_pos(r, x.request_at_unix_ms);
        let p = report_insert_pos(r, x.request_at_unix_ms);
        let out = r.insert(p, x);
        r.insert_ensures(p, x);
        assert forall|i: int, j: int| 0 <= i < j < out.len() implies #[trigger] out[i].request_at_unix_ms <= #[trigger] out[j].request_at_unix_ms by {
            if j < p {
            } else if j == p {
            } else if i < p {
                assert(out[j] == r[j - 1]);
            } else if i == p {
                assert(out[j] == r[j - 1]);
            } else {
                assert(out[j] == r[j - 1]);
                assert(out[i] == r[i - 1]);
            }
        }
        assert(s =~= s.drop_last().push(x));
        vstd::seq_lib::to_multiset_build(s.drop_last(), x);
    }
}

/// The reports made at a given time.
pub open spec fn at_time(t: u64) -> spec_fn(TransactionModel) -> bool {
    |m: TransactionModel| m.request_at_unix_ms == t
}

proof fn lemma_filter_none(a: Seq<TransactionModel>, pred: spec_fn(TransactionModel) -> bool)
    requires
        forall|i: int| 0 <= i < a.len() ==> !pred(#[trigger] a[i]),
    ensures
        a.filter(pred) == Seq::<TransactionModel>::empty(),
    decreases a.len(),
{
    reveal(Seq::filter);
    if a.len() > 0 {
        lemma_filter_none(a.drop_last(), pred);
        assert(!pred(a[a.len() - 1]));
    }
}

/// Sorting is stable: the reports made at any one time come out in the
/// order they went in.
pub proof fn lemma_sort_by_time_is_stable(s: Seq<TransactionModel>, t: u64)
    ensures
        sort_by_time(s).filter(at_time(t)) == s.filter(at_time(t)),
    decreases s.len(),
{
    reveal(Seq::filter);
    if s.len() > 0 {
        let pred = at_time(t);
        let r = sort_by_time(s.drop_last());
        let x = s.last();
        lemma_sort_by_time_is_stable(s.drop_last(), t);
        lemma_sort_by_time_orders_and_keeps(s.drop_last());
        lemma_report_insert_pos(r, x.request_at_unix_ms);
        lemma_report_insert_pos_splits(r, x.request_at_unix_ms);
        let p = report_insert_pos(r, x.request_at_unix_ms);
        let front = r.take(p);
        let back = r.skip(p);
        assert(r.insert(p, x) =~= front + seq![x] + back);
        assert(r =~= front + back);
        Seq::filter_distributes_over_add(front + seq![x], back, pred);
        Seq::filter_distributes_over_add(front, seq![x], pred);
        Seq::filter_distributes_over_add(front, back, pred);
        assert(seq![x].drop_last() =~= Seq::<TransactionModel>::empty());
        if x.request_at_unix_ms == t {
            assert forall|i: int| 0 <= i < back.len() implies !pred(#[trigger] back[i]) by {
                assert(back[i] == r[p + i]);
            }
            lemma_filter_none(back, pred);
            assert(seq![x].filter(pred) =~= seq![x]);
            assert(front.filter(pred) + back.filter(pred) =~= front.filter(pred));
            assert(sort_by_time(s).filter(pred) =~= front.filter(pred).push(x));
        } else {
            lemma_filter_none(seq![x], pred);
            assert(sort_by_time(s).filter(pred) =~= front.filter(pred) + back.filter(pred));
        }
    }
}

/// Orders reports by request time, keeping the order of equal times.
pub fn sort_reports(reports: Vec<TransactionReport>) -> (res: Vec<TransactionReport>)
    ensures
        transaction_models(res@) == sort_by_time(transaction_models(reports@)),
        reports_hash_forms(transaction_models(reports@)) ==> reports_hash_forms(transaction_models(res@)),
{
    let mut out: Vec<TransactionReport> = Vec::new();
    let mut input = reports;
    let ghost original = input@;
    let total = input.len();
    let mut rev: Vec<TransactionReport> = Vec::new();
    assert(original.take(original.len() as int) =~= original);
    while input.len() > 0
        invariant
            rev@.len() + input@.len() == original.len(),
            original.len() == total,
            input@ == original.take(input@.len() as int),
            forall|j: int| 0 <= j < rev@.len() ==> rev@[j] == original[original.len() - 1 - j],
        decreases input.len(),
    {
        let x = input.pop().unwrap();
        rev.push(x);
    }
    let mut n: usize = 0;
    assert(transaction_models(out@) =~= sort_by_time(transaction_models(original.take(0))));
    while rev.len() > 0
        invariant
            n + rev@.len() == original.len(),
            original.len() <= usize::MAX,
            forall|j: int| 0 <= j < rev@.len() ==> rev@[j] == original[original.len() - 1 - j],
            transaction_models(out@) == sort_by_time(transaction_models(original.take(n as int))),
        decreases rev.len(),
    {
        let x = rev.pop().unwrap();
        assert(x == original[n as int]);
        let ghost om = transaction_models(out@);
        proof {
            lemma_sort_by_time_len(transaction_models(original.take(n as int)));
            assert(transaction_models(original.take(n + 1)).drop_last() =~= transaction_models(original.take(n as int)));
            assert(transaction_models(original.take(n + 1)).last() == x.model());
        }
        let mut p = out.len();
        assert(om.take(p as int) =~= om);
        while p > 0 && out[p - 1].request_at_unix_ms > x.request_at_unix_ms
            invariant
                p <= out@.len(),
                om == transaction_models(out@),
                report_insert_pos(om, x.request_at_unix_ms) == report_insert_pos(om.take(p as int), x.request_at_unix_ms),
            decreases p,
        {
            assert(om.take(p as int).drop_last() =~= om.take(p - 1));
            p = p - 1;
        }
        proof {
            if p > 0 {
                assert(report_insert_pos(om.take(p as int), x.request_at_unix_ms) == p);
            }
            assert(transaction_models(out@.insert(p as int, x)) =~= om.insert(p as int, x.model()));
        }
        out.insert(p, x);
        n = n + 1;
    }
    assert(original.take(original.len() as int) =~= original);
    proof {
        let input = transaction_models(original);
        if reports_hash_forms(input) {
            lemma_sort_keeps_hash_forms(input);
        }
    }
    out
}

proof fn lemma_sort_keeps_hash_forms(s: Seq<TransactionModel>)
    requires
        reports_hash_forms(s),
    ensures
        reports_hash_forms(sort_by_time(s)),
{
    broadcast use vstd::seq_lib::group_to_multiset_ensures;
    lemma_sort_by_time_orders_and_keeps(s);
    let r = sort_by_time(s);
    assert forall|i: int| 0 <= i < r.len() implies report_hash_forms(#[trigger] r[i]) by {
        assert(r.contains(r[i]));
        assert(r.to_multiset().count(r[i]) > 0);
        assert(s.to_multiset().count(r[i]) > 0);
        assert(s.contains(r[i]));
        let j = choose|j: int| 0 <= j < s.len() && s[j] == r[i];
        assert(report_hash_forms(s[j]));
    }
}

/// `res` is the analysis of the capture (see `analyze_spec`).
pub open spec fn analysis_is(res: Result<Vec<TransactionReport>, CaptureError>, bytes: Seq<u8>, port: u16, max: usize, host_little: bool) -> bool {
    match (res, analyze_spec(bytes, port, max, host_little)) {
        (Ok(r), Ok(m)) => transaction_models(r@) == m,
        (Err(e), Err(f)) => e == f,
        _ => false,
    }
}

/// The transactions in a PCAP capture towards `server_port`, ordered by
/// request time, reading null-link headers in the given host byte order.
pub fn analyze_pcap_on_host(bytes: &[u8], server_port: u16, max_body_bytes: usize, host_little: bool) -> (res: Result<Vec<TransactionReport>, CaptureError>)
    requires
        max_body_bytes < 0xffff_ffff_ffff_ffff,
    ensures
        analysis_is(res, bytes@, server_port, max_body_bytes, host_little),
        res matches Ok(r) ==> reports_hash_forms(transaction_models(r@)),
{
    let (packets, link_type) = match parse_pcap(bytes) {
        Ok(x) => x,
        Err(e) => return Err(e),
    };
    proof {
        let b = bytes@;
        let (little, nanos) = super::pcap::pcap_format(b).unwrap();
        lemma_packets_in_bounds(b, 24, little, nanos);
    }
    let flows = group_flows(bytes, &packets, link_type, host_little, server_port);
    match all_reports_exec(flows, max_body_bytes) {
        Err(e) => Err(e),
        Ok(reports) => Ok(sort_reports(reports)),
    }
}

/// The transactions in a PCAP capture written on this machine towards
/// `server_port`, ordered by request time.
pub fn analyze_pcap(bytes: &[u8], server_port: u16, max_body_bytes: usize) -> (res: Result<Vec<TransactionReport>, CaptureError>)
    requires
        max_body_bytes < 0xffff_ffff_ffff_ffff,
    ensures
        exists|host_little: bool| #[trigger] analysis_is(res, bytes@, server_port, max_body_bytes, host_little),
        res matches Ok(r) ==> reports_hash_forms(transaction_models(r@)),
{
    let host_little = host_is_little_endian();
    let res = analyze_pcap_on_host(bytes, server_port, max_body_bytes, host_little);
    assert(analysis_is(res, bytes@, server_port, max_body_bytes, host_little));
    res
}


proof fn lemma_read_u32_extend(b: Seq<u8>, x: Seq<u8>, i: int, little: bool)
    requires
        0 <= i,
        i + 4 <= b.len(),
    ensures
        super::pcap::read_u32(b + x, i, little) == super::pcap::read_u32(b, i, little),
{
    assert((b + x)[i] == b[i] && (b + x)[i + 1] == b[i + 1] && (b + x)[i + 2] == b[i + 2] && (b + x)[i + 3] == b[i + 3]);
}

/// Records that parse up to the end of `b` parse the same way when more
/// bytes follow, and the records of those bytes come after them.
#[verifier::rlimit(60)]
#[verifier::spinoff_prover]
proof fn lemma_packets_from_extend(b: Seq<u8>, x: Seq<u8>, o: int, little: bool, nanos: bool)
    requires
        0 <= o <= b.len(),
        packets_from(b, o, little, nanos) is Ok,
    ensures
        packets_from(b + x, o, little, nanos) == (match packets_from(b + x, b.len() as int, little, nanos) {
            Ok(qs) => Ok(packets_from(b, o, little, nanos).unwrap() + qs),
            Err(e) => Err::<Seq<PcapPacket>, CaptureError>(e),
        }),
    decreases b.len() - o,
{
    if o == b.len() {
        match packets_from(b + x, b.len() as int, little, nanos) {
            Ok(qs) => {
                assert(Seq::<PcapPacket>::empty() + qs =~= qs);
            },
            Err(_) => {},
        }
    } else {
        lemma_read_u32_extend(b, x, o, little);
        lemma_read_u32_extend(b, x, o + 4, little);
        lemma_read_u32_extend(b, x, o + 8, little);
        let included = super::pcap::read_u32(b, o + 8, little);
        let data = o + 16;
        assert(b.len() - o >= 16);
        assert(included <= b.len() - data);
        assert((b + x).len() >= b.len());
        lemma_packets_from_extend(b, x, data + included, little, nanos);
        let rest = packets_from(b, data + included, little, nanos).unwrap();
        let head = packets_from(b, o, little, nanos).unwrap();
        match packets_from(b + x, b.len() as int, little, nanos) {
            Ok(qs) => {
                assert(seq![head[0]] + rest == head);
                assert(seq![head[0]] + (rest + qs) =~= head + qs);
            },
            Err(_) => {},
        }
    }
}

/// Packets whose data lies in both byte strings alike group into the same
/// flows.
proof fn lemma_flows_same_data(b1: Seq<u8>, b2: Seq<u8>, ps: Seq<PcapPacket>, link_type: u32, host_little: bool, port: u16)
    requires
        forall|k: int| 0 <= k < ps.len() ==> packet_data(b1, #[trigger] ps[k]) == packet_data(b2, ps[k]),
    ensures
        flows_of(b1, ps, link_type, host_little, port) == flows_of(b2, ps, link_type, host_little, port),
    decreases ps.len(),
{
    if ps.len() > 0 {
        let init = ps.drop_last();
        assert forall|k: int| 0 <= k < init.len() implies packet_data(b1, #[trigger] init[k]) == packet_data(b2, init[k]) by {
            assert(init[k] == ps[k]);
        }
        lemma_flows_same_data(b1, b2, init, link_type, host_little, port);
        assert(packet_data(b1, ps[ps.len() - 1]) == packet_data(b2, ps[ps.len() - 1]));
    }
}

/// Trailing packets that contribute nothing leave the flows as they are.
proof fn lemma_flows_skip_quiet(bytes: Seq<u8>, ps: Seq<PcapPacket>, qs: Seq<PcapPacket>, link_type: u32, host_little: bool, port: u16)
    requires
        forall|k: int| 0 <= k < qs.len() ==> packet_event(bytes, #[trigger] qs[k], link_type, host_little, port) is None,
    ensures
        flows_of(bytes, ps + qs, link_type, host_little, port) == flows_of(bytes, ps, link_type, host_little, port),
    decreases qs.len(),
{
    if qs.len() == 0 {
        assert(ps + qs =~= ps);
    } else {
        let init = qs.drop_last();
        assert forall|k: int| 0 <= k < init.len() implies packet_event(bytes, #[trigger] init[k], link_type, host_little, port) is None by {
            assert(init[k] == qs[k]);
        }
        lemma_flows_skip_quiet(bytes, ps, init, link_type, host_little, port);
        assert((ps + qs).drop_last() =~= ps + init);
        assert((ps + qs).last() == qs[qs.len() - 1]);
    }
}

/// Packet records after a capture that carry no TCP payload to or from the
/// server port: their packets contribute nothing.
pub open spec fn quiet_records(bytes: Seq<u8>, extra: Seq<u8>, port: u16, host_little: bool) -> bool {
    match parse_pcap_spec(bytes) {
        Err(_) => false,
        Ok((_, link_type)) => {
            let (little, nanos) = super::pcap::pcap_format(bytes).unwrap();
            match packets_from(bytes + extra, bytes.len() as int, little, nanos) {
                Err(_) => false,
                Ok(qs) => forall|k: int| 0 <= k < qs.len() ==> packet_event(bytes + extra, #[trigger] qs[k], link_type, host_little, port) is None,
            }
        },
    }
}

/// Appending complete packet records that are not IPv4/IPv6 TCP under the
/// capture's link type, carry an empty TCP payload, or have neither port
/// equal to the server port leaves the analysis of a capture unchanged:
/// the same reports, or the same error.
pub proof fn lemma_quiet_records_change_nothing(bytes: Seq<u8>, extra: Seq<u8>, port: u16, max: usize, host_little: bool)
    requires
        quiet_records(bytes, extra, port, host_little),
    ensures
        analyze_spec(bytes + extra, port, max, host_little) == analyze_spec(bytes, port, max, host_little),
{
    let b2 = bytes + extra;
    let (ps, link_type) = parse_pcap_spec(bytes).unwrap();
    let (little, nanos) = super::pcap::pcap_format(bytes).unwrap();
    assert(b2[0] == bytes[0] && b2[1] == bytes[1] && b2[2] == bytes[2] && b2[3] == bytes[3]);
    assert(super::pcap::pcap_format(b2) == super::pcap::pcap_format(bytes));
    lemma_read_u32_extend(bytes, extra, 20, little);
    lemma_packets_from_extend(bytes, extra, 24, little, nanos);
    let qs = packets_from(b2, bytes.len() as int, little, nanos).unwrap();
    assert(parse_pcap_spec(b2) == Ok::<(Seq<PcapPacket>, u32), CaptureError>((ps + qs, link_type)));
    lemma_flows_skip_quiet(b2, ps, qs, link_type, host_little, port);
    lemma_packets_in_bounds(bytes, 24, little, nanos);
    assert forall|k: int| 0 <= k < ps.len() implies packet_data(b2, #[trigger] ps[k]) == packet_data(bytes, ps[k]) by {
        assert(ps[k].start + ps[k].len <= bytes.len());
        assert(packet_data(b2, ps[k]) =~= packet_data(bytes, ps[k]));
    }
    lemma_flows_same_data(b2, bytes, ps, link_type, host_little, port);
}

/// Two analyses on one host, of a capture and of that capture with quiet
/// records appended (see `quiet_records`), agree: both fail with the same
/// error, or both give the same reports in the same order.
pub proof fn lemma_quiet_records_same_analysis(
    bytes: Seq<u8>,
    extra: Seq<u8>,
    port: u16,
    max: usize,
    host_little: bool,
    plain: Result<Vec<TransactionReport>, CaptureError>,
    extended: Result<Vec<TransactionReport>, CaptureError>,
)
    requires
        quiet_records(bytes, extra, port, host_little),
        analysis_is(plain, bytes, port, max, host_little),
        analysis_is(extended, bytes + extra, port, max, host_little),
    ensures
        match (plain, extended) {
            (Ok(a), Ok(b)) => transaction_models(a@) == transaction_models(b@),
            (Err(e), Err(f)) => e == f,
            _ => false,
        },
{
    lemma_quiet_records_change_nothing(bytes, extra, port, max, host_little);
}

/// Away from the null link type, the capturing host's byte order plays no
/// part in which segment a packet carries.
proof fn lemma_flows_ignore_host_order(bytes: Seq<u8>, ps: Seq<PcapPacket>, link_type: u32, port: u16)
    requires
        link_type != 0,
    ensures
        flows_of(bytes, ps, link_type, true, port) == flows_of(bytes, ps, link_type, false, port),
    decreases ps.len(),
{
    if ps.len() > 0 {
        lemma_flows_ignore_host_order(bytes, ps.drop_last(), link_type, port);
        let d = packet_data(bytes, ps.last());
        assert(super::pcap::link_spec(d, link_type, true) == super::pcap::link_spec(d, link_type, false));
        assert(tcp_packet_spec(d, link_type, true) == tcp_packet_spec(d, link_type, false));
        assert(packet_event(bytes, ps.last(), link_type, true, port) == packet_event(bytes, ps.last(), link_type, false, port));
    }
}

/// The link type a capture declares, when it parses.
pub open spec fn capture_link_type(bytes: Seq<u8>) -> Option<u32> {
    match parse_pcap_spec(bytes) {
        Ok((_, link_type)) => Some(link_type),
        Err(_) => None,
    }
}

/// A capture whose link type is not the null link type is analyzed the
/// same way whatever the byte order of the host that wrote it.
pub proof fn lemma_analysis_ignores_host_order(bytes: Seq<u8>, port: u16, max: usize)
    requires
        capture_link_type(bytes) != Some(0u32),
    ensures
        analyze_spec(bytes, port, max, true) == analyze_spec(bytes, port, max, false),
{
    if let Ok((ps, link_type)) = parse_pcap_spec(bytes) {
        lemma_flows_ignore_host_order(bytes, ps, link_type, port);
    }
}

/// Two calls of `analyze_pcap`, on a capture and on that capture with
/// quiet records appended, agree when the capture's link type is not the
/// null link type (whose packets carry the host's byte order): both fail
/// with the same error, or both give the same reports in the same order.
pub proof fn lemma_quiet_records_same_pcap_analysis(
    bytes: Seq<u8>,
    extra: Seq<u8>,
    port: u16,
    max: usize,
    plain: Result<Vec<TransactionReport>, CaptureError>,
    extended: Result<Vec<TransactionReport>, CaptureError>,
)
    requires
        quiet_records(bytes, extra, port, true),
        capture_link_type(bytes) != Some(0u32),
        exists|h: bool| #[trigger] analysis_is(plain, bytes, port, max, h),
        exists|h: bool| #[trigger] analysis_is(extended, bytes + extra, port, max, h),
    ensures
        match (plain, extended) {
            (Ok(a), Ok(b)) => transaction_models(a@) == transaction_models(b@),
            (Err(e), Err(f)) => e == f,
            _ => false,
        },
{
    let h1 = choose|h: bool| #[trigger] analysis_is(plain, bytes, port, max, h);
    let h2 = choose|h: bool| #[trigger] analysis_is(extended, bytes + extra, port, max, h);
    lemma_quiet_records_change_nothing(bytes, extra, port, max, true);
    lemma_analysis_ignores_host_order(bytes, port, max);
    let b2 = bytes + extra;
    assert(b2[0] == bytes[0] && b2[1] == bytes[1] && b2[2] == bytes[2] && b2[3] == bytes[3]);
    let (little, nanos) = super::pcap::pcap_format(bytes).unwrap();
    lemma_read_u32_extend(bytes, extra, 20, little);
    assert(capture_link_type(b2) != Some(0u32)) by {
        lemma_packets_from_extend(bytes, extra, 24, little, nanos);
    }
    lemma_analysis_ignores_host_order(b2, port, max);
}

} // verus!
