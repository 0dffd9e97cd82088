//! The blind TLS relay's decisions: the loopback gateway a client forwards
//! to, reading a ClientHello for its server name without ending TLS, and
//! how many slots a tenant keeps waiting.
use vstd::prelude::*;
use crate::text::{ascii_lower, ascii_lower_exec, chars_of, string_of};
use rustls::server::Acceptor;
use std::io::Cursor;

verus! {

/// The most bytes read while waiting for a ClientHello.
pub const MAX_CLIENT_HELLO_BYTES: usize = 65536;

/// The most slots one tenant keeps waiting for blind connections.
pub const MAX_BLIND_SLOTS_PER_TENANT: usize = 8;

/// Why a client refuses its blind gateway setting.
#[derive(Clone, Copy, Debug, PartialEq, Eq, Structural)]
pub enum BlindGatewayError {
    NotSocketAddress,
    NotLoopback,
}

impl BlindGatewayError {
    pub open spec fn message_spec(self) -> Seq<char> {
        match self {
            BlindGatewayError::NotSocketAddress => "CONTEXT_RELAY_BLIND_GATEWAY must be an IP socket address"@,
            BlindGatewayError::NotLoopback => "blind TLS gateway must use a loopback address"@,
        }
    }

    pub fn message(&self) -> (res: &'static str)
        ensures
            res@ == self.message_spec(),
    {
        match self {
            BlindGatewayError::NotSocketAddress => "CONTEXT_RELAY_BLIND_GATEWAY must be an IP socket address",
            BlindGatewayError::NotLoopback => "blind TLS gateway must use a loopback address",
        }
    }
}

/// A loopback address, given by its octets: `127.0.0.0/8` for IPv4, `::1`
/// for IPv6.
pub open spec fn loopback_octets(ip: Seq<u8>) -> bool {
    ||| ip.len() == 4 && ip[0] == 127
    ||| ip.len() == 16 && ip[15] == 1 && forall|i: int| 0 <= i < 15 ==> #[trigger] ip[i] == 0
}

/// The blind gateway check, on the octets of the address the setting
/// parses to (`None` when it is not an IP socket address).
pub open spec fn blind_gateway_spec(parsed_ip: Option<Seq<u8>>) -> Result<(), BlindGatewayError> {
    match parsed_ip {
        None => Err(BlindGatewayError::NotSocketAddress),
        Some(ip) => if loopback_octets(ip) { Ok(()) } else { Err(BlindGatewayError::NotLoopback) },
    }
}

pub open spec fn opt_bytes(o: Option<&[u8]>) -> Option<Seq<u8>> {
    match o {
        Some(b) => Some(b@),
        None => None,
    }
}

/// Checks the blind gateway a client forwards the still-encrypted TLS
/// bytes to: it must be an IP socket address on loopback.
pub fn check_blind_gateway(parsed_ip: Option<&[u8]>) -> (res: Result<(), BlindGatewayError>)
    ensures
        res == blind_gateway_spec(opt_bytes(parsed_ip)),
{
    let ip = match parsed_ip {
        Some(ip) => ip,
        None => return Err(BlindGatewayError::NotSocketAddress),
    };
    if ip.len() == 4 {
        return if ip[0] == 127 { Ok(()) } else { Err(BlindGatewayError::NotLoopback) };
    }
    if ip.len() != 16 || ip[15] != 1 {
        return Err(BlindGatewayError::NotLoopback);
    }
    let mut i: usize = 0;
    while i < 15
        invariant
            opt_bytes(parsed_ip) == Some(ip@),
            ip@.len() == 16,
            ip@[15] == 1,
            i <= 15,
            forall|j: int| 0 <= j < i ==> #[trigger] ip@[j] == 0,
        decreases 15 - i,
    {
        if ip[i] != 0 {
            assert(ip@[i as int] != 0);
            assert(!loopback_octets(ip@));
            return Err(BlindGatewayError::NotLoopback);
        }
        i = i + 1;
    }
    Ok(())
}

/// Where reading a ClientHello stands after one more piece of it.
pub enum HelloProgress {
    /// The ClientHello is not complete yet.
    ReadMore,
    /// The server name it asks for, in lower case.
    ServerName(String),
    /// The read failed, with this message.
    Failed(String),
}

pub enum HelloModel {
    ReadMore,
    ServerName(Seq<char>),
    Failed(Seq<char>),
}

impl HelloProgress {
    pub open spec fn model(&self) -> HelloModel {
        match self {
            HelloProgress::ReadMore => HelloModel::ReadMore,
            HelloProgress::ServerName(n) => HelloModel::ServerName(n@),
            HelloProgress::Failed(m) => HelloModel::Failed(m@),
        }
    }
}

/// What the TLS layer said of the pieces so far: an error, not yet a whole
/// ClientHello (`Ok(None)`), or a ClientHello with or without a server
/// name.
pub open spec fn hello_progress_spec(outcome: Result<Option<Option<Seq<char>>>, Seq<char>>) -> HelloModel {
    match outcome {
        Err(e) => HelloModel::Failed(e),
        Ok(None) => HelloModel::ReadMore,
        Ok(Some(None)) => HelloModel::Failed("TLS ClientHello has no SNI"@),
        Ok(Some(Some(name))) => HelloModel::ServerName(ascii_lower(name)),
    }
}

pub open spec fn outcome_model(outcome: &Result<Option<Option<String>>, String>) -> Result<Option<Option<Seq<char>>>, Seq<char>> {
    match outcome {
        Err(e) => Err(e@),
        Ok(None) => Ok(None),
        Ok(Some(None)) => Ok(Some(None)),
        Ok(Some(Some(n))) => Ok(Some(Some(n@))),
    }
}

/// Decides where a ClientHello read stands from what the TLS layer said.
pub fn hello_progress(outcome: Result<Option<Option<String>>, String>) -> (res: HelloProgress)
    ensures
        res.model() == hello_progress_spec(outcome_model(&outcome)),
{
    match outcome {
        Err(e) => HelloProgress::Failed(e),
        Ok(None) => HelloProgress::ReadMore,
        Ok(Some(None)) => HelloProgress::Failed(string_of(chars_of("TLS ClientHello has no SNI").as_slice())),
        Ok(Some(Some(name))) => {
            let lower = ascii_lower_exec(chars_of(name.as_str()).as_slice());
            HelloProgress::ServerName(string_of(lower.as_slice()))
        },
    }
}

/// The pieces of a connection's first bytes, as they were read.
pub open spec fn piece_seqs(pieces: Seq<Vec<u8>>) -> Seq<Seq<u8>> {
    pieces.map_values(|p: Vec<u8>| p@)
}

/// What `rustls::server::Acceptor` answers when a fresh one is fed these
/// pieces in turn, each with one `read_tls` and then asked with `accept`,
/// stopping at the first answer that is not "not yet": a failure (with its
/// message), `Ok(None)` while the ClientHello is incomplete, or the
/// ClientHello's server name, if it has one.
pub uninterp spec fn tls_client_hello_outcome(pieces: Seq<Seq<u8>>) -> Result<Option<Option<Seq<char>>>, Seq<char>>;

/// Feeds the pieces to a fresh `rustls::server::Acceptor` with `read_tls`,
/// asking `accept` after each, and gives the server name of the
/// ClientHello once it is complete.
///
/// Trusted: the answer is the name `tls_client_hello_outcome` of the pieces.
/// The acceptor's state cannot leave this function, so the pieces are fed
/// here in turn rather than one call at a time.
#[verifier::external_body]
fn tls_client_hello(pieces: &Vec<Vec<u8>>) -> (res: Result<Option<Option<String>>, String>)
    ensures
        outcome_model(&res) == tls_client_hello_outcome(piece_seqs(pieces@)),
{
    let mut acceptor = Acceptor::default();
    for piece in pieces {
        if let Err(error) = acceptor.read_tls(&mut Cursor::new(piece.as_slice())) {
            return Err(error.to_string());
        }
        match acceptor.accept() {
            Ok(None) => {},
            Ok(Some(accepted)) => return Ok(Some(accepted.client_hello().server_name().map(str::to_string))),
            Err((error, _)) => return Err(error.to_string()),
        }
    }
    Ok(None)
}

/// Takes one more piece of a connection's first bytes: keeps it with the
/// bytes read so far (they are passed on to the tenant untouched) and with
/// the pieces read so far, and asks the TLS layer, about those pieces,
/// whether the ClientHello is complete and which server name it asks for.
pub fn read_client_hello_piece(pieces: &mut Vec<Vec<u8>>, captured: &mut Vec<u8>, piece: &[u8]) -> (res: HelloProgress)
    ensures
        final(captured)@ == old(captured)@ + piece@,
        piece_seqs(final(pieces)@) == piece_seqs(old(pieces)@).push(piece@),
        res.model() == hello_progress_spec(tls_client_hello_outcome(piece_seqs(final(pieces)@))),
{
    let mut copy: Vec<u8> = Vec::new();
    let mut i: usize = 0;
    let ghost before = captured@;
    while i < piece.len()
        invariant
            i <= piece@.len(),
            captured@ == before + piece@.subrange(0, i as int),
            copy@ == piece@.subrange(0, i as int),
        decreases piece.len() - i,
    {
        captured.push(piece[i]);
        copy.push(piece[i]);
        assert(piece@.subrange(0, i + 1) =~= piece@.subrange(0, i as int).push(piece@[i as int]));
        i = i + 1;
    }
    assert(piece@.subrange(0, piece@.len() as int) =~= piece@);
    let ghost old_pieces = pieces@;
    pieces.push(copy);
    assert(piece_seqs(pieces@) =~= piece_seqs(old_pieces).push(piece@));
    let outcome = tls_client_hello(pieces);
    hello_progress(outcome)
}

/// Whether the bytes read so far have reached the ClientHello limit.
pub fn hello_too_large(captured_len: usize) -> (res: bool)
    ensures
        res == (captured_len >= MAX_CLIENT_HELLO_BYTES),
{
    captured_len >= MAX_CLIENT_HELLO_BYTES
}

/// Whether a tenant may open one more waiting slot.
pub fn admit_blind_slot(waiting: usize) -> (res: bool)
    ensures
        res == (waiting < MAX_BLIND_SLOTS_PER_TENANT),
{
    waiting < MAX_BLIND_SLOTS_PER_TENANT
}

} // verus!
