//! Passive loopback capture: PCAP parsing, HTTP/1.1 reassembly, schema-only
//! transaction reports, and correlation of failed requests with baselines.
use vstd::prelude::*;

pub mod http;
pub mod chunking;
pub mod pcap;
pub mod report;
pub mod analyze;
pub mod correlate;
pub mod capture;

verus! {

/// Why a capture could not be analyzed.
#[derive(Clone, Copy, Debug, PartialEq, Eq, Structural)]
pub enum CaptureError {
    PcapHeaderIncomplete,
    UnsupportedMagic,
    PacketHeaderIncomplete,
    PacketDataIncomplete,
    HeadersNotUtf8,
    BodyExceedsLimit,
    ChunkSizeNotUtf8,
    InvalidChunkSize,
    ChunkedBodyExceedsLimit,
    ChunkMissingTerminator,
    DecompressionFailed,
    DecompressedBodyExceedsLimit,
    SchemaLimitExceeded,
}

impl CaptureError {
    /// Whether the input ended early (`UnexpectedEof`); the other errors are
    /// malformed data (`InvalidData`).
    pub fn is_unexpected_eof(&self) -> (res: bool)
        ensures
            res == (*self is PcapHeaderIncomplete || *self is PacketHeaderIncomplete || *self is PacketDataIncomplete),
    {
        match self {
            CaptureError::PcapHeaderIncomplete => true,
            CaptureError::PacketHeaderIncomplete => true,
            CaptureError::PacketDataIncomplete => true,
            _ => false,
        }
    }

    pub open spec fn message_spec(self) -> Seq<char> {
        match self {
            CaptureError::PcapHeaderIncomplete => "PCAP header is incomplete"@,
            CaptureError::UnsupportedMagic => "unsupported PCAP magic"@,
            CaptureError::PacketHeaderIncomplete => "PCAP packet header is incomplete"@,
            CaptureError::PacketDataIncomplete => "PCAP packet data is incomplete"@,
            CaptureError::HeadersNotUtf8 => "HTTP headers are not UTF-8"@,
            CaptureError::BodyExceedsLimit => "HTTP body exceeds limit"@,
            CaptureError::ChunkSizeNotUtf8 => "chunk size is not UTF-8"@,
            CaptureError::InvalidChunkSize => "invalid chunk size"@,
            CaptureError::ChunkedBodyExceedsLimit => "decoded chunked body exceeds limit"@,
            CaptureError::ChunkMissingTerminator => "chunk is missing terminator"@,
            CaptureError::DecompressionFailed => "gzip body could not be decompressed"@,
            CaptureError::DecompressedBodyExceedsLimit => "decompressed body exceeds limit"@,
            CaptureError::SchemaLimitExceeded => "JSON schema exceeds safety limit"@,
        }
    }

    /// The human-readable message for the error.
    pub fn message(&self) -> (res: &'static str)
        ensures
            res@ == self.message_spec(),
    {
        match self {
            CaptureError::PcapHeaderIncomplete => "PCAP header is incomplete",
            CaptureError::UnsupportedMagic => "unsupported PCAP magic",
            CaptureError::PacketHeaderIncomplete => "PCAP packet header is incomplete",
            CaptureError::PacketDataIncomplete => "PCAP packet data is incomplete",
            CaptureError::HeadersNotUtf8 => "HTTP headers are not UTF-8",
            CaptureError::BodyExceedsLimit => "HTTP body exceeds limit",
            CaptureError::ChunkSizeNotUtf8 => "chunk size is not UTF-8",
            CaptureError::InvalidChunkSize => "invalid chunk size",
            CaptureError::ChunkedBodyExceedsLimit => "decoded chunked body exceeds limit",
            CaptureError::ChunkMissingTerminator => "chunk is missing terminator",
            CaptureError::DecompressionFailed => "gzip body could not be decompressed",
            CaptureError::DecompressedBodyExceedsLimit => "decompressed body exceeds limit",
            CaptureError::SchemaLimitExceeded => "JSON schema exceeds safety limit",
        }
    }
}

} // verus!
