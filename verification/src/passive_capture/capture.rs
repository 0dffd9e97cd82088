//! The capture session's rules: which options are accepted, when the
//! capture stops, what a report records, and which report files are kept
//! and read. Running `tcpdump` and touching files is the caller's part.
use vstd::prelude::*;
use super::report::TransactionReport;
use super::correlate::{strictly_ascending, text_models, lemma_ascending_unique};
use crate::text::{chars_of, chars_occur_at, has_prefix, has_suffix, decimal_text, u64_text, u128_text, string_of};

verus! {

/// How a capture is run. The duration is whole seconds plus nanoseconds.
pub struct CaptureOptions {
    pub interface: String,
    pub port: u16,
    pub duration_secs: u64,
    pub duration_subsec_nanos: u32,
    pub max_pcap_bytes: u64,
    pub max_reports: usize,
    pub report_dir: String,
    pub tcpdump: String,
}

/// Why capture options are refused.
#[derive(Clone, Copy, Debug, PartialEq, Eq, Structural)]
pub enum OptionsError {
    PortZero,
    UnsafeInterface,
    DurationOutOfRange,
    PcapLimitOutOfRange,
    RetentionOutOfRange,
}

impl OptionsError {
    pub fn message(&self) -> (res: &'static str)
        ensures
            res@ == options_error_text(*self),
    {
        match self {
            OptionsError::PortZero => "port must be non-zero",
            OptionsError::UnsafeInterface => "interface contains unsafe characters",
            OptionsError::DurationOutOfRange => "capture duration must be between 1 and 900 seconds",
            OptionsError::PcapLimitOutOfRange => "PCAP limit must be between 64 KiB and 256 MiB",
            OptionsError::RetentionOutOfRange => "report retention must be between 2 and 10000 files",
        }
    }
}

pub open spec fn options_error_text(e: OptionsError) -> Seq<char> {
    match e {
        OptionsError::PortZero => "port must be non-zero"@,
        OptionsError::UnsafeInterface => "interface contains unsafe characters"@,
        OptionsError::DurationOutOfRange => "capture duration must be between 1 and 900 seconds"@,
        OptionsError::PcapLimitOutOfRange => "PCAP limit must be between 64 KiB and 256 MiB"@,
        OptionsError::RetentionOutOfRange => "report retention must be between 2 and 10000 files"@,
    }
}

/// A character allowed in an interface name.
pub open spec fn interface_char(c: char) -> bool {
    ('a' <= c <= 'z') || ('A' <= c <= 'Z') || ('0' <= c <= '9') || c == '_' || c == '-' || c == '.'
}

/// A non-empty interface name of at most 64 allowed characters.
pub open spec fn interface_ok(name: Seq<char>) -> bool {
    0 < name.len() <= 64 && forall|i: int| 0 <= i < name.len() ==> #[trigger] interface_char(name[i])
}

/// The capture duration in nanoseconds.
pub open spec fn duration_nanos(o: CaptureOptions) -> int {
    o.duration_secs * 1_000_000_000 + o.duration_subsec_nanos
}

/// The first rule the options break, in the order they are checked.
pub open spec fn validate_options_spec(o: CaptureOptions) -> Result<(), OptionsError> {
    if o.port == 0 {
        Err(OptionsError::PortZero)
    } else if !interface_ok(o.interface@) {
        Err(OptionsError::UnsafeInterface)
    } else if !(1_000_000_000 <= duration_nanos(o) <= 900_000_000_000) {
        Err(OptionsError::DurationOutOfRange)
    } else if !(65536 <= o.max_pcap_bytes <= 268435456) {
        Err(OptionsError::PcapLimitOutOfRange)
    } else if !(2 <= o.max_reports <= 10000) {
        Err(OptionsError::RetentionOutOfRange)
    } else {
        Ok(())
    }
}

/// Checks the options (all but the presence of the `tcpdump` program).
pub fn validate_options(options: &CaptureOptions) -> (res: Result<(), OptionsError>)
    ensures
        res == validate_options_spec(*options),
{
    if options.port == 0 {
        return Err(OptionsError::PortZero);
    }
    let name = chars_of(options.interface.as_str());
    let mut ok = name.len() > 0 && name.len() <= 64;
    let mut i: usize = 0;
    while i < name.len()
        invariant
            i <= name@.len(),
            name@ == options.interface@,
            ok == (0 < name@.len() <= 64 && forall|j: int| 0 <= j < i ==> #[trigger] interface_char(name@[j])),
        decreases name.len() - i,
    {
        let c = name[i];
        let allowed = ('a' <= c && c <= 'z') || ('A' <= c && c <= 'Z') || ('0' <= c && c <= '9') || c == '_' || c == '-' || c == '.';
        assert(allowed == interface_char(name@[i as int]));
        if !allowed {
            ok = false;
        }
        proof {
            if ok {
                assert forall|j: int| 0 <= j < i + 1 implies #[trigger] interface_char(name@[j]) by {}
            }
        }
        i = i + 1;
    }
    if !ok {
        return Err(OptionsError::UnsafeInterface);
    }
    let total: u128 = options.duration_secs as u128 * 1_000_000_000 + options.duration_subsec_nanos as u128;
    if total < 1_000_000_000 || total > 900_000_000_000 {
        return Err(OptionsError::DurationOutOfRange);
    }
    if options.max_pcap_bytes < 65536 || options.max_pcap_bytes > 268435456 {
        return Err(OptionsError::PcapLimitOutOfRange);
    }
    if options.max_reports < 2 || options.max_reports > 10000 {
        return Err(OptionsError::RetentionOutOfRange);
    }
    Ok(())
}

/// What the running capture reports back.
pub enum CaptureEvent {
    /// `tcpdump` has exited.
    Exited { success: bool, elapsed_nanos: u128 },
    /// `tcpdump` is running and the capture file has this length.
    Running { pcap_len: u64, elapsed_nanos: u128 },
}

/// What to do next.
#[derive(Clone, Copy, Debug, PartialEq, Eq, Structural)]
pub enum CaptureAction {
    /// `tcpdump` failed within half a second: the capture fails.
    FailEarlyExit,
    /// `tcpdump` is done: read the capture.
    Finish,
    /// Stop `tcpdump`, then read the capture.
    Stop,
    /// Wait 50 ms and look again.
    Wait,
}

/// One step of the capture loop: the new "size limit reached" flag and the
/// action.
pub open spec fn capture_step_spec(o: CaptureOptions, limit_reached: bool, event: CaptureEvent) -> (bool, CaptureAction) {
    match event {
        CaptureEvent::Exited { success, elapsed_nanos } => if !success && elapsed_nanos < 500_000_000 {
            (limit_reached, CaptureAction::FailEarlyExit)
        } else {
            (limit_reached, CaptureAction::Finish)
        },
        CaptureEvent::Running { pcap_len, elapsed_nanos } => {
            let limit = limit_reached || pcap_len >= o.max_pcap_bytes;
            if limit || elapsed_nanos >= duration_nanos(o) {
                (limit, CaptureAction::Stop)
            } else {
                (limit, CaptureAction::Wait)
            }
        },
    }
}

pub fn capture_step(options: &CaptureOptions, limit_reached: bool, event: CaptureEvent) -> (res: (bool, CaptureAction))
    ensures
        res == capture_step_spec(*options, limit_reached, event),
{
    match event {
        CaptureEvent::Exited { success, elapsed_nanos } => if !success && elapsed_nanos < 500_000_000 {
            (limit_reached, CaptureAction::FailEarlyExit)
        } else {
            (limit_reached, CaptureAction::Finish)
        },
        CaptureEvent::Running { pcap_len, elapsed_nanos } => {
            let limit = limit_reached || pcap_len >= options.max_pcap_bytes;
            let total: u128 = options.duration_secs as u128 * 1_000_000_000 + options.duration_subsec_nanos as u128;
            if limit || elapsed_nanos >= total {
                (limit, CaptureAction::Stop)
            } else {
                (limit, CaptureAction::Wait)
            }
        },
    }
}


/// A capture report's file name.
pub open spec fn is_report_name(name: Seq<char>) -> bool {
    has_prefix(name, "passive-capture-"@) && has_suffix(name, ".json"@)
}

pub open spec fn string_models(v: Seq<String>) -> Seq<Seq<char>> {
    v.map_values(|x: String| x@)
}

/// The report names among `names`, each once, oldest (smallest) first.
pub open spec fn report_order(names: Seq<Seq<char>>) -> Seq<Seq<char>> {
    choose|s: Seq<Seq<char>>| strictly_ascending(s) && forall|p: Seq<char>| #[trigger] s.contains(p) <==> (names.contains(p) && is_report_name(p))
}

fn is_report_name_exec(name: &[char]) -> (res: bool)
    ensures
        res == is_report_name(name@),
{
    let prefix = chars_of("passive-capture-");
    let suffix = chars_of(".json");
    chars_occur_at(name, prefix.as_slice(), 0) && suffix.len() <= name.len() && chars_occur_at(name, suffix.as_slice(), name.len() - suffix.len())
}

/// The report files among the names in a directory, in ascending order.
pub fn report_files(names: &Vec<String>) -> (res: Vec<String>)
    ensures
        string_models(res@) == report_order(string_models(names@)),
{
    let ghost nm = string_models(names@);
    let mut sorted: Vec<Vec<char>> = Vec::new();
    let mut i: usize = 0;
    while i < names.len()
        invariant
            i <= names@.len(),
            nm == string_models(names@),
            strictly_ascending(text_models(sorted@)),
            forall|p: Seq<char>| #[trigger] text_models(sorted@).contains(p) <==> (is_report_name(p) && exists|k: int| 0 <= k < i && nm[k] == p),
        decreases names.len() - i,
    {
        let name = chars_of(names[i].as_str());
        assert(name@ == nm[i as int]);
        if is_report_name_exec(name.as_slice()) {
            crate::passive_capture::correlate::insert_path(&mut sorted, name);
        }
        proof {
            assert forall|p: Seq<char>| #[trigger] text_models(sorted@).contains(p) <==> (is_report_name(p) && exists|k: int| 0 <= k < i + 1 && nm[k] == p) by {
                if p == nm[i as int] {
                    assert(0 <= i < i + 1 && nm[i as int] == p);
                }
                if exists|k: int| 0 <= k < i + 1 && nm[k] == p {
                    let k = choose|k: int| 0 <= k < i + 1 && nm[k] == p;
                    if k < i {
                        assert(exists|k: int| 0 <= k < i && nm[k] == p);
                    }
                }
            }
        }
        i = i + 1;
    }
    let mut out: Vec<String> = Vec::new();
    let mut j: usize = 0;
    while j < sorted.len()
        invariant
            j <= sorted@.len(),
            string_models(out@) == text_models(sorted@).take(j as int),
        decreases sorted.len() - j,
    {
        let s = string_of(sorted[j].as_slice());
        let ghost before = out@;
        assert(s@ == text_models(sorted@)[j as int]);
        out.push(s);
        assert(string_models(out@) =~= string_models(before).push(s@));
        assert(string_models(out@) =~= text_models(sorted@).take(j + 1));
        j = j + 1;
    }
    proof {
        let s = text_models(sorted@);
        assert(s.take(s.len() as int) =~= s);
        assert forall|p: Seq<char>| #[trigger] s.contains(p) <==> (nm.contains(p) && is_report_name(p)) by {
            if nm.contains(p) {
                let k = choose|k: int| 0 <= k < nm.len() && nm[k] == p;
                assert(0 <= k < names@.len() && nm[k] == p);
            }
        }
        let chosen = report_order(nm);
        assert(strictly_ascending(chosen) && forall|p: Seq<char>| #[trigger] chosen.contains(p) <==> (nm.contains(p) && is_report_name(p)));
        lemma_ascending_unique(s, chosen);
    }
    out
}

/// The oldest report files to delete so that at most `max_reports` remain.
pub fn reports_to_prune(names: &Vec<String>, max_reports: usize) -> (res: Vec<String>)
    ensures
        string_models(res@) == report_order(string_models(names@)).take(
            if report_order(string_models(names@)).len() > max_reports { report_order(string_models(names@)).len() - max_reports } else { 0 },
        ),
{
    let mut files = report_files(names);
    let count = if files.len() > max_reports { files.len() - max_reports } else { 0 };
    files.truncate(count);
    assert(string_models(files@) =~= report_order(string_models(names@)).take(count as int));
    files
}

/// The report files to read for correlation: the 100 newest, newest first.
pub fn reports_to_read(names: &Vec<String>) -> (res: Vec<String>)
    ensures
        string_models(res@) == report_order(string_models(names@)).reverse().take(
            if report_order(string_models(names@)).len() < 100 { report_order(string_models(names@)).len() as int } else { 100 },
        ),
{
    let files = report_files(names);
    let ghost fm = string_models(files@);
    let n = files.len();
    let count = if n < 100 { n } else { 100 };
    let mut out: Vec<String> = Vec::new();
    let mut k: usize = 0;
    while k < count
        invariant
            k <= count,
            count <= n,
            n == files@.len(),
            fm == string_models(files@),
            string_models(out@) == fm.reverse().take(k as int),
        decreases count - k,
    {
        let s = string_of(chars_of(files[n - 1 - k].as_str()).as_slice());
        let ghost before = out@;
        assert(s@ == fm[n - 1 - k]);
        assert(fm.reverse()[k as int] == fm[n - 1 - k]);
        out.push(s);
        assert(string_models(out@) =~= string_models(before).push(s@));
        assert(string_models(out@) =~= fm.reverse().take(k + 1));
        k = k + 1;
    }
    out
}


/// The report of one capture session.
pub struct CaptureReport {
    pub preview_version: u32,
    pub capture_mode: String,
    pub interface: String,
    pub port: u16,
    pub started_at_unix_ms: u64,
    pub ended_at_unix_ms: u64,
    pub pcap_limit_reached: bool,
    pub transactions: Vec<TransactionReport>,
    pub privacy: String,
}

pub open spec fn privacy_note() -> Seq<char> {
    "raw PCAP deleted after processing; authorization and header values, request bodies, and message scalar values are never written to reports"@
}

/// The report of a finished capture.
pub fn capture_report(options: &CaptureOptions, started_at_unix_ms: u64, ended_at_unix_ms: u64, pcap_limit_reached: bool, transactions: Vec<TransactionReport>) -> (res: CaptureReport)
    ensures
        res.preview_version == 1,
        res.capture_mode@ == "passive_loopback_sidecar"@,
        res.interface@ == options.interface@,
        res.port == options.port,
        res.started_at_unix_ms == started_at_unix_ms,
        res.ended_at_unix_ms == ended_at_unix_ms,
        res.pcap_limit_reached == pcap_limit_reached,
        res.transactions@ == transactions@,
        res.privacy@ == privacy_note(),
{
    CaptureReport {
        preview_version: 1,
        capture_mode: string_of(chars_of("passive_loopback_sidecar").as_slice()),
        interface: string_of(chars_of(options.interface.as_str()).as_slice()),
        port: options.port,
        started_at_unix_ms,
        ended_at_unix_ms,
        pcap_limit_reached,
        transactions,
        privacy: string_of(chars_of("raw PCAP deleted after processing; authorization and header values, request bodies, and message scalar values are never written to reports").as_slice()),
    }
}

/// `passive-capture-<started ms>-<stamp ns>.json`.
pub fn report_file_name(started_at_unix_ms: u64, stamp_nanos: u128) -> (res: String)
    ensures
        res@ == "passive-capture-"@ + decimal_text(started_at_unix_ms as nat) + "-"@ + decimal_text(stamp_nanos as nat) + ".json"@,
{
    let mut out = chars_of("passive-capture-");
    super::report::append(&mut out, u64_text(started_at_unix_ms).as_slice());
    super::report::append(&mut out, chars_of("-").as_slice());
    super::report::append(&mut out, u128_text(stamp_nanos).as_slice());
    super::report::append(&mut out, chars_of(".json").as_slice());
    string_of(out.as_slice())
}

/// `.passive-capture-<process id>-<stamp ns>.pcap`, the raw capture file.
pub fn raw_capture_name(process_id: u32, stamp_nanos: u128) -> (res: String)
    ensures
        res@ == ".passive-capture-"@ + decimal_text(process_id as nat) + "-"@ + decimal_text(stamp_nanos as nat) + ".pcap"@,
{
    let mut out = chars_of(".passive-capture-");
    super::report::append(&mut out, u64_text(process_id as u64).as_slice());
    super::report::append(&mut out, chars_of("-").as_slice());
    super::report::append(&mut out, u128_text(stamp_nanos).as_slice());
    super::report::append(&mut out, chars_of(".pcap").as_slice());
    string_of(out.as_slice())
}

} // verus!
