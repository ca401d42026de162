//! The decisions of the probes: how much process output and HTTP body is read, how each kind
//! of probe run is judged, and how the SSH probes are invoked and their output read.
use vstd::prelude::*;
use crate::models::TargetStatus;
use crate::text::{chars_of, decode_lossy, owned, push_char, string_of, utf8_lossy};
use crate::web::{trim, trim_spec};
use crate::http::{decimal, decimal_string, parse_u64, parse_u64_spec, split_on, split_spec, lines_view, split_lines, split_words, words};
use crate::text::lines_spec;

verus! {

/// Most bytes of a probe's standard output that are kept.
pub const DEFAULT_MAX_STDOUT_BYTES: usize = 65536;
/// Most bytes of a probe's standard error that are kept.
pub const DEFAULT_MAX_STDERR_BYTES: usize = 16384;
/// Most bytes of an HTTP probe's response body that are read before the connection is let go.
pub const MAX_BODY_DRAIN_BYTES: usize = 65536;

// ---------------------------------------------------------------------------------------------
// Bounded capture of process output
// ---------------------------------------------------------------------------------------------

/// Output read from one pipe, cut at `limit` bytes.
#[derive(Clone, Debug)]
pub struct BoundedCapture {
    pub bytes: Vec<u8>,
    pub limit: usize,
    pub truncated: bool,
}

/// What the reader does after a chunk was offered.
#[derive(PartialEq, Eq, Structural, Clone, Copy, Debug)]
pub enum CaptureStep {
    /// Keep reading.
    Continue,
    /// The limit was reached: read the rest of the pipe and throw it away.
    Discard,
}

impl BoundedCapture {
    pub fn new(limit: usize) -> (r: BoundedCapture)
        ensures
            r.bytes@ == Seq::<u8>::empty(),
            r.limit == limit,
            !r.truncated,
    {
        BoundedCapture { bytes: Vec::new(), limit, truncated: false }
    }

    /// Takes a chunk read from the pipe: all of it while it fits, otherwise as much as fits,
    /// after which the capture is marked truncated.
    pub fn accept(&mut self, chunk: &[u8]) -> (r: CaptureStep)
        requires
            old(self).bytes@.len() <= old(self).limit,
            !old(self).truncated,
        ensures
            final(self).limit == old(self).limit,
            final(self).bytes@.len() <= final(self).limit,
            old(self).bytes@.len() + chunk@.len() <= old(self).limit ==> r == CaptureStep::Continue
                && final(self).bytes@ == old(self).bytes@ + chunk@ && !final(self).truncated,
            old(self).bytes@.len() + chunk@.len() > old(self).limit ==> r == CaptureStep::Discard
                && final(self).bytes@ == old(self).bytes@ + chunk@.take(old(self).limit - old(self).bytes@.len())
                && final(self).truncated,
    {
        let room = self.limit - self.bytes.len();
        let ghost start = self.bytes@;
        let take = if chunk.len() > room { room } else { chunk.len() };
        let mut i: usize = 0;
        while i < take
            invariant
                i <= take <= chunk@.len(),
                take <= room,
                room == self.limit - start.len(),
                self.limit == old(self).limit,
                start == old(self).bytes@,
                !self.truncated,
                self.bytes@ == start + chunk@.take(i as int),
            decreases take - i,
        {
            self.bytes.push(chunk[i]);
            i = i + 1;
            assert(self.bytes@ =~= start + chunk@.take(i as int));
        }
        if chunk.len() > room {
            self.truncated = true;
            CaptureStep::Discard
        } else {
            assert(chunk@.take(chunk@.len() as int) =~= chunk@);
            CaptureStep::Continue
        }
    }
}

/// The result of running a probe process.
#[derive(Clone, Debug)]
pub struct ProcessOutput {
    pub stdout: String,
    pub stderr: String,
    pub exit_code: i32,
    pub success: bool,
    pub timed_out: bool,
    pub truncated: bool,
}

impl ProcessOutput {
    /// The output of a process that ended: both streams decoded and trimmed; a process killed
    /// by a signal has exit code -1.
    pub fn finished(stdout: &BoundedCapture, stderr: &BoundedCapture, code: Option<i32>, success: bool) -> (r: ProcessOutput)
        ensures
            r.stdout@ == trim_spec(utf8_lossy(stdout.bytes@)),
            r.stderr@ == trim_spec(utf8_lossy(stderr.bytes@)),
            r.exit_code == (match code {
                Some(c) => c,
                None => -1i32,
            }),
            r.success == success,
            !r.timed_out,
            r.truncated == (stdout.truncated || stderr.truncated),
    {
        let out = decode_lossy(stdout.bytes.as_slice());
        let err = decode_lossy(stderr.bytes.as_slice());
        ProcessOutput {
            stdout: trim(out.as_str()),
            stderr: trim(err.as_str()),
            exit_code: match code {
                Some(c) => c,
                None => -1,
            },
            success,
            timed_out: false,
            truncated: stdout.truncated || stderr.truncated,
        }
    }

    /// The output of a process that was killed because it ran past its time: no output, the
    /// given explanation on standard error.
    pub fn timed_out(explanation: String) -> (r: ProcessOutput)
        ensures
            r.stdout@ == Seq::<char>::empty(),
            r.stderr@ == explanation@,
            r.exit_code == -1,
            !r.success,
            r.timed_out,
            !r.truncated,
    {
        ProcessOutput { stdout: String::new(), stderr: explanation, exit_code: -1, success: false, timed_out: true, truncated: false }
    }
}

// ---------------------------------------------------------------------------------------------
// HTTP probes
// ---------------------------------------------------------------------------------------------

/// How reading an HTTP probe's response body ended.
#[derive(PartialEq, Eq, Structural, Clone, Copy, Debug)]
pub enum DrainResult {
    Complete(usize),
    BudgetReached(usize),
    Timeout,
    ReadError,
}

/// Counts a chunk of the body: the running total (saturating) when reading goes on, or the
/// end of reading once the budget is reached.
pub fn drain_step(total: usize, chunk_len: usize) -> (r: Result<usize, DrainResult>)
    ensures
        ({
            let t: nat = if total + chunk_len > usize::MAX { usize::MAX as nat } else { (total + chunk_len) as nat };
            if t >= MAX_BODY_DRAIN_BYTES {
                r == Err::<usize, DrainResult>(DrainResult::BudgetReached(t as usize))
            } else {
                r == Ok::<usize, DrainResult>(t as usize)
            }
        }),
{
    let t = if total > usize::MAX - chunk_len { usize::MAX } else { total + chunk_len };
    if t >= MAX_BODY_DRAIN_BYTES {
        Err(DrainResult::BudgetReached(t))
    } else {
        Ok(t)
    }
}

/// The message is present and reads `t`.
pub open spec fn says(o: Option<String>, t: Seq<char>) -> bool {
    match o {
        Some(m) => m@ == t,
        None => false,
    }
}

/// How a probe run is judged, with the error reported for it.
#[derive(Clone, Debug)]
pub struct Verdict {
    pub status: TargetStatus,
    pub error_message: Option<String>,
}

/// An HTTP answer: the expected status is online; a server error is unreachable; any other
/// status is degraded and reported.
pub open spec fn http_status_spec(code: u16, expected: u16) -> TargetStatus {
    if code == expected {
        TargetStatus::Online
    } else if code >= 500 {
        TargetStatus::Unreachable
    } else {
        TargetStatus::Degraded
    }
}

pub fn http_verdict(code: u16, expected: u16) -> (r: Verdict)
    ensures
        r.status == http_status_spec(code, expected),
        code == expected ==> r.error_message is None,
        code != expected ==> says(r.error_message, "Unexpected HTTP status "@ + decimal(code as nat)),
{
    if code == expected {
        Verdict { status: TargetStatus::Online, error_message: None }
    } else {
        let mut m = owned("Unexpected HTTP status ");
        let d = decimal_string(code as u64);
        m.append(d.as_str());
        Verdict { status: if code >= 500 { TargetStatus::Unreachable } else { TargetStatus::Degraded }, error_message: Some(m) }
    }
}

/// How HTTP answers are judged: the expected status, and only it, is online; every server
/// error (500 and up) that was not expected is unreachable; every other unexpected status (1xx to
/// 4xx) is degraded; and an unexpected status is always reported.
pub proof fn http_answers_are_judged_by_class(code: u16, expected: u16)
    ensures
        (http_status_spec(code, expected) == TargetStatus::Online) <==> code == expected,
        code != expected && code >= 500 ==> http_status_spec(code, expected) == TargetStatus::Unreachable,
        code != expected && code < 500 ==> http_status_spec(code, expected) == TargetStatus::Degraded,
        http_status_spec(code, expected) != TargetStatus::Timeout && http_status_spec(code, expected) != TargetStatus::Unknown,
{
}

/// A request that failed: a timeout, or otherwise an unreachable target, reported with the
/// error's text.
pub fn request_failure_verdict(is_timeout: bool, error: String) -> (r: Verdict)
    ensures
        r.status == (if is_timeout { TargetStatus::Timeout } else { TargetStatus::Unreachable }),
        r.error_message == Some(error),
{
    Verdict { status: if is_timeout { TargetStatus::Timeout } else { TargetStatus::Unreachable }, error_message: Some(error) }
}

/// "... timed out after {seconds}s".
pub open spec fn timed_out_text(prefix: Seq<char>, seconds: u64) -> Seq<char> {
    prefix + " timed out after "@ + decimal(seconds as nat) + "s"@
}

fn timed_out_message(prefix: &str, seconds: u64) -> (r: String)
    ensures
        r@ == timed_out_text(prefix@, seconds),
{
    let mut m = owned(prefix);
    m.append(" timed out after ");
    let d = decimal_string(seconds);
    m.append(d.as_str());
    m.append("s");
    m
}

// ---------------------------------------------------------------------------------------------
// TCP probes
// ---------------------------------------------------------------------------------------------

/// How a TCP connection attempt ended.
#[derive(Clone, Debug)]
pub enum ConnectOutcome {
    Connected,
    Failed(String),
    TimedOut,
}

/// A connection is online; a refused or failed connection is unreachable with its error; an
/// attempt that ran out of time is a timeout.
pub fn tcp_verdict(outcome: ConnectOutcome, timeout_seconds: u64) -> (r: Verdict)
    ensures
        match outcome {
            ConnectOutcome::Connected => r.status == TargetStatus::Online && r.error_message is None,
            ConnectOutcome::Failed(e) => r.status == TargetStatus::Unreachable && r.error_message == Some(e),
            ConnectOutcome::TimedOut => r.status == TargetStatus::Timeout && says(r.error_message, timed_out_text("Connection"@, timeout_seconds)),
        },
{
    match outcome {
        ConnectOutcome::Connected => Verdict { status: TargetStatus::Online, error_message: None },
        ConnectOutcome::Failed(e) => Verdict { status: TargetStatus::Unreachable, error_message: Some(e) },
        ConnectOutcome::TimedOut => Verdict {
            status: TargetStatus::Timeout,
            error_message: Some(timed_out_message("Connection", timeout_seconds)),
        },
    }
}

// ---------------------------------------------------------------------------------------------
// Exec probes
// ---------------------------------------------------------------------------------------------

/// How an exec probe ended.
#[derive(Clone, Debug)]
pub enum ExecOutcome {
    /// The configured command is empty.
    EmptyCommand,
    /// The program could not be started.
    SpawnFailed(String),
    /// The process ran and ended (possibly by a timeout).
    Ran(ProcessOutput),
}

/// The judgement of an exec probe, and whether its standard output stands as its metrics.
#[derive(Clone, Debug)]
pub struct ExecVerdict {
    pub verdict: Verdict,
    /// The output is a complete JSON object or array and is reported as the metrics.
    pub metrics_from_output: bool,
}

/// Whether this text is a JSON object or array (`serde_json`'s reading of it).
pub uninterp spec fn json_container(text: Seq<char>) -> bool;

/// Whether `serde_json::from_str` reads the text as a JSON value that is an object or an array.
#[verifier::external_body]
fn is_json_container(text: &str) -> (r: bool)
    ensures
        r == json_container(text@),
{
    match serde_json::from_str::<serde_json::Value>(text) {
        Ok(v) => v.is_object() || v.is_array(),
        Err(_) => false,
    }
}

/// An exec probe's metrics are its output when that is a complete JSON object or array; any
/// other output is not healthy but unknown. A well-formed output is online when the process
/// succeeded and degraded otherwise.
pub fn exec_verdict(outcome: ExecOutcome, timeout_seconds: u64) -> (r: ExecVerdict)
    ensures
        match outcome {
            ExecOutcome::EmptyCommand => r.verdict.status == TargetStatus::Unknown && !r.metrics_from_output
                && says(r.verdict.error_message, "Empty command vector"@),
            ExecOutcome::SpawnFailed(e) => r.verdict.status == TargetStatus::Unreachable && !r.metrics_from_output
                && r.verdict.error_message == Some(e),
            ExecOutcome::Ran(out) => if out.timed_out {
                r.verdict.status == TargetStatus::Timeout && !r.metrics_from_output
                    && says(r.verdict.error_message, timed_out_text("Command"@, timeout_seconds))
            } else {
                let parsed = json_container(out.stdout@) && !out.truncated;
                &&& r.metrics_from_output == parsed
                &&& r.verdict.status == (if !parsed { TargetStatus::Unknown } else if out.success {
                    TargetStatus::Online
                } else {
                    TargetStatus::Degraded
                })
                &&& !parsed ==> says(r.verdict.error_message, "Probe did not return a complete JSON object or array"@)
                &&& parsed && out.success ==> r.verdict.error_message is None
                &&& parsed && !out.success ==> says(
                    r.verdict.error_message,
                    "Command exited with status code "@ + signed_decimal(out.exit_code as int),
                )
            },
        },
{
    match outcome {
        ExecOutcome::EmptyCommand => ExecVerdict {
            verdict: Verdict { status: TargetStatus::Unknown, error_message: Some(owned("Empty command vector")) },
            metrics_from_output: false,
        },
        ExecOutcome::SpawnFailed(e) => ExecVerdict {
            verdict: Verdict { status: TargetStatus::Unreachable, error_message: Some(e) },
            metrics_from_output: false,
        },
        ExecOutcome::Ran(out) => {
            if out.timed_out {
                return ExecVerdict {
                    verdict: Verdict {
                        status: TargetStatus::Timeout,
                        error_message: Some(timed_out_message("Command", timeout_seconds)),
                    },
                    metrics_from_output: false,
                };
            }
            let parsed = is_json_container(out.stdout.as_str()) && !out.truncated;
            if !parsed {
                ExecVerdict {
                    verdict: Verdict {
                        status: TargetStatus::Unknown,
                        error_message: Some(owned("Probe did not return a complete JSON object or array")),
                    },
                    metrics_from_output: false,
                }
            } else if out.success {
                ExecVerdict { verdict: Verdict { status: TargetStatus::Online, error_message: None }, metrics_from_output: true }
            } else {
                let mut m = owned("Command exited with status code ");
                let d = signed_decimal_string(out.exit_code);
                m.append(d.as_str());
                ExecVerdict { verdict: Verdict { status: TargetStatus::Degraded, error_message: Some(m) }, metrics_from_output: true }
            }
        },
    }
}

/// A signed integer in decimal.
pub open spec fn signed_decimal(n: int) -> Seq<char> {
    if n < 0 { "-"@ + decimal((-n) as nat) } else { decimal(n as nat) }
}

/// `n` in decimal, as `to_string` writes a signed integer.
pub fn signed_decimal_string(n: i32) -> (r: String)
    ensures
        r@ == signed_decimal(n as int),
{
    if n < 0 {
        let mut s = owned("-");
        let magnitude: u64 = if n == i32::MIN { 2147483648 } else { (-n) as u64 };
        let d = decimal_string(magnitude);
        s.append(d.as_str());
        s
    } else {
        decimal_string(n as u64)
    }
}

// ---------------------------------------------------------------------------------------------
// SSH probes
// ---------------------------------------------------------------------------------------------

pub open spec fn strs_view(v: Seq<String>) -> Seq<Seq<char>> {
    v.map_values(|s: String| s@)
}

/// The key path passed to `ssh`: a path starting with `~/` is taken relative to the home
/// directory, when one is known.
pub open spec fn key_path_spec(key: Seq<char>, home: Option<Seq<char>>) -> Seq<char> {
    if key.len() >= 2 && key[0] == '~' && key[1] == '/' && home is Some {
        home->0 + "/"@ + key.skip(2)
    } else {
        key
    }
}

/// Resolves `~/` in an SSH key path against the home directory.
pub fn key_path(key: &str, home: &Option<String>) -> (r: String)
    ensures
        r@ == key_path_spec(key@, opt_view(*home)),
{
    let cs = chars_of(key);
    match home {
        Some(h) => {
            if cs.len() >= 2 && cs[0] == '~' && cs[1] == '/' {
                let mut out = h.clone();
                out.append("/");
                let ghost head = out@;
                let mut i: usize = 2;
                while i < cs.len()
                    invariant
                        2 <= i <= cs.len(),
                        cs@ == key@,
                        out@ == head + cs@.subrange(2, i as int),
                    decreases cs.len() - i,
                {
                    push_char(&mut out, cs[i]);
                    i = i + 1;
                    assert(out@ =~= head + cs@.subrange(2, i as int));
                }
                assert(cs@.subrange(2, cs.len() as int) =~= cs@.skip(2));
                out
            } else {
                owned(key)
            }
        },
        None => owned(key),
    }
}

pub open spec fn opt_view(o: Option<String>) -> Option<Seq<char>> {
    match o {
        Some(s) => Some(s@),
        None => None,
    }
}

/// The arguments of `ssh` for a probe: batch mode, strict host keys and a connect timeout,
/// then the port and the key when configured, the separator `--` where asked for, the
/// destination `user@host` and the remote command.
pub open spec fn ssh_args_spec(
    timeout_seconds: u64,
    port: Option<u16>,
    key: Option<Seq<char>>,
    separator: bool,
    user: Seq<char>,
    host: Seq<char>,
    command: Seq<char>,
) -> Seq<Seq<char>> {
    let base = seq!["-o"@, "BatchMode=yes"@, "-o"@, "StrictHostKeyChecking=yes"@, "-o"@, "ConnectTimeout="@ + decimal(
        timeout_seconds as nat,
    )];
    let with_port = match port {
        Some(p) => base + seq!["-p"@, decimal(p as nat)],
        None => base,
    };
    let with_key = match key {
        Some(k) => with_port + seq!["-i"@, k],
        None => with_port,
    };
    let with_sep = if separator { with_key + seq!["--"@] } else { with_key };
    with_sep + seq![user + "@"@ + host, command]
}

/// The shape of an SSH invocation: it always opens with batch mode and strict host-key
/// checking; the port and the key appear exactly when configured, each after its flag; the
/// separator, when asked for, stands right before the destination; and the destination
/// `user@host` and the remote command come last, in that order.
pub proof fn ssh_invocations_keep_their_shape(
    timeout_seconds: u64,
    port: Option<u16>,
    key: Option<Seq<char>>,
    separator: bool,
    user: Seq<char>,
    host: Seq<char>,
    command: Seq<char>,
)
    ensures
        ({
            let a = ssh_args_spec(timeout_seconds, port, key, separator, user, host, command);
            let pp: int = if port is Some { 2 } else { 0 };
            let kk: int = if key is Some { 2 } else { 0 };
            let ss: int = if separator { 1 } else { 0 };
            &&& a.len() == 8 + pp + kk + ss
            &&& a[0] == "-o"@ && a[1] == "BatchMode=yes"@ && a[2] == "-o"@ && a[3] == "StrictHostKeyChecking=yes"@
            &&& port matches Some(p) ==> a[6] == "-p"@ && a[7] == decimal(p as nat)
            &&& key matches Some(k) ==> a[6 + pp] == "-i"@ && a[7 + pp] == k
            &&& separator ==> a[a.len() - 3] == "--"@
            &&& a[a.len() - 2] == user + "@"@ + host
            &&& a[a.len() - 1] == command
        }),
{
}

/// Builds the `ssh` arguments (see `ssh_args_spec`); `key` is the key path already resolved.
pub fn ssh_args(
    timeout_seconds: u64,
    port: Option<u16>,
    key: Option<String>,
    separator: bool,
    user: &str,
    host: &str,
    command: &str,
) -> (r: Vec<String>)
    ensures
        strs_view(r@) == ssh_args_spec(timeout_seconds, port, opt_view(key), separator, user@, host@, command@),
{
    let mut v: Vec<String> = Vec::new();
    v.push(owned("-o"));
    v.push(owned("BatchMode=yes"));
    v.push(owned("-o"));
    v.push(owned("StrictHostKeyChecking=yes"));
    v.push(owned("-o"));
    let mut t = owned("ConnectTimeout=");
    let d = decimal_string(timeout_seconds);
    t.append(d.as_str());
    v.push(t);
    let ghost base = strs_view(v@);
    assert(base =~= seq!["-o"@, "BatchMode=yes"@, "-o"@, "StrictHostKeyChecking=yes"@, "-o"@, "ConnectTimeout="@ + decimal(
        timeout_seconds as nat,
    )]);
    match port {
        Some(p) => {
            v.push(owned("-p"));
            v.push(decimal_string(p as u64));
        },
        None => {},
    }
    let ghost wp = strs_view(v@);
    assert(wp =~= (match port {
        Some(p) => base + seq!["-p"@, decimal(p as nat)],
        None => base,
    }));
    let ghost kv = opt_view(key);
    match key {
        Some(k) => {
            v.push(owned("-i"));
            v.push(k);
        },
        None => {},
    }
    let ghost wk = strs_view(v@);
    assert(wk =~= (match kv {
        Some(k) => wp + seq!["-i"@, k],
        None => wp,
    }));
    if separator {
        v.push(owned("--"));
    }
    let ghost ws = strs_view(v@);
    assert(ws =~= (if separator { wk + seq!["--"@] } else { wk }));
    let mut dest = owned(user);
    dest.append("@");
    dest.append(host);
    v.push(dest);
    v.push(owned(command));
    assert(strs_view(v@) =~= ws + seq![user@ + "@"@ + host@, command@]);
    v
}

/// The remote command of the macOS probe.
pub const MACOS_PROBE_COMMAND: &'static str =
    "sysctl hw.memsize vm.swapusage; echo '===VM_STAT==='; vm_stat; echo '===PROCESSES==='; ps aux";

/// The remote command of the NVIDIA probe.
pub const NVIDIA_QUERY_COMMAND: &'static str =
    "nvidia-smi --query-gpu=name,temperature.gpu,memory.used,memory.total,utilization.gpu --format=csv,noheader,nounits";

/// An SSH probe whose process did not succeed: a timeout, or otherwise an unreachable host
/// reported with its standard error.
pub fn ssh_failure_verdict(out: &ProcessOutput, timeout_seconds: u64) -> (r: Option<Verdict>)
    ensures
        out.timed_out ==> r is Some && r->0.status == TargetStatus::Timeout && says(
            r->0.error_message,
            timed_out_text("SSH"@, timeout_seconds),
        ),
        !out.timed_out && !out.success ==> r is Some && r->0.status == TargetStatus::Unreachable && says(
            r->0.error_message,
            trim_spec(out.stderr@),
        ),
        !out.timed_out && out.success ==> r is None,
{
    if out.timed_out {
        Some(Verdict { status: TargetStatus::Timeout, error_message: Some(timed_out_message("SSH", timeout_seconds)) })
    } else if !out.success {
        Some(Verdict { status: TargetStatus::Unreachable, error_message: Some(trim(out.stderr.as_str())) })
    } else {
        None
    }
}


// ---------------------------------------------------------------------------------------------
// Reading probe output
// ---------------------------------------------------------------------------------------------

/// `s` without its trailing dots.
pub open spec fn trim_end_dots(s: Seq<char>) -> Seq<char>
    decreases s.len(),
{
    if s.len() > 0 && s.last() == '.' {
        trim_end_dots(s.drop_last())
    } else {
        s
    }
}

/// The number of a `vm_stat` line such as `Pages free:   125000.`: the text after the first
/// colon (up to a second one), trimmed and without its trailing dots, read as a `u64`.
pub open spec fn parse_stat_num_spec(line: Seq<char>) -> Option<nat> {
    let pieces = split_spec(line, ':');
    let v = if pieces.len() >= 2 { pieces[1] } else { Seq::<char>::empty() };
    parse_u64_spec(trim_end_dots(trim_spec(v)))
}

fn without_trailing_dots(s: &String) -> (r: String)
    ensures
        r@ == trim_end_dots(s@),
{
    let cs = chars_of(s.as_str());
    let mut end = cs.len();
    assert(cs@.take(end as int) =~= cs@);
    while end > 0 && cs[end - 1] == '.'
        invariant
            end <= cs.len(),
            cs@ == s@,
            trim_end_dots(s@) == trim_end_dots(cs@.take(end as int)),
        decreases end,
    {
        assert(cs@.take(end as int).drop_last() =~= cs@.take(end - 1));
        end = end - 1;
    }
    let mut out = String::new();
    let mut i: usize = 0;
    while i < end
        invariant
            i <= end <= cs.len(),
            out@ == cs@.take(i as int),
        decreases end - i,
    {
        push_char(&mut out, cs[i]);
        i = i + 1;
        assert(out@ =~= cs@.take(i as int));
    }
    out
}

/// Reads the number of a `vm_stat` line (see `parse_stat_num_spec`).
pub fn parse_stat_num(line: &str) -> (r: Option<u64>)
    ensures
        r == (match parse_stat_num_spec(line@) {
            Some(v) => Some(v as u64),
            None => None::<u64>,
        }),
{
    let cs = chars_of(line);
    let pieces = split_on(&cs, ':');
    let ghost ps = lines_view(pieces@);
    let v = if pieces.len() >= 2 {
        assert(ps[1] == pieces@[1]@);
        string_of(&pieces[1])
    } else {
        String::new()
    };
    assert(ps.len() == pieces@.len());
    let t = trim(v.as_str());
    let d = without_trailing_dots(&t);
    parse_u64(d.as_str())
}

/// `k` copies of `c`.
pub open spec fn repeated(c: char, k: nat) -> Seq<char> {
    Seq::new(k, |i: int| c)
}

proof fn lemma_trim_start_spaces(k: nat, t: Seq<char>)
    requires
        t.len() > 0,
        !crate::config::is_white_space(t[0]),
    ensures
        crate::web::trim_start_ws(repeated(' ', k) + t) == t,
    decreases k,
{
    let s = repeated(' ', k) + t;
    if k == 0 {
        assert(s =~= t);
    } else {
        assert(s[0] == ' ');
        assert(s.drop_first() =~= repeated(' ', (k - 1) as nat) + t);
        lemma_trim_start_spaces((k - 1) as nat, t);
    }
}

proof fn lemma_trim_end_dots(d: Seq<char>, k: nat)
    requires
        d.len() > 0,
        d.last() != '.',
    ensures
        trim_end_dots(d + repeated('.', k)) == d,
    decreases k,
{
    let s = d + repeated('.', k);
    if k == 0 {
        assert(s =~= d);
    } else {
        assert(s.last() == '.');
        assert(s.drop_last() =~= d + repeated('.', (k - 1) as nat));
        lemma_trim_end_dots(d, (k - 1) as nat);
    }
}

/// A `vm_stat` line reads back the number written on it: a label without a colon, a colon,
/// any number of spaces, the number in decimal and any number of trailing dots (as in
/// `Pages free:      125000.`) give that number.
pub proof fn vm_stat_lines_read_back(label: Seq<char>, spaces: nat, n: u64, dots: nat)
    requires
        forall|i: int| 0 <= i < label.len() ==> label[i] != ':',
    ensures
        parse_stat_num_spec(label + seq![':'] + repeated(' ', spaces) + decimal(n as nat) + repeated('.', dots)) == Some(n as nat),
{
    let d = decimal(n as nat);
    crate::http::lemma_decimal_reads_back(n as nat);
    assert(crate::http::is_digit(d[0]) && crate::http::is_digit(d.last()));
    let body = d + repeated('.', dots);
    let rest = repeated(' ', spaces) + body;
    let line = label + seq![':'] + rest;
    assert(line =~= label + seq![':'] + repeated(' ', spaces) + d + repeated('.', dots));
    crate::http::lemma_char_index(line, ':', label.len() as int);
    assert(line.take(label.len() as int) =~= label);
    assert(line.skip(label.len() + 1 as int) =~= rest);
    assert forall|i: int| 0 <= i < rest.len() implies rest[i] != ':' by {
        if i >= spaces && i < spaces + d.len() {
            assert(rest[i] == d[i - spaces]);
            assert(crate::http::is_digit(d[i - spaces]));
        }
    }
    crate::http::lemma_char_index(rest, ':', rest.len() as int);
    let pieces = split_spec(line, ':');
    assert(split_spec(rest, ':') == seq![rest]);
    assert(pieces =~= seq![label] + seq![rest]);
    assert(body[0] == d[0]);
    lemma_trim_start_spaces(spaces, body);
    let last_body: char = if dots > 0 { '.' } else { d.last() };
    assert(body.last() == last_body);
    assert(!crate::config::is_white_space(body.last()));
    assert(crate::web::trim_end_ws(body) == body);
    assert(trim_spec(rest) == body);
    lemma_trim_end_dots(d, dots);
    crate::http::revision_reads_back(n);
}

/// `needle` occurs in `hay`.
pub open spec fn occurs(hay: Seq<char>, needle: Seq<char>) -> bool {
    exists|i: int| 0 <= i && i + needle.len() <= hay.len() && #[trigger] hay.subrange(i, i + needle.len()) == needle
}

fn occurs_at(h: &Vec<char>, n: &Vec<char>, i: usize) -> (r: bool)
    requires
        i + n.len() <= h.len(),
    ensures
        r == (h@.subrange(i as int, i + n.len()) == n@),
{
    let mut k: usize = 0;
    while k < n.len()
        invariant
            k <= n.len(),
            i + n.len() <= h.len(),
            forall|j: int| 0 <= j < k ==> h@[i + j] == n@[j],
        decreases n.len() - k,
    {
        if h[i + k] != n[k] {
            assert(h@.subrange(i as int, i + n.len())[k as int] != n@[k as int]);
            return false;
        }
        k = k + 1;
    }
    assert(h@.subrange(i as int, i + n.len()) =~= n@);
    true
}

/// The first position where `needle` occurs in `hay`.
pub fn find_text(hay: &str, needle: &str) -> (r: Option<usize>)
    ensures
        match r {
            Some(i) => i + needle@.len() <= hay@.len() && hay@.subrange(i as int, i + needle@.len()) == needle@
                && forall|j: int| 0 <= j < i ==> #[trigger] hay@.subrange(j, j + needle@.len()) != needle@,
            None => !occurs(hay@, needle@),
        },
{
    let h = chars_of(hay);
    let n = chars_of(needle);
    if n.len() > h.len() {
        return None;
    }
    if n.len() == 0 {
        assert(h@.subrange(0, 0) =~= n@);
        return Some(0);
    }
    let mut i: usize = 0;
    while i <= h.len() - n.len()
        invariant
            0 < n.len() <= h.len(),
            h@ == hay@,
            n@ == needle@,
            i <= h.len() - n.len() + 1,
            forall|j: int| 0 <= j < i ==> #[trigger] h@.subrange(j, j + n@.len()) != n@,
        decreases h.len() - n.len() + 1 - i,
    {
        if occurs_at(&h, &n, i) {
            return Some(i);
        }
        i = i + 1;
    }
    None
}

/// Whether each service name occurs in the probe's output.
pub fn services_present(raw: &str, services: &Vec<String>) -> (r: Vec<bool>)
    ensures
        r@.len() == services@.len(),
        forall|i: int| 0 <= i < services@.len() ==> #[trigger] r@[i] == occurs(raw@, services@[i]@),
{
    let mut out: Vec<bool> = Vec::new();
    let mut i: usize = 0;
    while i < services.len()
        invariant
            i <= services.len(),
            out@.len() == i,
            forall|j: int| 0 <= j < i ==> #[trigger] out@[j] == occurs(raw@, services@[j]@),
        decreases services.len() - i,
    {
        let found = find_text(raw, services[i].as_str()).is_some();
        out.push(found);
        i = i + 1;
    }
    out
}

/// Position of the first line that is not blank.
pub open spec fn first_nonblank(ls: Seq<Seq<char>>) -> nat
    decreases ls.len(),
{
    if ls.len() == 0 {
        0
    } else if trim_spec(ls[0]).len() > 0 {
        0
    } else {
        1 + first_nonblank(ls.drop_first())
    }
}

/// The comma-separated fields of the first non-blank line of `nvidia-smi` output, each
/// trimmed, when there are at least five.
pub open spec fn nvidia_fields_spec(raw: Seq<char>) -> Option<Seq<Seq<char>>> {
    let ls = lines_spec(raw);
    let k = first_nonblank(ls);
    if k < ls.len() {
        let parts = split_spec(ls[k as int], ',').map_values(|p: Seq<char>| trim_spec(p));
        if parts.len() >= 5 { Some(parts) } else { None }
    } else {
        None
    }
}

proof fn lemma_first_nonblank(ls: Seq<Seq<char>>, k: int)
    requires
        0 <= k <= ls.len(),
        forall|i: int| 0 <= i < k ==> trim_spec(#[trigger] ls[i]).len() == 0,
        k == ls.len() || trim_spec(ls[k]).len() > 0,
    ensures
        first_nonblank(ls) == k,
    decreases k,
{
    if k > 0 {
        lemma_first_nonblank(ls.drop_first(), k - 1);
    }
}

fn blank_line(l: &Vec<char>) -> (r: bool)
    ensures
        r == (trim_spec(l@).len() == 0),
{
    let s = string_of(l);
    let t = trim(s.as_str());
    t.as_str().is_empty()
}

/// Reads the GPU line of `nvidia-smi` (see `nvidia_fields_spec`).
pub fn nvidia_fields(raw: &str) -> (r: Option<Vec<String>>)
    ensures
        match r {
            Some(v) => nvidia_fields_spec(raw@) == Some(strs_view(v@)),
            None => nvidia_fields_spec(raw@) is None,
        },
{
    let cs = chars_of(raw);
    let lines = split_lines(&cs);
    let ghost ls = lines_view(lines@);
    let mut k: usize = 0;
    while k < lines.len() && blank_line(&lines[k])
        invariant
            k <= lines.len(),
            ls == lines_view(lines@),
            forall|i: int| 0 <= i < k ==> trim_spec(#[trigger] ls[i]).len() == 0,
        decreases lines.len() - k,
    {
        assert(ls[k as int] == lines@[k as int]@);
        k = k + 1;
    }
    assert(k < lines.len() ==> ls[k as int] == lines@[k as int]@);
    proof {
        lemma_first_nonblank(ls, k as int);
    }
    if k == lines.len() {
        return None;
    }
    let parts = split_on(&lines[k], ',');
    let ghost raw_parts = lines_view(parts@);
    assert(raw_parts == split_spec(ls[k as int], ','));
    let mut out: Vec<String> = Vec::new();
    let mut i: usize = 0;
    while i < parts.len()
        invariant
            i <= parts.len(),
            raw_parts == lines_view(parts@),
            strs_view(out@) == raw_parts.take(i as int).map_values(|p: Seq<char>| trim_spec(p)),
        decreases parts.len() - i,
    {
        let p = string_of(&parts[i]);
        assert(p@ == raw_parts[i as int]);
        let t = trim(p.as_str());
        let ghost before = strs_view(out@);
        let ghost tv = t@;
        out.push(t);
        assert(strs_view(out@) =~= before.push(tv));
        assert(raw_parts.take(i + 1).map_values(|p: Seq<char>| trim_spec(p)) =~= raw_parts.take(i as int).map_values(
            |p: Seq<char>| trim_spec(p),
        ).push(trim_spec(raw_parts[i as int])));
        i = i + 1;
    }
    assert(raw_parts.take(i as int) =~= raw_parts);
    if out.len() >= 5 {
        Some(out)
    } else {
        None
    }
}


// ---------------------------------------------------------------------------------------------
// The macOS probe's output
// ---------------------------------------------------------------------------------------------

/// What the macOS probe's output says, read line by line: the physical memory, the page counts
/// of `vm_stat`, and, for the values written with decimals, every candidate text in order (the
/// last one that reads as a number counts).
#[derive(Clone, Debug)]
pub struct MacosReadings {
    pub memsize_bytes: Option<u64>,
    pub swap_total: Vec<String>,
    pub swap_used: Vec<String>,
    pub swap_free: Vec<String>,
    pub page_size: Vec<String>,
    pub pages_free: Option<u64>,
    pub pages_active: Option<u64>,
    pub pages_inactive: Option<u64>,
    pub pages_wired: Option<u64>,
}

pub struct MacosView {
    pub memsize_bytes: Option<nat>,
    pub swap_total: Seq<Seq<char>>,
    pub swap_used: Seq<Seq<char>>,
    pub swap_free: Seq<Seq<char>>,
    pub page_size: Seq<Seq<char>>,
    pub pages_free: Option<nat>,
    pub pages_active: Option<nat>,
    pub pages_inactive: Option<nat>,
    pub pages_wired: Option<nat>,
}

pub open spec fn opt_u64_nat(o: Option<u64>) -> Option<nat> {
    match o {
        Some(n) => Some(n as nat),
        None => None,
    }
}

impl View for MacosReadings {
    type V = MacosView;

    open spec fn view(&self) -> MacosView {
        MacosView {
            memsize_bytes: opt_u64_nat(self.memsize_bytes),
            swap_total: strs_view(self.swap_total@),
            swap_used: strs_view(self.swap_used@),
            swap_free: strs_view(self.swap_free@),
            page_size: strs_view(self.page_size@),
            pages_free: opt_u64_nat(self.pages_free),
            pages_active: opt_u64_nat(self.pages_active),
            pages_inactive: opt_u64_nat(self.pages_inactive),
            pages_wired: opt_u64_nat(self.pages_wired),
        }
    }
}

pub open spec fn starts_with(s: Seq<char>, p: Seq<char>) -> bool {
    p.len() <= s.len() && s.take(p.len() as int) == p
}

/// The values written `key = ...M` among the words of a `vm.swapusage` line, from word `i` on,
/// without their unit.
pub open spec fn unit_values_from(ws: Seq<Seq<char>>, key: Seq<char>, i: nat) -> Seq<Seq<char>>
    decreases ws.len() - i,
{
    if i >= ws.len() {
        Seq::empty()
    } else {
        let j = i as int;
        let here = if ws[j] == key && j + 2 < ws.len() && ws[j + 1] == "="@ && ws[j + 2].len() > 0
            && ws[j + 2].last() == 'M' {
            seq![ws[j + 2].drop_last()]
        } else {
            Seq::empty()
        };
        here + unit_values_from(ws, key, i + 1)
    }
}

/// The first position at or after `i` where `n` occurs in `h`.
pub open spec fn first_at(h: Seq<char>, n: Seq<char>, i: nat) -> Option<nat>
    decreases h.len() + 1 - i,
{
    if i + n.len() > h.len() {
        None
    } else if h.subrange(i as int, i + n.len() as int) == n {
        Some(i)
    } else {
        first_at(h, n, i + 1)
    }
}

/// The page size candidates of a line: the first word after `page size of `.
pub open spec fn page_size_words(l: Seq<char>) -> Seq<Seq<char>> {
    match first_at(l, "page size of "@, 0) {
        Some(st) => {
            let w = words(l.skip(st + 13 as int));
            if w.len() > 0 { seq![w[0]] } else { Seq::empty() }
        },
        None => Seq::empty(),
    }
}

/// The readings after one more (trimmed) line.
pub open spec fn macos_line(m: MacosView, l: Seq<char>) -> MacosView {
    if starts_with(l, "hw.memsize:"@) {
        MacosView {
            memsize_bytes: match parse_u64_spec(trim_spec(l.skip(11))) {
                Some(n) => if n > 0 { Some(n) } else { None },
                None => None,
            },
            ..m
        }
    } else if starts_with(l, "vm.swapusage:"@) {
        let ws = words(l);
        MacosView {
            swap_total: m.swap_total + unit_values_from(ws, "total"@, 0),
            swap_used: m.swap_used + unit_values_from(ws, "used"@, 0),
            swap_free: m.swap_free + unit_values_from(ws, "free"@, 0),
            ..m
        }
    } else if occurs(l, "page size of"@) {
        MacosView { page_size: m.page_size + page_size_words(l), ..m }
    } else if starts_with(l, "Pages free:"@) {
        MacosView { pages_free: parse_stat_num_spec(l), ..m }
    } else if starts_with(l, "Pages active:"@) {
        MacosView { pages_active: parse_stat_num_spec(l), ..m }
    } else if starts_with(l, "Pages inactive:"@) {
        MacosView { pages_inactive: parse_stat_num_spec(l), ..m }
    } else if starts_with(l, "Pages wired down:"@) {
        MacosView { pages_wired: parse_stat_num_spec(l), ..m }
    } else {
        m
    }
}

pub open spec fn no_readings() -> MacosView {
    MacosView {
        memsize_bytes: None,
        swap_total: Seq::empty(),
        swap_used: Seq::empty(),
        swap_free: Seq::empty(),
        page_size: Seq::empty(),
        pages_free: None,
        pages_active: None,
        pages_inactive: None,
        pages_wired: None,
    }
}

/// The readings of these lines, each trimmed first, taken in order.
pub open spec fn macos_lines(ls: Seq<Seq<char>>) -> MacosView
    decreases ls.len(),
{
    if ls.len() == 0 {
        no_readings()
    } else {
        macos_line(macos_lines(ls.drop_last()), trim_spec(ls.last()))
    }
}

fn starts_with_text(cs: &Vec<char>, p: &str) -> (r: bool)
    ensures
        r == starts_with(cs@, p@),
{
    let pc = chars_of(p);
    if pc.len() > cs.len() {
        return false;
    }
    let mut i: usize = 0;
    while i < pc.len()
        invariant
            i <= pc.len() <= cs.len(),
            pc@ == p@,
            forall|j: int| 0 <= j < i ==> cs@[j] == pc@[j],
        decreases pc.len() - i,
    {
        if cs[i] != pc[i] {
            assert(cs@.take(pc@.len() as int)[i as int] != pc@[i as int]);
            return false;
        }
        i = i + 1;
    }
    assert(cs@.take(pc@.len() as int) =~= pc@);
    true
}

fn word_is(w: &Vec<char>, lit: &str) -> (r: bool)
    ensures
        r == (w@ == lit@),
{
    let s = string_of(w);
    crate::config::str_eq(s.as_str(), lit)
}

/// The `key = ...M` values of a `vm.swapusage` line (see `unit_values_from`).
fn unit_values(ws: &Vec<Vec<char>>, key: &str) -> (r: Vec<String>)
    ensures
        strs_view(r@) == unit_values_from(lines_view(ws@), key@, 0),
{
    let ghost v = lines_view(ws@);
    let mut out: Vec<String> = Vec::new();
    let mut i: usize = ws.len();
    assert(unit_values_from(v, key@, ws.len() as nat) =~= Seq::<Seq<char>>::empty());
    let mut acc: Vec<String> = Vec::new();
    // Collected from the back so that the result reads in the order of the words.
    while i > 0
        invariant
            i <= ws.len(),
            v == lines_view(ws@),
            strs_view(acc@).reverse() == unit_values_from(v, key@, i as nat),
        decreases i,
    {
        let j = i - 1;
        let hit = ws.len() >= 3 && j < ws.len() - 2 && word_is(&ws[j], key) && word_is(&ws[j + 1], "=") && ws[j + 2].len() > 0
            && ws[j + 2][ws[j + 2].len() - 1] == 'M';
        let ghost tail = unit_values_from(v, key@, i as nat);
        proof {
            assert(v[j as int] == ws@[j as int]@);
            if j + 2 < ws.len() {
                assert(v[j + 1] == ws@[j + 1]@);
                assert(v[j + 2] == ws@[j + 2]@);
            }
        }
        if hit {
            let w = &ws[j + 2];
            let mut t: Vec<char> = Vec::new();
            let mut k: usize = 0;
            while k + 1 < w.len()
                invariant
                    k < w.len(),
                    t@ == w@.take(k as int),
                decreases w.len() - k,
            {
                t.push(w[k]);
                k = k + 1;
                assert(t@ =~= w@.take(k as int));
            }
            assert(t@ =~= w@.drop_last());
            let ghost before = strs_view(acc@);
            let ts = string_of(&t);
            acc.push(ts);
            assert(strs_view(acc@) =~= before.push(v[j + 2].drop_last()));
            assert(strs_view(acc@).reverse() =~= seq![v[j + 2].drop_last()] + before.reverse());
        } else {
            assert(unit_values_from(v, key@, j as nat) =~= tail);
        }
        i = j;
    }
    // reverse into order
    let mut k: usize = acc.len();
    let ghost full = strs_view(acc@).reverse();
    while k > 0
        invariant
            k <= acc.len(),
            full == strs_view(acc@).reverse(),
            strs_view(out@) == full.take(acc.len() - k),
        decreases k,
    {
        let s = acc[k - 1].clone();
        assert(full[acc.len() - k] == strs_view(acc@)[k - 1]);
        let ghost before = strs_view(out@);
        let ghost sv = s@;
        assert(sv == strs_view(acc@)[k - 1]);
        out.push(s);
        assert(strs_view(out@) =~= before.push(sv));
        assert(full.take(acc.len() - k + 1) =~= full.take(acc.len() - k).push(full[acc.len() - k]));
        k = k - 1;
    }
    assert(full.take(acc.len() as int) =~= full);
    out
}


proof fn lemma_first_at_found(h: Seq<char>, n: Seq<char>, j: nat, i: nat)
    requires
        j <= i,
        i + n.len() <= h.len(),
        h.subrange(i as int, i + n.len() as int) == n,
        forall|k: int| j <= k < i ==> #[trigger] h.subrange(k, k + n.len()) != n,
    ensures
        first_at(h, n, j) == Some(i),
    decreases i - j,
{
    if j < i {
        lemma_first_at_found(h, n, j + 1, i);
    }
}

proof fn lemma_first_at_none(h: Seq<char>, n: Seq<char>, j: nat)
    requires
        !occurs(h, n),
    ensures
        first_at(h, n, j) is None,
    decreases h.len() + 1 - j,
{
    if j + n.len() <= h.len() {
        assert(h.subrange(j as int, j + n.len() as int) != n);
        lemma_first_at_none(h, n, j + 1);
    }
}

/// The page size candidates of a line (see `page_size_words`).
fn page_size_candidates(l: &String) -> (r: Vec<String>)
    ensures
        strs_view(r@) == page_size_words(l@),
{
    let mut out: Vec<String> = Vec::new();
    match find_text(l.as_str(), "page size of ") {
        Some(st) => {
            proof {
                reveal_strlit("page size of ");
                lemma_first_at_found(l@, "page size of "@, 0, st as nat);
            }
            let cs = chars_of(l.as_str());
            assert(st + 13 <= cs.len());
            let mut rest: Vec<char> = Vec::new();
            let mut i = st + 13;
            let start = i;
            while i < cs.len()
                invariant
                    start <= i <= cs.len(),
                    rest@ == cs@.subrange(start as int, i as int),
                decreases cs.len() - i,
            {
                rest.push(cs[i]);
                i = i + 1;
                assert(rest@ =~= cs@.subrange(start as int, i as int));
            }
            assert(rest@ =~= l@.skip(start as int));
            let ws = split_words(&rest);
            if ws.len() > 0 {
                assert(lines_view(ws@)[0] == ws@[0]@);
                out.push(string_of(&ws[0]));
                assert(strs_view(out@) =~= seq![lines_view(ws@)[0]]);
            } else {
                assert(strs_view(out@) =~= Seq::<Seq<char>>::empty());
            }
            out
        },
        None => {
            proof {
                lemma_first_at_none(l@, "page size of "@, 0);
            }
            assert(strs_view(out@) =~= Seq::<Seq<char>>::empty());
            out
        },
    }
}

fn append_strings(dst: &mut Vec<String>, src: Vec<String>)
    ensures
        strs_view(final(dst)@) == strs_view(old(dst)@) + strs_view(src@),
{
    let ghost start = strs_view(dst@);
    let mut i: usize = 0;
    while i < src.len()
        invariant
            i <= src.len(),
            strs_view(dst@) == start + strs_view(src@).take(i as int),
        decreases src.len() - i,
    {
        let ghost before = strs_view(dst@);
        let s = src[i].clone();
        let ghost sv = s@;
        dst.push(s);
        assert(strs_view(dst@) =~= before.push(sv));
        assert(strs_view(src@).take(i + 1) =~= strs_view(src@).take(i as int).push(strs_view(src@)[i as int]));
        i = i + 1;
    }
    assert(strs_view(src@).take(i as int) =~= strs_view(src@));
}

impl MacosReadings {
    fn new() -> (r: MacosReadings)
        ensures
            r@ == no_readings(),
    {
        let r = MacosReadings {
            memsize_bytes: None,
            swap_total: Vec::new(),
            swap_used: Vec::new(),
            swap_free: Vec::new(),
            page_size: Vec::new(),
            pages_free: None,
            pages_active: None,
            pages_inactive: None,
            pages_wired: None,
        };
        assert(r@.swap_total =~= Seq::<Seq<char>>::empty());
        assert(r@.swap_used =~= Seq::<Seq<char>>::empty());
        assert(r@.swap_free =~= Seq::<Seq<char>>::empty());
        assert(r@.page_size =~= Seq::<Seq<char>>::empty());
        r
    }

    /// Takes in one trimmed line (see `macos_line`).
    fn take_line(&mut self, l: &String)
        ensures
            final(self)@ == macos_line(old(self)@, l@),
    {
        let cs = chars_of(l.as_str());
        if starts_with_text(&cs, "hw.memsize:") {
            proof {
                reveal_strlit("hw.memsize:");
            }
            let mut rest = String::new();
            let mut i: usize = 11;
            while i < cs.len()
                invariant
                    11 <= i <= cs.len(),
                    rest@ == cs@.subrange(11, i as int),
                decreases cs.len() - i,
            {
                push_char(&mut rest, cs[i]);
                i = i + 1;
                assert(rest@ =~= cs@.subrange(11, i as int));
            }
            assert(rest@ =~= l@.skip(11));
            let t = trim(rest.as_str());
            self.memsize_bytes = match parse_u64(t.as_str()) {
                Some(n) => if n > 0 { Some(n) } else { None },
                None => None,
            };
        } else if starts_with_text(&cs, "vm.swapusage:") {
            let ws = split_words(&cs);
            append_strings(&mut self.swap_total, unit_values(&ws, "total"));
            append_strings(&mut self.swap_used, unit_values(&ws, "used"));
            append_strings(&mut self.swap_free, unit_values(&ws, "free"));
        } else if find_text(l.as_str(), "page size of").is_some() {
            append_strings(&mut self.page_size, page_size_candidates(l));
        } else if starts_with_text(&cs, "Pages free:") {
            self.pages_free = parse_stat_num(l.as_str());
        } else if starts_with_text(&cs, "Pages active:") {
            self.pages_active = parse_stat_num(l.as_str());
        } else if starts_with_text(&cs, "Pages inactive:") {
            self.pages_inactive = parse_stat_num(l.as_str());
        } else if starts_with_text(&cs, "Pages wired down:") {
            self.pages_wired = parse_stat_num(l.as_str());
        }
    }
}

/// Reads the macOS probe's output (see `macos_lines`).
pub fn scan_macos_probe(raw: &str) -> (r: MacosReadings)
    ensures
        r@ == macos_lines(lines_spec(raw@)),
{
    let cs = chars_of(raw);
    let lines = split_lines(&cs);
    let ghost ls = lines_view(lines@);
    let mut m = MacosReadings::new();
    let mut i: usize = 0;
    assert(ls.take(0) =~= Seq::<Seq<char>>::empty());
    while i < lines.len()
        invariant
            i <= lines.len(),
            ls == lines_view(lines@),
            m@ == macos_lines(ls.take(i as int)),
        decreases lines.len() - i,
    {
        let s = string_of(&lines[i]);
        assert(s@ == ls[i as int]);
        let t = trim(s.as_str());
        m.take_line(&t);
        assert(ls.take(i + 1).drop_last() =~= ls.take(i as int));
        i = i + 1;
    }
    assert(ls.take(i as int) =~= ls);
    m
}

/// Free memory in pages: free plus inactive pages, when both were read and their sum fits.
pub fn free_pages(m: &MacosReadings) -> (r: Option<u64>)
    ensures
        r == (match (m.pages_free, m.pages_inactive) {
            (Some(a), Some(b)) => if a + b <= u64::MAX { Some((a + b) as u64) } else { None::<u64> },
            _ => None::<u64>,
        }),
{
    match (m.pages_free, m.pages_inactive) {
        (Some(a), Some(b)) => a.checked_add(b),
        _ => None,
    }
}

} // verus!
