//! The daemon configuration: its types, defaults, validation and `${VAR}` interpolation.
use vstd::prelude::*;
use crate::error::SentinelError;
use crate::text::{chars_of, push_char, owned};

verus! {

/// The whole `sentinel.yaml` document.
#[derive(Clone, Debug)]
pub struct SentinelConfig {
    pub version: String,
    pub jev: JevSettings,
    pub daemon: DaemonSettings,
    pub targets: Vec<TargetConfig>,
    pub alerting: AlertingSettings,
    pub self_healing: SelfHealingSettings,
    pub web: WebSettings,
}

/// How the daemon reaches the TypeSafe Jev advisor.
#[derive(Clone, Debug)]
pub struct JevSettings {
    pub api_key: String,
    pub model: String,
    pub base_url: String,
    pub egress_proxy: Option<String>,
    pub timeout_seconds: u64,
    pub eval_cadence_normal_seconds: u64,
    pub eval_cadence_alert_seconds: u64,
    pub adaptive_digest_enabled: bool,
}

/// Collection schedule of the daemon.
#[derive(Clone, Debug)]
pub struct DaemonSettings {
    pub interval_seconds: u64,
    pub concurrency: usize,
    pub log_level: Option<String>,
}

/// One configured probe.
#[derive(Clone, Debug)]
pub enum TargetConfig {
    HttpProbe {
        name: String,
        url: String,
        expected_status: u16,
        timeout_seconds: u64,
        headers: Vec<(String, String)>,
    },
    TcpPing { name: String, host: String, port: u16, timeout_seconds: u64 },
    ExecProbe { name: String, command: Vec<String>, timeout_seconds: u64 },
    MacosSsh {
        name: String,
        host: String,
        user: String,
        ssh_key: Option<String>,
        port: Option<u16>,
        timeout_seconds: u64,
        check_services: Vec<String>,
    },
    NvidiaSsh {
        name: String,
        host: String,
        user: String,
        ssh_key: Option<String>,
        port: Option<u16>,
        timeout_seconds: u64,
    },
}

/// Where alerts go.
#[derive(Clone, Debug)]
pub struct AlertingSettings {
    pub telegram: Option<TelegramAlertSettings>,
}

/// The Telegram bot that receives alerts.
#[derive(Clone, Debug)]
pub struct TelegramAlertSettings {
    pub bot_token: String,
    pub chat_id: String,
    /// `info`, `warning` or `critical`.
    pub min_severity: String,
    pub proxy: Option<String>,
}

/// Self-healing switches (the daemon only logs suggested actions).
#[derive(Clone, Debug)]
pub struct SelfHealingSettings {
    pub enabled: bool,
    pub allowed_services: Vec<String>,
    pub require_confirmation: bool,
}

/// The embedded dashboard.
#[derive(Clone, Debug)]
pub struct WebSettings {
    pub enabled: bool,
    pub listen: String,
}

/// Most probes a configuration may hold.
pub const MAX_TARGETS: usize = 1024;
/// Longest probe name, in UTF-8 bytes.
pub const MAX_NAME_BYTES: usize = 128;

pub fn default_version() -> (r: String)
    ensures
        r@ == "1"@,
{
    owned("1")
}

pub fn default_jev_model() -> (r: String)
    ensures
        r@ == "jev-latest"@,
{
    owned("jev-latest")
}

pub fn default_jev_url() -> (r: String)
    ensures
        r@ == "https://api.typesafe.ai"@,
{
    owned("https://api.typesafe.ai")
}

pub fn default_timeout_seconds() -> (r: u64)
    ensures
        r == 15,
{
    15
}

pub fn default_eval_normal_seconds() -> (r: u64)
    ensures
        r == 120,
{
    120
}

pub fn default_eval_alert_seconds() -> (r: u64)
    ensures
        r == 30,
{
    30
}

pub fn default_interval() -> (r: u64)
    ensures
        r == 60,
{
    60
}

pub fn default_concurrency() -> (r: usize)
    ensures
        r == 8,
{
    8
}

pub fn default_http_status() -> (r: u16)
    ensures
        r == 200,
{
    200
}

pub fn default_probe_timeout() -> (r: u64)
    ensures
        r == 5,
{
    5
}

pub fn default_min_severity() -> (r: String)
    ensures
        r@ == "warning"@,
{
    owned("warning")
}

pub fn default_true() -> (r: bool)
    ensures
        r,
{
    true
}

pub fn default_web_listen() -> (r: String)
    ensures
        r@ == "127.0.0.1:8088"@,
{
    owned("127.0.0.1:8088")
}

impl Default for DaemonSettings {
    fn default() -> (r: Self)
        ensures
            r.interval_seconds == 60,
            r.concurrency == 8,
            r.log_level matches Some(l) && l@ == "info"@,
    {
        DaemonSettings {
            interval_seconds: default_interval(),
            concurrency: default_concurrency(),
            log_level: Some(owned("info")),
        }
    }
}

impl Default for WebSettings {
    fn default() -> (r: Self)
        ensures
            !r.enabled,
            r.listen@ == "127.0.0.1:8088"@,
    {
        WebSettings { enabled: false, listen: default_web_listen() }
    }
}

impl Default for AlertingSettings {
    fn default() -> (r: Self)
        ensures
            r.telegram is None,
    {
        AlertingSettings { telegram: None }
    }
}

impl Default for SelfHealingSettings {
    fn default() -> (r: Self)
        ensures
            !r.enabled,
            r.allowed_services@.len() == 0,
            !r.require_confirmation,
    {
        SelfHealingSettings { enabled: false, allowed_services: Vec::new(), require_confirmation: false }
    }
}

impl TargetConfig {
    /// The configured probe name.
    pub open spec fn name_view(&self) -> Seq<char> {
        match self {
            TargetConfig::HttpProbe { name, .. } => name@,
            TargetConfig::TcpPing { name, .. } => name@,
            TargetConfig::ExecProbe { name, .. } => name@,
            TargetConfig::MacosSsh { name, .. } => name@,
            TargetConfig::NvidiaSsh { name, .. } => name@,
        }
    }

    /// The probe type as written in the configuration.
    pub open spec fn probe_type_view(&self) -> Seq<char> {
        match self {
            TargetConfig::HttpProbe { .. } => "http_probe"@,
            TargetConfig::TcpPing { .. } => "tcp_ping"@,
            TargetConfig::ExecProbe { .. } => "exec_probe"@,
            TargetConfig::MacosSsh { .. } => "macos_ssh"@,
            TargetConfig::NvidiaSsh { .. } => "nvidia_ssh"@,
        }
    }

    pub fn name(&self) -> (r: &str)
        ensures
            r@ == self.name_view(),
    {
        match self {
            TargetConfig::HttpProbe { name, .. } => name.as_str(),
            TargetConfig::TcpPing { name, .. } => name.as_str(),
            TargetConfig::ExecProbe { name, .. } => name.as_str(),
            TargetConfig::MacosSsh { name, .. } => name.as_str(),
            TargetConfig::NvidiaSsh { name, .. } => name.as_str(),
        }
    }

    pub fn probe_type(&self) -> (r: &'static str)
        ensures
            r@ == self.probe_type_view(),
    {
        match self {
            TargetConfig::HttpProbe { .. } => "http_probe",
            TargetConfig::TcpPing { .. } => "tcp_ping",
            TargetConfig::ExecProbe { .. } => "exec_probe",
            TargetConfig::MacosSsh { .. } => "macos_ssh",
            TargetConfig::NvidiaSsh { .. } => "nvidia_ssh",
        }
    }
}

/// Unicode `White_Space`, as `char::is_whitespace` and `str::trim` use it.
pub open spec fn is_white_space(c: char) -> bool {
    let n = c as u32;
    (0x9 <= n <= 0xd) || n == 0x20 || n == 0x85 || n == 0xa0 || n == 0x1680 || (0x2000 <= n
        <= 0x200a) || n == 0x2028 || n == 0x2029 || n == 0x202f || n == 0x205f || n == 0x3000
}

pub fn is_white_space_char(c: char) -> (r: bool)
    ensures
        r == is_white_space(c),
{
    let n = c as u32;
    (0x9 <= n && n <= 0xd) || n == 0x20 || n == 0x85 || n == 0xa0 || n == 0x1680 || (0x2000 <= n
        && n <= 0x200a) || n == 0x2028 || n == 0x2029 || n == 0x202f || n == 0x205f || n == 0x3000
}

/// A name that trims to nothing.
pub open spec fn is_blank(s: Seq<char>) -> bool {
    forall|i: int| 0 <= i < s.len() ==> is_white_space(#[trigger] s[i])
}

pub fn is_blank_str(s: &str) -> (r: bool)
    ensures
        r == is_blank(s@),
{
    let cs = chars_of(s);
    let mut i: usize = 0;
    while i < cs.len()
        invariant
            i <= cs.len(),
            cs@ == s@,
            forall|j: int| 0 <= j < i ==> is_white_space(#[trigger] cs@[j]),
        decreases cs.len() - i,
    {
        if !is_white_space_char(cs[i]) {
            return false;
        }
        i = i + 1;
    }
    true
}

/// Probe `i` has a usable name: not blank, at most 128 bytes, and not taken by an earlier probe.
pub open spec fn name_ok_at(names: Seq<Seq<char>>, i: int) -> bool {
    &&& !is_blank(names[i])
    &&& utf8_len(names[i]) <= MAX_NAME_BYTES
    &&& forall|j: int| 0 <= j < i ==> names[j] != names[i]
}

/// The configured probe names, in order.
pub open spec fn target_names(ts: Seq<TargetConfig>) -> Seq<Seq<char>> {
    ts.map_values(|t: TargetConfig| t.name_view())
}

/// Every probe name is nonblank, at most 128 bytes and unique.
pub open spec fn names_ok(ts: Seq<TargetConfig>) -> bool {
    forall|i: int| 0 <= i < ts.len() ==> name_ok_at(target_names(ts), i)
}

/// Probe names identify probes: a list with two probes of one name, or with an empty or blank
/// name, is refused; a list of distinct, non-blank names of at most 128 bytes is accepted.
pub proof fn probe_names_must_identify_probes(ts: Seq<TargetConfig>, i: int, j: int)
    ensures
        0 <= i < j < ts.len() && target_names(ts)[i] == target_names(ts)[j] ==> !names_ok(ts),
        0 <= i < ts.len() && (target_names(ts)[i].len() == 0 || is_blank(target_names(ts)[i])) ==> !names_ok(ts),
        (forall|a: int, b: int| 0 <= a < b < ts.len() ==> target_names(ts)[a] != target_names(ts)[b])
            && (forall|a: int| 0 <= a < ts.len() ==> !is_blank(#[trigger] target_names(ts)[a]) && utf8_len(target_names(ts)[a]) <= MAX_NAME_BYTES)
            ==> names_ok(ts),
{
    if 0 <= i < j < ts.len() && target_names(ts)[i] == target_names(ts)[j] {
        assert(!name_ok_at(target_names(ts), j));
    }
    if 0 <= i < ts.len() && (target_names(ts)[i].len() == 0 || is_blank(target_names(ts)[i])) {
        assert(!name_ok_at(target_names(ts), i));
    }
}

/// The schedule is usable: positive interval and concurrency.
pub open spec fn schedule_ok(c: &SentinelConfig) -> bool {
    c.daemon.interval_seconds > 0 && c.daemon.concurrency > 0
}

/// `r` is a configuration error carrying exactly `msg`.
pub open spec fn fails_with_config<T>(r: Result<T, SentinelError>, msg: Seq<char>) -> bool {
    r matches Err(SentinelError::Config(m)) && m@ == msg
}

impl SentinelConfig {
    /// Checks what the YAML schema alone cannot: a positive schedule, at most 1024 probes, and
    /// probe names that are nonblank, unique and at most 128 bytes long.
    pub fn validate(&self) -> (r: Result<(), SentinelError>)
        ensures
            r is Ok <==> (schedule_ok(self) && self.targets@.len() <= MAX_TARGETS && names_ok(
                self.targets@,
            )),
            !schedule_ok(self) ==> fails_with_config(
                r,
                "interval_seconds and concurrency must be positive"@,
            ),
            schedule_ok(self) && self.targets@.len() > MAX_TARGETS ==> fails_with_config(
                r,
                "at most 1024 probes are supported"@,
            ),
            schedule_ok(self) && self.targets@.len() <= MAX_TARGETS && !names_ok(self.targets@)
                ==> fails_with_config(
                r,
                "probe names must be unique, nonempty and at most 128 bytes"@,
            ),
    {
        if self.daemon.interval_seconds == 0 || self.daemon.concurrency == 0 {
            return Err(SentinelError::Config(owned("interval_seconds and concurrency must be positive")));
        }
        if self.targets.len() > MAX_TARGETS {
            return Err(SentinelError::Config(owned("at most 1024 probes are supported")));
        }
        let ghost names = target_names(self.targets@);
        let mut i: usize = 0;
        while i < self.targets.len()
            invariant
                schedule_ok(self),
                self.targets@.len() <= MAX_TARGETS,
                i <= self.targets@.len(),
                names == target_names(self.targets@),
                forall|k: int| 0 <= k < i ==> name_ok_at(names, k),
            decreases self.targets.len() - i,
        {
            let name = self.targets[i].name();
            assert(name@ == names[i as int]);
            let mut ok = !is_blank_str(name) && utf8_len_within(name, MAX_NAME_BYTES);
            let mut j: usize = 0;
            while ok && j < i
                invariant
                    i < self.targets@.len(),
                    j <= i,
                    names == target_names(self.targets@),
                    name@ == names[i as int],
                    ok ==> (forall|k: int| 0 <= k < j ==> names[k] != names[i as int]),
                    ok ==> !is_blank(names[i as int]) && utf8_len(names[i as int]) <= MAX_NAME_BYTES,
                    !ok ==> !name_ok_at(names, i as int),
                decreases i - j,
            {
                let other = self.targets[j].name();
                assert(other@ == names[j as int]);
                if str_eq(other, name) {
                    ok = false;
                }
                j = j + 1;
            }
            if !ok {
                return Err(SentinelError::Config(owned("probe names must be unique, nonempty and at most 128 bytes")));
            }
            i = i + 1;
        }
        Ok(())
    }
}

/// Bytes that `c` takes in UTF-8.
pub open spec fn utf8_width(c: char) -> nat {
    let n = c as u32;
    if n < 0x80 {
        1
    } else if n < 0x800 {
        2
    } else if n < 0x10000 {
        3
    } else {
        4
    }
}

/// Length of `s` in UTF-8 bytes.
pub open spec fn utf8_len(s: Seq<char>) -> nat
    decreases s.len(),
{
    if s.len() == 0 {
        0
    } else {
        utf8_len(s.drop_last()) + utf8_width(s.last())
    }
}

proof fn lemma_utf8_len_monotone(s: Seq<char>, i: int)
    requires
        0 <= i <= s.len(),
    ensures
        utf8_len(s.take(i)) <= utf8_len(s),
    decreases s.len() - i,
{
    if i < s.len() {
        lemma_utf8_len_monotone(s, i + 1);
        assert(s.take(i + 1).drop_last() =~= s.take(i));
    } else {
        assert(s.take(i) =~= s);
    }
}

/// Whether `s` takes at most `max` bytes in UTF-8.
pub fn utf8_len_within(s: &str, max: usize) -> (r: bool)
    ensures
        r == (utf8_len(s@) <= max),
{
    let cs = chars_of(s);
    let mut total: usize = 0;
    let mut i: usize = 0;
    while i < cs.len()
        invariant
            i <= cs.len(),
            cs@ == s@,
            total == utf8_len(cs@.take(i as int)),
            total <= max,
        decreases cs.len() - i,
    {
        let n = cs[i] as u32;
        let w: usize = if n < 0x80 {
            1
        } else if n < 0x800 {
            2
        } else if n < 0x10000 {
            3
        } else {
            4
        };
        assert(cs@.take(i + 1).drop_last() =~= cs@.take(i as int));
        if w > max - total {
            proof {
                lemma_utf8_len_monotone(cs@, i + 1);
            }
            return false;
        }
        total = total + w;
        i = i + 1;
    }
    assert(cs@.take(cs.len() as int) =~= cs@);
    true
}

/// Character-wise equality of two strings.
pub fn str_eq(a: &str, b: &str) -> (r: bool)
    ensures
        r == (a@ == b@),
{
    let x = chars_of(a);
    let y = chars_of(b);
    if x.len() != y.len() {
        return false;
    }
    let mut i: usize = 0;
    while i < x.len()
        invariant
            i <= x.len(),
            x.len() == y.len(),
            x@ == a@,
            y@ == b@,
            forall|k: int| 0 <= k < i ==> x@[k] == y@[k],
        decreases x.len() - i,
    {
        if x[i] != y[i] {
            return false;
        }
        i = i + 1;
    }
    assert(x@ =~= y@);
    true
}

} // verus!

verus! {

/// Where the `${NAME:-default}` scanner stands after some prefix of the input.
pub enum Scan {
    /// Copying text.
    Text,
    /// Just read a `$`.
    Dollar,
    /// Inside `${`, reading the variable name.
    Name(Seq<char>),
    /// Inside `${`, just read a `:` after the given name.
    Colon(Seq<char>),
    /// After `:-`, reading the default value of the given name.
    Default(Seq<char>, Seq<char>),
}

/// The value of the first `name` entry of an environment listing.
pub open spec fn env_lookup(env: Seq<(Seq<char>, Seq<char>)>, name: Seq<char>) -> Option<Seq<char>>
    decreases env.len(),
{
    if env.len() == 0 {
        None
    } else if env[0].0 == name {
        Some(env[0].1)
    } else {
        env_lookup(env.drop_first(), name)
    }
}

/// A placeholder's replacement: the variable's value, else its default, else nothing.
pub open spec fn resolve(env: Seq<(Seq<char>, Seq<char>)>, name: Seq<char>, default: Option<Seq<char>>) -> Seq<char> {
    match env_lookup(env, name) {
        Some(v) => v,
        None => match default {
            Some(d) => d,
            None => Seq::empty(),
        },
    }
}

/// Reads one character in state `m`: the next state and the text it emits.
pub open spec fn scan_step(env: Seq<(Seq<char>, Seq<char>)>, m: Scan, c: char) -> (Scan, Seq<char>) {
    match m {
        Scan::Text => if c == '$' { (Scan::Dollar, Seq::empty()) } else { (Scan::Text, seq![c]) },
        Scan::Dollar => if c == '{' {
            (Scan::Name(Seq::empty()), Seq::empty())
        } else if c == '$' {
            (Scan::Dollar, seq!['$'])
        } else {
            (Scan::Text, seq!['$', c])
        },
        Scan::Name(n) => if c == '}' {
            (Scan::Text, resolve(env, n, None))
        } else if c == ':' {
            (Scan::Colon(n), Seq::empty())
        } else {
            (Scan::Name(n.push(c)), Seq::empty())
        },
        Scan::Colon(n) => if c == '-' {
            (Scan::Default(n, Seq::empty()), Seq::empty())
        } else if c == '}' {
            (Scan::Text, resolve(env, n.push(':'), None))
        } else if c == ':' {
            (Scan::Colon(n.push(':')), Seq::empty())
        } else {
            (Scan::Name(n.push(':').push(c)), Seq::empty())
        },
        Scan::Default(n, d) => if c == '}' {
            (Scan::Text, resolve(env, n, Some(d)))
        } else {
            (Scan::Default(n, d.push(c)), Seq::empty())
        },
    }
}

/// What a state emits when the input ends in it: an unclosed placeholder is still resolved.
pub open spec fn scan_finish(env: Seq<(Seq<char>, Seq<char>)>, m: Scan) -> Seq<char> {
    match m {
        Scan::Text => Seq::empty(),
        Scan::Dollar => seq!['$'],
        Scan::Name(n) => resolve(env, n, None),
        Scan::Colon(n) => resolve(env, n.push(':'), None),
        Scan::Default(n, d) => resolve(env, n, Some(d)),
    }
}

/// The text that the rest `s` of the input produces from state `m`.
pub open spec fn scan_run(env: Seq<(Seq<char>, Seq<char>)>, m: Scan, s: Seq<char>) -> Seq<char>
    decreases s.len(),
{
    if s.len() == 0 {
        scan_finish(env, m)
    } else {
        let (m2, out) = scan_step(env, m, s[0]);
        out + scan_run(env, m2, s.drop_first())
    }
}

/// `raw` with each `${NAME}` / `${NAME:-default}` replaced by the variable's value from `env`,
/// else the default, else nothing; every other character is kept.
pub open spec fn interpolate_spec(raw: Seq<char>, env: Seq<(Seq<char>, Seq<char>)>) -> Seq<char> {
    scan_run(env, Scan::Text, raw)
}

/// An environment listing as plain text pairs.
pub open spec fn env_view(env: Seq<(String, String)>) -> Seq<(Seq<char>, Seq<char>)> {
    env.map_values(|p: (String, String)| (p.0@, p.1@))
}

/// Looks `name` up in the environment listing (first match wins).
pub fn env_get(env: &Vec<(String, String)>, name: &String) -> (r: Option<String>)
    ensures
        r matches Some(v) ==> env_lookup(env_view(env@), name@) == Some(v@),
        r is None ==> env_lookup(env_view(env@), name@) is None,
{
    let ghost ev = env_view(env@);
    let mut i: usize = 0;
    assert(ev.skip(0) =~= ev);
    while i < env.len()
        invariant
            i <= env.len(),
            ev == env_view(env@),
            env_lookup(ev, name@) == env_lookup(ev.skip(i as int), name@),
        decreases env.len() - i,
    {
        assert(ev.skip(i as int)[0] == ev[i as int]);
        assert(ev.skip(i as int).drop_first() =~= ev.skip(i + 1));
        if env[i].0 == *name {
            return Some(env[i].1.clone());
        }
        i = i + 1;
    }
    assert(ev.skip(i as int).len() == 0);
    None
}

fn resolve_exec(env: &Vec<(String, String)>, name: &String, default: Option<&String>) -> (r: String)
    ensures
        r@ == resolve(env_view(env@), name@, match default { Some(d) => Some(d@), None => None }),
{
    match env_get(env, name) {
        Some(v) => v,
        None => match default {
            Some(d) => d.clone(),
            None => String::new(),
        },
    }
}

/// Replaces `${NAME}` and `${NAME:-default}` placeholders with values from the given
/// environment listing, falling back to the default and then to nothing.
pub fn interpolate_env_vars_with(raw: &str, env: &Vec<(String, String)>) -> (r: String)
    ensures
        r@ == interpolate_spec(raw@, env_view(env@)),
{
    let ghost ev = env_view(env@);
    let cs = chars_of(raw);
    let mut out = String::new();
    // 0 text, 1 dollar, 2 name, 3 colon, 4 default
    let mut state: u8 = 0;
    let mut name = String::new();
    let mut dflt = String::new();
    let mut i: usize = 0;
    assert(cs@.skip(0) =~= cs@);
    assert(out@ + scan_run(ev, Scan::Text, cs@) =~= scan_run(ev, Scan::Text, cs@));
    while i < cs.len()
        invariant
            i <= cs.len(),
            cs@ == raw@,
            ev == env_view(env@),
            state <= 4,
            out@ + scan_run(ev, scan_state(state, name@, dflt@), cs@.skip(i as int)) == scan_run(
                ev,
                Scan::Text,
                cs@,
            ),
        decreases cs.len() - i,
    {
        let c = cs[i];
        let ghost m = scan_state(state, name@, dflt@);
        let ghost rest = cs@.skip(i as int);
        assert(rest[0] == c);
        assert(rest.drop_first() =~= cs@.skip(i + 1));
        let ghost before = out@;
        if state == 0 {
            if c == '$' {
                state = 1;
            } else {
                push_char(&mut out, c);
            }
        } else if state == 1 {
            if c == '{' {
                state = 2;
                name = String::new();
            } else if c == '$' {
                push_char(&mut out, '$');
            } else {
                push_char(&mut out, '$');
                push_char(&mut out, c);
                state = 0;
            }
        } else if state == 2 {
            if c == '}' {
                let v = resolve_exec(env, &name, None);
                out.append(v.as_str());
                state = 0;
            } else if c == ':' {
                state = 3;
            } else {
                push_char(&mut name, c);
            }
        } else if state == 3 {
            if c == '-' {
                state = 4;
                dflt = String::new();
            } else if c == '}' {
                push_char(&mut name, ':');
                let v = resolve_exec(env, &name, None);
                out.append(v.as_str());
                state = 0;
            } else if c == ':' {
                push_char(&mut name, ':');
            } else {
                push_char(&mut name, ':');
                push_char(&mut name, c);
                state = 2;
            }
        } else {
            if c == '}' {
                let v = resolve_exec(env, &name, Some(&dflt));
                out.append(v.as_str());
                state = 0;
            } else {
                push_char(&mut dflt, c);
            }
        }
        assert(out@ =~= before + scan_step(ev, m, c).1);
        assert(scan_state(state, name@, dflt@) == scan_step(ev, m, c).0);
        i = i + 1;
    }
    assert(cs@.skip(i as int).len() == 0);
    if state == 1 {
        push_char(&mut out, '$');
    } else if state == 2 {
        let v = resolve_exec(env, &name, None);
        out.append(v.as_str());
    } else if state == 3 {
        push_char(&mut name, ':');
        let v = resolve_exec(env, &name, None);
        out.append(v.as_str());
    } else if state == 4 {
        let v = resolve_exec(env, &name, Some(&dflt));
        out.append(v.as_str());
    }
    out
}

/// The scanner state that the loop's plain variables stand for.
pub open spec fn scan_state(state: u8, name: Seq<char>, dflt: Seq<char>) -> Scan {
    if state == 0 {
        Scan::Text
    } else if state == 1 {
        Scan::Dollar
    } else if state == 2 {
        Scan::Name(name)
    } else if state == 3 {
        Scan::Colon(name)
    } else {
        Scan::Default(name, dflt)
    }
}


/// `s` holds none of the characters of `cs`.
pub open spec fn free_of(s: Seq<char>, cs: Seq<char>) -> bool {
    forall|i: int, j: int| 0 <= i < s.len() && 0 <= j < cs.len() ==> s[i] != cs[j]
}

proof fn lemma_scan_text(env: Seq<(Seq<char>, Seq<char>)>, a: Seq<char>, b: Seq<char>)
    requires
        free_of(a, seq!['$']),
    ensures
        scan_run(env, Scan::Text, a + b) == a + scan_run(env, Scan::Text, b),
    decreases a.len(),
{
    if a.len() == 0 {
        assert(a + b =~= b);
        assert(a + scan_run(env, Scan::Text, b) =~= scan_run(env, Scan::Text, b));
    } else {
        assert(a[0] != seq!['$'][0]);
        assert((a + b).drop_first() =~= a.drop_first() + b);
        assert((a + b)[0] == a[0]);
        assert(free_of(a.drop_first(), seq!['$'])) by {
            assert forall|i: int, j: int| 0 <= i < a.drop_first().len() && 0 <= j < 1 implies a.drop_first()[i] != seq!['$'][j] by {
                assert(a.drop_first()[i] == a[i + 1]);
            }
        }
        lemma_scan_text(env, a.drop_first(), b);
        assert(a =~= seq![a[0]] + a.drop_first());
    }
}

proof fn lemma_scan_name(env: Seq<(Seq<char>, Seq<char>)>, n: Seq<char>, a: Seq<char>, b: Seq<char>)
    requires
        free_of(a, seq!['}', ':']),
    ensures
        scan_run(env, Scan::Name(n), a + b) == scan_run(env, Scan::Name(n + a), b),
    decreases a.len(),
{
    if a.len() == 0 {
        assert(a + b =~= b);
        assert(n + a =~= n);
    } else {
        assert(a[0] != seq!['}', ':'][0] && a[0] != seq!['}', ':'][1]);
        assert((a + b).drop_first() =~= a.drop_first() + b);
        assert((a + b)[0] == a[0]);
        assert(free_of(a.drop_first(), seq!['}', ':'])) by {
            assert forall|i: int, j: int| 0 <= i < a.drop_first().len() && 0 <= j < 2 implies a.drop_first()[i] != seq!['}', ':'][j] by {
                assert(a.drop_first()[i] == a[i + 1]);
            }
        }
        lemma_scan_name(env, n.push(a[0]), a.drop_first(), b);
        assert(n.push(a[0]) + a.drop_first() =~= n + a);
        assert(Seq::<char>::empty() + scan_run(env, Scan::Name(n.push(a[0])), a.drop_first() + b)
            =~= scan_run(env, Scan::Name(n.push(a[0])), a.drop_first() + b));
    }
}

proof fn lemma_scan_default(env: Seq<(Seq<char>, Seq<char>)>, n: Seq<char>, d: Seq<char>, a: Seq<char>, b: Seq<char>)
    requires
        free_of(a, seq!['}']),
    ensures
        scan_run(env, Scan::Default(n, d), a + b) == scan_run(env, Scan::Default(n, d + a), b),
    decreases a.len(),
{
    if a.len() == 0 {
        assert(a + b =~= b);
        assert(d + a =~= d);
    } else {
        assert(a[0] != seq!['}'][0]);
        assert((a + b).drop_first() =~= a.drop_first() + b);
        assert((a + b)[0] == a[0]);
        assert(free_of(a.drop_first(), seq!['}'])) by {
            assert forall|i: int, j: int| 0 <= i < a.drop_first().len() && 0 <= j < 1 implies a.drop_first()[i] != seq!['}'][j] by {
                assert(a.drop_first()[i] == a[i + 1]);
            }
        }
        lemma_scan_default(env, n, d.push(a[0]), a.drop_first(), b);
        assert(d.push(a[0]) + a.drop_first() =~= d + a);
        assert(Seq::<char>::empty() + scan_run(env, Scan::Default(n, d.push(a[0])), a.drop_first() + b)
            =~= scan_run(env, Scan::Default(n, d.push(a[0])), a.drop_first() + b));
    }
}

/// The environment lookup finds the first entry of the name: it gives `v` exactly when some
/// entry is `(name, v)` and no earlier entry has that name.
pub proof fn lookups_find_the_first_entry(env: Seq<(Seq<char>, Seq<char>)>, name: Seq<char>, k: int)
    requires
        0 <= k < env.len(),
        env[k].0 == name,
        forall|j: int| 0 <= j < k ==> env[j].0 != name,
    ensures
        env_lookup(env, name) == Some(env[k].1),
    decreases k,
{
    if k > 0 {
        assert forall|j: int| 0 <= j < k - 1 implies env.drop_first()[j].0 != name by {
            assert(env.drop_first()[j] == env[j + 1]);
        }
        lookups_find_the_first_entry(env.drop_first(), name, k - 1);
    }
}

/// A name that no entry has is not found.
pub proof fn missing_names_are_not_found(env: Seq<(Seq<char>, Seq<char>)>, name: Seq<char>)
    requires
        forall|j: int| 0 <= j < env.len() ==> env[j].0 != name,
    ensures
        env_lookup(env, name) is None,
    decreases env.len(),
{
    if env.len() > 0 {
        assert forall|j: int| 0 <= j < env.len() - 1 implies env.drop_first()[j].0 != name by {
            assert(env.drop_first()[j] == env[j + 1]);
        }
        missing_names_are_not_found(env.drop_first(), name);
    }
}

/// Interpolation keeps text and replaces placeholders: text without `$` comes out as it is; a
/// placeholder `${NAME}` becomes the variable's value, or nothing when it is not set; a
/// placeholder `${NAME:-default}` becomes the value, or the default when it is not set; and
/// the text after a placeholder is interpolated in turn.
pub proof fn placeholders_are_replaced(
    env: Seq<(Seq<char>, Seq<char>)>,
    before: Seq<char>,
    name: Seq<char>,
    default: Seq<char>,
    after: Seq<char>,
)
    requires
        free_of(before, seq!['$']),
        free_of(name, seq!['}', ':']),
        free_of(default, seq!['}']),
    ensures
        interpolate_spec(before, env) == before,
        interpolate_spec(before + seq!['$', '{'] + name + seq!['}'] + after, env) == before + (match env_lookup(env, name) {
            Some(v) => v,
            None => Seq::<char>::empty(),
        }) + interpolate_spec(after, env),
        interpolate_spec(before + seq!['$', '{'] + name + seq![':', '-'] + default + seq!['}'] + after, env) == before + (
        match env_lookup(env, name) {
            Some(v) => v,
            None => default,
        }) + interpolate_spec(after, env),
{
    lemma_scan_text(env, before, Seq::empty());
    assert(before + Seq::<char>::empty() =~= before);
    assert(scan_run(env, Scan::Text, Seq::<char>::empty()) =~= Seq::<char>::empty());
    // `${NAME}`
    let tail1 = seq!['$', '{'] + name + seq!['}'] + after;
    assert(before + seq!['$', '{'] + name + seq!['}'] + after =~= before + tail1);
    lemma_scan_text(env, before, tail1);
    assert(tail1.drop_first().drop_first() =~= name + (seq!['}'] + after));
    lemma_scan_name(env, Seq::empty(), name, seq!['}'] + after);
    assert(Seq::<char>::empty() + name =~= name);
    assert((seq!['}'] + after).drop_first() =~= after);
    assert(scan_run(env, Scan::Text, tail1) == scan_run(env, Scan::Dollar, tail1.drop_first()));
    assert(scan_run(env, Scan::Dollar, tail1.drop_first()) == scan_run(env, Scan::Name(Seq::empty()), tail1.drop_first().drop_first()));
    // `${NAME:-default}`
    let tail2 = seq!['$', '{'] + name + seq![':', '-'] + default + seq!['}'] + after;
    assert(before + seq!['$', '{'] + name + seq![':', '-'] + default + seq!['}'] + after =~= before + tail2);
    lemma_scan_text(env, before, tail2);
    let after_name = seq![':', '-'] + default + seq!['}'] + after;
    assert(tail2.drop_first().drop_first() =~= name + after_name);
    lemma_scan_name(env, Seq::empty(), name, after_name);
    assert(after_name.drop_first().drop_first() =~= default + (seq!['}'] + after));
    lemma_scan_default(env, name, Seq::empty(), default, seq!['}'] + after);
    assert(Seq::<char>::empty() + default =~= default);
    assert(scan_run(env, Scan::Text, tail2) == scan_run(env, Scan::Dollar, tail2.drop_first()));
    assert(scan_run(env, Scan::Dollar, tail2.drop_first()) == scan_run(env, Scan::Name(Seq::empty()), tail2.drop_first().drop_first()));
    assert(scan_run(env, Scan::Name(name), after_name) == scan_run(env, Scan::Colon(name), after_name.drop_first()));
    assert(scan_run(env, Scan::Colon(name), after_name.drop_first())
        == scan_run(env, Scan::Default(name, Seq::empty()), after_name.drop_first().drop_first()));
}
} // verus!
