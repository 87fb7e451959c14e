//! Non-root Perfetto transport decisions. Each capture owns one finite
//! session, process identity and trace path; a process is signalled only when
//! its boot, lifetime and command line prove it is the owned one. Running the
//! commands on the phone is left to the caller.
use vstd::prelude::*;
use crate::diskstats::parse_u64;
use crate::text::{
    ascii_lower, chars_of, decimal, owned, push_decimal, push_str, split_words, str_chars, str_eq, string_from_chars, words_of,
};

verus! {

/// Position of the last `c` in `s`.
pub open spec fn last_index_of(s: Seq<char>, c: char) -> Option<int>
    decreases s.len(),
{
    if s.len() == 0 {
        None
    } else if s.last() == c {
        Some(s.len() - 1)
    } else {
        last_index_of(s.drop_last(), c)
    }
}

/// The state letter and start time (field 22 of `/proc/PID/stat`) of a
/// process: the fields after the last `)`, which closes the command name.
pub open spec fn stat_identity(stat: Seq<char>) -> Option<(char, u64)> {
    match last_index_of(stat, ')') {
        None => None,
        Some(k) => {
            let fields = words_of(stat.skip(k + 1));
            if fields.len() <= 19 || fields[0].len() == 0 {
                None
            } else {
                match parse_u64(fields[19]) {
                    Some(ticks) => Some((fields[0][0], ticks)),
                    None => None,
                }
            }
        },
    }
}

proof fn lemma_words_nonempty(s: Seq<char>)
    ensures
        forall|i: int| 0 <= i < words_of(s).len() ==> #[trigger] words_of(s)[i].len() > 0,
    decreases s.len(),
{
    if s.len() > 0 {
        if crate::text::is_ws(s[0]) {
            lemma_words_nonempty(s.skip(1));
            assert(words_of(s) == words_of(s.skip(1)));
        } else {
            let k = crate::text::word_len(s);
            if 0 < k <= s.len() {
                lemma_words_nonempty(s.skip(k as int));
                let w = words_of(s);
                assert forall|i: int| 0 <= i < w.len() implies #[trigger] w[i].len() > 0 by {
                    if i > 0 {
                        assert(w[i] == words_of(s.skip(k as int))[i - 1]);
                    } else {
                        assert(w[0] == s.take(k as int));
                    }
                }
            } else {
                assert(words_of(s).len() == 0);
            }
        }
    }
}

/// Parses a process's state and start time from its `stat` line.
pub fn process_identity(stat: &str) -> (r: Option<(char, u64)>)
    ensures
        r == stat_identity(stat@),
{
    let v = str_chars(stat);
    let mut i = v.len();
    proof { assert(v@.take(v@.len() as int) == v@); }
    while i > 0 && v[i - 1] != ')'
        invariant
            i <= v@.len(),
            last_index_of(v@, ')') == last_index_of(v@.take(i as int), ')'),
        decreases i,
    {
        proof { assert(v@.take(i as int).drop_last() == v@.take(i - 1)); }
        i -= 1;
    }
    if i == 0 {
        return None;
    }
    proof {
        assert(v@.take(i as int).last() == v@[i - 1]);
    }
    let tail = crate::text::slice_chars(v.as_slice(), i, v.len());
    proof { assert(tail@ == v@.skip(i as int)); }
    let fields = split_words(tail.as_slice());
    proof { lemma_words_nonempty(tail@); }
    if fields.len() <= 19 {
        return None;
    }
    proof {
        assert(chars_of(fields@)[0] == fields@[0]@);
        assert(chars_of(fields@)[19] == fields@[19]@);
    }
    let ticks = match crate::diskstats::parse_u64_chars(fields[19].as_slice()) {
        Some(t) => t,
        None => return None,
    };
    Some((fields[0][0], ticks))
}

/// The trace config: a 16 MiB ring buffer written to file every second, the
/// four block tracepoints and a process scan, for `duration_ms`.
pub open spec fn config_text(duration_ms: u64) -> Seq<char> {
    "buffers { size_kb: 16384 fill_policy: RING_BUFFER }\nduration_ms: "@ + decimal(duration_ms as nat)
        + "\nwrite_into_file: true\nfile_write_period_ms: 1000\nmax_file_size_bytes: 268435456\ndata_sources { config { name: \"linux.ftrace\" ftrace_config {\n ftrace_events: \"block/block_rq_issue\"\n ftrace_events: \"block/block_rq_complete\"\n ftrace_events: \"block/block_rq_insert\"\n ftrace_events: \"block/block_rq_requeue\"\n drain_period_ms: 100\n} } }\ndata_sources { config { name: \"linux.process_stats\" process_stats_config {\n scan_all_processes_on_start: true\n record_process_age: true\n} } }\n"@
}

pub fn config(duration_ms: u64) -> (r: String)
    ensures
        r@ == config_text(duration_ms),
{
    let mut out: Vec<char> = Vec::new();
    push_str(&mut out, "buffers { size_kb: 16384 fill_policy: RING_BUFFER }\nduration_ms: ");
    push_decimal(&mut out, duration_ms);
    push_str(&mut out, "\nwrite_into_file: true\nfile_write_period_ms: 1000\nmax_file_size_bytes: 268435456\ndata_sources { config { name: \"linux.ftrace\" ftrace_config {\n ftrace_events: \"block/block_rq_issue\"\n ftrace_events: \"block/block_rq_complete\"\n ftrace_events: \"block/block_rq_insert\"\n ftrace_events: \"block/block_rq_requeue\"\n drain_period_ms: 100\n} } }\ndata_sources { config { name: \"linux.process_stats\" process_stats_config {\n scan_all_processes_on_start: true\n record_process_age: true\n} } }\n");
    string_from_chars(out.as_slice())
}

/// Safety durations accepted for a capture: 1 s to 1 hour.
pub fn duration_allowed(duration_ms: u64) -> (r: bool)
    ensures
        r == (1000 <= duration_ms <= 3_600_000),
{
    1000 <= duration_ms && duration_ms <= 3_600_000
}

/// The phone-side config path owned by a capture token.
pub open spec fn remote_config_text(token: Seq<char>) -> Seq<char> {
    "/data/misc/perfetto-configs/aebpf-"@ + token + ".pbtxt"@
}

/// The phone-side trace path owned by a capture token.
pub open spec fn remote_trace_text(token: Seq<char>) -> Seq<char> {
    "/data/misc/perfetto-traces/aebpf-"@ + token + ".pftrace"@
}

pub fn remote_config_path(token: &str) -> (r: String)
    ensures
        r@ == remote_config_text(token@),
{
    let mut out: Vec<char> = Vec::new();
    push_str(&mut out, "/data/misc/perfetto-configs/aebpf-");
    push_str(&mut out, token);
    push_str(&mut out, ".pbtxt");
    string_from_chars(out.as_slice())
}

pub fn remote_trace_path(token: &str) -> (r: String)
    ensures
        r@ == remote_trace_text(token@),
{
    let mut out: Vec<char> = Vec::new();
    push_str(&mut out, "/data/misc/perfetto-traces/aebpf-");
    push_str(&mut out, token);
    push_str(&mut out, ".pftrace");
    string_from_chars(out.as_slice())
}

/// Name for what `uuid::Uuid::parse_str` followed by `to_string` makes of a
/// token: the canonical hyphenated text, or the parse error's message.
pub uninterp spec fn uuid_text(token: Seq<char>) -> Result<Seq<char>, Seq<char>>;

pub open spec fn lower_hex(c: char) -> bool {
    ('0' <= c <= '9') || ('a' <= c <= 'f')
}

/// The hyphenated form `uuid` prints: 36 characters, hyphens at 8, 13, 18
/// and 23, lower-case hexadecimal digits elsewhere.
pub open spec fn hyphenated(s: Seq<char>) -> bool {
    &&& s.len() == 36
    &&& forall|i: int| 0 <= i < 36 ==> if i == 8 || i == 13 || i == 18 || i == 23 {
        #[trigger] s[i] == '-'
    } else {
        lower_hex(s[i])
    }
}

/// A hexadecimal digit of either case.
pub open spec fn hex_digit(c: char) -> bool {
    ('0' <= c <= '9') || ('a' <= c <= 'f') || ('A' <= c <= 'F')
}

/// Hexadecimal digits of either case with hyphens at 8, 13, 18 and 23.
pub open spec fn hyphen_shaped(s: Seq<char>) -> bool {
    &&& s.len() == 36
    &&& forall|i: int| 0 <= i < 36 ==> if i == 8 || i == 13 || i == 18 || i == 23 {
        #[trigger] s[i] == '-'
    } else {
        hex_digit(s[i])
    }
}

/// The 32 digits of a hyphenated form, in order.
pub open spec fn hyphen_digits(s: Seq<char>) -> Seq<char> {
    s.subrange(0, 8) + s.subrange(9, 13) + s.subrange(14, 18) + s.subrange(19, 23) + s.subrange(24, 36)
}

/// The digits of a token in one of the forms a UUID is parsed from: 32
/// digits; the hyphenated form; that form in braces; or that form after
/// `urn:uuid:` written in any case. `None` for every other token.
pub open spec fn uuid_digits(t: Seq<char>) -> Option<Seq<char>> {
    if t.len() == 32 && forall|i: int| 0 <= i < 32 ==> hex_digit(#[trigger] t[i]) {
        Some(t)
    } else if hyphen_shaped(t) {
        Some(hyphen_digits(t))
    } else if t.len() == 38 && t[0] == '{' && t[37] == '}' && hyphen_shaped(t.subrange(1, 37)) {
        Some(hyphen_digits(t.subrange(1, 37)))
    } else if t.len() == 45 && ascii_lower(t.subrange(0, 9)) == "urn:uuid:"@ && hyphen_shaped(t.subrange(9, 45)) {
        Some(hyphen_digits(t.subrange(9, 45)))
    } else {
        None
    }
}

/// The hyphenated lower-case text of 32 digits.
pub open spec fn canonical_uuid(d: Seq<char>) -> Seq<char> {
    let l = ascii_lower(d);
    l.subrange(0, 8) + seq!['-'] + l.subrange(8, 12) + seq!['-'] + l.subrange(12, 16) + seq!['-']
        + l.subrange(16, 20) + seq!['-'] + l.subrange(20, 32)
}

/// Calls `uuid::Uuid::parse_str` and renders the result with `to_string`.
/// Claimed: the result is `uuid_text` of the token; the parser accepts
/// exactly the tokens that `uuid_digits` reads (`try_parse` in the crate's
/// `parser.rs`: 32 digits, 36 hyphenated, 38 braced, 45 with the
/// `urn:uuid:` prefix compared ignoring ASCII case, digits of either case),
/// and an accepted token prints as the lower-case hyphenated text of its
/// digits, as the crate's `Display` (`LowerHex` of `as_hyphenated`) writes
/// it. The wording of the parse error is left unstated.
#[verifier::external_body]
fn parse_uuid(token: &str) -> (r: Result<String, String>)
    ensures
        match r {
            Ok(s) => uuid_text(token@) == Ok::<Seq<char>, Seq<char>>(s@) && hyphenated(s@)
                && (uuid_digits(token@) matches Some(d) && s@ == canonical_uuid(d)),
            Err(m) => uuid_text(token@) == Err::<Seq<char>, Seq<char>>(m@) && uuid_digits(token@) is None,
        },
{
    match uuid::Uuid::parse_str(token) {
        Ok(u) => Ok(u.to_string()),
        Err(e) => Err(e.to_string()),
    }
}

/// Why a recovery manifest was refused.
#[derive(Debug)]
pub enum OwnerError {
    /// The token is not a UUID; the parser's message.
    InvalidToken(String),
    UnexpectedRemotePaths,
}

pub open spec fn owner_error_text(e: OwnerError) -> Seq<char> {
    match e {
        OwnerError::InvalidToken(m) => m@,
        OwnerError::UnexpectedRemotePaths => "Recovery manifest contains unexpected remote paths"@,
    }
}

impl OwnerError {
    pub fn message(&self) -> (r: String)
        ensures
            r@ == owner_error_text(*self),
    {
        match self {
            OwnerError::InvalidToken(m) => m.clone(),
            OwnerError::UnexpectedRemotePaths => owned("Recovery manifest contains unexpected remote paths"),
        }
    }
}

/// The verdict on a manifest's token and remote paths, given what the UUID
/// parser made of the token: the paths must be exactly the ones that the
/// canonical token owns.
pub open spec fn owner_paths_verdict(parsed: Result<Seq<char>, Seq<char>>, remote_trace: Seq<char>, remote_config: Seq<char>) -> Result<Seq<char>, Option<Seq<char>>> {
    match parsed {
        Err(m) => Err(Some(m)),
        Ok(t) => if remote_trace == remote_trace_text(t) && remote_config == remote_config_text(t) {
            Ok(t)
        } else {
            Err(None)
        },
    }
}

pub open spec fn owner_result_view(r: Result<String, OwnerError>) -> Result<Seq<char>, Option<Seq<char>>> {
    match r {
        Ok(t) => Ok(t@),
        Err(OwnerError::InvalidToken(m)) => Err(Some(m@)),
        Err(OwnerError::UnexpectedRemotePaths) => Err(None),
    }
}

/// Checks a manifest's remote paths against the canonical form of its token,
/// once the token has been parsed.
pub fn owner_paths_from(parsed: Result<String, String>, remote_trace: &str, remote_config: &str) -> (r: Result<String, OwnerError>)
    ensures
        owner_result_view(r) == owner_paths_verdict(
            match parsed { Ok(t) => Ok(t@), Err(m) => Err(m@) },
            remote_trace@,
            remote_config@,
        ),
{
    match parsed {
        Err(m) => Err(OwnerError::InvalidToken(m)),
        Ok(t) => {
            let trace = remote_trace_path(t.as_str());
            let config = remote_config_path(t.as_str());
            if str_eq(trace.as_str(), remote_trace) && str_eq(config.as_str(), remote_config) {
                Ok(t)
            } else {
                Err(OwnerError::UnexpectedRemotePaths)
            }
        },
    }
}

/// Validates a recovery manifest's token and remote paths; on success the
/// canonical token.
pub fn check_owner_paths(token: &str, remote_trace: &str, remote_config: &str) -> (r: Result<String, OwnerError>)
    ensures
        owner_result_view(r) == owner_paths_verdict(uuid_text(token@), remote_trace@, remote_config@),
        uuid_digits(token@) is None ==> r matches Err(OwnerError::InvalidToken(_)),
        r matches Ok(t) ==> hyphenated(t@) && (uuid_digits(token@) matches Some(d) && t@ == canonical_uuid(d)),
{
    let parsed = parse_uuid(token);
    owner_paths_from(parsed, remote_trace, remote_config)
}

/// Everything a capture owns: the phone, its boot, the nonce token and the
/// paths it names, the launched process identity and the local trace.
#[derive(Debug)]
pub struct PerfettoOwner {
    pub serial: String,
    pub boot_id: String,
    pub token: String,
    pub remote_config: String,
    pub remote_trace: String,
    pub pid: Option<u32>,
    pub process_start_ticks: Option<u64>,
    pub duration_ms: u64,
    pub local_trace: String,
}

/// Why the owned process must not be signalled.
#[derive(Debug, Clone, Copy, PartialEq, Eq, Structural)]
pub enum AliveRefusal {
    Rebooted,
    PidUnconfirmed,
    MalformedIdentity,
    NotOwned,
}

pub open spec fn refusal_text(r: AliveRefusal) -> Seq<char> {
    match r {
        AliveRefusal::Rebooted => "Device rebooted; previous raw trace is preserved, but its process must not be signalled"@,
        AliveRefusal::PidUnconfirmed => "Capture PID was not confirmed"@,
        AliveRefusal::MalformedIdentity => "Malformed process identity"@,
        AliveRefusal::NotOwned => "PID no longer identifies the owned Perfetto command; refusing to signal it"@,
    }
}

impl AliveRefusal {
    pub fn message(&self) -> (r: String)
        ensures
            r@ == refusal_text(*self),
    {
        match self {
            AliveRefusal::Rebooted => owned("Device rebooted; previous raw trace is preserved, but its process must not be signalled"),
            AliveRefusal::PidUnconfirmed => owned("Capture PID was not confirmed"),
            AliveRefusal::MalformedIdentity => owned("Malformed process identity"),
            AliveRefusal::NotOwned => owned("PID no longer identifies the owned Perfetto command; refusing to signal it"),
        }
    }
}

/// Whether the owned Perfetto process is alive, decided one phone query at
/// a time: the boot, then whether the PID exists, its identity, its command.
#[derive(Debug, Clone, Copy, PartialEq, Eq, Structural)]
pub enum AliveProbe {
    ReadBoot,
    CheckPresent(u32),
    ReadStat(u32),
    ReadCmdline(u32),
    Alive(bool),
    Refused(AliveRefusal),
}

/// The command line names both owned paths as whole arguments.
pub open spec fn names_owned_paths(cmdline: Seq<char>, trace: Seq<char>, config: Seq<char>) -> bool {
    crate::text::split_on(cmdline, '\0').contains(trace) && crate::text::split_on(cmdline, '\0').contains(config)
}

/// The next liveness step after a query's (trimmed) reply.
pub open spec fn alive_next(boot_id: Seq<char>, pid: Option<u32>, ticks: Option<u64>, trace: Seq<char>, config: Seq<char>, step: AliveProbe, reply: Seq<char>) -> AliveProbe {
    match step {
        AliveProbe::ReadBoot => if reply != boot_id {
            AliveProbe::Refused(AliveRefusal::Rebooted)
        } else {
            match pid {
                None => AliveProbe::Refused(AliveRefusal::PidUnconfirmed),
                Some(p) => AliveProbe::CheckPresent(p),
            }
        },
        AliveProbe::CheckPresent(p) => if reply == "absent"@ { AliveProbe::Alive(false) } else { AliveProbe::ReadStat(p) },
        AliveProbe::ReadStat(p) => match stat_identity(reply) {
            None => AliveProbe::Refused(AliveRefusal::MalformedIdentity),
            Some((state, t)) => if Some(t) != ticks {
                AliveProbe::Alive(false)
            } else if state == 'Z' || state == 'X' {
                AliveProbe::Alive(false)
            } else {
                AliveProbe::ReadCmdline(p)
            },
        },
        AliveProbe::ReadCmdline(p) => if names_owned_paths(reply, trace, config) {
            AliveProbe::Alive(true)
        } else {
            AliveProbe::Refused(AliveRefusal::NotOwned)
        },
        AliveProbe::Alive(b) => AliveProbe::Alive(b),
        AliveProbe::Refused(r) => AliveProbe::Refused(r),
    }
}

pub open spec fn proc_path(pid: u32, leaf: Seq<char>) -> Seq<char> {
    "/proc/"@ + decimal(pid as nat) + leaf
}

pub open spec fn alive_query(step: AliveProbe) -> Option<Seq<Seq<char>>> {
    match step {
        AliveProbe::ReadBoot => Some(seq!["cat"@, "/proc/sys/kernel/random/boot_id"@]),
        AliveProbe::CheckPresent(p) => Some(seq!["sh"@, "-c"@,
            "if test -e "@ + proc_path(p, "/stat"@) + "; then echo present; else echo absent; fi"@]),
        AliveProbe::ReadStat(p) => Some(seq!["cat"@, proc_path(p, "/stat"@)]),
        AliveProbe::ReadCmdline(p) => Some(seq!["cat"@, proc_path(p, "/cmdline"@)]),
        _ => None,
    }
}

fn proc_file(pid: u32, leaf: &str) -> (r: Vec<char>)
    ensures
        r@ == proc_path(pid, leaf@),
{
    let mut out: Vec<char> = Vec::new();
    push_str(&mut out, "/proc/");
    push_decimal(&mut out, pid as u64);
    push_str(&mut out, leaf);
    out
}

fn names_path(parts: &Vec<Vec<char>>, path: &str) -> (r: bool)
    ensures
        r == chars_of(parts@).contains(path@),
{
    let mut i: usize = 0;
    while i < parts.len()
        invariant
            i <= parts@.len(),
            forall|k: int| 0 <= k < i ==> #[trigger] chars_of(parts@)[k] != path@,
        decreases parts.len() - i,
    {
        if crate::text::chars_eq_str(parts[i].as_slice(), path) {
            assert(chars_of(parts@)[i as int] == path@);
            return true;
        }
        i += 1;
    }
    false
}

pub open spec fn strings_view(v: Seq<String>) -> Seq<Seq<char>> {
    v.map_values(|s: String| s@)
}

impl AliveProbe {
    pub fn start() -> (r: Self)
        ensures
            r == AliveProbe::ReadBoot,
    {
        AliveProbe::ReadBoot
    }

    /// The arguments of the phone query for this step; none once decided.
    pub fn query(&self) -> (r: Option<Vec<String>>)
        ensures
            match alive_query(*self) {
                Some(q) => r matches Some(v) && strings_view(v@) == q,
                None => r is None,
            },
    {
        let mut v: Vec<String> = Vec::new();
        match *self {
            AliveProbe::ReadBoot => {
                v.push(owned("cat"));
                v.push(owned("/proc/sys/kernel/random/boot_id"));
            },
            AliveProbe::CheckPresent(p) => {
                let mut line: Vec<char> = Vec::new();
                push_str(&mut line, "if test -e ");
                let f = proc_file(p, "/stat");
                let mut i: usize = 0;
                let ghost base = line@;
                while i < f.len()
                    invariant
                        i <= f@.len(),
                        line@ == base + f@.take(i as int),
                    decreases f.len() - i,
                {
                    line.push(f[i]);
                    i += 1;
                    assert(line@ =~= base + f@.take(i as int));
                }
                assert(f@.take(f@.len() as int) == f@);
                push_str(&mut line, "; then echo present; else echo absent; fi");
                v.push(owned("sh"));
                v.push(owned("-c"));
                v.push(string_from_chars(line.as_slice()));
            },
            AliveProbe::ReadStat(p) => {
                v.push(owned("cat"));
                let f = proc_file(p, "/stat");
                v.push(string_from_chars(f.as_slice()));
            },
            AliveProbe::ReadCmdline(p) => {
                v.push(owned("cat"));
                let f = proc_file(p, "/cmdline");
                v.push(string_from_chars(f.as_slice()));
            },
            _ => {
                return None;
            },
        }
        proof { assert(strings_view(v@) =~= alive_query(*self).unwrap()); }
        Some(v)
    }
}

impl PerfettoOwner {
    /// The liveness step after the reply to this step's query.
    pub fn alive_next(&self, step: AliveProbe, reply: &str) -> (r: AliveProbe)
        ensures
            r == alive_next(self.boot_id@, self.pid, self.process_start_ticks, self.remote_trace@, self.remote_config@, step, reply@),
    {
        match step {
            AliveProbe::ReadBoot => {
                if !str_eq(reply, self.boot_id.as_str()) {
                    AliveProbe::Refused(AliveRefusal::Rebooted)
                } else {
                    match self.pid {
                        None => AliveProbe::Refused(AliveRefusal::PidUnconfirmed),
                        Some(p) => AliveProbe::CheckPresent(p),
                    }
                }
            },
            AliveProbe::CheckPresent(p) => {
                if str_eq(reply, "absent") { AliveProbe::Alive(false) } else { AliveProbe::ReadStat(p) }
            },
            AliveProbe::ReadStat(p) => match process_identity(reply) {
                None => AliveProbe::Refused(AliveRefusal::MalformedIdentity),
                Some((state, t)) => {
                    let same = match self.process_start_ticks {
                        Some(x) => x == t,
                        None => false,
                    };
                    if !same {
                        AliveProbe::Alive(false)
                    } else if state == 'Z' || state == 'X' {
                        AliveProbe::Alive(false)
                    } else {
                        AliveProbe::ReadCmdline(p)
                    }
                },
            },
            AliveProbe::ReadCmdline(p) => {
                let v = str_chars(reply);
                let parts = crate::text::split_at_char(v.as_slice(), '\0');
                if names_path(&parts, self.remote_trace.as_str()) && names_path(&parts, self.remote_config.as_str()) {
                    AliveProbe::Alive(true)
                } else {
                    AliveProbe::Refused(AliveRefusal::NotOwned)
                }
            },
            AliveProbe::Alive(b) => AliveProbe::Alive(b),
            AliveProbe::Refused(r) => AliveProbe::Refused(r),
        }
    }
}

/// The liveness state after the given replies, from the start.
pub open spec fn alive_after(boot_id: Seq<char>, pid: Option<u32>, ticks: Option<u64>, trace: Seq<char>, config: Seq<char>, replies: Seq<Seq<char>>) -> AliveProbe
    decreases replies.len(),
{
    if replies.len() == 0 {
        AliveProbe::ReadBoot
    } else {
        alive_next(boot_id, pid, ticks, trace, config, alive_after(boot_id, pid, ticks, trace, config, replies.drop_last()), replies.last())
    }
}

/// The process is reported alive, and so may be signalled, only after four
/// replies: the same boot, a present PID, the recorded start time of a
/// running process, and a command line naming both owned paths.
pub proof fn law_alive_only_when_owned(boot_id: Seq<char>, pid: Option<u32>, ticks: Option<u64>, trace: Seq<char>, config: Seq<char>, replies: Seq<Seq<char>>)
    requires
        alive_after(boot_id, pid, ticks, trace, config, replies) == AliveProbe::Alive(true),
    ensures
        replies.len() >= 4,
        replies[0] == boot_id,
        pid is Some,
        replies[1] != "absent"@,
        stat_identity(replies[2]) matches Some((state, t)) && Some(t) == ticks && state != 'Z' && state != 'X',
        names_owned_paths(replies[3], trace, config),
{
    lemma_alive_prefix(boot_id, pid, ticks, trace, config, replies);
}

proof fn lemma_alive_prefix(boot_id: Seq<char>, pid: Option<u32>, ticks: Option<u64>, trace: Seq<char>, config: Seq<char>, replies: Seq<Seq<char>>)
    ensures
        alive_after(boot_id, pid, ticks, trace, config, replies) == AliveProbe::ReadBoot ==> replies.len() == 0,
        alive_after(boot_id, pid, ticks, trace, config, replies) matches AliveProbe::CheckPresent(p) ==>
            replies.len() == 1 && replies[0] == boot_id && pid == Some(p),
        alive_after(boot_id, pid, ticks, trace, config, replies) matches AliveProbe::ReadStat(p) ==>
            replies.len() == 2 && replies[0] == boot_id && pid == Some(p) && replies[1] != "absent"@,
        alive_after(boot_id, pid, ticks, trace, config, replies) matches AliveProbe::ReadCmdline(p) ==>
            replies.len() == 3 && replies[0] == boot_id && pid == Some(p) && replies[1] != "absent"@
            && (stat_identity(replies[2]) matches Some((state, t)) && Some(t) == ticks && state != 'Z' && state != 'X'),
        alive_after(boot_id, pid, ticks, trace, config, replies) == AliveProbe::Alive(true) ==>
            replies.len() >= 4 && replies[0] == boot_id && pid is Some && replies[1] != "absent"@
            && (stat_identity(replies[2]) matches Some((state, t)) && Some(t) == ticks && state != 'Z' && state != 'X')
            && names_owned_paths(replies[3], trace, config),
    decreases replies.len(),
{
    if replies.len() > 0 {
        let init = replies.drop_last();
        lemma_alive_prefix(boot_id, pid, ticks, trace, config, init);
        if init.len() > 0 { assert(init[0] == replies[0]); }
        if init.len() > 1 { assert(init[1] == replies[1]); }
        if init.len() > 2 { assert(init[2] == replies[2]); }
        if init.len() > 3 { assert(init[3] == replies[3]); }
    }
}

/// How parsing an unsigned integer fails, as `IntErrorKind` names it.
#[derive(Debug, Clone, Copy, PartialEq, Eq, Structural)]
pub enum IntError {
    Empty,
    InvalidDigit,
    PosOverflow,
}

pub open spec fn int_error_text(e: IntError) -> Seq<char> {
    match e {
        IntError::Empty => "cannot parse integer from empty string"@,
        IntError::InvalidDigit => "invalid digit found in string"@,
        IntError::PosOverflow => "number too large to fit in target type"@,
    }
}

impl IntError {
    pub fn message(&self) -> (r: String)
        ensures
            r@ == int_error_text(*self),
    {
        match self {
            IntError::Empty => owned("cannot parse integer from empty string"),
            IntError::InvalidDigit => owned("invalid digit found in string"),
            IntError::PosOverflow => owned("number too large to fit in target type"),
        }
    }
}

/// Digits read left to right; the first non-digit, or the first digit that
/// takes the value past `u32::MAX`, decides the error.
pub open spec fn scan_u32(d: Seq<char>) -> Result<u32, IntError>
    decreases d.len(),
{
    if d.len() == 0 {
        Ok(0)
    } else {
        match scan_u32(d.drop_last()) {
            Err(e) => Err(e),
            Ok(v) => {
                let c = d.last();
                if !('0' <= c <= '9') {
                    Err(IntError::InvalidDigit)
                } else if v * 10 + ((c as u32) - ('0' as u32)) > u32::MAX {
                    Err(IntError::PosOverflow)
                } else {
                    Ok((v * 10 + ((c as u32) - ('0' as u32))) as u32)
                }
            },
        }
    }
}

/// `str::parse::<u32>`: empty input and a lone sign are refused, a leading
/// `+` is allowed.
pub open spec fn parse_u32_spec(s: Seq<char>) -> Result<u32, IntError> {
    if s.len() == 0 {
        Err(IntError::Empty)
    } else if s.len() == 1 && (s[0] == '+' || s[0] == '-') {
        Err(IntError::InvalidDigit)
    } else if s[0] == '+' {
        scan_u32(s.skip(1))
    } else {
        scan_u32(s)
    }
}

pub fn parse_u32(s: &[char]) -> (r: Result<u32, IntError>)
    ensures
        r == parse_u32_spec(s@),
{
    if s.len() == 0 {
        return Err(IntError::Empty);
    }
    if s.len() == 1 && (s[0] == '+' || s[0] == '-') {
        return Err(IntError::InvalidDigit);
    }
    let start: usize = if s[0] == '+' { 1 } else { 0 };
    let ghost d = s@.skip(start as int);
    let mut v: u32 = 0;
    let mut i: usize = start;
    proof {
        assert(d.take(0) == Seq::<char>::empty());
        assert(s@.skip(0) == s@);
        assert(parse_u32_spec(s@) == scan_u32(d));
    }
    while i < s.len()
        invariant
            start <= i <= s@.len(),
            d == s@.skip(start as int),
            parse_u32_spec(s@) == scan_u32(d),
            scan_u32(d.take(i - start)) == Ok::<u32, IntError>(v),
        decreases s.len() - i,
    {
        let c = s[i];
        proof {
            assert(d.take(i - start + 1).drop_last() == d.take(i - start));
            assert(d.take(i - start + 1).last() == c);
        }
        if !('0' <= c && c <= '9') {
            proof { lemma_scan_error_sticks(d, i - start + 1); }
            return Err(IntError::InvalidDigit);
        }
        let digit = (c as u32) - ('0' as u32);
        if v > (u32::MAX - digit) / 10 {
            proof {
                assert(v * 10 + digit > u32::MAX) by (nonlinear_arith)
                    requires v > (u32::MAX - digit) / 10, digit <= 9;
                lemma_scan_error_sticks(d, i - start + 1);
            }
            return Err(IntError::PosOverflow);
        }
        assert(v * 10 + digit <= u32::MAX) by (nonlinear_arith)
            requires v <= (u32::MAX - digit) / 10, digit <= 9;
        v = v * 10 + digit;
        i += 1;
    }
    proof { assert(d.take(d.len() as int) == d); }
    Ok(v)
}

/// Once the scan of a prefix fails, the scan of the whole fails the same way.
proof fn lemma_scan_error_sticks(d: Seq<char>, k: int)
    requires
        0 <= k <= d.len(),
        scan_u32(d.take(k)) is Err,
    ensures
        scan_u32(d) == scan_u32(d.take(k)),
    decreases d.len() - k,
{
    if k == d.len() {
        assert(d.take(k) == d);
    } else {
        assert(d.take(k + 1).drop_last() == d.take(k));
        lemma_scan_error_sticks(d, k + 1);
    }
}

/// Why a candidate list of `pidof` was refused.
#[derive(Debug, Clone, Copy, PartialEq, Eq, Structural)]
pub enum CandidateError {
    Unparsable(IntError),
    Excessive,
}

/// `p` added to an ascending list of distinct values.
pub open spec fn sorted_insert(s: Seq<u32>, p: u32) -> Seq<u32> {
    if s.contains(p) {
        s
    } else {
        s.filter(|x: u32| x < p).push(p) + s.filter(|x: u32| x > p)
    }
}

/// The PIDs `pidof` printed, ascending and without repeats. A word that is
/// not a `u32`, a PID of 0 or 1, or a 129th distinct PID refuses the list.
pub open spec fn pid_candidates(words: Seq<Seq<char>>) -> Result<Seq<u32>, CandidateError>
    decreases words.len(),
{
    if words.len() == 0 {
        Ok(seq![])
    } else {
        match pid_candidates(words.drop_last()) {
            Err(e) => Err(e),
            Ok(set) => match parse_u32_spec(words.last()) {
                Err(k) => Err(CandidateError::Unparsable(k)),
                Ok(p) => if p > 1 && set.len() < 128 { Ok(sorted_insert(set, p)) } else { Err(CandidateError::Excessive) },
            },
        }
    }
}

pub open spec fn ascending(s: Seq<u32>) -> bool {
    forall|i: int, j: int| 0 <= i < j < s.len() ==> #[trigger] s[i] < #[trigger] s[j]
}

proof fn lemma_filter_parts(s: Seq<u32>, p: u32)
    requires
        ascending(s),
        !s.contains(p),
    ensures
        ascending(sorted_insert(s, p)),
        sorted_insert(s, p).len() == s.len() + 1,
        forall|x: u32| #[trigger] sorted_insert(s, p).contains(x) <==> (s.contains(x) || x == p),
{
    let lo = s.filter(|x: u32| x < p);
    let hi = s.filter(|x: u32| x > p);
    let k = choose_split(s, p);
    lemma_split_exists(s, p);
    assert(splits_at(s, p, k));
    assert(lo == s.take(k)) by { lemma_filter_prefix(s, p, k); }
    assert(hi == s.skip(k)) by { lemma_filter_suffix(s, p, k); }
    let r = sorted_insert(s, p);
    assert(r =~= s.take(k).push(p) + s.skip(k));
    assert forall|i: int, j: int| 0 <= i < j < r.len() implies #[trigger] r[i] < #[trigger] r[j] by {
        if j < k {
            assert(r[i] == s[i] && r[j] == s[j]);
        } else if j == k {
            assert(r[i] == s[i]);
        } else if i < k {
            assert(r[i] == s[i] && r[j] == s[j - 1]);
        } else if i == k {
            assert(r[j] == s[j - 1]);
        } else {
            assert(r[i] == s[i - 1] && r[j] == s[j - 1]);
        }
    }
    assert forall|x: u32| #[trigger] r.contains(x) <==> (s.contains(x) || x == p) by {
        if r.contains(x) {
            let i = choose|i: int| 0 <= i < r.len() && r[i] == x;
            if i < k { assert(s[i] == x); } else if i > k { assert(s[i - 1] == x); }
        }
        if s.contains(x) {
            let i = choose|i: int| 0 <= i < s.len() && s[i] == x;
            if i < k { assert(r[i] == x); } else { assert(r[i + 1] == x); }
        }
        if x == p { assert(r[k] == p); }
    }
}

/// `s` holds values below `p` before `k` and above `p` from `k` on.
spec fn splits_at(s: Seq<u32>, p: u32, k: int) -> bool {
    0 <= k <= s.len() && (forall|i: int| 0 <= i < k ==> #[trigger] s[i] < p)
        && (forall|i: int| k <= i < s.len() ==> #[trigger] s[i] > p)
}

/// The number of values below `p` in an ascending list.
spec fn choose_split(s: Seq<u32>, p: u32) -> int {
    choose|k: int| #[trigger] splits_at(s, p, k)
}

proof fn lemma_split_exists(s: Seq<u32>, p: u32)
    requires
        ascending(s),
        !s.contains(p),
    ensures
        exists|k: int| #[trigger] splits_at(s, p, k),
    decreases s.len(),
{
    if s.len() == 0 {
        assert(splits_at(s, p, 0));
    } else {
        let init = s.drop_last();
        assert(ascending(init)) by {
            assert forall|i: int, j: int| 0 <= i < j < init.len() implies #[trigger] init[i] < #[trigger] init[j] by {
                assert(init[i] == s[i] && init[j] == s[j]);
            }
        }
        assert(!init.contains(p)) by {
            if init.contains(p) {
                let i = choose|i: int| 0 <= i < init.len() && init[i] == p;
                assert(s[i] == p);
            }
        }
        lemma_split_exists(init, p);
        let k = choose|k: int| #[trigger] splits_at(init, p, k);
        assert(s.last() != p);
        if s.last() < p {
            assert(k == init.len()) by {
                if k < init.len() {
                    assert(init[k] > p);
                    assert(s[k] < s[s.len() - 1]);
                }
            }
            assert forall|i: int| 0 <= i < s.len() implies #[trigger] s[i] < p by {
                if i < init.len() { assert(init[i] == s[i]); }
            }
            assert(splits_at(s, p, s.len() as int));
        } else {
            assert forall|i: int| 0 <= i < k implies #[trigger] s[i] < p by {
                assert(init[i] == s[i]);
            }
            assert forall|i: int| k <= i < s.len() implies #[trigger] s[i] > p by {
                if i < init.len() { assert(init[i] == s[i]); }
            }
            assert(splits_at(s, p, k));
        }
    }
}

proof fn lemma_filter_prefix(s: Seq<u32>, p: u32, k: int)
    requires
        ascending(s),
        !s.contains(p),
        k == choose_split(s, p),
    ensures
        s.filter(|x: u32| x < p) == s.take(k),
{
    lemma_split_exists(s, p);
    assert(splits_at(s, p, k));
    lemma_filter_take(s, p, s.len() as int, k);
    assert(s.take(s.len() as int) == s);
}

proof fn lemma_filter_take(s: Seq<u32>, p: u32, n: int, k: int)
    requires
        0 <= n <= s.len(),
        0 <= k <= s.len(),
        forall|i: int| 0 <= i < k ==> #[trigger] s[i] < p,
        forall|i: int| k <= i < s.len() ==> #[trigger] s[i] > p,
    ensures
        s.take(n).filter(|x: u32| x < p) == s.take(if n < k { n } else { k }),
    decreases n,
{
    if n > 0 {
        lemma_filter_take(s, p, n - 1, k);
        let t = s.take(n);
        assert(t.drop_last() == s.take(n - 1));
        assert(t.last() == s[n - 1]);
        reveal(Seq::filter);
        if n - 1 < k {
            assert(s.take(n - 1).push(s[n - 1]) == s.take(n));
        }
    } else {
        assert(s.take(0).filter(|x: u32| x < p) =~= Seq::<u32>::empty()) by { reveal(Seq::filter); }
    }
}

proof fn lemma_filter_suffix(s: Seq<u32>, p: u32, k: int)
    requires
        ascending(s),
        !s.contains(p),
        k == choose_split(s, p),
    ensures
        s.filter(|x: u32| x > p) == s.skip(k),
{
    lemma_split_exists(s, p);
    assert(splits_at(s, p, k));
    lemma_filter_gt(s, p, s.len() as int, k);
    assert(s.take(s.len() as int) == s);
}

proof fn lemma_filter_gt(s: Seq<u32>, p: u32, n: int, k: int)
    requires
        0 <= n <= s.len(),
        0 <= k <= s.len(),
        forall|i: int| 0 <= i < k ==> #[trigger] s[i] < p,
        forall|i: int| k <= i < s.len() ==> #[trigger] s[i] > p,
    ensures
        s.take(n).filter(|x: u32| x > p) == (if n <= k { Seq::<u32>::empty() } else { s.subrange(k, n) }),
    decreases n,
{
    reveal(Seq::filter);
    if n > 0 {
        lemma_filter_gt(s, p, n - 1, k);
        let t = s.take(n);
        assert(t.drop_last() == s.take(n - 1));
        assert(t.last() == s[n - 1]);
        if n - 1 >= k {
            if n - 1 == k {
                assert(s.subrange(k, n) =~= seq![s[k]]);
                assert(Seq::<u32>::empty().push(s[k]) =~= seq![s[k]]);
            } else {
                assert(s.subrange(k, n - 1).push(s[n - 1]) =~= s.subrange(k, n));
            }
        }
    } else {
        assert(s.take(0).filter(|x: u32| x > p) =~= Seq::<u32>::empty());
    }
}

proof fn lemma_sorted_insert_at(s: Seq<u32>, p: u32, k: int)
    requires
        ascending(s),
        !s.contains(p),
        splits_at(s, p, k),
    ensures
        sorted_insert(s, p) == s.take(k).push(p) + s.skip(k),
{
    let c = choose_split(s, p);
    lemma_split_exists(s, p);
    assert(splits_at(s, p, c));
    if c < k {
        assert(s[c] > p && s[c] < p);
    }
    if k < c {
        assert(s[k] > p && s[k] < p);
    }
    lemma_filter_prefix(s, p, c);
    lemma_filter_suffix(s, p, c);
}

/// Adds `p` to an ascending list of distinct values.
fn insert_sorted(v: &mut Vec<u32>, p: u32)
    requires
        ascending(old(v)@),
    ensures
        final(v)@ == sorted_insert(old(v)@, p),
        ascending(final(v)@),
{
    let mut k: usize = 0;
    while k < v.len() && v[k] < p
        invariant
            k <= v@.len(),
            v@ == old(v)@,
            forall|i: int| 0 <= i < k ==> #[trigger] v@[i] < p,
        decreases v.len() - k,
    {
        k += 1;
    }
    if k < v.len() && v[k] == p {
        assert(v@.contains(p));
        return;
    }
    proof {
        assert forall|i: int| k <= i < v@.len() implies #[trigger] v@[i] > p by {
            assert(v@[k as int] > p);
            if i > k { assert(v@[k as int] < v@[i]); }
        }
        assert(splits_at(v@, p, k as int));
        assert(!v@.contains(p)) by {
            if v@.contains(p) {
                let i = choose|i: int| 0 <= i < v@.len() && v@[i] == p;
            }
        }
        lemma_sorted_insert_at(v@, p, k as int);
        lemma_filter_parts(v@, p);
    }
    v.insert(k, p);
    assert(v@ =~= old(v)@.take(k as int).push(p) + old(v)@.skip(k as int));
}

/// The PIDs printed by `pidof`, ascending and without repeats.
pub fn parse_pid_candidates(text: &str) -> (r: Result<Vec<u32>, CandidateError>)
    ensures
        match (r, pid_candidates(words_of(text@))) {
            (Ok(v), Ok(s)) => v@ == s,
            (Err(e), Err(f)) => e == f,
            _ => false,
        },
{
    let chars = str_chars(text);
    let words = split_words(chars.as_slice());
    let ghost ws = chars_of(words@);
    let mut out: Vec<u32> = Vec::new();
    let mut i: usize = 0;
    while i < words.len()
        invariant
            i <= words@.len(),
            ws == chars_of(words@),
            ws == words_of(text@),
            pid_candidates(ws.take(i as int)) == Ok::<Seq<u32>, CandidateError>(out@),
            ascending(out@),
        decreases words.len() - i,
    {
        proof {
            assert(ws.take(i + 1).drop_last() == ws.take(i as int));
            assert(ws.take(i + 1).last() == words@[i as int]@);
        }
        match parse_u32(words[i].as_slice()) {
            Err(k) => {
                proof { lemma_candidates_error_sticks(ws, i + 1); }
                return Err(CandidateError::Unparsable(k));
            },
            Ok(p) => {
                if !(p > 1 && out.len() < 128) {
                    proof { lemma_candidates_error_sticks(ws, i + 1); }
                    return Err(CandidateError::Excessive);
                }
                insert_sorted(&mut out, p);
            },
        }
        i += 1;
    }
    proof { assert(ws.take(ws.len() as int) == ws); }
    Ok(out)
}

proof fn lemma_candidates_error_sticks(ws: Seq<Seq<char>>, k: int)
    requires
        0 <= k <= ws.len(),
        pid_candidates(ws.take(k)) is Err,
    ensures
        pid_candidates(ws) == pid_candidates(ws.take(k)),
    decreases ws.len() - k,
{
    if k == ws.len() {
        assert(ws.take(k) == ws);
    } else {
        assert(ws.take(k + 1).drop_last() == ws.take(k));
        lemma_candidates_error_sticks(ws, k + 1);
    }
}

/// Why re-identifying the owned Perfetto process failed.
#[derive(Debug)]
pub enum IdentityRefusal {
    Rebooted,
    /// `pidof` failed; its stderr, lossily decoded.
    CannotEnumerate(String),
    Candidates(CandidateError),
    MalformedLifetime,
    LifetimeChanged,
    Ambiguous,
}

pub open spec fn identity_refusal_text(r: IdentityRefusal) -> Seq<char> {
    match r {
        IdentityRefusal::Rebooted => "Device rebooted; do not signal a previous boot's process"@,
        IdentityRefusal::CannotEnumerate(e) => "Cannot enumerate Perfetto processes: "@ + e@,
        IdentityRefusal::Candidates(CandidateError::Unparsable(k)) => int_error_text(k),
        IdentityRefusal::Candidates(CandidateError::Excessive) => "Invalid or excessive Perfetto process candidates"@,
        IdentityRefusal::MalformedLifetime => "Malformed process lifetime"@,
        IdentityRefusal::LifetimeChanged => "Process lifetime changed during recovery identification"@,
        IdentityRefusal::Ambiguous => "Multiple processes reference this trace; ownership is ambiguous"@,
    }
}

impl IdentityRefusal {
    pub fn message(&self) -> (r: String)
        ensures
            r@ == identity_refusal_text(*self),
    {
        match self {
            IdentityRefusal::Rebooted => owned("Device rebooted; do not signal a previous boot's process"),
            IdentityRefusal::CannotEnumerate(e) => {
                let mut out: Vec<char> = Vec::new();
                push_str(&mut out, "Cannot enumerate Perfetto processes: ");
                push_str(&mut out, e.as_str());
                string_from_chars(out.as_slice())
            },
            IdentityRefusal::Candidates(CandidateError::Unparsable(k)) => k.message(),
            IdentityRefusal::Candidates(CandidateError::Excessive) => owned("Invalid or excessive Perfetto process candidates"),
            IdentityRefusal::MalformedLifetime => owned("Malformed process lifetime"),
            IdentityRefusal::LifetimeChanged => owned("Process lifetime changed during recovery identification"),
            IdentityRefusal::Ambiguous => owned("Multiple processes reference this trace; ownership is ambiguous"),
        }
    }
}

/// Where a re-identification stands.
#[derive(Debug, Clone, Copy, PartialEq, Eq, Structural)]
pub enum IdentityStep {
    ReadBoot,
    ListPids,
    StatBefore(usize),
    Cmdline(usize),
    StatAfter(usize),
    Done,
    Refused,
}

/// Re-identifies a launched Perfetto process whose PID was lost: only a
/// unique process whose command names both owned paths and whose lifetime
/// stays stable is accepted, never an arbitrary `pidof` match.
#[derive(Debug)]
pub struct IdentitySearch {
    pub step: IdentityStep,
    pub candidates: Vec<u32>,
    pub before_ticks: u64,
    pub found: Option<(u32, u64)>,
    pub refusal: Option<IdentityRefusal>,
}

pub open spec fn next_candidate(i: usize, count: nat) -> IdentityStep {
    if i + 1 < count { IdentityStep::StatBefore((i + 1) as usize) } else { IdentityStep::Done }
}

impl IdentitySearch {
    /// Step indices name candidates.
    pub open spec fn well_formed(&self) -> bool {
        match self.step {
            IdentityStep::StatBefore(i) => i < self.candidates@.len(),
            IdentityStep::Cmdline(i) => i < self.candidates@.len(),
            IdentityStep::StatAfter(i) => i < self.candidates@.len(),
            _ => true,
        }
    }

    /// A refusal is recorded exactly when the search refused.
    pub open spec fn consistent(&self) -> bool {
        self.refusal is Some <==> self.step == IdentityStep::Refused
    }

    pub fn start() -> (r: Self)
        ensures
            r.consistent(),
            r.step == IdentityStep::ReadBoot,
            r.candidates@.len() == 0,
            r.found is None,
            r.refusal is None,
            r.well_formed(),
    {
        IdentitySearch { step: IdentityStep::ReadBoot, candidates: Vec::new(), before_ticks: 0, found: None, refusal: None }
    }

    fn next(&self, i: usize) -> (r: IdentityStep)
        requires
            i < self.candidates@.len(),
        ensures
            r == next_candidate(i, self.candidates@.len()),
    {
        if i < self.candidates.len() - 1 { IdentityStep::StatBefore(i + 1) } else { IdentityStep::Done }
    }

    /// The phone query of the current step; none once decided.
    pub fn query(&self) -> (r: Option<Vec<String>>)
        requires
            self.well_formed(),
        ensures
            match self.step {
                IdentityStep::ReadBoot => r matches Some(v) && strings_view(v@) == seq!["cat"@, "/proc/sys/kernel/random/boot_id"@],
                IdentityStep::ListPids => r matches Some(v) && strings_view(v@) == seq!["pidof"@, "perfetto"@],
                IdentityStep::StatBefore(i) => r matches Some(v) && strings_view(v@) == seq!["cat"@, proc_path(self.candidates@[i as int], "/stat"@)],
                IdentityStep::StatAfter(i) => r matches Some(v) && strings_view(v@) == seq!["cat"@, proc_path(self.candidates@[i as int], "/stat"@)],
                IdentityStep::Cmdline(i) => r matches Some(v) && strings_view(v@) == seq!["cat"@, proc_path(self.candidates@[i as int], "/cmdline"@)],
                _ => r is None,
            },
    {
        let mut v: Vec<String> = Vec::new();
        match self.step {
            IdentityStep::ReadBoot => {
                v.push(owned("cat"));
                v.push(owned("/proc/sys/kernel/random/boot_id"));
            },
            IdentityStep::ListPids => {
                v.push(owned("pidof"));
                v.push(owned("perfetto"));
            },
            IdentityStep::StatBefore(i) | IdentityStep::StatAfter(i) => {
                v.push(owned("cat"));
                let f = proc_file(self.candidates[i], "/stat");
                v.push(string_from_chars(f.as_slice()));
            },
            IdentityStep::Cmdline(i) => {
                v.push(owned("cat"));
                let f = proc_file(self.candidates[i], "/cmdline");
                v.push(string_from_chars(f.as_slice()));
            },
            _ => {
                return None;
            },
        }
        proof {
            assert(strings_view(v@) =~= seq![v@[0]@, v@[1]@]);
        }
        Some(v)
    }

    /// After the boot read: a different boot refuses, else list the PIDs.
    pub fn on_boot(&mut self, owner: &PerfettoOwner, boot: &str)
        requires
            old(self).step == IdentityStep::ReadBoot,
        ensures
            final(self).step == (if boot@ == owner.boot_id@ { IdentityStep::ListPids } else { IdentityStep::Refused }),
            boot@ != owner.boot_id@ ==> final(self).refusal matches Some(IdentityRefusal::Rebooted),
            boot@ == owner.boot_id@ ==> final(self).refusal == old(self).refusal,
            final(self).candidates@ == old(self).candidates@,
            final(self).before_ticks == old(self).before_ticks,
            final(self).found == old(self).found,
            old(self).consistent() ==> final(self).consistent(),
            final(self).well_formed(),
    {
        if str_eq(boot, owner.boot_id.as_str()) {
            self.step = IdentityStep::ListPids;
        } else {
            self.step = IdentityStep::Refused;
            self.refusal = Some(IdentityRefusal::Rebooted);
        }
    }

    /// After `pidof perfetto`: exit 1 with an empty stderr means no process;
    /// any other failure refuses; the PIDs become the candidates.
    pub fn on_pid_list(&mut self, success: bool, code: Option<i32>, stdout: &[u8], stderr: &[u8])
        requires
            old(self).step == IdentityStep::ListPids,
        ensures
            !(success || (code == Some(1i32) && stderr@.len() == 0)) ==> final(self).step == IdentityStep::Refused
                && (final(self).refusal matches Some(IdentityRefusal::CannotEnumerate(e)) && e@ == crate::text::utf8_lossy(stderr@)),
            (success || (code == Some(1i32) && stderr@.len() == 0)) ==> match pid_candidates(words_of(crate::text::utf8_lossy(stdout@))) {
                Err(e) => final(self).step == IdentityStep::Refused
                    && (final(self).refusal matches Some(IdentityRefusal::Candidates(x)) && x == e),
                Ok(pids) => final(self).candidates@ == pids
                    && final(self).step == (if pids.len() > 0 { IdentityStep::StatBefore(0) } else { IdentityStep::Done }),
            },
            final(self).step != IdentityStep::Refused ==> final(self).refusal == old(self).refusal,
            final(self).step == IdentityStep::Refused ==> final(self).candidates@ == old(self).candidates@,
            final(self).before_ticks == old(self).before_ticks,
            final(self).found == old(self).found,
            old(self).consistent() ==> final(self).consistent(),
            final(self).well_formed(),
    {
        if !(success || (code == Some(1i32) && stderr.len() == 0)) {
            self.step = IdentityStep::Refused;
            self.refusal = Some(IdentityRefusal::CannotEnumerate(crate::text::lossy_text(stderr)));
            return;
        }
        let text = crate::text::lossy_text(stdout);
        match parse_pid_candidates(text.as_str()) {
            Err(e) => {
                self.step = IdentityStep::Refused;
                self.refusal = Some(IdentityRefusal::Candidates(e));
            },
            Ok(pids) => {
                let n = pids.len();
                self.candidates = pids;
                self.step = if n > 0 { IdentityStep::StatBefore(0) } else { IdentityStep::Done };
            },
        }
    }

    /// After a candidate's first stat read: remember its start time.
    pub fn on_stat_before(&mut self, stat: &str)
        requires
            old(self).step matches IdentityStep::StatBefore(i) && i < old(self).candidates@.len(),
        ensures
            old(self).step matches IdentityStep::StatBefore(i) && match stat_identity(stat@) {
                None => final(self).step == IdentityStep::Refused
                    && final(self).refusal matches Some(IdentityRefusal::MalformedLifetime),
                Some((_, t)) => final(self).step == IdentityStep::Cmdline(i) && final(self).before_ticks == t,
            },
            final(self).step != IdentityStep::Refused ==> final(self).refusal == old(self).refusal,
            final(self).step == IdentityStep::Refused ==> final(self).before_ticks == old(self).before_ticks,
            final(self).candidates@ == old(self).candidates@,
            final(self).found == old(self).found,
            old(self).consistent() ==> final(self).consistent(),
            final(self).well_formed(),
    {
        let i = match self.step {
            IdentityStep::StatBefore(i) => i,
            _ => 0,
        };
        match process_identity(stat) {
            None => {
                self.step = IdentityStep::Refused;
                self.refusal = Some(IdentityRefusal::MalformedLifetime);
            },
            Some((_, t)) => {
                self.before_ticks = t;
                self.step = IdentityStep::Cmdline(i);
            },
        }
    }

    /// After a candidate's command line: a process not naming both owned
    /// paths is skipped.
    pub fn on_cmdline(&mut self, owner: &PerfettoOwner, cmdline: &str)
        requires
            old(self).step matches IdentityStep::Cmdline(i) && i < old(self).candidates@.len(),
        ensures
            old(self).step matches IdentityStep::Cmdline(i) && final(self).step == (
                if names_owned_paths(cmdline@, owner.remote_trace@, owner.remote_config@) {
                    IdentityStep::StatAfter(i)
                } else {
                    next_candidate(i, old(self).candidates@.len())
                }),
            final(self).refusal == old(self).refusal,
            final(self).candidates@ == old(self).candidates@,
            final(self).before_ticks == old(self).before_ticks,
            final(self).found == old(self).found,
            old(self).consistent() ==> final(self).consistent(),
            final(self).well_formed(),
    {
        let i = match self.step {
            IdentityStep::Cmdline(i) => i,
            _ => 0,
        };
        let v = str_chars(cmdline);
        let parts = crate::text::split_at_char(v.as_slice(), '\0');
        if names_path(&parts, owner.remote_config.as_str()) && names_path(&parts, owner.remote_trace.as_str()) {
            self.step = IdentityStep::StatAfter(i);
        } else {
            self.step = self.next(i);
        }
    }

    /// After a candidate's second stat read: its lifetime must not have
    /// changed; a dead process is skipped; a second live owner refuses.
    pub fn on_stat_after(&mut self, stat: &str)
        requires
            old(self).step matches IdentityStep::StatAfter(i) && i < old(self).candidates@.len(),
        ensures
            old(self).step matches IdentityStep::StatAfter(i) && match stat_identity(stat@) {
                None => final(self).step == IdentityStep::Refused
                    && final(self).refusal matches Some(IdentityRefusal::MalformedLifetime),
                Some((state, t)) => if t != old(self).before_ticks {
                    final(self).step == IdentityStep::Refused
                        && final(self).refusal matches Some(IdentityRefusal::LifetimeChanged)
                } else if state == 'Z' || state == 'X' {
                    final(self).step == next_candidate(i, old(self).candidates@.len()) && final(self).found == old(self).found
                } else if old(self).found is Some {
                    final(self).step == IdentityStep::Refused
                        && final(self).refusal matches Some(IdentityRefusal::Ambiguous)
                } else {
                    final(self).step == next_candidate(i, old(self).candidates@.len())
                        && final(self).found == Some((old(self).candidates@[i as int], old(self).before_ticks))
                },
            },
            final(self).step != IdentityStep::Refused ==> final(self).refusal == old(self).refusal,
            final(self).step == IdentityStep::Refused ==> final(self).found == old(self).found,
            final(self).candidates@ == old(self).candidates@,
            final(self).before_ticks == old(self).before_ticks,
            old(self).consistent() ==> final(self).consistent(),
            final(self).well_formed(),
    {
        let i = match self.step {
            IdentityStep::StatAfter(i) => i,
            _ => 0,
        };
        match process_identity(stat) {
            None => {
                self.step = IdentityStep::Refused;
                self.refusal = Some(IdentityRefusal::MalformedLifetime);
            },
            Some((state, t)) => {
                if t != self.before_ticks {
                    self.step = IdentityStep::Refused;
                    self.refusal = Some(IdentityRefusal::LifetimeChanged);
                } else if state == 'Z' || state == 'X' {
                    self.step = self.next(i);
                } else if self.found.is_some() {
                    self.step = IdentityStep::Refused;
                    self.refusal = Some(IdentityRefusal::Ambiguous);
                } else {
                    self.found = Some((self.candidates[i], self.before_ticks));
                    self.step = self.next(i);
                }
            },
        }
    }
}

impl PerfettoOwner {
    /// PID and start time are both confirmed.
    pub fn identity_known(&self) -> (r: bool)
        ensures
            r == (self.pid is Some && self.process_start_ticks is Some),
    {
        self.pid.is_some() && self.process_start_ticks.is_some()
    }
}

/// What to do after a failed start, given `test -f` on the remote trace:
/// pull it when present; report nothing when it is cleanly absent (exit 1,
/// empty stderr); otherwise the check itself failed.
pub fn failed_start_trace_present(success: bool, code: Option<i32>, stderr_empty: bool) -> (r: Option<bool>)
    ensures
        r == (if success { Some(true) } else if code == Some(1i32) && stderr_empty { Some(false) } else { None::<bool> }),
{
    if success {
        Some(true)
    } else if code == Some(1i32) && stderr_empty {
        Some(false)
    } else {
        None
    }
}

/// The route of a recovery after reading the phone's boot identity.
#[derive(Debug, Clone, Copy, PartialEq, Eq, Structural)]
pub enum RecoveryRoute {
    /// The boot identity is unavailable: reconnect the original phone.
    BootUnavailable,
    /// Another boot: only retrieve the nonce-scoped trace, never signal.
    PullOnly,
    /// Same boot: re-identify the process, then stop it before pulling.
    Identify,
}

impl PerfettoOwner {
    /// Never signal a PID from a previous boot, even when the phone reused
    /// its number.
    pub fn recovery_route(&self, boot: &str) -> (r: RecoveryRoute)
        ensures
            r == (if boot@.len() == 0 {
                RecoveryRoute::BootUnavailable
            } else if boot@ != self.boot_id@ {
                RecoveryRoute::PullOnly
            } else {
                RecoveryRoute::Identify
            }),
    {
        let v = str_chars(boot);
        if v.len() == 0 {
            RecoveryRoute::BootUnavailable
        } else if !str_eq(boot, self.boot_id.as_str()) {
            RecoveryRoute::PullOnly
        } else {
            RecoveryRoute::Identify
        }
    }
}

/// The PID `perfetto --background-wait` printed: the first line that reads
/// as a `u32` once trimmed, kept only when it is above 1.
pub open spec fn first_number_line(lines: Seq<Seq<char>>) -> Option<u32>
    decreases lines.len(),
{
    if lines.len() == 0 {
        None
    } else {
        match parse_u32_spec(crate::text::trim(lines[0])) {
            Ok(p) => Some(p),
            Err(_) => first_number_line(lines.skip(1)),
        }
    }
}

pub open spec fn launched_pid_of(stdout: Seq<char>) -> Option<u32> {
    match first_number_line(crate::text::lines_of(stdout)) {
        Some(p) => if p > 1 { Some(p) } else { None },
        None => None,
    }
}

pub fn launched_pid(stdout: &str) -> (r: Option<u32>)
    ensures
        r == launched_pid_of(stdout@),
{
    let chars = str_chars(stdout);
    let lines = crate::text::split_lines(chars.as_slice());
    let ghost ls = chars_of(lines@);
    let mut i: usize = 0;
    proof { assert(ls.skip(0) == ls); }
    while i < lines.len()
        invariant
            i <= lines@.len(),
            ls == chars_of(lines@),
            ls == crate::text::lines_of(stdout@),
            first_number_line(ls.skip(i as int)) == first_number_line(ls),
        decreases lines.len() - i,
    {
        proof {
            let t = ls.skip(i as int);
            assert(t[0] == lines@[i as int]@);
            assert(t.skip(1) == ls.skip(i + 1));
        }
        let t = crate::text::trim_chars(lines[i].as_slice());
        match parse_u32(t.as_slice()) {
            Ok(p) => {
                return if p > 1 { Some(p) } else { None };
            },
            Err(_) => {},
        }
        i += 1;
    }
    proof { assert(ls.skip(i as int) == Seq::<Seq<char>>::empty()); }
    None
}

/// A download may replace an existing complete trace only when it is whole:
/// not truncated, and the end-of-trace statistics were seen.
pub fn download_complete(quality: &crate::perfetto::TraceQuality) -> (r: bool)
    ensures
        r == (!quality.truncated && quality.ftrace_end_seen),
{
    !quality.truncated && quality.ftrace_end_seen
}

} // verus!
