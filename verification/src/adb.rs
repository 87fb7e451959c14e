//! ADB device listing, serial validation and command construction. Running
//! the commands is left to the caller; everything decided about their text
//! and their output is here.
use vstd::prelude::*;
use crate::text::{
    chars_eq_str, chars_of, chars_start_with, first_index_of, lines_of, owned, split_lines,
    split_words, str_chars, string_from_chars, trim, trim_chars, words_of, starts_with,
    lemma_first_index_of, find_from, slice_chars, push_str,
};

verus! {

/// The output of `id -u` names the root user.
pub fn is_root_uid(output: &str) -> (r: bool)
    ensures
        r == (trim(output@) == seq!['0']),
{
    let v = str_chars(output);
    let t = trim_chars(v.as_slice());
    let r = t.len() == 1 && t[0] == '0';
    proof {
        if t.len() == 1 && t[0] == '0' {
            assert(t@ =~= seq!['0']);
        }
    }
    r
}

#[derive(Debug, Clone, Copy, PartialEq, Eq, Structural)]
pub enum DeviceState {
    Device,
    Unauthorized,
    Offline,
    Other,
}

/// One row of `adb devices -l`.
#[derive(Debug)]
pub struct AdbDevice {
    pub serial: String,
    pub state: DeviceState,
    pub model: Option<String>,
    pub product: Option<String>,
    pub device: Option<String>,
}

pub struct DeviceView {
    pub serial: Seq<char>,
    pub state: DeviceState,
    pub model: Option<Seq<char>>,
    pub product: Option<Seq<char>>,
    pub device: Option<Seq<char>>,
}

pub open spec fn opt_chars(o: Option<String>) -> Option<Seq<char>> {
    match o {
        Some(s) => Some(s@),
        None => None,
    }
}

impl View for AdbDevice {
    type V = DeviceView;

    open spec fn view(&self) -> DeviceView {
        DeviceView {
            serial: self.serial@,
            state: self.state,
            model: opt_chars(self.model),
            product: opt_chars(self.product),
            device: opt_chars(self.device),
        }
    }
}

pub open spec fn devices_view(v: Seq<AdbDevice>) -> Seq<DeviceView> {
    v.map_values(|d: AdbDevice| d@)
}

/// A serial character: ASCII letter or digit, or one of `._:-`.
pub open spec fn serial_char(c: char) -> bool {
    ('a' <= c <= 'z') || ('A' <= c <= 'Z') || ('0' <= c <= '9') || c == '.' || c == '_' || c == ':' || c == '-'
}

/// A serial that is safe to hand to `adb -s`: not empty, not an option
/// (no leading `-`), and made of serial characters only.
pub open spec fn valid_serial(s: Seq<char>) -> bool {
    &&& s.len() > 0
    &&& s[0] != '-'
    &&& forall|i: int| 0 <= i < s.len() ==> serial_char(#[trigger] s[i])
}

fn valid_serial_chars(v: &[char]) -> (r: bool)
    ensures
        r == valid_serial(v@),
{
    if v.len() == 0 || v[0] == '-' {
        return false;
    }
    let mut i: usize = 0;
    while i < v.len()
        invariant
            i <= v@.len(),
            forall|j: int| 0 <= j < i ==> serial_char(#[trigger] v@[j]),
        decreases v.len() - i,
    {
        let c = v[i];
        let ok = ('a' <= c && c <= 'z') || ('A' <= c && c <= 'Z') || ('0' <= c && c <= '9') || c == '.' || c == '_' || c == ':' || c == '-';
        if !ok {
            return false;
        }
        i += 1;
    }
    true
}

pub fn is_valid_serial(value: &str) -> (r: bool)
    ensures
        r == valid_serial(value@),
{
    let v = str_chars(value);
    valid_serial_chars(v.as_slice())
}

/// The state word of a listing row.
pub open spec fn state_of(w: Seq<char>) -> DeviceState {
    if w == "device"@ {
        DeviceState::Device
    } else if w == "unauthorized"@ {
        DeviceState::Unauthorized
    } else if w == "offline"@ {
        DeviceState::Offline
    } else {
        DeviceState::Other
    }
}

/// The value of the last `key:value` field with the given key.
pub open spec fn meta_value(fields: Seq<Seq<char>>, key: Seq<char>) -> Option<Seq<char>>
    decreases fields.len(),
{
    if fields.len() == 0 {
        None
    } else {
        let f = fields.last();
        match first_index_of(f, ':') {
            Some(k) => if f.take(k) == key { Some(f.skip(k + 1)) } else { meta_value(fields.drop_last(), key) },
            None => meta_value(fields.drop_last(), key),
        }
    }
}

/// A listing row: serial, state, then `key:value` metadata. Rows with fewer
/// than two words or an unsafe serial are skipped.
pub open spec fn device_row(line: Seq<char>) -> Option<DeviceView> {
    let w = words_of(line);
    if w.len() < 2 || !valid_serial(w[0]) {
        None
    } else {
        let meta = w.skip(2);
        Some(DeviceView {
            serial: w[0],
            state: state_of(w[1]),
            model: meta_value(meta, "model"@),
            product: meta_value(meta, "product"@),
            device: meta_value(meta, "device"@),
        })
    }
}

/// The lines after the `List of devices` header; none without a header.
pub open spec fn after_header(lines: Seq<Seq<char>>) -> Seq<Seq<char>>
    decreases lines.len(),
{
    if lines.len() == 0 {
        seq![]
    } else if starts_with(lines[0], "List of devices"@) {
        lines.skip(1)
    } else {
        after_header(lines.skip(1))
    }
}

/// The devices of the rows, in order, skipping rows that are not devices.
pub open spec fn device_rows(lines: Seq<Seq<char>>) -> Seq<DeviceView>
    decreases lines.len(),
{
    if lines.len() == 0 {
        seq![]
    } else {
        let rest = device_rows(lines.drop_last());
        match device_row(lines.last()) {
            Some(d) => rest.push(d),
            None => rest,
        }
    }
}

fn state_word(w: &[char]) -> (r: DeviceState)
    ensures
        r == state_of(w@),
{
    if chars_eq_str(w, "device") {
        DeviceState::Device
    } else if chars_eq_str(w, "unauthorized") {
        DeviceState::Unauthorized
    } else if chars_eq_str(w, "offline") {
        DeviceState::Offline
    } else {
        DeviceState::Other
    }
}

/// Looks up one metadata key among the words after the state.
fn metadata(words: &Vec<Vec<char>>, key: &str) -> (r: Option<String>)
    requires
        words@.len() >= 2,
    ensures
        opt_chars(r) == meta_value(chars_of(words@).skip(2), key@),
{
    let ghost meta = chars_of(words@).skip(2);
    let mut found: Option<String> = None;
    let mut i: usize = 2;
    while i < words.len()
        invariant
            2 <= i <= words@.len(),
            meta == chars_of(words@).skip(2),
            opt_chars(found) == meta_value(meta.take(i - 2), key@),
        decreases words.len() - i,
    {
        let f = &words[i];
        proof {
            assert(meta.take(i - 1).drop_last() == meta.take(i - 2));
            assert(meta.take(i - 1).last() == f@);
        }
        match find_from(f.as_slice(), 0, ':') {
            Some(k) => {
                proof { assert(f@.skip(0) == f@); }
                let name = slice_chars(f.as_slice(), 0, k);
                proof { assert(name@ == f@.take(k as int)); }
                if chars_eq_str(name.as_slice(), key) {
                    assert(k < f.len());
                    let value = slice_chars(f.as_slice(), k + 1, f.len());
                    proof { assert(value@ == f@.skip(k + 1)); }
                    found = Some(string_from_chars(value.as_slice()));
                }
            },
            None => {
                proof { assert(f@.skip(0) == f@); }
            },
        }
        i += 1;
    }
    proof { assert(meta.take(words@.len() - 2) == meta); }
    found
}

fn device_row_of(line: &Vec<char>) -> (r: Option<AdbDevice>)
    ensures
        match r {
            Some(d) => device_row(line@) == Some(d@),
            None => device_row(line@) is None,
        },
{
    let words = split_words(line.as_slice());
    if words.len() < 2 {
        return None;
    }
    proof {
        assert(chars_of(words@)[0] == words@[0]@);
        assert(chars_of(words@)[1] == words@[1]@);
    }
    if !valid_serial_chars(words[0].as_slice()) {
        return None;
    }
    let serial = string_from_chars(words[0].as_slice());
    let state = state_word(words[1].as_slice());
    let model = metadata(&words, "model");
    let product = metadata(&words, "product");
    let device = metadata(&words, "device");
    Some(AdbDevice { serial, state, model, product, device })
}

/// Parses `adb devices -l` output: the rows after the `List of devices`
/// header that name a valid serial and a state.
pub fn parse_devices(output: &str) -> (r: Vec<AdbDevice>)
    ensures
        devices_view(r@) == device_rows(after_header(lines_of(output@))),
{
    let chars = str_chars(output);
    let lines = split_lines(chars.as_slice());
    let ghost ls = chars_of(lines@);
    let mut h: usize = 0;
    proof { assert(ls.skip(0) == ls); }
    while h < lines.len() && !chars_start_with(lines[h].as_slice(), "List of devices")
        invariant
            h <= lines@.len(),
            ls == chars_of(lines@),
            ls == lines_of(output@),
            after_header(ls.skip(h as int)) == after_header(ls),
        decreases lines.len() - h,
    {
        proof {
            let t = ls.skip(h as int);
            assert(t[0] == lines@[h as int]@);
            assert(t.skip(1) == ls.skip(h + 1));
        }
        h += 1;
    }
    let mut out: Vec<AdbDevice> = Vec::new();
    if h == lines.len() {
        proof {
            assert(ls.skip(h as int) == Seq::<Seq<char>>::empty());
            assert(devices_view(out@) =~= device_rows(after_header(ls)));
        }
        return out;
    }
    proof {
        let t = ls.skip(h as int);
        assert(t[0] == lines@[h as int]@);
        assert(t.skip(1) == ls.skip(h + 1));
    }
    let ghost rows = ls.skip(h + 1);
    let mut i: usize = h + 1;
    while i < lines.len()
        invariant
            h + 1 <= i <= lines@.len(),
            ls == chars_of(lines@),
            rows == ls.skip(h + 1),
            devices_view(out@) == device_rows(rows.take(i - h - 1)),
        decreases lines.len() - i,
    {
        let ghost prev = out@;
        proof {
            let k = i - h - 1;
            assert(rows.take(k + 1).drop_last() == rows.take(k));
            assert(rows.take(k + 1).last() == lines@[i as int]@);
        }
        match device_row_of(&lines[i]) {
            Some(d) => {
                out.push(d);
                proof { assert(devices_view(out@) == devices_view(prev).push(out@.last()@)); }
            },
            None => {},
        }
        i += 1;
    }
    proof { assert(rows.take(lines@.len() - h - 1) == rows); }
    out
}

/// A program and its arguments.
#[derive(Debug)]
pub struct CommandSpec {
    pub program: String,
    pub args: Vec<String>,
}

pub open spec fn strings_of(v: Seq<String>) -> Seq<Seq<char>> {
    v.map_values(|s: String| s@)
}

pub open spec fn strs_of(v: Seq<&str>) -> Seq<Seq<char>> {
    v.map_values(|s: &str| s@)
}

/// The ADB program bound to one validated device serial.
#[derive(Debug)]
pub struct AdbCommandBuilder {
    adb_path: String,
    serial: String,
}

#[derive(Debug, Clone, Copy, PartialEq, Eq, Structural)]
pub enum RootMethod {
    Shell,
    SuCommand,
    SuUid,
}

impl Default for RootMethod {
    fn default() -> (r: Self)
        ensures
            r == RootMethod::Shell,
    {
        RootMethod::Shell
    }
}

/// Errors of the ADB layer.
#[derive(Debug)]
pub enum AdbError {
    InvalidSerial,
    Io(String),
    Command { operation: String, message: String },
    MissingArtifact(String),
}

pub open spec fn adb_error_text(e: AdbError) -> Seq<char> {
    match e {
        AdbError::InvalidSerial => "invalid ADB serial"@,
        AdbError::Io(m) => "ADB I/O failed: "@ + m@,
        AdbError::Command { operation, message } => "ADB command failed ("@ + operation@ + "): "@ + message@,
        AdbError::MissingArtifact(p) => "local artifact does not exist: "@ + p@,
    }
}

impl AdbError {
    /// The error's message.
    pub fn message(&self) -> (r: String)
        ensures
            r@ == adb_error_text(*self),
    {
        let mut out: Vec<char> = Vec::new();
        match self {
            AdbError::InvalidSerial => push_str(&mut out, "invalid ADB serial"),
            AdbError::Io(m) => {
                push_str(&mut out, "ADB I/O failed: ");
                push_str(&mut out, m.as_str());
            },
            AdbError::Command { operation, message } => {
                push_str(&mut out, "ADB command failed (");
                push_str(&mut out, operation.as_str());
                push_str(&mut out, "): ");
                push_str(&mut out, message.as_str());
            },
            AdbError::MissingArtifact(p) => {
                push_str(&mut out, "local artifact does not exist: ");
                push_str(&mut out, p.as_str());
            },
        }
        string_from_chars(out.as_slice())
    }
}

impl AdbCommandBuilder {
    pub closed spec fn adb_view(&self) -> Seq<char> {
        self.adb_path@
    }

    pub closed spec fn serial_view(&self) -> Seq<char> {
        self.serial@
    }

    /// A builder for `adb` on the search path.
    pub fn new(serial: String) -> (r: Result<Self, AdbError>)
        ensures
            valid_serial(serial@) <==> r is Ok,
            r matches Ok(b) ==> b.adb_view() == "adb"@ && b.serial_view() == serial@,
            r matches Err(e) ==> e is InvalidSerial,
    {
        Self::with_adb(owned("adb"), serial)
    }

    /// A builder for the given ADB program; an unsafe serial is refused.
    pub fn with_adb(adb_path: String, serial: String) -> (r: Result<Self, AdbError>)
        ensures
            valid_serial(serial@) <==> r is Ok,
            r matches Ok(b) ==> b.adb_view() == adb_path@ && b.serial_view() == serial@,
            r matches Err(e) ==> e is InvalidSerial,
    {
        if !is_valid_serial(serial.as_str()) {
            return Err(AdbError::InvalidSerial);
        }
        Ok(AdbCommandBuilder { adb_path, serial })
    }

    fn bound_args(&self, lead: &[&str], rest: &[&str]) -> (r: Vec<String>)
        ensures
            strings_of(r@) == seq!["-s"@, self.serial@] + strs_of(lead@) + strs_of(rest@),
    {
        let mut args: Vec<String> = Vec::new();
        args.push(owned("-s"));
        args.push(self.serial.clone());
        proof { assert(strings_of(args@) =~= seq!["-s"@, self.serial@] + strs_of(lead@.take(0)) + strs_of(rest@.take(0))); }
        let mut i: usize = 0;
        while i < lead.len()
            invariant
                i <= lead@.len(),
                strings_of(args@) == seq!["-s"@, self.serial@] + strs_of(lead@.take(i as int)) + strs_of(rest@.take(0)),
            decreases lead.len() - i,
        {
            let ghost prev = args@;
            let x = owned(lead[i]);
            args.push(x);
            i += 1;
            proof {
                assert(strings_of(args@) =~= strings_of(prev).push(x@));
                assert(strs_of(lead@.take(i as int)) =~= strs_of(lead@.take(i - 1)).push(lead@[i - 1]@));
                assert(strings_of(args@) =~= seq!["-s"@, self.serial@] + strs_of(lead@.take(i as int)) + strs_of(rest@.take(0)));
            }
        }
        assert(lead@.take(lead@.len() as int) == lead@);
        let mut j: usize = 0;
        while j < rest.len()
            invariant
                j <= rest@.len(),
                strings_of(args@) == seq!["-s"@, self.serial@] + strs_of(lead@) + strs_of(rest@.take(j as int)),
            decreases rest.len() - j,
        {
            let ghost prev = args@;
            let x = owned(rest[j]);
            args.push(x);
            j += 1;
            proof {
                assert(strings_of(args@) =~= strings_of(prev).push(x@));
                assert(strs_of(rest@.take(j as int)) =~= strs_of(rest@.take(j - 1)).push(rest@[j - 1]@));
                assert(strings_of(args@) =~= seq!["-s"@, self.serial@] + strs_of(lead@) + strs_of(rest@.take(j as int)));
            }
        }
        assert(rest@.take(rest@.len() as int) == rest@);
        args
    }

    /// `adb -s SERIAL shell ARGS...`
    pub fn shell(&self, remote_args: &[&str]) -> (r: CommandSpec)
        ensures
            r.program@ == self.adb_view(),
            strings_of(r.args@) == seq!["-s"@, self.serial_view(), "shell"@] + strs_of(remote_args@),
    {
        let lead: [&str; 1] = ["shell"];
        let args = self.bound_args(lead.as_slice(), remote_args);
        proof { assert(strs_of(lead@) =~= seq!["shell"@]); }
        CommandSpec { program: self.adb_path.clone(), args }
    }

    /// `adb -s SERIAL ARGS...`
    pub fn host(&self, args: &[&str]) -> (r: CommandSpec)
        ensures
            r.program@ == self.adb_view(),
            strings_of(r.args@) == seq!["-s"@, self.serial_view()] + strs_of(args@),
    {
        let lead: [&str; 0] = [];
        let bound = self.bound_args(lead.as_slice(), args);
        proof { assert(strs_of(lead@) =~= Seq::<Seq<char>>::empty()); }
        CommandSpec { program: self.adb_path.clone(), args: bound }
    }

    /// The device serial.
    pub fn serial(&self) -> (r: &str)
        ensures
            r@ == self.serial_view(),
    {
        self.serial.as_str()
    }
}

/// Body of a single-quoted shell word: each `'` becomes `'"'"'`.
pub open spec fn quote_body(s: Seq<char>) -> Seq<char>
    decreases s.len(),
{
    if s.len() == 0 {
        seq![]
    } else {
        quote_body(s.drop_last()) + (if s.last() == '\'' { "'\"'\"'"@ } else { seq![s.last()] })
    }
}

/// `s` as one single-quoted shell word.
pub open spec fn quoted(s: Seq<char>) -> Seq<char> {
    seq!['\''] + quote_body(s) + seq!['\'']
}

/// The words joined by single spaces.
pub open spec fn join_space(parts: Seq<Seq<char>>) -> Seq<char>
    decreases parts.len(),
{
    if parts.len() == 0 {
        seq![]
    } else if parts.len() == 1 {
        parts[0]
    } else {
        join_space(parts.drop_last()) + seq![' '] + parts.last()
    }
}

/// The remote command line run with the given root method: the arguments
/// quoted one by one, then the whole line quoted again for `su`.
pub open spec fn root_command(method: RootMethod, args: Seq<Seq<char>>) -> Seq<char> {
    let command = join_space(args.map_values(|a: Seq<char>| quoted(a)));
    match method {
        RootMethod::Shell => command,
        RootMethod::SuCommand => "su -c "@ + quoted(command),
        RootMethod::SuUid => "su 0 sh -c "@ + quoted(command),
    }
}

fn push_quoted(out: &mut Vec<char>, value: &[char])
    ensures
        final(out)@ == old(out)@ + quoted(value@),
{
    out.push('\'');
    let ghost start = out@;
    let mut i: usize = 0;
    while i < value.len()
        invariant
            i <= value@.len(),
            out@ == start + quote_body(value@.take(i as int)),
        decreases value.len() - i,
    {
        let c = value[i];
        proof {
            assert(value@.take(i + 1).drop_last() == value@.take(i as int));
            assert(value@.take(i + 1).last() == c);
        }
        if c == '\'' {
            push_str(out, "'\"'\"'");
        } else {
            out.push(c);
        }
        i += 1;
        proof {
            assert(out@ =~= start + quote_body(value@.take(i as int)));
        }
    }
    out.push('\'');
    proof {
        assert(value@.take(value@.len() as int) == value@);
        assert(out@ =~= old(out)@ + quoted(value@));
    }
}

/// `value` as one single-quoted shell word.
pub fn shell_quote(value: &str) -> (r: String)
    ensures
        r@ == quoted(value@),
{
    let v = str_chars(value);
    let mut out: Vec<char> = Vec::new();
    push_quoted(&mut out, v.as_slice());
    string_from_chars(out.as_slice())
}

impl AdbCommandBuilder {
    /// `adb -s SERIAL shell LINE`, where LINE runs the quoted arguments with
    /// the given root method.
    pub fn root_shell(&self, method: RootMethod, args: &[&str]) -> (r: CommandSpec)
        ensures
            r.program@ == self.adb_view(),
            strings_of(r.args@) == seq!["-s"@, self.serial_view(), "shell"@, root_command(method, strs_of(args@))],
    {
        let ghost parts = strs_of(args@).map_values(|a: Seq<char>| quoted(a));
        let mut line: Vec<char> = Vec::new();
        let mut i: usize = 0;
        while i < args.len()
            invariant
                i <= args@.len(),
                parts == strs_of(args@).map_values(|a: Seq<char>| quoted(a)),
                line@ == join_space(parts.take(i as int)),
            decreases args.len() - i,
        {
            let ghost prev = line@;
            if i > 0 {
                line.push(' ');
            }
            let a = str_chars(args[i]);
            push_quoted(&mut line, a.as_slice());
            i += 1;
            proof {
                let t = parts.take(i as int);
                assert(t.drop_last() == parts.take(i - 1));
                assert(t.last() == quoted(args@[i - 1]@));
                if i == 1 {
                    assert(line@ =~= t[0]);
                } else {
                    assert(line@ =~= prev + seq![' '] + t.last());
                }
            }
        }
        proof { assert(parts.take(args@.len() as int) == parts); }
        let command = match method {
            RootMethod::Shell => string_from_chars(line.as_slice()),
            RootMethod::SuCommand => {
                let mut out: Vec<char> = Vec::new();
                push_str(&mut out, "su -c ");
                push_quoted(&mut out, line.as_slice());
                proof { assert(out@ =~= "su -c "@ + quoted(line@)); }
                string_from_chars(out.as_slice())
            },
            RootMethod::SuUid => {
                let mut out: Vec<char> = Vec::new();
                push_str(&mut out, "su 0 sh -c ");
                push_quoted(&mut out, line.as_slice());
                proof { assert(out@ =~= "su 0 sh -c "@ + quoted(line@)); }
                string_from_chars(out.as_slice())
            },
        };
        let one: [&str; 1] = [command.as_str()];
        let r = self.shell(one.as_slice());
        proof { assert(strs_of(one@) =~= seq![command@]); }
        r
    }
}

/// What a device offers for capture. A passing preflight is not proof that
/// the verifier or collector can start.
#[derive(Debug)]
pub struct PreflightReport {
    pub ebpf_start_error: Option<String>,
    pub perfetto: bool,
    pub perfetto_version: String,
    pub root: bool,
    pub root_method: RootMethod,
    pub serial: String,
    pub model: String,
    pub boot_id: String,
    pub build_fingerprint: String,
    pub mountinfo: String,
    pub filesystems: String,
    pub block_devices: String,
    pub trace_root: String,
    pub abi: String,
    pub android_version: String,
    pub kernel_release: String,
    pub btf: bool,
    pub tracefs: bool,
    pub block_issue: bool,
    pub block_complete: bool,
    pub block_insert: bool,
    pub raw_syscalls: bool,
    pub ufs_events: Vec<String>,
    pub scsi_events: Vec<String>,
    pub fs_events: Vec<String>,
    pub diagnostics: Vec<String>,
}

/// Full block tracing needs root, a started collector, the arm64 agent and
/// readable issue and complete tracepoints.
pub open spec fn ebpf_ready(r: PreflightReport) -> bool {
    &&& r.root
    &&& r.ebpf_start_error is None
    &&& r.abi@ == "arm64-v8a"@
    &&& r.tracefs
    &&& r.block_issue
    &&& r.block_complete
}

pub open spec fn not_ready_text() -> Seq<char> {
    "Full block tracing unavailable: requires arm64 agent and readable issue/complete tracepoints. Root alone does not prove BPF verifier/attach support."@
}

impl PreflightReport {
    /// A report for `serial` with nothing detected yet.
    pub fn new(serial: String) -> (r: Self)
        ensures
            r.serial@ == serial@,
            r.ebpf_start_error is None,
            !r.perfetto && !r.root && !r.btf && !r.tracefs,
            !r.block_issue && !r.block_complete && !r.block_insert && !r.raw_syscalls,
            r.root_method == RootMethod::Shell,
            r.perfetto_version@.len() == 0 && r.model@.len() == 0 && r.boot_id@.len() == 0,
            r.build_fingerprint@.len() == 0 && r.mountinfo@.len() == 0 && r.filesystems@.len() == 0,
            r.block_devices@.len() == 0 && r.trace_root@.len() == 0 && r.abi@.len() == 0,
            r.android_version@.len() == 0 && r.kernel_release@.len() == 0,
            r.ufs_events@.len() == 0 && r.scsi_events@.len() == 0 && r.fs_events@.len() == 0,
            r.diagnostics@.len() == 0,
    {
        PreflightReport {
            ebpf_start_error: None,
            perfetto: false,
            perfetto_version: String::new(),
            root: false,
            root_method: RootMethod::Shell,
            serial,
            model: String::new(),
            boot_id: String::new(),
            build_fingerprint: String::new(),
            mountinfo: String::new(),
            filesystems: String::new(),
            block_devices: String::new(),
            trace_root: String::new(),
            abi: String::new(),
            android_version: String::new(),
            kernel_release: String::new(),
            btf: false,
            tracefs: false,
            block_issue: false,
            block_complete: false,
            block_insert: false,
            raw_syscalls: false,
            ufs_events: Vec::new(),
            scsi_events: Vec::new(),
            fs_events: Vec::new(),
            diagnostics: Vec::new(),
        }
    }

    pub fn full_ebpf_ready(&self) -> (r: bool)
        ensures
            r == ebpf_ready(*self),
    {
        self.root
            && self.ebpf_start_error.is_none()
            && crate::text::str_eq(self.abi.as_str(), "arm64-v8a")
            && self.tracefs
            && self.block_issue
            && self.block_complete
    }

    /// Adds the explanation when full block tracing is unavailable.
    pub fn note_readiness(&mut self)
        ensures
            strings_of(final(self).diagnostics@) == (if ebpf_ready(*old(self)) {
                strings_of(old(self).diagnostics@)
            } else {
                strings_of(old(self).diagnostics@).push(not_ready_text())
            }),
            *final(self) == (PreflightReport { diagnostics: final(self).diagnostics, ..*old(self) }),
    {
        if !self.full_ebpf_ready() {
            let ghost prev = self.diagnostics@;
            let m = owned("Full block tracing unavailable: requires arm64 agent and readable issue/complete tracepoints. Root alone does not prove BPF verifier/attach support.");
            self.diagnostics.push(m);
            proof { assert(strings_of(self.diagnostics@) =~= strings_of(prev).push(m@)); }
        }
    }
}

impl Default for PreflightReport {
    fn default() -> (r: Self)
        ensures
            r.serial@.len() == 0,
            r.ebpf_start_error is None,
            !r.perfetto && !r.root && !r.btf && !r.tracefs,
            !r.block_issue && !r.block_complete && !r.block_insert && !r.raw_syscalls,
            r.root_method == RootMethod::Shell,
            r.diagnostics@.len() == 0,
    {
        PreflightReport::new(String::new())
    }
}

/// Runs ADB through the given program path.
#[derive(Debug)]
pub struct AdbClient {
    adb_path: String,
}

impl AdbClient {
    pub closed spec fn adb_view(&self) -> Seq<char> {
        self.adb_path@
    }

    pub fn new(adb_path: String) -> (c: Self)
        ensures
            c.adb_view() == adb_path@,
    {
        AdbClient { adb_path }
    }

    /// The ADB program path.
    pub fn adb_path(&self) -> (r: &str)
        ensures
            r@ == self.adb_view(),
    {
        self.adb_path.as_str()
    }

    /// A command builder for `serial`; an unsafe serial is refused.
    pub fn builder(&self, serial: &str) -> (r: Result<AdbCommandBuilder, AdbError>)
        ensures
            valid_serial(serial@) <==> r is Ok,
            r matches Ok(b) ==> b.adb_view() == self.adb_view() && b.serial_view() == serial@,
            r matches Err(e) ==> e is InvalidSerial,
    {
        AdbCommandBuilder::with_adb(self.adb_path.clone(), owned(serial))
    }

    /// `adb devices -l`.
    pub fn devices_command(&self) -> (r: CommandSpec)
        ensures
            r.program@ == self.adb_view(),
            strings_of(r.args@) == seq!["devices"@, "-l"@],
    {
        let mut args: Vec<String> = Vec::new();
        args.push(owned("devices"));
        args.push(owned("-l"));
        proof { assert(strings_of(args@) =~= seq!["devices"@, "-l"@]); }
        CommandSpec { program: self.adb_path.clone(), args }
    }
}

impl Default for AdbClient {
    fn default() -> (c: Self)
        ensures
            c.adb_view() == "adb"@,
    {
        AdbClient::new(owned("adb"))
    }
}

/// At most this many characters of a failed command's stderr are reported.
pub const STDERR_LIMIT: usize = 4096;

/// The text of a command's output: lossily decoded and trimmed.
pub fn output_text(stdout: &[u8]) -> (r: String)
    ensures
        r@ == trim(crate::text::utf8_lossy(stdout@)),
{
    let text = crate::text::lossy_text(stdout);
    let v = str_chars(text.as_str());
    let t = trim_chars(v.as_slice());
    string_from_chars(t.as_slice())
}

/// A failed command's stderr: lossily decoded, cut to its first
/// `STDERR_LIMIT` characters, trimmed.
pub open spec fn bounded_stderr(stderr: Seq<u8>) -> Seq<char> {
    let text = crate::text::utf8_lossy(stderr);
    trim(if text.len() > STDERR_LIMIT { text.take(STDERR_LIMIT as int) } else { text })
}

/// `Ok` when the command succeeded, else the operation's failure with its
/// bounded stderr.
pub fn require_success(operation: &str, success: bool, stderr: &[u8]) -> (r: Result<(), AdbError>)
    ensures
        success <==> r is Ok,
        r matches Err(e) ==> (e matches AdbError::Command { operation: o, message: m }
            && o@ == operation@ && m@ == bounded_stderr(stderr@)),
{
    if success {
        return Ok(());
    }
    let text = crate::text::lossy_text(stderr);
    let v = str_chars(text.as_str());
    let cut = if v.len() > STDERR_LIMIT { slice_chars(v.as_slice(), 0, STDERR_LIMIT) } else { slice_chars(v.as_slice(), 0, v.len()) };
    proof {
        assert(v@.subrange(0, v@.len() as int) == v@);
    }
    let t = trim_chars(cut.as_slice());
    Err(AdbError::Command { operation: owned(operation), message: string_from_chars(t.as_slice()) })
}

/// The devices listed by a finished `adb devices -l`.
pub fn devices_from_output(success: bool, stdout: &[u8], stderr: &[u8]) -> (r: Result<Vec<AdbDevice>, AdbError>)
    ensures
        success <==> r is Ok,
        r matches Ok(v) ==> devices_view(v@) == device_rows(after_header(lines_of(crate::text::utf8_lossy(stdout@)))),
        r matches Err(e) ==> (e matches AdbError::Command { operation: o, message: m }
            && o@ == "devices"@ && m@ == bounded_stderr(stderr@)),
{
    match require_success("devices", success, stderr) {
        Err(e) => Err(e),
        Ok(()) => {
            let text = crate::text::lossy_text(stdout);
            Ok(parse_devices(text.as_str()))
        },
    }
}

/// Root detection, one command at a time: `id -u` through the shell, `su -c`
/// and `su 0`, then, only after all three failed, `adb root`, a wait for the
/// device, and a last `id -u` through the shell.
#[derive(Debug, Clone, Copy, PartialEq, Eq, Structural)]
pub enum RootProbe {
    Probe(RootMethod),
    EnableAdbdRoot,
    WaitForDevice,
    ProbeAfterRestart,
    Found(RootMethod),
    Failed,
}

/// A reply names root when the probe command succeeded and printed UID 0.
pub open spec fn replied_root(reply: Option<Seq<char>>) -> bool {
    reply matches Some(text) && trim(text) == seq!['0']
}

/// The next probe after a reply; `reply` is the output of a successful
/// command and `None` for a failed one.
pub open spec fn next_probe(p: RootProbe, reply: Option<Seq<char>>) -> RootProbe {
    match p {
        RootProbe::Probe(m) => if replied_root(reply) {
            RootProbe::Found(m)
        } else {
            match m {
                RootMethod::Shell => RootProbe::Probe(RootMethod::SuCommand),
                RootMethod::SuCommand => RootProbe::Probe(RootMethod::SuUid),
                RootMethod::SuUid => RootProbe::EnableAdbdRoot,
            }
        },
        RootProbe::EnableAdbdRoot => RootProbe::WaitForDevice,
        RootProbe::WaitForDevice => RootProbe::ProbeAfterRestart,
        RootProbe::ProbeAfterRestart => if replied_root(reply) { RootProbe::Found(RootMethod::Shell) } else { RootProbe::Failed },
        RootProbe::Found(m) => RootProbe::Found(m),
        RootProbe::Failed => RootProbe::Failed,
    }
}

pub open spec fn root_failure_text() -> Seq<char> {
    "Approve USB debugging and the su/root prompt on the phone, then retry Start. Shell, su -c, su 0 and adb root did not provide UID 0."@
}

impl RootProbe {
    /// The first probe.
    pub fn start() -> (r: Self)
        ensures
            r == RootProbe::Probe(RootMethod::Shell),
    {
        RootProbe::Probe(RootMethod::Shell)
    }

    /// The command to run next; none once detection is over.
    pub fn command(&self, builder: &AdbCommandBuilder) -> (r: Option<CommandSpec>)
        ensures
            match *self {
                RootProbe::Probe(m) => r matches Some(c) && c.program@ == builder.adb_view()
                    && strings_of(c.args@) == seq!["-s"@, builder.serial_view(), "shell"@, root_command(m, seq!["id"@, "-u"@])],
                RootProbe::ProbeAfterRestart => r matches Some(c) && c.program@ == builder.adb_view()
                    && strings_of(c.args@) == seq!["-s"@, builder.serial_view(), "shell"@, root_command(RootMethod::Shell, seq!["id"@, "-u"@])],
                RootProbe::EnableAdbdRoot => r matches Some(c) && c.program@ == builder.adb_view()
                    && strings_of(c.args@) == seq!["-s"@, builder.serial_view(), "root"@],
                RootProbe::WaitForDevice => r matches Some(c) && c.program@ == builder.adb_view()
                    && strings_of(c.args@) == seq!["-s"@, builder.serial_view(), "wait-for-device"@],
                _ => r is None,
            },
    {
        let id: [&str; 2] = ["id", "-u"];
        proof { assert(strs_of(id@) =~= seq!["id"@, "-u"@]); }
        match *self {
            RootProbe::Probe(m) => Some(builder.root_shell(m, id.as_slice())),
            RootProbe::ProbeAfterRestart => Some(builder.root_shell(RootMethod::Shell, id.as_slice())),
            RootProbe::EnableAdbdRoot => {
                let a: [&str; 1] = ["root"];
                proof { assert(strs_of(a@) =~= seq!["root"@]); }
                let c = builder.host(a.as_slice());
                proof { assert(seq!["-s"@, builder.serial_view()] + seq!["root"@] =~= seq!["-s"@, builder.serial_view(), "root"@]); }
                Some(c)
            },
            RootProbe::WaitForDevice => {
                let a: [&str; 1] = ["wait-for-device"];
                proof { assert(strs_of(a@) =~= seq!["wait-for-device"@]); }
                let c = builder.host(a.as_slice());
                proof { assert(seq!["-s"@, builder.serial_view()] + seq!["wait-for-device"@] =~= seq!["-s"@, builder.serial_view(), "wait-for-device"@]); }
                Some(c)
            },
            _ => None,
        }
    }

    /// The state after the command's reply. The replies of `adb root` and
    /// of the wait are ignored, as their failure is not decisive.
    pub fn advance(&self, reply: Option<&str>) -> (r: Self)
        ensures
            r == next_probe(*self, match reply { Some(t) => Some(t@), None => None }),
    {
        let root = match reply {
            Some(t) => is_root_uid(t),
            None => false,
        };
        match *self {
            RootProbe::Probe(m) => if root {
                RootProbe::Found(m)
            } else {
                match m {
                    RootMethod::Shell => RootProbe::Probe(RootMethod::SuCommand),
                    RootMethod::SuCommand => RootProbe::Probe(RootMethod::SuUid),
                    RootMethod::SuUid => RootProbe::EnableAdbdRoot,
                }
            },
            RootProbe::EnableAdbdRoot => RootProbe::WaitForDevice,
            RootProbe::WaitForDevice => RootProbe::ProbeAfterRestart,
            RootProbe::ProbeAfterRestart => if root { RootProbe::Found(RootMethod::Shell) } else { RootProbe::Failed },
            RootProbe::Found(m) => RootProbe::Found(m),
            RootProbe::Failed => RootProbe::Failed,
        }
    }

    /// The outcome once detection is over.
    pub fn outcome(&self) -> (r: Option<Result<RootMethod, AdbError>>)
        ensures
            match *self {
                RootProbe::Found(m) => r matches Some(Ok(x)) && x == m,
                RootProbe::Failed => r matches Some(Err(e)) && adb_error_text(e)
                    == "ADB command failed ("@ + "root detection"@ + "): "@ + root_failure_text(),
                _ => r is None,
            },
    {
        match *self {
            RootProbe::Found(m) => Some(Ok(m)),
            RootProbe::Failed => Some(Err(AdbError::Command {
                operation: owned("root detection"),
                message: owned("Approve USB debugging and the su/root prompt on the phone, then retry Start. Shell, su -c, su 0 and adb root did not provide UID 0."),
            })),
            _ => None,
        }
    }
}

/// The probe state after the given replies, from the start.
pub open spec fn probe_after(replies: Seq<Option<Seq<char>>>) -> RootProbe
    decreases replies.len(),
{
    if replies.len() == 0 {
        RootProbe::Probe(RootMethod::Shell)
    } else {
        next_probe(probe_after(replies.drop_last()), replies.last())
    }
}

/// Root detection ends after at most six commands, in `Found` or `Failed`,
/// whatever the replies.
pub proof fn law_root_detection_ends(replies: Seq<Option<Seq<char>>>)
    requires
        replies.len() == 6,
    ensures
        probe_after(replies) is Found || probe_after(replies) is Failed,
{
    let r = replies;
    assert(r.take(6) == r);
    assert forall|k: int| 0 < k <= 6 implies #[trigger] r.take(k).drop_last() == r.take(k - 1) && r.take(k).last() == r[k - 1] by {}
    assert(r.take(0).len() == 0);
    assert(probe_after(r.take(0)) == RootProbe::Probe(RootMethod::Shell));
    let p1 = probe_after(r.take(1));
    let p2 = probe_after(r.take(2));
    let p3 = probe_after(r.take(3));
    let p4 = probe_after(r.take(4));
    let p5 = probe_after(r.take(5));
    let p6 = probe_after(r.take(6));
    assert(p1 == next_probe(RootProbe::Probe(RootMethod::Shell), r[0]));
    assert(p2 == next_probe(p1, r[1]));
    assert(p3 == next_probe(p2, r[2]));
    assert(p4 == next_probe(p3, r[3]));
    assert(p5 == next_probe(p4, r[4]));
    assert(p6 == next_probe(p5, r[5]));
}

/// `adb root` is requested only after the shell, `su -c` and `su 0` probes
/// all failed to report UID 0, and a method that reported root is the one
/// found.
pub proof fn law_adbd_restart_only_after_probes_fail(replies: Seq<Option<Seq<char>>>)
    requires
        probe_after(replies) == RootProbe::EnableAdbdRoot,
    ensures
        replies.len() == 3,
        forall|i: int| 0 <= i < 3 ==> !replied_root(#[trigger] replies[i]),
{
    lemma_probe_prefix(replies);
}

proof fn lemma_probe_prefix(replies: Seq<Option<Seq<char>>>)
    ensures
        replies.len() == 0 ==> probe_after(replies) == RootProbe::Probe(RootMethod::Shell),
        probe_after(replies) == RootProbe::Probe(RootMethod::SuCommand) ==> replies.len() == 1 && !replied_root(replies[0]),
        probe_after(replies) == RootProbe::Probe(RootMethod::SuUid) ==> replies.len() == 2 && !replied_root(replies[0]) && !replied_root(replies[1]),
        probe_after(replies) == RootProbe::Probe(RootMethod::Shell) ==> replies.len() == 0,
        probe_after(replies) == RootProbe::EnableAdbdRoot ==> replies.len() == 3 && !replied_root(replies[0]) && !replied_root(replies[1]) && !replied_root(replies[2]),
    decreases replies.len(),
{
    if replies.len() > 0 {
        let init = replies.drop_last();
        lemma_probe_prefix(init);
        if init.len() > 0 {
            assert(init[0] == replies[0]);
        }
        if init.len() > 1 {
            assert(init[1] == replies[1]);
        }
    }
}

/// The tracefs root: the modern mount when its events directory exists,
/// else the debugfs one.
pub fn trace_root_for(events_dir_present: bool) -> (r: String)
    ensures
        r@ == (if events_dir_present { "/sys/kernel/tracing"@ } else { "/sys/kernel/debug/tracing"@ }),
{
    if events_dir_present { owned("/sys/kernel/tracing") } else { owned("/sys/kernel/debug/tracing") }
}

/// A line mentions one of the needles, ignoring ASCII case.
pub open spec fn mentions_any(line: Seq<char>, needles: Seq<Seq<char>>) -> bool {
    exists|j: int| 0 <= j < needles.len() && crate::text::contains(crate::text::ascii_lower(line), #[trigger] needles[j])
}

/// The lines that mention a needle, in order.
pub open spec fn mentioning(lines: Seq<Seq<char>>, needles: Seq<Seq<char>>) -> Seq<Seq<char>>
    decreases lines.len(),
{
    if lines.len() == 0 {
        seq![]
    } else {
        let rest = mentioning(lines.drop_last(), needles);
        if mentions_any(lines.last(), needles) { rest.push(lines.last()) } else { rest }
    }
}

fn mentions(line: &[char], needles: &[&str]) -> (r: bool)
    ensures
        r == mentions_any(line@, strs_of(needles@)),
{
    let lower = crate::text::to_ascii_lower(line);
    let mut j: usize = 0;
    while j < needles.len()
        invariant
            j <= needles@.len(),
            lower@ == crate::text::ascii_lower(line@),
            forall|k: int| 0 <= k < j ==> !crate::text::contains(lower@, #[trigger] strs_of(needles@)[k]),
        decreases needles.len() - j,
    {
        let n = str_chars(needles[j]);
        if crate::text::chars_contain(lower.as_slice(), n.as_slice()) {
            assert(strs_of(needles@)[j as int] == n@);
            return true;
        }
        j += 1;
    }
    false
}

/// The first `limit` lines of `text` that mention a needle, ignoring ASCII
/// case.
pub fn event_lines(text: &str, needles: &[&str], limit: usize) -> (r: Vec<String>)
    ensures
        strings_of(r@) == (if mentioning(lines_of(text@), strs_of(needles@)).len() > limit {
            mentioning(lines_of(text@), strs_of(needles@)).take(limit as int)
        } else {
            mentioning(lines_of(text@), strs_of(needles@))
        }),
{
    let chars = str_chars(text);
    let lines = split_lines(chars.as_slice());
    let ghost ls = chars_of(lines@);
    let ghost ns = strs_of(needles@);
    let mut out: Vec<String> = Vec::new();
    let mut i: usize = 0;
    while i < lines.len() && out.len() < limit
        invariant
            i <= lines@.len(),
            ls == chars_of(lines@),
            ls == lines_of(text@),
            ns == strs_of(needles@),
            out@.len() <= limit,
            strings_of(out@) == mentioning(ls.take(i as int), ns),
        decreases lines.len() - i,
    {
        let ghost prev = out@;
        proof {
            assert(ls.take(i + 1).drop_last() == ls.take(i as int));
            assert(ls.take(i + 1).last() == lines@[i as int]@);
        }
        if mentions(lines[i].as_slice(), needles) {
            let s = string_from_chars(lines[i].as_slice());
            out.push(s);
            proof { assert(strings_of(out@) =~= strings_of(prev).push(s@)); }
        }
        i += 1;
    }
    proof {
        lemma_mentioning_prefix(ls, ns, i as int);
        if i == lines@.len() {
            assert(ls.take(i as int) == ls);
        }
    }
    out
}

/// Once `limit` lines have matched, later lines do not change the first
/// `limit` matches.
proof fn lemma_mentioning_prefix(ls: Seq<Seq<char>>, ns: Seq<Seq<char>>, i: int)
    requires
        0 <= i <= ls.len(),
    ensures
        mentioning(ls, ns).take(mentioning(ls.take(i), ns).len() as int) == mentioning(ls.take(i), ns),
        mentioning(ls.take(i), ns).len() <= mentioning(ls, ns).len(),
    decreases ls.len() - i,
{
    if i == ls.len() {
        assert(ls.take(i) == ls);
        assert(mentioning(ls, ns).take(mentioning(ls, ns).len() as int) == mentioning(ls, ns));
    } else {
        lemma_mentioning_prefix(ls, ns, i + 1);
        assert(ls.take(i + 1).drop_last() == ls.take(i));
        let a = mentioning(ls.take(i), ns);
        let b = mentioning(ls.take(i + 1), ns);
        let all = mentioning(ls, ns);
        assert(all.take(b.len() as int) == b);
        assert(b.take(a.len() as int) == a);
        assert(all.take(a.len() as int) == all.take(b.len() as int).take(a.len() as int));
    }
}

/// The first line mentioning `p`, if any.
pub open spec fn first_mentioning(lines: Seq<Seq<char>>, p: Seq<char>) -> Option<Seq<char>>
    decreases lines.len(),
{
    if lines.len() == 0 {
        None
    } else if crate::text::contains(lines[0], p) {
        Some(lines[0])
    } else {
        first_mentioning(lines.skip(1), p)
    }
}

/// What `perfetto --query` shows: whether the ftrace data source is
/// offered, and the version line, or a generic text without one.
pub fn perfetto_support(query: &str) -> (r: (bool, String))
    ensures
        r.0 == crate::text::contains(query@, "linux.ftrace"@),
        r.1@ == (match first_mentioning(lines_of(query@), "Perfetto v"@) {
            Some(l) => l,
            None => "Perfetto service available"@,
        }),
{
    let chars = str_chars(query);
    let needle = str_chars("linux.ftrace");
    let ftrace = crate::text::chars_contain(chars.as_slice(), needle.as_slice());
    let lines = split_lines(chars.as_slice());
    let ghost ls = chars_of(lines@);
    let version_needle = str_chars("Perfetto v");
    let mut i: usize = 0;
    proof { assert(ls.skip(0) == ls); }
    while i < lines.len()
        invariant
            i <= lines@.len(),
            ls == chars_of(lines@),
            ls == lines_of(query@),
            version_needle@ == "Perfetto v"@,
            ftrace == crate::text::contains(query@, "linux.ftrace"@),
            first_mentioning(ls.skip(i as int), "Perfetto v"@) == first_mentioning(ls, "Perfetto v"@),
        decreases lines.len() - i,
    {
        proof {
            let t = ls.skip(i as int);
            assert(t[0] == lines@[i as int]@);
            assert(t.skip(1) == ls.skip(i + 1));
        }
        if crate::text::chars_contain(lines[i].as_slice(), version_needle.as_slice()) {
            return (ftrace, string_from_chars(lines[i].as_slice()));
        }
        i += 1;
    }
    proof { assert(ls.skip(i as int) == Seq::<Seq<char>>::empty()); }
    (ftrace, owned("Perfetto service available"))
}

} // verus!
