//! Decisions the desktop shell takes around the managed service: which
//! process is ours, where auth files live, where the web UI is, what to
//! back up, which runtime is active.

use vstd::prelude::*;
use vstd::string::StringExecFns;
use serde_json::Value;
use crate::number::{decimal, lemma_parse_decimal, parse_uint, parse_uint_of, push_decimal, IntErrorKind};
use crate::text::{
    chars_of, contains_chars, contains_seq, lines_of, push_char, same_chars, starts_with,
    has_prefix, string_of, text_lines, trim_bounds, trim_in, trim_start_in, skip_forward, views,
    CharClass, slice_chars, string_views, trim,
};
use crate::yaml::{browser_host, browser_host_text};
use crate::text::{find_char, lemma_find_char};

verus! {

broadcast use vstd::string::group_string_axioms;

/// What `serde_json` reads at a JSON pointer of a document: the integer
/// found there, when the bytes parse as JSON, the pointer names a value and
/// that value is an integer that fits an `i64`.
pub uninterp spec fn json_i64_at(data: Seq<u8>, pointer: Seq<char>) -> Option<i64>;

/// `serde_json::from_slice::<Value>`, then `Value::pointer`, then
/// `Value::as_i64`. The result is named by `json_i64_at` on the bytes and the
/// pointer; of the name only this is stated: empty input is no JSON text
/// (the parser stops at the end of input while looking for a value).
#[verifier::external_body]
fn json_lookup_i64(data: &[u8], pointer: &str) -> (r: Option<i64>)
    ensures
        r == json_i64_at(data@, pointer@),
        data@.len() == 0 ==> r is None,
{
    match serde_json::from_slice::<Value>(data) {
        Ok(value) => match value.pointer(pointer) {
            Some(found) => found.as_i64(),
            None => None,
        },
        Err(_) => None,
    }
}

/// The request count of a usage export: the integer at
/// `/usage/total_requests`, 0 when there is none.
pub open spec fn usage_count(data: Seq<u8>) -> int {
    match json_i64_at(data, "/usage/total_requests"@) {
        Some(n) => n as int,
        None => 0,
    }
}

/// The `usage.total_requests` count of an exported usage document, 0 when
/// the data is no JSON or holds no such integer.
pub fn usage_total_requests(data: &[u8]) -> (r: i64)
    ensures
        r == match json_i64_at(data@, "/usage/total_requests"@) {
            Some(n) => n,
            None => 0,
        },
        r as int == usage_count(data@),
        data@.len() == 0 ==> r == 0,
{
    let found = json_lookup_i64(data, "/usage/total_requests");
    total_requests_or_zero(found)
}

/// The request count of a usage export, given what the JSON lookup of
/// `usage.total_requests` found: that integer, or 0 when there is none.
pub fn total_requests_or_zero(found: Option<i64>) -> (r: i64)
    ensures
        r == match found {
            Some(n) => n,
            None => 0,
        },
{
    match found {
        Some(n) => n,
        None => 0,
    }
}

/// An export replaces the backup when it counts requests or when there is
/// no backup yet.
pub open spec fn backup_wanted(total_requests: int, backup_exists: bool) -> bool {
    total_requests > 0 || !backup_exists
}

pub fn usage_backup_wanted(total_requests: i64, backup_exists: bool) -> (r: bool)
    ensures
        r == backup_wanted(total_requests as int, backup_exists),
{
    total_requests > 0 || !backup_exists
}

/// Whether an exported usage document should be written as the backup.
pub fn should_write_usage_backup(exported: &[u8], backup_exists: bool) -> (r: bool)
    ensures
        r == backup_wanted(usage_count(exported@), backup_exists),
        !backup_exists ==> r,
        exported@.len() == 0 ==> r == !backup_exists,
{
    usage_backup_wanted(usage_total_requests(exported), backup_exists)
}

/// The pid `lsof -Fp` reports: the first line `p<pid>`.
pub open spec fn lsof_pid(lines: Seq<Seq<char>>, i: int) -> Option<nat>
    decreases lines.len() - i,
{
    if i < 0 || i >= lines.len() {
        None
    } else {
        let l = lines[i];
        if l.len() > 0 && l[0] == 'p' {
            match parse_uint(l.skip(1), 10, u32::MAX as nat) {
                Ok(v) => Some(v),
                Err(_) => lsof_pid(lines, i + 1),
            }
        } else {
            lsof_pid(lines, i + 1)
        }
    }
}

/// The listening process's pid in the output of `lsof -Fp`.
pub fn pid_from_lsof_output(stdout: &str) -> (r: Option<u32>)
    ensures
        match r {
            Some(p) => lsof_pid(text_lines(stdout@), 0) == Some(p as nat),
            None => lsof_pid(text_lines(stdout@), 0) is None,
        },
{
    let chars = chars_of(stdout);
    let lines = lines_of(chars.as_slice());
    let ghost ls = views(lines@);
    let mut i: usize = 0;
    while i < lines.len()
        invariant
            i <= lines@.len(),
            ls == views(lines@),
            ls == text_lines(stdout@),
            lsof_pid(ls, 0) == lsof_pid(ls, i as int),
        decreases lines@.len() - i,
    {
        let l = lines[i].as_slice();
        assert(ls[i as int] == l@);
        if l.len() > 0 && l[0] == 'p' {
            assert(l@.subrange(1, l@.len() as int) == l@.skip(1));
            match parse_uint_of(l, 1, l.len(), 10, u32::MAX as u64) {
                Ok(v) => {
                    assert(lsof_pid(ls, i as int) == Some(v as nat));
                    return Some(v as u32);
                },
                Err(_) => {},
            }
        }
        i = i + 1;
    }
    None
}

/// A process command line that runs the runtime binary from this
/// application's runtimes or with its workspace configuration.
pub open spec fn managed_command(command: Option<Seq<char>>, runtime_dir: Seq<char>, workspace_config: Seq<char>) -> bool {
    match command {
        None => false,
        Some(c) => contains_seq(c, "cli-proxy-api"@) && (contains_seq(c, runtime_dir)
            || contains_seq(c, workspace_config)),
    }
}

pub fn pid_matches_managed_runtime(
    command: Option<&str>,
    runtime_dir: &str,
    workspace_config: &str,
) -> (r: bool)
    ensures
        r == managed_command(
            match command {
                Some(c) => Some(c@),
                None => None,
            },
            runtime_dir@,
            workspace_config@,
        ),
{
    let c = match command {
        Some(c) => chars_of(c),
        None => {
            return false;
        },
    };
    contains_chars(c.as_slice(), chars_of("cli-proxy-api").as_slice()) && (contains_chars(
        c.as_slice(),
        chars_of(runtime_dir).as_slice(),
    ) || contains_chars(c.as_slice(), chars_of(workspace_config).as_slice()))
}

/// The auth directory used when the configuration names none.
pub const DEFAULT_AUTH_DIR: &'static str = "~/.cli-proxy-api";

/// Where a configured auth directory lies.
#[derive(Debug)]
pub enum AuthDirPlan {
    /// Below the user's home directory; an empty path is the home itself.
    Home(String),
    /// This path, taken from the workspace when it is relative.
    Path(String),
}

/// Backslashes made forward slashes.
pub open spec fn forward_slashes(s: Seq<char>) -> Seq<char> {
    s.map_values(|c: char| if c == '\\' { '/' } else { c })
}

/// `(under home, path)` for a configured auth directory.
pub open spec fn auth_dir_target(auth_dir: Seq<char>) -> (bool, Seq<char>) {
    let t = trim_in(auth_dir, CharClass::Whitespace);
    let v = if t.len() == 0 {
        DEFAULT_AUTH_DIR@
    } else {
        t
    };
    if v == "~"@ || starts_with(v, "~/"@) || starts_with(v, "~\\"@) {
        (
            true,
            forward_slashes(
                trim_start_in(trim_start_in(v, CharClass::Is('~')), CharClass::IsEither('/', '\\')),
            ),
        )
    } else {
        (false, forward_slashes(v))
    }
}

fn forward_slashes_of(s: &[char], from: usize) -> (r: String)
    requires
        from <= s@.len(),
    ensures
        r@ == forward_slashes(s@.skip(from as int)),
{
    let mut r = String::new();
    let mut i = from;
    while i < s.len()
        invariant
            from <= i <= s@.len(),
            r@ == forward_slashes(s@.subrange(from as int, i as int)),
        decreases s@.len() - i,
    {
        let c = if s[i] == '\\' {
            '/'
        } else {
            s[i]
        };
        push_char(&mut r, c);
        assert(forward_slashes(s@.subrange(from as int, i + 1)) =~= forward_slashes(
            s@.subrange(from as int, i as int),
        ).push(c));
        i = i + 1;
    }
    assert(s@.subrange(from as int, s@.len() as int) == s@.skip(from as int));
    r
}

/// Resolves the configured auth directory as far as it can be without
/// the environment.
pub fn auth_dir_plan(auth_dir: &str) -> (r: AuthDirPlan)
    ensures
        match r {
            AuthDirPlan::Home(p) => auth_dir_target(auth_dir@) == (true, p@),
            AuthDirPlan::Path(p) => auth_dir_target(auth_dir@) == (false, p@),
        },
{
    let raw = chars_of(auth_dir);
    let (a, b) = trim_bounds(raw.as_slice(), &CharClass::Whitespace);
    let v = if a == b {
        chars_of(DEFAULT_AUTH_DIR)
    } else {
        slice_chars(raw.as_slice(), a, b)
    };
    let tilde = chars_of("~");
    let tilde_slash = chars_of("~/");
    let tilde_back = chars_of("~\\");
    if same_chars(v.as_slice(), tilde.as_slice()) || has_prefix(v.as_slice(), tilde_slash.as_slice())
        || has_prefix(v.as_slice(), tilde_back.as_slice()) {
        let n1 = skip_forward(v.as_slice(), 0, v.len(), &CharClass::Is('~'));
        let n2 = skip_forward(v.as_slice(), n1, v.len(), &CharClass::IsEither('/', '\\'));
        proof {
            assert(v@.subrange(0, v@.len() as int) == v@);
            let w = v@.skip(n1 as int);
            assert(v@.subrange(n1 as int, v@.len() as int) == w);
            assert(w.skip(n2 - n1) == v@.skip(n2 as int));
        }
        AuthDirPlan::Home(forward_slashes_of(v.as_slice(), n2))
    } else {
        assert(v@.skip(0) == v@);
        AuthDirPlan::Path(forward_slashes_of(v.as_slice(), 0))
    }
}

/// The address of the management web page for a configured port and host.
pub open spec fn management_page(port: Option<nat>, host: Option<Seq<char>>) -> Option<Seq<char>> {
    match port {
        None => None,
        Some(p) => Some(
            "http://"@ + browser_host_text(host) + ":"@ + decimal(p) + "/management.html"@,
        ),
    }
}

pub fn management_url(port: Option<u16>, host: Option<&str>) -> (r: Option<String>)
    ensures
        match r {
            Some(u) => management_page(
                match port {
                    Some(p) => Some(p as nat),
                    None => None,
                },
                match host {
                    Some(h) => Some(h@),
                    None => None,
                },
            ) == Some(u@),
            None => port is None,
        },
{
    match port {
        None => None,
        Some(p) => {
            let mut url = String::from_str("http://");
            let h = browser_host(host);
            url.append(h.as_str());
            url.append(":");
            push_decimal(&mut url, p as u64);
            url.append("/management.html");
            Some(url)
        },
    }
}

/// The runtime to make active when runtimes are installed: the first one,
/// unless the active one is among them.
pub open spec fn active_choice(active: Option<Seq<char>>, ids: Seq<Seq<char>>) -> Option<Seq<char>> {
    if ids.len() == 0 {
        None
    } else if active matches Some(a) && exists|j: int| 0 <= j < ids.len() && #[trigger] ids[j] == a {
        None
    } else {
        Some(ids[0])
    }
}

/// Which runtime to record as active after start-up, if the record changes.
pub fn bootstrap_active_version(active: Option<&str>, ids: &[String]) -> (r: Option<String>)
    ensures
        opt_string(r) == active_choice(
            match active {
                Some(a) => Some(a@),
                None => None,
            },
            string_views(ids@),
        ),
{
    let ghost iv = string_views(ids@);
    if ids.len() == 0 {
        return None;
    }
    if let Some(a) = active {
        let ac = chars_of(a);
        let mut j: usize = 0;
        while j < ids.len()
            invariant
                j <= ids@.len(),
                iv == string_views(ids@),
                ac@ == a@,
                active == Some(a),
                ids@.len() > 0,
                forall|k: int| 0 <= k < j ==> #[trigger] iv[k] != a@,
            decreases ids@.len() - j,
        {
            assert(iv[j as int] == ids@[j as int]@);
            if same_chars(chars_of(ids[j].as_str()).as_slice(), ac.as_slice()) {
                assert(iv[j as int] == a@);
                return None;
            }
            j = j + 1;
        }
    }
    assert(iv[0] == ids@[0]@);
    Some(ids[0].clone())
}

pub open spec fn opt_string(r: Option<String>) -> Option<Seq<char>> {
    match r {
        Some(s) => Some(s@),
        None => None,
    }
}

/// Runtime `a` is listed before runtime `b`: installed later, or at the
/// same time and found first.
pub open spec fn listed_before(installed_at: Seq<u64>, a: int, b: int) -> bool {
    installed_at[a] > installed_at[b] || (installed_at[a] == installed_at[b] && a < b)
}

/// `order` lists every runtime once, newest first, ties in the order found
/// (what a stable sort by descending `installed_at` gives).
pub open spec fn newest_first(installed_at: Seq<u64>, order: Seq<usize>) -> bool {
    &&& order.len() == installed_at.len()
    &&& forall|i: int| 0 <= i < order.len() ==> #[trigger] order[i] < installed_at.len()
    &&& forall|i: int, j: int|
        0 <= i < j < order.len() ==> listed_before(
            installed_at,
            #[trigger] order[i] as int,
            #[trigger] order[j] as int,
        )
}

/// A newest-first order lists every runtime: each index occurs in it.
pub proof fn lemma_newest_first_lists_all(installed_at: Seq<u64>, order: Seq<usize>, k: int)
    requires
        newest_first(installed_at, order),
        0 <= k < installed_at.len(),
    ensures
        exists|i: int| 0 <= i < order.len() && order[i] == k,
{
    let n = installed_at.len() as int;
    let m = order.map_values(|x: usize| x as int);
    assert forall|i: int, j: int| 0 <= i < m.len() && 0 <= j < m.len() && i != j implies m[i]
        != m[j] by {
        if i < j {
            assert(listed_before(installed_at, order[i] as int, order[j] as int));
        } else {
            assert(listed_before(installed_at, order[j] as int, order[i] as int));
        }
    }
    assert(m.no_duplicates());
    m.unique_seq_to_set();
    let range = vstd::set_lib::set_int_range(0, n);
    vstd::set_lib::lemma_int_range(0, n);
    assert forall|x: int| m.to_set().contains(x) implies range.contains(x) by {
        let i = choose|i: int| 0 <= i < m.len() && m[i] == x;
        assert(order[i] < installed_at.len());
    }
    vstd::set_lib::lemma_subset_equality(m.to_set(), range);
    assert(range.contains(k));
    assert(m.to_set().contains(k));
    let i = choose|i: int| 0 <= i < m.len() && m[i] == k;
    assert(order[i] == k);
}

/// The order in which installed runtimes are listed, as indices.
pub fn newest_first_order(installed_at: &[u64]) -> (order: Vec<usize>)
    ensures
        newest_first(installed_at@, order@),
{
    let ghost keys = installed_at@;
    let mut order: Vec<usize> = Vec::new();
    let mut k: usize = 0;
    while k < installed_at.len()
        invariant
            k <= keys.len(),
            keys == installed_at@,
            order@.len() == k,
            forall|i: int| 0 <= i < order@.len() ==> #[trigger] order@[i] < k,
            forall|i: int, j: int|
                0 <= i < j < order@.len() ==> listed_before(
                    keys,
                    #[trigger] order@[i] as int,
                    #[trigger] order@[j] as int,
                ),
        decreases keys.len() - k,
    {
        let key = installed_at[k];
        let mut p: usize = 0;
        while p < order.len() && installed_at[order[p]] >= key
            invariant
                p <= order@.len(),
                keys == installed_at@,
                forall|i: int| 0 <= i < order@.len() ==> #[trigger] order@[i] < k,
                k < keys.len(),
                key == keys[k as int],
                forall|i: int| 0 <= i < p ==> keys[#[trigger] order@[i] as int] >= key,
            decreases order@.len() - p,
        {
            p = p + 1;
        }
        let ghost old_order = order@;
        proof {
            assert forall|q: int| p <= q < old_order.len() implies keys[#[trigger] old_order[q] as int]
                < key by {
                if q > p {
                    assert(listed_before(keys, old_order[p as int] as int, old_order[q] as int));
                }
            }
        }
        order.insert(p, k);
        proof {
            assert forall|i: int, j: int| 0 <= i < j < order@.len() implies listed_before(
                keys,
                #[trigger] order@[i] as int,
                #[trigger] order@[j] as int,
            ) by {
                if j < p {
                    assert(order@[i] == old_order[i] && order@[j] == old_order[j]);
                } else if j == p {
                    assert(order@[i] == old_order[i]);
                } else if i < p {
                    assert(order@[i] == old_order[i] && order@[j] == old_order[j - 1]);
                } else if i == p {
                    assert(order@[j] == old_order[j - 1]);
                } else {
                    assert(order@[i] == old_order[i - 1] && order@[j] == old_order[j - 1]);
                }
            }
            assert forall|i: int| 0 <= i < order@.len() implies #[trigger] order@[i] < k + 1 by {
                if i < p {
                    assert(order@[i] == old_order[i]);
                } else if i > p {
                    assert(order@[i] == old_order[i - 1]);
                }
            }
        }
        k = k + 1;
    }
    order
}

/// Whether a saved usage backup is worth importing: it is not empty and
/// counts requests.
pub fn usage_backup_restorable(backup: &[u8]) -> (r: bool)
    ensures
        r == (backup@.len() > 0 && usage_count(backup@) != 0),
        backup@.len() == 0 ==> !r,
{
    if backup.len() == 0 {
        return false;
    }
    usage_import_wanted(backup.len(), usage_total_requests(backup))
}

/// A backup is imported when it holds bytes and its export counts requests.
pub fn usage_import_wanted(backup_len: usize, total_requests: i64) -> (r: bool)
    ensures
        r == (backup_len > 0 && total_requests != 0),
{
    backup_len > 0 && total_requests != 0
}

/// How many times the import of a usage backup is tried.
pub const USAGE_IMPORT_ATTEMPTS: u32 = 25;

/// How often a terminated process is checked before it is killed.
pub const STOP_POLLS: u32 = 20;

/// Where stopping a managed process stands.
#[derive(Clone, Copy, Debug, PartialEq, Eq, Structural)]
pub enum StopState {
    /// Nothing done yet.
    Start,
    /// `TERM` is being sent.
    Terminating,
    /// `TERM` was sent; this many checks found it still running.
    Waiting(u32),
    /// `KILL` is being sent.
    Killing,
    /// Finished.
    Stopped,
    /// Finished without stopping it.
    Failed(StopFailure),
}

/// Why a process could not be stopped.
#[derive(Clone, Copy, Debug, PartialEq, Eq, Structural)]
pub enum StopFailure {
    /// `kill -TERM` reported failure.
    TermRefused,
    /// `kill -KILL` reported failure.
    KillRefused,
}

/// What the caller does next.
#[derive(Clone, Copy, Debug, PartialEq, Eq, Structural)]
pub enum StopAction {
    /// Check whether the process runs, then report `Running`.
    CheckRunning,
    /// Send `TERM`, then report `Sent`.
    SendTerm,
    /// Wait a moment, then check whether it runs.
    PauseThenCheck,
    /// Wait a moment, send `KILL`, then report `Sent`.
    PauseThenKill,
    /// Stop; the state says how it ended.
    Finish,
}

/// What the caller observed.
#[derive(Clone, Copy, Debug, PartialEq, Eq, Structural)]
pub enum StopEvent {
    /// No action was taken yet.
    Begin,
    /// The process runs (or not).
    Running(bool),
    /// The signal command succeeded (or not).
    Sent(bool),
}

/// One step of stopping a process: check it, `TERM` it, check it up to
/// `STOP_POLLS` times a moment apart, and a moment after the last `KILL` it.
pub open spec fn stop_transition(state: StopState, event: StopEvent) -> (StopState, StopAction) {
    match (state, event) {
        (StopState::Start, StopEvent::Begin) => (StopState::Start, StopAction::CheckRunning),
        (StopState::Start, StopEvent::Running(false)) => (StopState::Stopped, StopAction::Finish),
        (StopState::Start, StopEvent::Running(true)) => (StopState::Terminating, StopAction::SendTerm),
        (StopState::Terminating, StopEvent::Sent(false)) => (
            StopState::Failed(StopFailure::TermRefused),
            StopAction::Finish,
        ),
        (StopState::Terminating, StopEvent::Sent(true)) => (StopState::Waiting(0), StopAction::CheckRunning),
        (StopState::Waiting(_), StopEvent::Running(false)) => (StopState::Stopped, StopAction::Finish),
        (StopState::Waiting(n), StopEvent::Running(true)) => if n + 1 < STOP_POLLS {
            (StopState::Waiting((n + 1) as u32), StopAction::PauseThenCheck)
        } else {
            (StopState::Killing, StopAction::PauseThenKill)
        },
        (StopState::Killing, StopEvent::Sent(true)) => (StopState::Stopped, StopAction::Finish),
        (StopState::Killing, StopEvent::Sent(false)) => (
            StopState::Failed(StopFailure::KillRefused),
            StopAction::Finish,
        ),
        (s, _) => (s, StopAction::Finish),
    }
}

pub fn stop_step(state: StopState, event: StopEvent) -> (r: (StopState, StopAction))
    ensures
        r == stop_transition(state, event),
{
    match (state, event) {
        (StopState::Start, StopEvent::Begin) => (StopState::Start, StopAction::CheckRunning),
        (StopState::Start, StopEvent::Running(false)) => (StopState::Stopped, StopAction::Finish),
        (StopState::Start, StopEvent::Running(true)) => (StopState::Terminating, StopAction::SendTerm),
        (StopState::Terminating, StopEvent::Sent(false)) => (
            StopState::Failed(StopFailure::TermRefused),
            StopAction::Finish,
        ),
        (StopState::Terminating, StopEvent::Sent(true)) => (StopState::Waiting(0), StopAction::CheckRunning),
        (StopState::Waiting(_), StopEvent::Running(false)) => (StopState::Stopped, StopAction::Finish),
        (StopState::Waiting(n), StopEvent::Running(true)) => if n < STOP_POLLS - 1 {
            (StopState::Waiting(n + 1), StopAction::PauseThenCheck)
        } else {
            (StopState::Killing, StopAction::PauseThenKill)
        },
        (StopState::Killing, StopEvent::Sent(true)) => (StopState::Stopped, StopAction::Finish),
        (StopState::Killing, StopEvent::Sent(false)) => (
            StopState::Failed(StopFailure::KillRefused),
            StopAction::Finish,
        ),
        (s, _) => (s, StopAction::Finish),
    }
}

/// A configured auth directory that is not under the home directory is
/// used as written: the trimmed text, of the same length, each character
/// kept but a backslash, which becomes `/` (so an absolute path stays
/// absolute and a relative one relative).
pub proof fn lemma_plain_auth_dir_kept(auth_dir: Seq<char>)
    requires
        trim(auth_dir).len() > 0,
        trim(auth_dir)[0] != '~',
    ensures
        !auth_dir_target(auth_dir).0,
        auth_dir_target(auth_dir).1.len() == trim(auth_dir).len(),
        forall|i: int|
            0 <= i < trim(auth_dir).len() ==> #[trigger] auth_dir_target(auth_dir).1[i] == (if trim(
                auth_dir,
            )[i] == '\\' {
                '/'
            } else {
                trim(auth_dir)[i]
            }),
{
    reveal_strlit("~");
    reveal_strlit("~/");
    reveal_strlit("~\\");
    let t = trim(auth_dir);
    assert(t != "~"@) by {
        assert("~"@[0] == '~');
    }
    assert(!starts_with(t, "~/"@)) by {
        if starts_with(t, "~/"@) {
            assert(t.take(2)[0] == t[0]);
        }
    }
    assert(!starts_with(t, "~\\"@)) by {
        if starts_with(t, "~\\"@) {
            assert(t.take(2)[0] == t[0]);
        }
    }
}

/// Stopping fails only on a signal that could not be sent, and ends as
/// stopped only once the process was seen not running or was killed:
/// a failure state is reached only from `Sent(false)`, and a `KILL` that
/// was sent ends in `Stopped`.
pub proof fn lemma_stop_outcomes(state: StopState, event: StopEvent)
    ensures
        stop_transition(state, event).0 is Failed ==> state is Failed || event == StopEvent::Sent(false),
        stop_transition(state, event).0 == StopState::Stopped ==> state == StopState::Stopped || event
            == StopEvent::Running(false) || (state == StopState::Killing && event == StopEvent::Sent(true)),
        state == StopState::Killing && event == StopEvent::Sent(true) ==> stop_transition(state, event)
            == (StopState::Stopped, StopAction::Finish),
        state is Waiting && event == StopEvent::Running(false) ==> stop_transition(state, event).0
            == StopState::Stopped,
{
}

/// `lsof -Fp` output that starts with the line `p<pid>` gives that pid.
pub proof fn lemma_lsof_first_pid(pid: u32, rest: Seq<char>)
    ensures
        lsof_pid(text_lines(seq!['p'] + decimal(pid as nat) + seq!['\n'] + rest), 0) == Some(pid as nat),
{
    let line = seq!['p'] + decimal(pid as nat);
    let s = line + seq!['\n'] + rest;
    lemma_parse_decimal(pid as nat, u32::MAX as nat);
    crate::number::lemma_decimal_digits(pid as nat);
    assert forall|i: int| 0 <= i < line.len() implies line[i] != '\n' && line[i] != '\r' by {
        if i > 0 {
            assert(line[i] == decimal(pid as nat)[i - 1]);
        }
    }
    assert(line.last() == line[line.len() - 1]);
    crate::text::lemma_first_line(line, rest);
    let ls = text_lines(s);
    assert(ls[0] == line);
    assert(line.skip(1) =~= decimal(pid as nat));
    assert(line[0] == 'p');
}

/// Newer runtimes are listed before older ones, and runtimes installed at
/// the same time keep the order they were found in.
pub proof fn lemma_newest_first_is_by_time(installed_at: Seq<u64>, order: Seq<usize>, i: int, j: int)
    requires
        newest_first(installed_at, order),
        0 <= i < order.len(),
        0 <= j < order.len(),
    ensures
        installed_at[order[i] as int] > installed_at[order[j] as int] ==> i < j,
        installed_at[order[i] as int] == installed_at[order[j] as int] && order[i] < order[j] ==> i < j,
{
    if i > j {
        assert(listed_before(installed_at, order[j] as int, order[i] as int));
    }
    if i == j {
        assert(order[i] == order[j]);
    }
}

/// An existing backup is replaced only by an export that counts requests;
/// without a backup any export is kept. A backup is imported only when it
/// holds bytes and a non-zero request count.
pub proof fn lemma_backup_rules(data: Seq<u8>, backup_exists: bool)
    ensures
        backup_exists && usage_count(data) <= 0 ==> !backup_wanted(usage_count(data), backup_exists),
        usage_count(data) > 0 ==> backup_wanted(usage_count(data), backup_exists),
        !backup_exists ==> backup_wanted(usage_count(data), backup_exists),
        json_i64_at(data, "/usage/total_requests"@) is None ==> usage_count(data) == 0,
        (json_i64_at(data, "/usage/total_requests"@) matches Some(n) ==> usage_count(data) == n),
{
}

/// A command is taken for the managed service only when it runs the
/// `cli-proxy-api` binary and names the runtime directory or the workspace
/// configuration; a process without a command never is.
pub proof fn lemma_managed_command(command: Option<Seq<char>>, runtime_dir: Seq<char>, workspace_config: Seq<char>)
    ensures
        command is None ==> !managed_command(command, runtime_dir, workspace_config),
        (command matches Some(c) ==> (managed_command(command, runtime_dir, workspace_config) <==> (
        contains_seq(c, "cli-proxy-api"@) && (contains_seq(c, runtime_dir) || contains_seq(
            c,
            workspace_config,
        ))))),
{
}

/// The active version is kept when it is installed; otherwise the first
/// listed runtime becomes active, and with none nothing changes.
pub proof fn lemma_active_choice(active: Option<Seq<char>>, ids: Seq<Seq<char>>, j: int)
    ensures
        ids.len() == 0 ==> active_choice(active, ids) is None,
        active matches Some(a) && 0 <= j < ids.len() && ids[j] == a ==> active_choice(active, ids) is None,
        (active_choice(active, ids) matches Some(x) ==> ids.len() > 0 && x == ids[0]),
        active is None && ids.len() > 0 ==> active_choice(active, ids) == Some(ids[0]),
{
}

/// The management page is served over plain HTTP at `/management.html` on
/// the configured port, which reads back from the address; without a port
/// there is no page.
pub proof fn lemma_management_page_port(port: u16, host: Option<Seq<char>>)
    ensures
        management_page(None, host) is None,
        management_page(Some(port as nat), host) matches Some(u) && {
            let n = u.len() - 16;
            let i = n - decimal(port as nat).len();
            &&& u.take(7) == "http://"@
            &&& u.skip(n) == "/management.html"@
            &&& u[i - 1] == ':'
            &&& parse_uint(u.subrange(i, n), 10, 65535) == Ok::<nat, IntErrorKind>(port as nat)
        },
{
    reveal_strlit("http://");
    reveal_strlit("/management.html");
    reveal_strlit(":");
    lemma_parse_decimal(port as nat, 65535);
    let d = decimal(port as nat);
    let h = crate::yaml::browser_host_text(host);
    let u = "http://"@ + h + ":"@ + d + "/management.html"@;
    let n = u.len() - 16;
    let i = n - d.len();
    assert(u.take(7) =~= "http://"@);
    assert(u.skip(n) =~= "/management.html"@);
    assert(u.subrange(i, n) =~= d);
    assert(u[i - 1] == ':');
}

/// A directory under the home directory, `~/<rest>`, is planned as `<rest>`
/// below home (backslashes made `/`); a blank setting means the default
/// `~/.cli-proxy-api`.
pub proof fn lemma_home_auth_dir(auth_dir: Seq<char>, rest: Seq<char>)
    ensures
        trim(auth_dir) == seq!['~', '/'] + rest && (rest.len() == 0 || (rest[0] != '/' && rest[0]
            != '\\')) ==> {
            &&& auth_dir_target(auth_dir).0
            &&& auth_dir_target(auth_dir).1.len() == rest.len()
            &&& forall|i: int|
                0 <= i < rest.len() ==> #[trigger] auth_dir_target(auth_dir).1[i] == (if rest[i]
                    == '\\' {
                    '/'
                } else {
                    rest[i]
                })
        },
        trim(auth_dir).len() == 0 ==> auth_dir_target(auth_dir) == (true, ".cli-proxy-api"@),
{
    reveal_strlit("~/");
    reveal_strlit("~/.cli-proxy-api");
    reveal_strlit(".cli-proxy-api");
    let v = seq!['~', '/'] + rest;
    if trim(auth_dir) == v && (rest.len() == 0 || (rest[0] != '/' && rest[0] != '\\')) {
        assert(v.take(2) =~= "~/"@);
        lemma_lead_in_at_two(v, rest);
    }
    if trim(auth_dir).len() == 0 {
        let d = "~/.cli-proxy-api"@;
        assert(d.take(2) =~= "~/"@);
        assert(d =~= seq!['~', '/'] + ".cli-proxy-api"@);
        lemma_lead_in_at_two(d, ".cli-proxy-api"@);
        reveal_strlit("~");
        assert(d.len() != "~"@.len());
        assert(DEFAULT_AUTH_DIR@ == d);
    }
}

/// `~/` then a part that starts with neither slash: the tilde and one slash
/// are what the home case strips.
proof fn lemma_lead_in_at_two(v: Seq<char>, rest: Seq<char>)
    requires
        v == seq!['~', '/'] + rest,
        rest.len() == 0 || (rest[0] != '/' && rest[0] != '\\'),
    ensures
        trim_start_in(trim_start_in(v, CharClass::Is('~')), CharClass::IsEither('/', '\\')) == rest,
{
    crate::text::lemma_lead_in_at(v, CharClass::Is('~'), 1);
    let w = v.skip(1);
    assert(w =~= seq!['/'] + rest);
    crate::text::lemma_lead_in_at(w, CharClass::IsEither('/', '\\'), 1);
    assert(w.skip(1) =~= rest);
}

/// The page's host is the configured host as written; an IPv6 address is
/// put in brackets; no host, a blank one or `0.0.0.0` means `127.0.0.1`.
pub proof fn lemma_management_page_host(port: u16, h: Seq<char>)
    ensures
        trim(h) == h && h.len() > 0 && find_char(h, ':') is None && h != "0.0.0.0"@ ==> (
        management_page(Some(port as nat), Some(h)) matches Some(u) && u.subrange(7, 7 + h.len() as int) == h
            && u[7 + h.len() as int] == ':'),
        trim(h) == h && find_char(h, ':') is Some && h[0] != '[' && !crate::yaml::wildcard_host(h) ==> (
        management_page(Some(port as nat), Some(h)) matches Some(u) && u.subrange(7, 9 + h.len() as int) == seq![
            '[',
        ] + h + seq![']']),
        trim(h).len() == 0 || h == "0.0.0.0"@ ==> (management_page(Some(port as nat), Some(h)) matches Some(
            u,
        ) && u.subrange(7, 16) == "127.0.0.1"@),
        management_page(Some(port as nat), None) matches Some(u) && u.subrange(7, 16) == "127.0.0.1"@,
{
    reveal_strlit("http://");
    reveal_strlit(":");
    reveal_strlit("127.0.0.1");
    reveal_strlit("0.0.0.0");
    reveal_strlit("::");
    reveal_strlit("[::]");
    reveal_strlit("::0");
    let tail = ":"@ + decimal(port as nat) + "/management.html"@;
    let b = crate::yaml::browser_host_text(Some(h));
    let u = "http://"@ + b + tail;
    assert(u == "http://"@ + b + ":"@ + decimal(port as nat) + "/management.html"@);
    assert(u.subrange(7, 7 + b.len() as int) =~= b);
    assert(u[7 + b.len() as int] == ':');
    if trim(h) == h && h.len() > 0 && find_char(h, ':') is None && h != "0.0.0.0"@ {
        lemma_find_char(h, ':');
        assert(h != "::"@) by {
            if h == "::"@ {
                assert(h[0] == ':');
            }
        }
        assert(h != "[::]"@) by {
            if h == "[::]"@ {
                assert(h[1] == ':');
            }
        }
        assert(h != "::0"@) by {
            if h == "::0"@ {
                assert(h[0] == ':');
            }
        }
        assert(b == h);
    }
    let e = Seq::<char>::empty();
    let bn = crate::yaml::browser_host_text(None);
    let un = "http://"@ + bn + ":"@ + decimal(port as nat) + "/management.html"@;
    crate::text::lemma_lead_in_at(e, CharClass::Whitespace, 0);
    crate::text::lemma_trail_in_at(e, CharClass::Whitespace, 0);
    assert(e.skip(0) == e && e.take(0) == e);
    assert(trim(e).len() == 0);
    assert(bn == "127.0.0.1"@);
    assert(un.subrange(7, 16) =~= "127.0.0.1"@);
    if trim(h).len() == 0 || h == "0.0.0.0"@ {
        if h == "0.0.0.0"@ {
            crate::text::lemma_lead_in_at(h, CharClass::Whitespace, 0);
            crate::text::lemma_trail_in_at(h, CharClass::Whitespace, 0);
            assert(h.skip(0) == h && h.take(h.len() as int) == h);
        }
        assert(b == "127.0.0.1"@);
        assert(u.subrange(7, 16) =~= "127.0.0.1"@);
    }
    if trim(h) == h && find_char(h, ':') is Some && h[0] != '[' && !crate::yaml::wildcard_host(h) {
        assert(b == seq!['['] + h + seq![']']);
    }
}

} // verus!
