//! The decisions of the desktop commands, apart from the files, processes
//! and sockets they work on: which archive entries are unpacked, what the
//! service status shows, which default configuration is used, when a
//! process may be stopped or a version deleted, how often an import is
//! retried.

use vstd::prelude::*;
use crate::package::{is_json_path, json_name, relative_parts, safe_relative_path, PathError, PathPart};
use crate::service::USAGE_IMPORT_ATTEMPTS;
use crate::text::{chars_of, opt_view, same_chars, string_views, trim};
use crate::yaml::{non_empty, non_empty_str, plain_management_secret_from_content, plain_secret};

verus! {

/// The kind of an archive entry, as far as unpacking cares.
#[derive(Clone, Copy, Debug, PartialEq, Eq, Structural)]
pub enum EntryKind {
    /// A regular file.
    File,
    /// A directory.
    Directory,
    /// A symbolic link.
    Symlink,
    /// A hard link.
    HardLink,
    /// Anything else (devices, fifos, extension headers).
    Other,
}

/// What to do with an archive entry.
#[derive(Clone, Debug)]
pub enum EntryAction {
    /// Pass over it.
    Skip,
    /// Create the directory at these names below the target.
    CreateDir(Vec<String>),
    /// Unpack the file to these names below the target.
    Unpack(Vec<String>),
}

/// Why an archive is refused.
#[derive(Clone, Copy, Debug, PartialEq, Eq, Structural)]
pub enum ArchiveError {
    /// It holds a symbolic or hard link.
    Link,
    /// An entry's path may not be used below the target.
    Path(PathError),
}

/// The error an entry gives: links are refused; entries that are passed
/// over by kind are not looked at further; the others need a safe path.
/// With `json_only` (importing auth files) directories are passed over too.
pub open spec fn entry_error(kind: EntryKind, parts: Seq<PathPart>, json_only: bool) -> Option<ArchiveError> {
    if kind is Symlink || kind is HardLink {
        Some(ArchiveError::Link)
    } else if kind is Other || (json_only && kind is Directory) {
        None
    } else {
        match relative_parts(parts) {
            Err(e) => Some(ArchiveError::Path(e)),
            Ok(_) => None,
        }
    }
}

/// Whether an entry without an error is passed over: by its kind, or, with
/// `json_only`, because its file name has no `json` extension.
pub open spec fn entry_skipped(kind: EntryKind, parts: Seq<PathPart>, json_only: bool) -> bool {
    ||| kind is Other
    ||| (json_only && kind is Directory)
    ||| (json_only && kind is File && match relative_parts(parts) {
        Ok(names) => !json_name(Some(names.last())),
        Err(_) => false,
    })
}

/// Decides what unpacking does with one archive entry.
pub fn archive_entry_action(kind: EntryKind, parts: &[PathPart], json_only: bool) -> (r: Result<EntryAction, ArchiveError>)
    ensures
        match r {
            Err(e) => entry_error(kind, parts@, json_only) == Some(e),
            Ok(EntryAction::Skip) => entry_error(kind, parts@, json_only) is None && entry_skipped(
                kind,
                parts@,
                json_only,
            ),
            Ok(EntryAction::CreateDir(names)) => {
                &&& entry_error(kind, parts@, json_only) is None
                &&& !entry_skipped(kind, parts@, json_only)
                &&& kind is Directory
                &&& relative_parts(parts@) == Ok::<Seq<Seq<char>>, PathError>(string_views(names@))
            },
            Ok(EntryAction::Unpack(names)) => {
                &&& entry_error(kind, parts@, json_only) is None
                &&& !entry_skipped(kind, parts@, json_only)
                &&& kind is File
                &&& relative_parts(parts@) == Ok::<Seq<Seq<char>>, PathError>(string_views(names@))
            },
        },
{
    match kind {
        EntryKind::Symlink | EntryKind::HardLink => {
            return Err(ArchiveError::Link);
        },
        EntryKind::Other => {
            return Ok(EntryAction::Skip);
        },
        EntryKind::Directory => {
            if json_only {
                return Ok(EntryAction::Skip);
            }
        },
        EntryKind::File => {},
    }
    let names = match safe_relative_path(parts) {
        Ok(names) => names,
        Err(e) => {
            return Err(ArchiveError::Path(e));
        },
    };
    proof {
        assert(names@.map_values(|s: String| s@) == string_views(names@));
    }
    if kind == EntryKind::Directory {
        return Ok(EntryAction::CreateDir(names));
    }
    if json_only {
        if names.len() == 0 {
            return Ok(EntryAction::Skip);
        }
        let last = names.len() - 1;
        let is_json = is_json_path(Some(names[last].as_str()));
        proof {
            assert(string_views(names@).last() == names@[last as int]@);
        }
        if !is_json {
            return Ok(EntryAction::Skip);
        }
    }
    Ok(EntryAction::Unpack(names))
}

/// The paths an auth import unpacks from these entries, in archive order:
/// the safe relative paths of the JSON files, the other entries passed over.
pub open spec fn imported_from(entries: Seq<(EntryKind, Seq<PathPart>)>) -> Seq<Seq<Seq<char>>>
    decreases entries.len(),
{
    if entries.len() == 0 {
        Seq::empty()
    } else {
        let init = imported_from(entries.drop_last());
        let (kind, parts) = entries.last();
        if entry_error(kind, parts, true) is None && !entry_skipped(kind, parts, true) {
            match relative_parts(parts) {
                Ok(names) => init.push(names),
                Err(_) => init,
            }
        } else {
            init
        }
    }
}

/// An auth import in progress: the entries looked at so far, none refused,
/// and the paths unpacked from them.
pub struct ImportProgress {
    imported: Vec<Vec<String>>,
    entries: Ghost<Seq<(EntryKind, Seq<PathPart>)>>,
}

/// The archive holds no JSON file to import.
#[derive(Clone, Copy, Debug, PartialEq, Eq, Structural)]
pub struct NoJsonFiles;

impl ImportProgress {
    #[verifier::type_invariant]
    spec fn well_formed(self) -> bool {
        paths_view(self.imported@) == imported_from(self.entries@)
    }

    /// The entries looked at so far, in archive order.
    pub closed spec fn entries(self) -> Seq<(EntryKind, Seq<PathPart>)> {
        self.entries@
    }

    /// The paths unpacked so far.
    pub closed spec fn paths(self) -> Seq<Seq<Seq<char>>> {
        paths_view(self.imported@)
    }

    pub fn new() -> (r: Self)
        ensures
            r.entries().len() == 0,
            r.paths().len() == 0,
    {
        let imported: Vec<Vec<String>> = Vec::new();
        assert(paths_view(imported@) =~= Seq::<Seq<Seq<char>>>::empty());
        ImportProgress { imported, entries: Ghost(Seq::empty()) }
    }

    /// The path unpacked last.
    pub fn latest(&self) -> (r: Option<&Vec<String>>)
        ensures
            match r {
                Some(v) => self.paths().len() > 0 && string_views(v@) == self.paths().last(),
                None => self.paths().len() == 0,
            },
    {
        if self.imported.len() == 0 {
            None
        } else {
            Some(&self.imported[self.imported.len() - 1])
        }
    }
}

/// Looks at the next entry of an auth archive: a refused entry is an error
/// and changes nothing; otherwise the entry joins those looked at, and when
/// it is a JSON file its safe path joins the paths to unpack (`Ok(true)`:
/// unpack it to `latest()`).
pub fn import_entry(progress: &mut ImportProgress, kind: EntryKind, parts: &[PathPart]) -> (r: Result<bool, ArchiveError>)
    ensures
        old(progress).paths() == imported_from(old(progress).entries()),
        match r {
            Err(e) => {
                &&& entry_error(kind, parts@, true) == Some(e)
                &&& *final(progress) == *old(progress)
            },
            Ok(unpack) => {
                &&& entry_error(kind, parts@, true) is None
                &&& final(progress).entries() == old(progress).entries().push((kind, parts@))
                &&& unpack == !entry_skipped(kind, parts@, true)
                &&& unpack ==> relative_parts(parts@) == Ok::<Seq<Seq<char>>, PathError>(
                    final(progress).paths().last(),
                ) && final(progress).paths() == old(progress).paths().push(final(progress).paths().last())
                &&& !unpack ==> final(progress).paths() == old(progress).paths()
            },
        },
        final(progress).paths() == imported_from(final(progress).entries()),
{
    proof {
        use_type_invariant(&*progress);
    }
    let action = archive_entry_action(kind, parts, true);
    match action {
        Err(e) => Err(e),
        Ok(action) => {
            let mut current = ImportProgress::new();
            std::mem::swap(&mut current, progress);
            proof {
                use_type_invariant(&current);
            }
            let ImportProgress { mut imported, entries } = current;
            let ghost seen = entries@.push((kind, parts@));
            let ghost before = paths_view(imported@);
            let unpack = match action {
                EntryAction::Unpack(names) => {
                    imported.push(names);
                    assert(paths_view(imported@) =~= before.push(paths_view(imported@).last()));
                    true
                },
                _ => false,
            };
            proof {
                assert(seen.drop_last() =~= entries@);
                assert(seen.last() == (kind, parts@));
                if !unpack {
                    assert(paths_view(imported@) =~= before);
                }
            }
            *progress = ImportProgress { imported, entries: Ghost(seen) };
            Ok(unpack)
        },
    }
}

/// Ends an auth import: the unpacked paths in archive order, or an error
/// when there are none.
pub fn finish_import(progress: ImportProgress) -> (r: Result<Vec<Vec<String>>, NoJsonFiles>)
    ensures
        progress.paths() == imported_from(progress.entries()),
        r is Err <==> progress.paths().len() == 0,
        r matches Ok(v) ==> paths_view(v@) == progress.paths(),
{
    proof {
        use_type_invariant(&progress);
    }
    let ImportProgress { imported, entries } = progress;
    if imported.len() == 0 {
        Err(NoJsonFiles)
    } else {
        Ok(imported)
    }
}

/// What the desktop shows of the service.
#[derive(Clone, Copy, Debug, PartialEq, Eq, Structural)]
pub struct ServiceInfo {
    pub running: bool,
    pub pid: Option<u32>,
    pub port: Option<u16>,
}

/// The service status: the pid of the child this application started, else
/// that of a managed service found running; running when there is a pid.
pub fn service_info(child: Option<u32>, detected: Option<u32>, port: Option<u16>) -> (r: ServiceInfo)
    ensures
        r.pid == (if child is Some {
            child
        } else {
            detected
        }),
        r.running == r.pid is Some,
        r.port == port,
{
    let pid = match child {
        Some(p) => Some(p),
        None => detected,
    };
    ServiceInfo { running: pid.is_some(), pid, port }
}

/// The file a runtime's default configuration is taken from.
#[derive(Clone, Copy, Debug, PartialEq, Eq, Structural)]
pub enum DefaultConfig {
    /// `config.yaml` of the package.
    Packaged,
    /// `config.example.yaml` of the package.
    Example,
}

/// The package holds neither default configuration file.
#[derive(Clone, Copy, Debug, PartialEq, Eq, Structural)]
pub struct MissingDefaultConfig;

/// The packaged `config.yaml` when there is one, else the example file;
/// an error when there is neither.
pub fn default_config_source(packaged_exists: bool, example_exists: bool) -> (r: Result<DefaultConfig, MissingDefaultConfig>)
    ensures
        r == (if packaged_exists {
            Ok::<DefaultConfig, MissingDefaultConfig>(DefaultConfig::Packaged)
        } else if example_exists {
            Ok::<DefaultConfig, MissingDefaultConfig>(DefaultConfig::Example)
        } else {
            Err::<DefaultConfig, MissingDefaultConfig>(MissingDefaultConfig)
        }),
{
    if packaged_exists {
        Ok(DefaultConfig::Packaged)
    } else if example_exists {
        Ok(DefaultConfig::Example)
    } else {
        Err(MissingDefaultConfig)
    }
}

/// Why a process is not stopped.
#[derive(Clone, Copy, Debug, PartialEq, Eq, Structural)]
pub enum TerminateRefusal {
    /// It is this application itself.
    OwnProcess,
    /// It runs, but not from a runtime this application manages.
    NotManaged,
}

/// Whether a pid may be stopped: never this application's own; a process
/// that no longer runs needs nothing (`Ok(false)`); one that runs is stopped
/// (`Ok(true)`) only when it is managed. `running` is looked at only for
/// another pid, `managed` only for a running one.
pub open spec fn terminate_choice(pid: u32, own_pid: u32, running: bool, managed: bool) -> Result<bool, TerminateRefusal> {
    if pid == own_pid {
        Err(TerminateRefusal::OwnProcess)
    } else if !running {
        Ok(false)
    } else if !managed {
        Err(TerminateRefusal::NotManaged)
    } else {
        Ok(true)
    }
}

pub fn terminate_decision(pid: u32, own_pid: u32, running: bool, managed: bool) -> (r: Result<bool, TerminateRefusal>)
    ensures
        r == terminate_choice(pid, own_pid, running, managed),
{
    if pid == own_pid {
        Err(TerminateRefusal::OwnProcess)
    } else if !running {
        Ok(false)
    } else if !managed {
        Err(TerminateRefusal::NotManaged)
    } else {
        Ok(true)
    }
}

/// Why a runtime version is not deleted.
#[derive(Clone, Copy, Debug, PartialEq, Eq, Structural)]
pub enum DeleteRefusal {
    /// It is the active version.
    Active,
    /// Its directory lies outside the runtime directory.
    OutsideRuntimeDir,
}

/// The active version is never deleted; another one only when its
/// directory lies inside the runtime directory.
pub fn delete_refusal(is_active: bool, inside_runtime_dir: bool) -> (r: Option<DeleteRefusal>)
    ensures
        r == (if is_active {
            Some(DeleteRefusal::Active)
        } else if !inside_runtime_dir {
            Some(DeleteRefusal::OutsideRuntimeDir)
        } else {
            None::<DeleteRefusal>
        }),
{
    if is_active {
        Some(DeleteRefusal::Active)
    } else if !inside_runtime_dir {
        Some(DeleteRefusal::OutsideRuntimeDir)
    } else {
        None
    }
}

/// What follows one attempt to import a usage backup.
#[derive(Clone, Copy, Debug, PartialEq, Eq, Structural)]
pub enum ImportAction {
    /// The import went through: done.
    Done,
    /// Wait a moment, then try again.
    PauseThenRetry,
    /// Wait a moment, then give up with the last error.
    PauseThenGiveUp,
}

/// After attempt number `attempt` (counted from 0): done when it went
/// through; after a failure a pause, then another attempt while fewer than
/// `USAGE_IMPORT_ATTEMPTS` were made, else the end.
pub open spec fn import_next(attempt: u32, succeeded: bool) -> ImportAction {
    if succeeded {
        ImportAction::Done
    } else if attempt + 1 < USAGE_IMPORT_ATTEMPTS {
        ImportAction::PauseThenRetry
    } else {
        ImportAction::PauseThenGiveUp
    }
}

pub fn import_step(attempt: u32, succeeded: bool) -> (r: ImportAction)
    ensures
        r == import_next(attempt, succeeded),
{
    if succeeded {
        ImportAction::Done
    } else if attempt < USAGE_IMPORT_ATTEMPTS - 1 {
        ImportAction::PauseThenRetry
    } else {
        ImportAction::PauseThenGiveUp
    }
}

/// Attempts that all fail are retried exactly until `USAGE_IMPORT_ATTEMPTS`
/// of them were made: every earlier one is followed by another, the last
/// one by the end.
pub proof fn lemma_import_attempts_bounded(attempt: u32)
    requires
        attempt < USAGE_IMPORT_ATTEMPTS,
    ensures
        import_next(attempt, false) == (if attempt + 1 == USAGE_IMPORT_ATTEMPTS {
            ImportAction::PauseThenGiveUp
        } else {
            ImportAction::PauseThenRetry
        }),
{
}

/// A process listening on the configured port.
#[derive(Clone, Copy, Debug, PartialEq, Eq, Structural)]
pub struct PortHolder {
    pub port: u16,
    pub pid: u32,
    /// It runs from a runtime this application manages.
    pub managed: bool,
}

/// The managed service found running: the recorded pid while that process
/// still runs from a managed runtime, else the managed process listening on
/// the configured port.
pub fn managed_service_pid(recorded: Option<u32>, recorded_alive: bool, listener: Option<PortHolder>) -> (r: Option<u32>)
    ensures
        r == (if recorded is Some && recorded_alive {
            recorded
        } else {
            match listener {
                Some(h) => if h.managed {
                    Some(h.pid)
                } else {
                    None
                },
                None => None,
            }
        }),
{
    if recorded.is_some() && recorded_alive {
        return recorded;
    }
    match listener {
        Some(h) => if h.managed {
            Some(h.pid)
        } else {
            None
        },
        None => None,
    }
}

/// Why the service is not started.
#[derive(Clone, Copy, Debug, PartialEq, Eq, Structural)]
pub enum StartError {
    /// No runtime version is active.
    NoActiveVersion,
    /// No local management key is saved for the configuration.
    NoManagementKey,
    /// Another process listens on the configured port.
    PortTaken { port: u16, pid: u32 },
}

/// Where starting the service stands.
#[derive(Clone, Copy, Debug, PartialEq, Eq, Structural)]
pub enum StartState {
    /// Nothing asked yet; then whether our child runs.
    Begin,
    /// Waiting for whether a version is active.
    ActiveAsked,
    /// Waiting for whether a management key is saved.
    KeyAsked,
    /// Waiting for a managed service already running.
    Detecting,
    /// Waiting for what listens on the configured port.
    PortAsked,
    /// Finished; the last action says how.
    Done,
    /// Finished without starting.
    Failed(StartError),
}

/// What the caller does next.
#[derive(Clone, Copy, Debug, PartialEq, Eq, Structural)]
pub enum StartAction {
    /// Report whether the child started by this application runs.
    CheckChild,
    /// Report whether a runtime version is active.
    ReadActiveVersion,
    /// Prepare the configuration; report whether a management key is saved.
    ReadManagementKey,
    /// Make the configuration use the key; report a managed service found running.
    DetectManagedPid,
    /// Report what listens on the configured port.
    CheckPortListener,
    /// The service already runs: report the state.
    Report,
    /// Record this running managed service as ours, restore usage, report.
    Adopt(u32),
    /// Spawn the runtime, record its pid, restore usage, report.
    Spawn,
    /// Stop; the state says why.
    Finish,
}

/// What the caller observed.
#[derive(Clone, Copy, Debug, PartialEq, Eq, Structural)]
pub enum StartEvent {
    /// No action was taken yet.
    Begin,
    ChildRunning(bool),
    ActiveVersion(bool),
    ManagementKey(bool),
    ManagedPid(Option<u32>),
    /// `None` when no port is configured or nothing listens on it.
    PortListener(Option<PortHolder>),
}

/// One step of starting the service: a running child is reported as it
/// is; without an active version or a management key starting fails; a
/// managed service already running is adopted; another process on the
/// port is refused; else the runtime is spawned.
pub open spec fn start_transition(state: StartState, event: StartEvent) -> (StartState, StartAction) {
    match (state, event) {
        (StartState::Begin, StartEvent::Begin) => (StartState::Begin, StartAction::CheckChild),
        (StartState::Begin, StartEvent::ChildRunning(true)) => (StartState::Done, StartAction::Report),
        (StartState::Begin, StartEvent::ChildRunning(false)) => (
            StartState::ActiveAsked,
            StartAction::ReadActiveVersion,
        ),
        (StartState::ActiveAsked, StartEvent::ActiveVersion(false)) => (
            StartState::Failed(StartError::NoActiveVersion),
            StartAction::Finish,
        ),
        (StartState::ActiveAsked, StartEvent::ActiveVersion(true)) => (
            StartState::KeyAsked,
            StartAction::ReadManagementKey,
        ),
        (StartState::KeyAsked, StartEvent::ManagementKey(false)) => (
            StartState::Failed(StartError::NoManagementKey),
            StartAction::Finish,
        ),
        (StartState::KeyAsked, StartEvent::ManagementKey(true)) => (
            StartState::Detecting,
            StartAction::DetectManagedPid,
        ),
        (StartState::Detecting, StartEvent::ManagedPid(Some(pid))) => (StartState::Done, StartAction::Adopt(pid)),
        (StartState::Detecting, StartEvent::ManagedPid(None)) => (
            StartState::PortAsked,
            StartAction::CheckPortListener,
        ),
        (StartState::PortAsked, StartEvent::PortListener(None)) => (StartState::Done, StartAction::Spawn),
        (StartState::PortAsked, StartEvent::PortListener(Some(h))) => if h.managed {
            (StartState::Done, StartAction::Spawn)
        } else {
            (StartState::Failed(StartError::PortTaken { port: h.port, pid: h.pid }), StartAction::Finish)
        },
        (s, _) => (s, StartAction::Finish),
    }
}

pub fn start_step(state: StartState, event: StartEvent) -> (r: (StartState, StartAction))
    ensures
        r == start_transition(state, event),
{
    match (state, event) {
        (StartState::Begin, StartEvent::Begin) => (StartState::Begin, StartAction::CheckChild),
        (StartState::Begin, StartEvent::ChildRunning(true)) => (StartState::Done, StartAction::Report),
        (StartState::Begin, StartEvent::ChildRunning(false)) => (
            StartState::ActiveAsked,
            StartAction::ReadActiveVersion,
        ),
        (StartState::ActiveAsked, StartEvent::ActiveVersion(false)) => (
            StartState::Failed(StartError::NoActiveVersion),
            StartAction::Finish,
        ),
        (StartState::ActiveAsked, StartEvent::ActiveVersion(true)) => (
            StartState::KeyAsked,
            StartAction::ReadManagementKey,
        ),
        (StartState::KeyAsked, StartEvent::ManagementKey(false)) => (
            StartState::Failed(StartError::NoManagementKey),
            StartAction::Finish,
        ),
        (StartState::KeyAsked, StartEvent::ManagementKey(true)) => (
            StartState::Detecting,
            StartAction::DetectManagedPid,
        ),
        (StartState::Detecting, StartEvent::ManagedPid(Some(pid))) => (StartState::Done, StartAction::Adopt(pid)),
        (StartState::Detecting, StartEvent::ManagedPid(None)) => (
            StartState::PortAsked,
            StartAction::CheckPortListener,
        ),
        (StartState::PortAsked, StartEvent::PortListener(None)) => (StartState::Done, StartAction::Spawn),
        (StartState::PortAsked, StartEvent::PortListener(Some(h))) => if h.managed {
            (StartState::Done, StartAction::Spawn)
        } else {
            (StartState::Failed(StartError::PortTaken { port: h.port, pid: h.pid }), StartAction::Finish)
        },
        (s, _) => (s, StartAction::Finish),
    }
}

/// How far a start has come.
pub open spec fn start_stage(state: StartState) -> nat {
    match state {
        StartState::Begin => 0,
        StartState::ActiveAsked => 1,
        StartState::KeyAsked => 2,
        StartState::Detecting => 3,
        StartState::PortAsked => 4,
        StartState::Done => 5,
        StartState::Failed(_) => 5,
    }
}

/// A start never goes back: after the first step every step either stops
/// or moves further along, and a finished start stays finished. So a start
/// asks the caller at most five questions.
pub proof fn lemma_start_moves_forward(state: StartState, event: StartEvent)
    ensures
        ({
            let (next, action) = start_transition(state, event);
            &&& (state == StartState::Begin && event == StartEvent::Begin) || action
                == StartAction::Finish || start_stage(next) > start_stage(state)
            &&& (state is Done || state is Failed) ==> next == state && action == StartAction::Finish
        }),
{
}

/// Why a runtime package is not installed.
#[derive(Clone, Copy, Debug, PartialEq, Eq, Structural)]
pub enum InstallError {
    /// The package file does not exist.
    MissingPackage,
    /// The package's file name does not parse.
    BadName,
    /// The package was built for another platform.
    TargetMismatch,
    /// The version's directory exists without its binary.
    Incomplete,
    /// The unpacked package holds no binary.
    MissingBinary,
}

/// Where installing a runtime package stands.
#[derive(Clone, Copy, Debug, PartialEq, Eq, Structural)]
pub enum InstallState {
    /// Nothing asked yet; then whether the package file exists.
    Begin,
    /// Waiting for the parsed package name.
    NameAsked,
    /// Waiting for whether the version's binary is installed.
    BinaryAsked,
    /// Waiting for whether the version's directory exists.
    DirAsked,
    /// Waiting for whether the unpacked package holds the binary.
    Unpacked,
    /// Finished; the last action says how.
    Done,
    /// Finished without installing.
    Failed(InstallError),
}

/// What the caller does next.
#[derive(Clone, Copy, Debug, PartialEq, Eq, Structural)]
pub enum InstallAction {
    /// Report whether the package file exists.
    CheckPackage,
    /// Parse the package's file name; report whether it parsed and whether
    /// it was built for this platform.
    ParseName,
    /// Create the runtime and staging directories; report whether the
    /// version's binary is installed.
    CheckInstalledBinary,
    /// Report whether the version's directory exists.
    CheckInstallDir,
    /// Unpack into a staging directory; report whether it holds the binary.
    Unpack,
    /// Use the installed version (activating it when asked).
    Reuse,
    /// Move the unpacked version into place (activating it when asked).
    Install,
    /// Stop; the state says why.
    Finish,
}

/// What the caller observed.
#[derive(Clone, Copy, Debug, PartialEq, Eq, Structural)]
pub enum InstallEvent {
    /// No action was taken yet.
    Begin,
    PackageExists(bool),
    /// `None` when the name does not parse, else whether the target matches.
    NameParsed(Option<bool>),
    InstalledBinary(bool),
    InstallDirExists(bool),
    UnpackedBinary(bool),
}

/// One step of installing a runtime package: the file must exist, its name
/// parse and name this platform; a version already installed is reused, a
/// directory without its binary refused; an unpacked package must hold the
/// binary.
pub open spec fn install_transition(state: InstallState, event: InstallEvent) -> (InstallState, InstallAction) {
    match (state, event) {
        (InstallState::Begin, InstallEvent::Begin) => (InstallState::Begin, InstallAction::CheckPackage),
        (InstallState::Begin, InstallEvent::PackageExists(false)) => (
            InstallState::Failed(InstallError::MissingPackage),
            InstallAction::Finish,
        ),
        (InstallState::Begin, InstallEvent::PackageExists(true)) => (InstallState::NameAsked, InstallAction::ParseName),
        (InstallState::NameAsked, InstallEvent::NameParsed(None)) => (
            InstallState::Failed(InstallError::BadName),
            InstallAction::Finish,
        ),
        (InstallState::NameAsked, InstallEvent::NameParsed(Some(false))) => (
            InstallState::Failed(InstallError::TargetMismatch),
            InstallAction::Finish,
        ),
        (InstallState::NameAsked, InstallEvent::NameParsed(Some(true))) => (
            InstallState::BinaryAsked,
            InstallAction::CheckInstalledBinary,
        ),
        (InstallState::BinaryAsked, InstallEvent::InstalledBinary(true)) => (InstallState::Done, InstallAction::Reuse),
        (InstallState::BinaryAsked, InstallEvent::InstalledBinary(false)) => (
            InstallState::DirAsked,
            InstallAction::CheckInstallDir,
        ),
        (InstallState::DirAsked, InstallEvent::InstallDirExists(true)) => (
            InstallState::Failed(InstallError::Incomplete),
            InstallAction::Finish,
        ),
        (InstallState::DirAsked, InstallEvent::InstallDirExists(false)) => (InstallState::Unpacked, InstallAction::Unpack),
        (InstallState::Unpacked, InstallEvent::UnpackedBinary(false)) => (
            InstallState::Failed(InstallError::MissingBinary),
            InstallAction::Finish,
        ),
        (InstallState::Unpacked, InstallEvent::UnpackedBinary(true)) => (InstallState::Done, InstallAction::Install),
        (s, _) => (s, InstallAction::Finish),
    }
}

pub fn install_step(state: InstallState, event: InstallEvent) -> (r: (InstallState, InstallAction))
    ensures
        r == install_transition(state, event),
{
    match (state, event) {
        (InstallState::Begin, InstallEvent::Begin) => (InstallState::Begin, InstallAction::CheckPackage),
        (InstallState::Begin, InstallEvent::PackageExists(false)) => (
            InstallState::Failed(InstallError::MissingPackage),
            InstallAction::Finish,
        ),
        (InstallState::Begin, InstallEvent::PackageExists(true)) => (InstallState::NameAsked, InstallAction::ParseName),
        (InstallState::NameAsked, InstallEvent::NameParsed(None)) => (
            InstallState::Failed(InstallError::BadName),
            InstallAction::Finish,
        ),
        (InstallState::NameAsked, InstallEvent::NameParsed(Some(false))) => (
            InstallState::Failed(InstallError::TargetMismatch),
            InstallAction::Finish,
        ),
        (InstallState::NameAsked, InstallEvent::NameParsed(Some(true))) => (
            InstallState::BinaryAsked,
            InstallAction::CheckInstalledBinary,
        ),
        (InstallState::BinaryAsked, InstallEvent::InstalledBinary(true)) => (InstallState::Done, InstallAction::Reuse),
        (InstallState::BinaryAsked, InstallEvent::InstalledBinary(false)) => (
            InstallState::DirAsked,
            InstallAction::CheckInstallDir,
        ),
        (InstallState::DirAsked, InstallEvent::InstallDirExists(true)) => (
            InstallState::Failed(InstallError::Incomplete),
            InstallAction::Finish,
        ),
        (InstallState::DirAsked, InstallEvent::InstallDirExists(false)) => (InstallState::Unpacked, InstallAction::Unpack),
        (InstallState::Unpacked, InstallEvent::UnpackedBinary(false)) => (
            InstallState::Failed(InstallError::MissingBinary),
            InstallAction::Finish,
        ),
        (InstallState::Unpacked, InstallEvent::UnpackedBinary(true)) => (InstallState::Done, InstallAction::Install),
        (s, _) => (s, InstallAction::Finish),
    }
}

/// File names in the order of their characters (`str` order: for UTF-8,
/// byte order and character order agree); a proper prefix comes first.
pub open spec fn name_before(a: Seq<char>, b: Seq<char>) -> bool
    decreases a.len(),
{
    if b.len() == 0 {
        false
    } else if a.len() == 0 {
        true
    } else if a[0] != b[0] {
        (a[0] as int) < (b[0] as int)
    } else {
        name_before(a.drop_first(), b.drop_first())
    }
}

/// Relative paths in `Path` order: component by component.
pub open spec fn path_before(a: Seq<Seq<char>>, b: Seq<Seq<char>>) -> bool
    decreases a.len(),
{
    if b.len() == 0 {
        false
    } else if a.len() == 0 {
        true
    } else if a[0] != b[0] {
        name_before(a[0], b[0])
    } else {
        path_before(a.drop_first(), b.drop_first())
    }
}

pub proof fn lemma_name_before_irreflexive(a: Seq<char>)
    ensures
        !name_before(a, a),
    decreases a.len(),
{
    if a.len() > 0 {
        lemma_name_before_irreflexive(a.drop_first());
    }
}

pub proof fn lemma_name_before_transitive(a: Seq<char>, b: Seq<char>, c: Seq<char>)
    requires
        name_before(a, b),
        name_before(b, c),
    ensures
        name_before(a, c),
    decreases a.len(),
{
    if a.len() > 0 && a[0] == b[0] && b[0] == c[0] {
        lemma_name_before_transitive(a.drop_first(), b.drop_first(), c.drop_first());
    }
}

pub proof fn lemma_path_before_irreflexive(a: Seq<Seq<char>>)
    ensures
        !path_before(a, a),
    decreases a.len(),
{
    if a.len() > 0 {
        lemma_path_before_irreflexive(a.drop_first());
    }
}

pub proof fn lemma_path_before_transitive(a: Seq<Seq<char>>, b: Seq<Seq<char>>, c: Seq<Seq<char>>)
    requires
        path_before(a, b),
        path_before(b, c),
    ensures
        path_before(a, c),
    decreases a.len(),
{
    if a.len() > 0 {
        if a[0] == b[0] && b[0] == c[0] {
            lemma_path_before_transitive(a.drop_first(), b.drop_first(), c.drop_first());
        } else if a[0] != b[0] && b[0] != c[0] {
            lemma_name_before_transitive(a[0], b[0], c[0]);
            if a[0] == c[0] {
                lemma_name_before_irreflexive(a[0]);
            }
        }
    }
}

/// The relative paths of a list of files.
pub open spec fn paths_view(v: Seq<Vec<String>>) -> Seq<Seq<Seq<char>>> {
    v.map_values(|p: Vec<String>| string_views(p@))
}

/// No path comes before one listed ahead of it.
pub open spec fn paths_sorted(v: Seq<Seq<Seq<char>>>) -> bool {
    forall|i: int, j: int| 0 <= i < j < v.len() ==> !path_before(#[trigger] v[j], #[trigger] v[i])
}

fn name_less(a: &String, b: &String) -> (r: bool)
    ensures
        r == name_before(a@, b@),
{
    let x = chars_of(a.as_str());
    let y = chars_of(b.as_str());
    let mut i: usize = 0;
    assert(a@.skip(0) == a@ && b@.skip(0) == b@);
    while i < x.len() && i < y.len()
        invariant
            x@ == a@,
            y@ == b@,
            i <= x@.len(),
            i <= y@.len(),
            name_before(a@, b@) == name_before(a@.skip(i as int), b@.skip(i as int)),
        decreases x@.len() - i,
    {
        let ghost sa = a@.skip(i as int);
        let ghost sb = b@.skip(i as int);
        assert(sa[0] == x@[i as int] && sb[0] == y@[i as int]);
        if x[i] != y[i] {
            return x[i] < y[i];
        }
        assert(sa.drop_first() == a@.skip(i + 1));
        assert(sb.drop_first() == b@.skip(i + 1));
        i = i + 1;
    }
    i < y.len()
}

fn path_less(a: &Vec<String>, b: &Vec<String>) -> (r: bool)
    ensures
        r == path_before(string_views(a@), string_views(b@)),
{
    let ghost va = string_views(a@);
    let ghost vb = string_views(b@);
    let mut i: usize = 0;
    assert(va.skip(0) == va && vb.skip(0) == vb);
    while i < a.len() && i < b.len()
        invariant
            va == string_views(a@),
            vb == string_views(b@),
            i <= a@.len(),
            i <= b@.len(),
            path_before(va, vb) == path_before(va.skip(i as int), vb.skip(i as int)),
        decreases a@.len() - i,
    {
        let ghost sa = va.skip(i as int);
        let ghost sb = vb.skip(i as int);
        assert(sa[0] == a@[i as int]@ && sb[0] == b@[i as int]@);
        let before = name_less(&a[i], &b[i]);
        if before {
            proof {
                lemma_name_before_irreflexive(sa[0]);
            }
            return true;
        }
        let after = name_less(&b[i], &a[i]);
        if after {
            proof {
                lemma_name_before_irreflexive(sa[0]);
            }
            return false;
        }
        proof {
            if sa[0] != sb[0] {
                lemma_name_before_total(sa[0], sb[0]);
            }
        }
        assert(sa.drop_first() == va.skip(i + 1));
        assert(sb.drop_first() == vb.skip(i + 1));
        i = i + 1;
    }
    i < b.len()
}

/// Two different names are ordered one way or the other.
pub proof fn lemma_name_before_total(a: Seq<char>, b: Seq<char>)
    requires
        a != b,
    ensures
        name_before(a, b) || name_before(b, a),
    decreases a.len(),
{
    if a.len() > 0 && b.len() > 0 {
        if a[0] == b[0] {
            assert(a.drop_first() != b.drop_first()) by {
                if a.drop_first() == b.drop_first() {
                    assert(a =~= seq![a[0]] + a.drop_first());
                    assert(b =~= seq![b[0]] + b.drop_first());
                }
            }
            lemma_name_before_total(a.drop_first(), b.drop_first());
        }
    } else if a.len() == 0 && b.len() == 0 {
        assert(a =~= b);
    }
}

/// Why auth files are not exported.
#[derive(Clone, Copy, Debug, PartialEq, Eq, Structural)]
pub enum ExportError {
    /// The auth directory does not exist.
    MissingDir,
    /// The auth path is not a directory.
    NotDir,
    /// It holds no JSON file.
    NoFiles,
}

/// The error exporting gives, if any.
pub open spec fn export_error(dir_exists: bool, is_dir: bool, file_count: nat) -> Option<ExportError> {
    if !dir_exists {
        Some(ExportError::MissingDir)
    } else if !is_dir {
        Some(ExportError::NotDir)
    } else if file_count == 0 {
        Some(ExportError::NoFiles)
    } else {
        None
    }
}

/// The JSON files to export, as paths relative to the auth directory, in
/// path order; an error for a missing auth directory, one that is no
/// directory, or one without JSON files.
pub fn export_plan(dir_exists: bool, is_dir: bool, files: Vec<Vec<String>>) -> (r: Result<Vec<Vec<String>>, ExportError>)
    ensures
        match r {
            Err(e) => export_error(dir_exists, is_dir, files@.len()) == Some(e),
            Ok(out) => {
                &&& export_error(dir_exists, is_dir, files@.len()) is None
                &&& paths_sorted(paths_view(out@))
                &&& paths_view(out@).to_multiset() == paths_view(files@).to_multiset()
            },
        },
{
    if !dir_exists {
        return Err(ExportError::MissingDir);
    }
    if !is_dir {
        return Err(ExportError::NotDir);
    }
    if files.len() == 0 {
        return Err(ExportError::NoFiles);
    }
    let ghost all = paths_view(files@);
    let ghost count = files@.len();
    let mut rest = files;
    let mut out: Vec<Vec<String>> = Vec::new();
    proof {
        broadcast use vstd::seq_lib::group_to_multiset_ensures;
        broadcast use vstd::multiset::lemma_multiset_empty_len;
        assert(paths_view(out@) =~= Seq::<Seq<Seq<char>>>::empty());
        assert(paths_view(out@).to_multiset().len() == 0);
        assert(paths_view(out@).to_multiset() =~= vstd::multiset::Multiset::empty());
        assert(paths_view(out@).to_multiset().add(all.to_multiset()) =~= all.to_multiset());
    }
    while rest.len() > 0
        invariant
            paths_sorted(paths_view(out@)),
            paths_view(out@).to_multiset().add(paths_view(rest@).to_multiset()) == all.to_multiset(),
        decreases rest@.len(),
    {
        broadcast use vstd::seq_lib::group_to_multiset_ensures;
        let ghost before_rest = rest@;
        let f = rest.pop().unwrap();
        assert(paths_view(before_rest) =~= paths_view(rest@).push(string_views(f@)));
        let ghost v = paths_view(out@);
        let ghost x = string_views(f@);
        let mut p: usize = 0;
        while p < out.len() && !path_less(&f, &out[p])
            invariant
                v == paths_view(out@),
                x == string_views(f@),
                p <= out@.len(),
                forall|i: int| 0 <= i < p ==> !path_before(x, #[trigger] v[i]),
            decreases out@.len() - p,
        {
            assert(v[p as int] == string_views(out@[p as int]@));
            p = p + 1;
        }
        proof {
            if p < out@.len() {
                assert(v[p as int] == string_views(out@[p as int]@));
            }
        }
        out.insert(p, f);
        let ghost w = paths_view(out@);
        assert(w =~= v.insert(p as int, x));
        assert forall|i: int, j: int| 0 <= i < j < w.len() implies !path_before(#[trigger] w[j], #[trigger] w[i]) by {
            if j < p {
                assert(w[i] == v[i] && w[j] == v[j]);
            } else if j == p {
                assert(w[j] == x && w[i] == v[i]);
            } else if i < p {
                assert(w[i] == v[i] && w[j] == v[j - 1]);
            } else if i == p {
                assert(w[i] == x && w[j] == v[j - 1]);
                // v[p] comes after x, and nothing listed after v[p] comes before it
                if path_before(v[j - 1], x) {
                    assert(path_before(x, v[p as int]));
                    if j - 1 > p {
                        lemma_path_before_transitive(v[j - 1], x, v[p as int]);
                    } else {
                        lemma_path_before_transitive(x, v[p as int], x);
                        lemma_path_before_irreflexive(x);
                    }
                }
            } else {
                assert(w[i] == v[i - 1] && w[j] == v[j - 1]);
            }
        }
        assert(v.insert(p as int, x).to_multiset() == v.to_multiset().insert(x));
        assert(paths_view(before_rest).to_multiset() == paths_view(rest@).to_multiset().insert(x));
        assert(w.to_multiset().add(paths_view(rest@).to_multiset()) =~= v.to_multiset().add(
            paths_view(before_rest).to_multiset(),
        ));
    }
    proof {
        broadcast use vstd::seq_lib::group_to_multiset_ensures;
        broadcast use vstd::multiset::lemma_multiset_empty_len;
        assert(paths_view(rest@).to_multiset().len() == 0);
        assert(paths_view(rest@).to_multiset() =~= vstd::multiset::Multiset::empty());
    }
    assert(paths_view(out@).to_multiset() =~= paths_view(out@).to_multiset().add(paths_view(rest@).to_multiset()));
    Ok(out)
}

/// How far an installation has come.
pub open spec fn install_stage(state: InstallState) -> nat {
    match state {
        InstallState::Begin => 0,
        InstallState::NameAsked => 1,
        InstallState::BinaryAsked => 2,
        InstallState::DirAsked => 3,
        InstallState::Unpacked => 4,
        InstallState::Done => 5,
        InstallState::Failed(_) => 5,
    }
}

/// An installation never goes back: after the first step every step either
/// stops or moves further along, and a finished one stays finished.
pub proof fn lemma_install_moves_forward(state: InstallState, event: InstallEvent)
    ensures
        ({
            let (next, action) = install_transition(state, event);
            &&& (state == InstallState::Begin && event == InstallEvent::Begin) || action
                == InstallAction::Finish || install_stage(next) > install_stage(state)
            &&& (state is Done || state is Failed) ==> next == state && action == InstallAction::Finish
        }),
{
}

/// Saved configuration text must hold more than whitespace.
pub fn config_content_accepted(content: &str) -> (b: bool)
    ensures
        b == (trim(content@).len() > 0),
{
    non_empty_str(content).is_some()
}

/// The management key to use: the given key, trimmed, unless it is blank
/// or missing; else the usable plain-text secret of the configuration.
pub open spec fn chosen_key(given: Option<Seq<char>>, content: Seq<char>) -> Option<Seq<char>> {
    match given {
        Some(k) => match non_empty(k) {
            Some(t) => Some(t),
            None => plain_secret(content),
        },
        None => plain_secret(content),
    }
}

pub fn management_key_choice(given: Option<&str>, content: &str) -> (r: Option<String>)
    ensures
        opt_view(r) == chosen_key(
            match given {
                Some(k) => Some(k@),
                None => None,
            },
            content@,
        ),
{
    if let Some(k) = given {
        if let Some(t) = non_empty_str(k) {
            return Some(t.to_string());
        }
    }
    plain_management_secret_from_content(content)
}

/// Whether a path lies at or below a directory, component by component
/// (`Path::starts_with`): the directory's components begin the path's.
pub open spec fn within(path: Seq<Seq<char>>, dir: Seq<Seq<char>>) -> bool {
    dir.len() <= path.len() && path.take(dir.len() as int) == dir
}

pub fn path_within(path: &[String], dir: &[String]) -> (b: bool)
    ensures
        b == within(string_views(path@), string_views(dir@)),
{
    let ghost p = string_views(path@);
    let ghost d = string_views(dir@);
    if dir.len() > path.len() {
        return false;
    }
    let mut i: usize = 0;
    while i < dir.len()
        invariant
            p == string_views(path@),
            d == string_views(dir@),
            dir@.len() <= path@.len(),
            i <= dir@.len(),
            forall|j: int| 0 <= j < i ==> p[j] == d[j],
        decreases dir@.len() - i,
    {
        let a = chars_of(path[i].as_str());
        let b = chars_of(dir[i].as_str());
        if !same_chars(a.as_slice(), b.as_slice()) {
            assert(p.take(d.len() as int)[i as int] != d[i as int]);
            return false;
        }
        i = i + 1;
    }
    assert(p.take(d.len() as int) =~= d);
    true
}

/// Starting fails only for the reason observed: no active version only
/// after one was found missing, no key only after none was found, and a
/// taken port only when an unmanaged process listens on it (and names that
/// port and process). The runtime is spawned only when nothing unmanaged
/// listens, and a service found running is adopted as it is.
pub proof fn lemma_start_outcomes(state: StartState, event: StartEvent)
    ensures
        ({
            let (next, action) = start_transition(state, event);
            &&& next == StartState::Failed(StartError::NoActiveVersion) ==> state == next || event
                == StartEvent::ActiveVersion(false)
            &&& next == StartState::Failed(StartError::NoManagementKey) ==> state == next || event
                == StartEvent::ManagementKey(false)
            &&& (next matches StartState::Failed(StartError::PortTaken { port, pid }) ==> state == next
                || event == StartEvent::PortListener(Some(PortHolder { port, pid, managed: false })))
            &&& action == StartAction::Spawn ==> (event == StartEvent::PortListener(None) || (
            event matches StartEvent::PortListener(Some(h)) && h.managed))
            &&& (action matches StartAction::Adopt(p) ==> event == StartEvent::ManagedPid(Some(p)))
            &&& action == StartAction::Report ==> event == StartEvent::ChildRunning(true)
        }),
{
}

/// Installing fails only for the reason observed, reuses a version only
/// when its binary is installed, and installs only an unpacked package
/// that holds the binary.
pub proof fn lemma_install_outcomes(state: InstallState, event: InstallEvent)
    ensures
        ({
            let (next, action) = install_transition(state, event);
            &&& next == InstallState::Failed(InstallError::MissingPackage) ==> state == next || event
                == InstallEvent::PackageExists(false)
            &&& next == InstallState::Failed(InstallError::BadName) ==> state == next || event
                == InstallEvent::NameParsed(None)
            &&& next == InstallState::Failed(InstallError::TargetMismatch) ==> state == next || event
                == InstallEvent::NameParsed(Some(false))
            &&& next == InstallState::Failed(InstallError::Incomplete) ==> state == next || event
                == InstallEvent::InstallDirExists(true)
            &&& next == InstallState::Failed(InstallError::MissingBinary) ==> state == next || event
                == InstallEvent::UnpackedBinary(false)
            &&& action == InstallAction::Reuse ==> event == InstallEvent::InstalledBinary(true)
            &&& action == InstallAction::Install ==> event == InstallEvent::UnpackedBinary(true)
        }),
{
}

/// A process is stopped only when it is another process that runs and is
/// managed; this application's own process is always refused.
pub proof fn lemma_terminate_only_managed(pid: u32, own_pid: u32, running: bool, managed: bool)
    ensures
        terminate_choice(pid, own_pid, running, managed) == Ok::<bool, TerminateRefusal>(true) <==> (pid
            != own_pid && running && managed),
        pid == own_pid ==> terminate_choice(pid, own_pid, running, managed) is Err,
        pid != own_pid && !running ==> terminate_choice(pid, own_pid, running, managed) == Ok::<
            bool,
            TerminateRefusal,
        >(false),
{
}

/// A successful import ends the retries; a failed one is retried until the
/// limit, and never after it.
pub proof fn lemma_import_retries(attempt: u32, succeeded: bool)
    ensures
        succeeded <==> import_next(attempt, succeeded) == ImportAction::Done,
        import_next(attempt, succeeded) == ImportAction::PauseThenRetry ==> attempt + 1
            < USAGE_IMPORT_ATTEMPTS,
        !succeeded && attempt + 1 >= USAGE_IMPORT_ATTEMPTS ==> import_next(attempt, succeeded)
            == ImportAction::PauseThenGiveUp,
{
}

/// Links are refused whatever their path; a path with a part that climbs
/// or starts at a root is refused for a file; an import never unpacks a
/// file whose name has no `json` extension; what is unpacked or created
/// goes to the path's named parts.
pub proof fn lemma_entry_rules(kind: EntryKind, parts: Seq<PathPart>, json_only: bool, j: int)
    ensures
        (kind is Symlink || kind is HardLink) ==> entry_error(kind, parts, json_only) == Some(
            ArchiveError::Link,
        ),
        kind is File && 0 <= j < parts.len() && parts[j] is Other ==> entry_error(kind, parts, json_only)
            == Some(ArchiveError::Path(PathError::Unsafe)),
        json_only && kind is File && entry_error(kind, parts, json_only) is None && !entry_skipped(
            kind,
            parts,
            json_only,
        ) ==> (relative_parts(parts) matches Ok(names) && json_name(Some(names.last()))),
        json_only && kind is Directory ==> entry_error(kind, parts, json_only) is None
            && entry_skipped(kind, parts, json_only),
{
}

/// File names compare by their first differing character, a proper prefix
/// first; paths compare by their first differing component, a proper
/// prefix first.
pub proof fn lemma_path_order(a: Seq<char>, b: Seq<char>, c: char, d: char, p: Seq<Seq<char>>, x: Seq<char>)
    ensures
        (c as int) < (d as int) ==> name_before(a.push(c) + b, a.push(d)),
        b.len() > 0 ==> name_before(a, a + b),
        !name_before(a + b, a),
        path_before(p, p.push(x)),
        !path_before(p.push(x), p),
        name_before(x, a) ==> path_before(p.push(x), p.push(a)),
    decreases a.len(),
{
    if a.len() > 0 {
        assert((a.push(c) + b).drop_first() =~= a.drop_first().push(c) + b);
        assert(a.push(d).drop_first() =~= a.drop_first().push(d));
        assert((a + b).drop_first() =~= a.drop_first() + b);
        assert((a + b)[0] == a[0]);
        lemma_path_order(a.drop_first(), b, c, d, p, x);
    } else {
        assert(a.push(c) + b =~= seq![c] + b);
        assert(a + b =~= b);
    }
    lemma_path_prefix(p, x, a);
}

proof fn lemma_path_prefix(p: Seq<Seq<char>>, x: Seq<char>, a: Seq<char>)
    ensures
        path_before(p, p.push(x)),
        !path_before(p.push(x), p),
        name_before(x, a) ==> path_before(p.push(x), p.push(a)),
    decreases p.len(),
{
    if p.len() > 0 {
        assert(p.push(x).drop_first() =~= p.drop_first().push(x));
        assert(p.push(a).drop_first() =~= p.drop_first().push(a));
        lemma_path_prefix(p.drop_first(), x, a);
    } else {
        assert(p.push(x) =~= seq![x]);
        assert(p.push(a) =~= seq![a]);
        if name_before(x, a) {
            lemma_name_before_irreflexive(x);
        }
    }
}

/// Containment: a directory contains itself and everything below it, and
/// a path is contained only when it agrees with the directory on every one
/// of the directory's components.
pub proof fn lemma_within(dir: Seq<Seq<char>>, below: Seq<Seq<char>>, path: Seq<Seq<char>>, i: int)
    ensures
        within(dir + below, dir),
        within(path, dir) && 0 <= i < dir.len() ==> path[i] == dir[i],
        within(path, dir) ==> dir.len() <= path.len(),
{
    assert((dir + below).take(dir.len() as int) =~= dir);
    if within(path, dir) && 0 <= i < dir.len() {
        assert(path.take(dir.len() as int)[i] == path[i]);
    }
}

/// A non-blank given key is used, trimmed; only without one does the
/// configuration's secret count.
pub proof fn lemma_given_key_first(given: Option<Seq<char>>, content: Seq<char>)
    ensures
        match given {
            Some(k) => if trim(k).len() > 0 {
                chosen_key(given, content) == Some(trim(k))
            } else {
                chosen_key(given, content) == plain_secret(content)
            },
            None => chosen_key(given, content) == plain_secret(content),
        },
{
}

/// An auth import lists paths in archive order: an entry that is passed
/// over or refused adds nothing, and an accepted JSON file adds its path
/// after all earlier ones. Every listed path belongs to a file entry with
/// a JSON name.
pub proof fn lemma_import_order(entries: Seq<(EntryKind, Seq<PathPart>)>, kind: EntryKind, parts: Seq<PathPart>, k: int)
    ensures
        entry_error(kind, parts, true) is None && !entry_skipped(kind, parts, true) ==> (relative_parts(parts)
            matches Ok(names) && imported_from(entries.push((kind, parts))) == imported_from(entries).push(
            names)),
        (entry_error(kind, parts, true) is Some || entry_skipped(kind, parts, true)) ==> imported_from(
            entries.push((kind, parts)),
        ) == imported_from(entries),
        0 <= k < imported_from(entries).len() ==> json_name(Some(imported_from(entries)[k].last())),
    decreases entries.len(),
{
    let e = entries.push((kind, parts));
    assert(e.drop_last() =~= entries);
    assert(e.last() == (kind, parts));
    lemma_imported_json(entries, k);
}

proof fn lemma_imported_json(entries: Seq<(EntryKind, Seq<PathPart>)>, k: int)
    ensures
        0 <= k < imported_from(entries).len() ==> json_name(Some(imported_from(entries)[k].last())),
    decreases entries.len(),
{
    if entries.len() > 0 && 0 <= k < imported_from(entries).len() {
        let (k0, p0) = entries.last();
        let init = imported_from(entries.drop_last());
        lemma_imported_json(entries.drop_last(), k);
        if entry_error(k0, p0, true) is None && !entry_skipped(k0, p0, true) {
            if let Ok(n) = relative_parts(p0) {
                if k < init.len() {
                    assert(imported_from(entries)[k] == init[k]);
                } else {
                    assert(imported_from(entries)[k] == n);
                }
            }
        }
    }
}

/// Exporting needs an existing directory with at least one JSON file: a
/// missing directory is reported first, then a path that is no directory,
/// then an empty one; otherwise there is no error.
pub proof fn lemma_export_checks(dir_exists: bool, is_dir: bool, file_count: nat)
    ensures
        export_error(dir_exists, is_dir, file_count) is None <==> (dir_exists && is_dir && file_count > 0),
        !dir_exists ==> export_error(dir_exists, is_dir, file_count) == Some(ExportError::MissingDir),
        dir_exists && !is_dir ==> export_error(dir_exists, is_dir, file_count) == Some(ExportError::NotDir),
        dir_exists && is_dir && file_count == 0 ==> export_error(dir_exists, is_dir, file_count) == Some(
            ExportError::NoFiles,
        ),
{
}

} // verus!
