use cliproxy_desktop::desktop::{
    config_content_accepted, finish_import, import_entry, management_key_choice, path_within,
    ImportProgress, NoJsonFiles,
    archive_entry_action, default_config_source, delete_refusal, export_plan, import_step,
    install_step, managed_service_pid, service_info, start_step, terminate_decision, ArchiveError, DefaultConfig,
    DeleteRefusal, EntryAction, EntryKind, ExportError, ImportAction, InstallAction, InstallError,
    InstallEvent, InstallState, MissingDefaultConfig, PortHolder, ServiceInfo, StartAction,
    StartError, StartEvent, StartState, TerminateRefusal,
};
use cliproxy_desktop::package::{PathError, PathPart};
use cliproxy_desktop::service::USAGE_IMPORT_ATTEMPTS;

fn parts(names: &[&str]) -> Vec<PathPart> {
    names.iter().map(|n| PathPart::Normal(n.to_string())).collect()
}

fn names(v: &[&str]) -> Vec<String> {
    v.iter().map(|n| n.to_string()).collect()
}

#[test]
fn links_are_refused_before_anything_else() {
    let p = parts(&["a.json"]);
    assert!(matches!(archive_entry_action(EntryKind::Symlink, &p, false), Err(ArchiveError::Link)));
    assert!(matches!(archive_entry_action(EntryKind::HardLink, &[PathPart::Other], true), Err(ArchiveError::Link)));
}

#[test]
fn package_entries_are_unpacked_or_created() {
    let p = vec![PathPart::CurDir, PathPart::Normal("bin".to_string()), PathPart::Normal("cli".to_string())];
    match archive_entry_action(EntryKind::File, &p, false) {
        Ok(EntryAction::Unpack(n)) => assert_eq!(n, names(&["bin", "cli"])),
        other => panic!("unexpected {other:?}"),
    }
    match archive_entry_action(EntryKind::Directory, &parts(&["bin"]), false) {
        Ok(EntryAction::CreateDir(n)) => assert_eq!(n, names(&["bin"])),
        other => panic!("unexpected {other:?}"),
    }
    assert!(matches!(archive_entry_action(EntryKind::Other, &[PathPart::Other], false), Ok(EntryAction::Skip)));
    assert!(matches!(
        archive_entry_action(EntryKind::File, &[PathPart::Other, PathPart::Normal("x".to_string())], false),
        Err(ArchiveError::Path(PathError::Unsafe))
    ));
    assert!(matches!(
        archive_entry_action(EntryKind::Directory, &[PathPart::CurDir], false),
        Err(ArchiveError::Path(PathError::Empty))
    ));
}

#[test]
fn auth_imports_keep_json_files_only() {
    match archive_entry_action(EntryKind::File, &parts(&["team", "token.JSON"]), true) {
        Ok(EntryAction::Unpack(n)) => assert_eq!(n, names(&["team", "token.JSON"])),
        other => panic!("unexpected {other:?}"),
    }
    assert!(matches!(archive_entry_action(EntryKind::File, &parts(&["notes.txt"]), true), Ok(EntryAction::Skip)));
    assert!(matches!(archive_entry_action(EntryKind::Directory, &parts(&["team"]), true), Ok(EntryAction::Skip)));
    assert!(matches!(
        archive_entry_action(EntryKind::File, &[PathPart::Other], true),
        Err(ArchiveError::Path(PathError::Unsafe))
    ));
}

#[test]
fn service_status_prefers_the_child() {
    assert_eq!(service_info(Some(10), Some(20), Some(8317)), ServiceInfo { running: true, pid: Some(10), port: Some(8317) });
    assert_eq!(service_info(None, Some(20), None), ServiceInfo { running: true, pid: Some(20), port: None });
    assert_eq!(service_info(None, None, Some(1)), ServiceInfo { running: false, pid: None, port: Some(1) });
}

#[test]
fn default_config_prefers_the_packaged_file() {
    assert_eq!(default_config_source(true, true), Ok(DefaultConfig::Packaged));
    assert_eq!(default_config_source(false, true), Ok(DefaultConfig::Example));
    assert_eq!(default_config_source(false, false), Err(MissingDefaultConfig));
}

#[test]
fn only_running_managed_processes_are_stopped() {
    assert_eq!(terminate_decision(7, 7, true, true), Err(TerminateRefusal::OwnProcess));
    assert_eq!(terminate_decision(8, 7, false, false), Ok(false));
    assert_eq!(terminate_decision(8, 7, true, false), Err(TerminateRefusal::NotManaged));
    assert_eq!(terminate_decision(8, 7, true, true), Ok(true));
}

#[test]
fn active_or_outside_versions_are_kept() {
    assert_eq!(delete_refusal(true, true), Some(DeleteRefusal::Active));
    assert_eq!(delete_refusal(true, false), Some(DeleteRefusal::Active));
    assert_eq!(delete_refusal(false, false), Some(DeleteRefusal::OutsideRuntimeDir));
    assert_eq!(delete_refusal(false, true), None);
}

#[test]
fn imports_are_retried_a_fixed_number_of_times() {
    assert_eq!(import_step(0, true), ImportAction::Done);
    assert_eq!(import_step(0, false), ImportAction::PauseThenRetry);
    let mut attempt = 0;
    while import_step(attempt, false) == ImportAction::PauseThenRetry {
        attempt += 1;
    }
    assert_eq!(attempt + 1, USAGE_IMPORT_ATTEMPTS);
    assert_eq!(import_step(attempt, false), ImportAction::PauseThenGiveUp);
    assert_eq!(USAGE_IMPORT_ATTEMPTS, 25);
}

#[test]
fn starting_walks_through_its_checks() {
    let (s, a) = start_step(StartState::Begin, StartEvent::Begin);
    assert_eq!(a, StartAction::CheckChild);
    assert_eq!(start_step(s, StartEvent::ChildRunning(true)), (StartState::Done, StartAction::Report));
    let (s, a) = start_step(s, StartEvent::ChildRunning(false));
    assert_eq!(a, StartAction::ReadActiveVersion);
    assert_eq!(
        start_step(s, StartEvent::ActiveVersion(false)),
        (StartState::Failed(StartError::NoActiveVersion), StartAction::Finish)
    );
    let (s, a) = start_step(s, StartEvent::ActiveVersion(true));
    assert_eq!(a, StartAction::ReadManagementKey);
    assert_eq!(
        start_step(s, StartEvent::ManagementKey(false)),
        (StartState::Failed(StartError::NoManagementKey), StartAction::Finish)
    );
    let (s, a) = start_step(s, StartEvent::ManagementKey(true));
    assert_eq!(a, StartAction::DetectManagedPid);
    assert_eq!(start_step(s, StartEvent::ManagedPid(Some(42))), (StartState::Done, StartAction::Adopt(42)));
    let (s, a) = start_step(s, StartEvent::ManagedPid(None));
    assert_eq!(a, StartAction::CheckPortListener);
    assert_eq!(start_step(s, StartEvent::PortListener(None)), (StartState::Done, StartAction::Spawn));
    let mine = PortHolder { port: 8317, pid: 5, managed: true };
    assert_eq!(start_step(s, StartEvent::PortListener(Some(mine))), (StartState::Done, StartAction::Spawn));
    let other = PortHolder { port: 8317, pid: 6, managed: false };
    assert_eq!(
        start_step(s, StartEvent::PortListener(Some(other))),
        (StartState::Failed(StartError::PortTaken { port: 8317, pid: 6 }), StartAction::Finish)
    );
    assert_eq!(start_step(StartState::Done, StartEvent::Begin), (StartState::Done, StartAction::Finish));
}

#[test]
fn installing_walks_through_its_checks() {
    let (s, a) = install_step(InstallState::Begin, InstallEvent::Begin);
    assert_eq!(a, InstallAction::CheckPackage);
    assert_eq!(
        install_step(s, InstallEvent::PackageExists(false)),
        (InstallState::Failed(InstallError::MissingPackage), InstallAction::Finish)
    );
    let (s, a) = install_step(s, InstallEvent::PackageExists(true));
    assert_eq!(a, InstallAction::ParseName);
    assert_eq!(
        install_step(s, InstallEvent::NameParsed(None)),
        (InstallState::Failed(InstallError::BadName), InstallAction::Finish)
    );
    assert_eq!(
        install_step(s, InstallEvent::NameParsed(Some(false))),
        (InstallState::Failed(InstallError::TargetMismatch), InstallAction::Finish)
    );
    let (s, a) = install_step(s, InstallEvent::NameParsed(Some(true)));
    assert_eq!(a, InstallAction::CheckInstalledBinary);
    assert_eq!(install_step(s, InstallEvent::InstalledBinary(true)), (InstallState::Done, InstallAction::Reuse));
    let (s, a) = install_step(s, InstallEvent::InstalledBinary(false));
    assert_eq!(a, InstallAction::CheckInstallDir);
    assert_eq!(
        install_step(s, InstallEvent::InstallDirExists(true)),
        (InstallState::Failed(InstallError::Incomplete), InstallAction::Finish)
    );
    let (s, a) = install_step(s, InstallEvent::InstallDirExists(false));
    assert_eq!(a, InstallAction::Unpack);
    assert_eq!(
        install_step(s, InstallEvent::UnpackedBinary(false)),
        (InstallState::Failed(InstallError::MissingBinary), InstallAction::Finish)
    );
    assert_eq!(install_step(s, InstallEvent::UnpackedBinary(true)), (InstallState::Done, InstallAction::Install));
}

#[test]
fn exports_are_checked_and_sorted_by_path() {
    assert_eq!(export_plan(false, false, vec![names(&["a.json"])]), Err(ExportError::MissingDir));
    assert_eq!(export_plan(true, false, vec![names(&["a.json"])]), Err(ExportError::NotDir));
    assert_eq!(export_plan(true, true, vec![]), Err(ExportError::NoFiles));
    let files = vec![
        names(&["b.json"]),
        names(&["a", "z.json"]),
        names(&["a.json"]),
        names(&["a", "b.json"]),
        names(&["B.json"]),
    ];
    let plan = export_plan(true, true, files).unwrap();
    assert_eq!(
        plan,
        vec![
            names(&["B.json"]),
            names(&["a", "b.json"]),
            names(&["a", "z.json"]),
            names(&["a.json"]),
            names(&["b.json"]),
        ]
    );
}

#[test]
fn a_recorded_pid_wins_while_it_lives() {
    let mine = PortHolder { port: 1, pid: 9, managed: true };
    let other = PortHolder { port: 1, pid: 8, managed: false };
    assert_eq!(managed_service_pid(Some(3), true, Some(mine)), Some(3));
    assert_eq!(managed_service_pid(Some(3), false, Some(mine)), Some(9));
    assert_eq!(managed_service_pid(None, true, Some(mine)), Some(9));
    assert_eq!(managed_service_pid(Some(3), false, Some(other)), None);
    assert_eq!(managed_service_pid(Some(3), false, None), None);
}

#[test]
fn auth_imports_list_json_paths_in_archive_order() {
    let mut progress = ImportProgress::new();
    assert_eq!(import_entry(&mut progress, EntryKind::Directory, &parts(&["team"])), Ok(false));
    assert_eq!(import_entry(&mut progress, EntryKind::File, &parts(&["team", "b.json"])), Ok(true));
    assert_eq!(progress.latest(), Some(&names(&["team", "b.json"])));
    assert_eq!(import_entry(&mut progress, EntryKind::File, &parts(&["notes.txt"])), Ok(false));
    assert_eq!(progress.latest(), Some(&names(&["team", "b.json"])));
    assert_eq!(import_entry(&mut progress, EntryKind::File, &parts(&["a.JSON"])), Ok(true));
    assert_eq!(import_entry(&mut progress, EntryKind::Other, &[PathPart::Other]), Ok(false));
    assert_eq!(
        finish_import(progress),
        Ok(vec![names(&["team", "b.json"]), names(&["a.JSON"])])
    );
}

#[test]
fn auth_imports_refuse_links_bad_paths_and_no_json() {
    let mut progress = ImportProgress::new();
    assert_eq!(import_entry(&mut progress, EntryKind::File, &parts(&["x.json"])), Ok(true));
    assert_eq!(import_entry(&mut progress, EntryKind::Symlink, &parts(&["y.json"])), Err(ArchiveError::Link));
    assert_eq!(
        import_entry(&mut progress, EntryKind::File, &[PathPart::Other, PathPart::Normal("z.json".to_string())]),
        Err(ArchiveError::Path(PathError::Unsafe))
    );
    assert_eq!(progress.latest(), Some(&names(&["x.json"])));
    let mut empty = ImportProgress::new();
    assert_eq!(import_entry(&mut empty, EntryKind::File, &parts(&["readme.md"])), Ok(false));
    assert_eq!(empty.latest(), None);
    assert_eq!(finish_import(empty), Err(NoJsonFiles));
}

#[test]
fn blank_configurations_are_refused() {
    assert!(!config_content_accepted(""));
    assert!(!config_content_accepted(" \n\t "));
    assert!(config_content_accepted("port: 1\n"));
}

#[test]
fn the_given_key_wins_over_the_configured_secret() {
    let config = "remote-management:\n  secret-key: \"from-config\"\n";
    assert_eq!(management_key_choice(Some("  typed "), config), Some("typed".to_string()));
    assert_eq!(management_key_choice(Some("   "), config), Some("from-config".to_string()));
    assert_eq!(management_key_choice(None, config), Some("from-config".to_string()));
    assert_eq!(management_key_choice(None, "port: 1\n"), None);
    let hashed = "remote-management:\n  secret-key: \"$2a$10$abcdefghijklmnopqrstuv\"\n";
    assert_eq!(management_key_choice(Some(""), hashed), None);
}

#[test]
fn containment_is_by_whole_components() {
    assert!(path_within(&names(&["/", "data", "runtimes", "v1"]), &names(&["/", "data", "runtimes"])));
    assert!(path_within(&names(&["/", "data", "runtimes"]), &names(&["/", "data", "runtimes"])));
    assert!(!path_within(&names(&["/", "data", "runtimes2", "v1"]), &names(&["/", "data", "runtimes"])));
    assert!(!path_within(&names(&["/", "data"]), &names(&["/", "data", "runtimes"])));
}
