use cliproxy_desktop::package::{
    binary_name, current_package_target, default_package_name, is_json_path, parse_package_info,
    safe_relative_path, PackageError, PathError, PathPart,
};

#[test]
fn package_names_are_parsed() {
    let p = parse_package_info(Some("CLIProxyAPI_6.9.36_darwin_arm64.tar.gz")).unwrap();
    assert_eq!(p.id, "6.9.36_darwin_arm64");
    assert_eq!(p.version, "6.9.36");
    assert_eq!(p.target, "darwin_arm64");
    let q = parse_package_info(Some("CLIProxyAPI_ 1.0 _linux_amd64.tgz")).unwrap();
    assert_eq!(q.id, "1.0_linux_amd64");
}

#[test]
fn bad_package_names_are_refused() {
    assert_eq!(parse_package_info(None).err(), Some(PackageError::InvalidFileName));
    assert_eq!(parse_package_info(Some("CLIProxyAPI_1_linux_amd64.zip")).err(), Some(PackageError::NotArchive));
    assert_eq!(parse_package_info(Some("Other_1_linux_amd64.tar.gz")).err(), Some(PackageError::BadName));
    assert_eq!(parse_package_info(Some("CLIProxyAPI_1_linux.tar.gz")).err(), Some(PackageError::BadName));
    assert_eq!(parse_package_info(Some("CLIProxyAPI_1_linux_amd_64.tar.gz")).err(), Some(PackageError::BadName));
    assert_eq!(parse_package_info(Some("CLIProxyAPI_ _linux_amd64.tgz")).err(), Some(PackageError::EmptyPart));
}

#[test]
fn platform_names_follow_package_conventions() {
    assert_eq!(current_package_target("macos", "aarch64"), "darwin_arm64");
    assert_eq!(current_package_target("linux", "x86_64"), "linux_amd64");
    assert_eq!(current_package_target("windows", "x86"), "windows_x86");
    assert_eq!(default_package_name("linux_amd64"), "CLIProxyAPI_6.9.36_linux_amd64.tar.gz");
    assert_eq!(binary_name("windows"), "cli-proxy-api.exe");
    assert_eq!(binary_name("linux"), "cli-proxy-api");
}

#[test]
fn default_package_name_parses_back() {
    let name = default_package_name(&current_package_target("macos", "x86_64"));
    let p = parse_package_info(Some(&name)).unwrap();
    assert_eq!(p.version, "6.9.36");
    assert_eq!(p.target, "darwin_amd64");
}

#[test]
fn json_extension_is_case_insensitive() {
    assert!(is_json_path(Some("token.json")));
    assert!(is_json_path(Some("a.b.JSON")));
    assert!(!is_json_path(Some(".json")));
    assert!(!is_json_path(Some("json")));
    assert!(!is_json_path(Some("..")));
    assert!(!is_json_path(Some("a.jsonl")));
    assert!(!is_json_path(None));
}

#[test]
fn archive_paths_must_stay_inside() {
    let ok = safe_relative_path(&[PathPart::CurDir, PathPart::Normal("a".to_string()), PathPart::Normal("b.json".to_string())]);
    assert_eq!(ok.unwrap(), vec!["a".to_string(), "b.json".to_string()]);
    assert_eq!(safe_relative_path(&[PathPart::Normal("a".to_string()), PathPart::Other]).err(), Some(PathError::Unsafe));
    assert_eq!(safe_relative_path(&[PathPart::CurDir]).err(), Some(PathError::Empty));
    assert_eq!(safe_relative_path(&[]).err(), Some(PathError::Empty));
}
