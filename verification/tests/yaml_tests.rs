use cliproxy_desktop::yaml::{
    browser_host, clear_management_secret, finish_lines, is_bcrypt_hash, nested_yaml_scalar_value,
    non_empty_str, non_empty_string, plain_management_secret_from_content,
    read_auth_dir_from_content, read_host_from_content, read_port_from_content,
    strip_inline_comment, upsert_nested_yaml_scalar, yaml_key_line, yaml_scalar_value, PortError,
};
use cliproxy_desktop::number::IntErrorKind;

const CONFIG: &str = "# demo\nport: 8317\nhost: \"0.0.0.0\"\nauth-dir: ~/.cli-proxy-api\nremote-management:\n  allow-remote: false\n  secret-key: \"plain-secret\" # keep\ndebug: false\n";

#[test]
fn strip_inline_comment_cuts_at_first_hash() {
    assert_eq!(strip_inline_comment(" value # note # more"), " value ");
    assert_eq!(strip_inline_comment("no comment"), "no comment");
    assert_eq!(strip_inline_comment("#all"), "");
}

#[test]
fn yaml_scalar_value_unquotes_and_drops_comment() {
    assert_eq!(yaml_scalar_value("port: 8317", "port"), Some("8317".to_string()));
    assert_eq!(yaml_scalar_value("host: \"127.0.0.1\" # local", "host"), Some("127.0.0.1".to_string()));
    assert_eq!(yaml_scalar_value("key: 'a'", "key"), Some("a".to_string()));
    assert_eq!(yaml_scalar_value("key: \"'x'\"", "key"), Some("x".to_string()));
    assert_eq!(yaml_scalar_value("ports: 1", "port"), None);
    assert_eq!(yaml_scalar_value("port : 1", "port"), None);
    assert_eq!(yaml_scalar_value("port:", "port"), Some(String::new()));
}

#[test]
fn yaml_key_line_reports_indent_in_bytes() {
    assert_eq!(yaml_key_line("  secret-key: x"), Some((2, "secret-key")));
    assert_eq!(yaml_key_line("top:"), Some((0, "top")));
    assert_eq!(yaml_key_line("\u{3000}k : v"), Some((3, "k")));
    assert_eq!(yaml_key_line("no colon here"), None);
    assert_eq!(yaml_key_line("   "), None);
}

#[test]
fn bcrypt_hashes_are_recognised() {
    assert!(is_bcrypt_hash("  $2a$10$abcdefghijklmnopqrstuv"));
    assert!(is_bcrypt_hash("$2y$"));
    assert!(!is_bcrypt_hash("$2c$10$x"));
    assert!(!is_bcrypt_hash("plain"));
    assert!(!is_bcrypt_hash("$2a"));
}

#[test]
fn non_empty_trims_and_rejects_blank() {
    assert_eq!(non_empty_str("  key  "), Some("key"));
    assert_eq!(non_empty_str(" \t\n"), None);
    assert_eq!(non_empty_string("  x ".to_string()), Some("x".to_string()));
    assert_eq!(non_empty_string(String::new()), None);
}

#[test]
fn top_level_values_are_read() {
    assert_eq!(read_port_from_content(CONFIG), Ok(Some(8317)));
    assert_eq!(read_host_from_content(CONFIG), Some("0.0.0.0".to_string()));
    assert_eq!(read_auth_dir_from_content(CONFIG), Some("~/.cli-proxy-api".to_string()));
    assert_eq!(read_port_from_content("# port: 1\nother: 2\n"), Ok(None));
    assert_eq!(read_host_from_content("port: 1"), None);
    assert_eq!(read_auth_dir_from_content("auth-dir: \"\"\n"), None);
}

#[test]
fn port_errors_follow_integer_parsing() {
    assert_eq!(read_port_from_content("port: 70000"), Err(PortError::Parse(IntErrorKind::PosOverflow)));
    assert_eq!(read_port_from_content("port: abc"), Err(PortError::Parse(IntErrorKind::InvalidDigit)));
    assert_eq!(read_port_from_content("port:"), Err(PortError::Parse(IntErrorKind::Empty)));
    assert_eq!(read_port_from_content("port: +80"), Ok(Some(80)));
    assert_eq!(read_port_from_content("port: -80"), Err(PortError::Parse(IntErrorKind::InvalidDigit)));
    assert_eq!(read_port_from_content("  port: 65535  \r\n"), Ok(Some(65535)));
}

#[test]
fn nested_value_is_found_in_its_section() {
    assert_eq!(
        nested_yaml_scalar_value(CONFIG, "remote-management", "secret-key"),
        Some("plain-secret".to_string())
    );
    assert_eq!(nested_yaml_scalar_value(CONFIG, "remote-management", "missing"), None);
    assert_eq!(nested_yaml_scalar_value("a:\nb:\n  k: 1\n", "a", "k"), None);
    assert_eq!(nested_yaml_scalar_value("a:\n  # k: 0\n\n  k: 1\n", "a", "k"), Some("1".to_string()));
    // a later block of the same section is searched when the first lacks the key
    assert_eq!(nested_yaml_scalar_value("a:\n  x: 1\na:\n  k: 2\n", "a", "k"), Some("2".to_string()));
}

#[test]
fn plain_secret_skips_hashes_and_blanks() {
    assert_eq!(plain_management_secret_from_content(CONFIG), Some("plain-secret".to_string()));
    assert_eq!(
        plain_management_secret_from_content("remote-management:\n  secret-key: $2a$10$hash\n"),
        None
    );
    assert_eq!(plain_management_secret_from_content("remote-management:\n  secret-key: \"\"\n"), None);
    assert_eq!(plain_management_secret_from_content("port: 1\n"), None);
}

#[test]
fn upsert_replaces_inserts_and_appends() {
    assert_eq!(
        upsert_nested_yaml_scalar("a:\n  k: 1\n  j: 2\n", "a", "k", "9"),
        "a:\n  k: 9\n  j: 2\n"
    );
    assert_eq!(
        upsert_nested_yaml_scalar("a:\n  j: 2\nb: 3\n", "a", "k", "9"),
        "a:\n  j: 2\n  k: 9\nb: 3\n"
    );
    assert_eq!(upsert_nested_yaml_scalar("x: 1\na:", "a", "k", "9"), "x: 1\na:\n  k: 9");
    assert_eq!(upsert_nested_yaml_scalar("  a:\n", "a", "k", "v"), "  a:\n    k: v\n");
    assert_eq!(upsert_nested_yaml_scalar("b: 1\r\n", "a", "k", "9"), "b: 1\n");
    assert_eq!(upsert_nested_yaml_scalar("", "a", "k", "9"), "");
}

#[test]
fn clear_then_read_gives_no_secret() {
    let cleared = clear_management_secret(CONFIG);
    assert!(cleared.contains("  secret-key: \"\"\n"));
    assert_eq!(plain_management_secret_from_content(&cleared), None);
    assert_eq!(nested_yaml_scalar_value(&cleared, "remote-management", "secret-key"), Some(String::new()));
    let without = "port: 1\n";
    assert_eq!(clear_management_secret(without), without);
}

#[test]
fn upsert_then_read_gives_written_value() {
    let out = upsert_nested_yaml_scalar("s:\r\n  other: 1\r\n", "s", "k", "'v' # c");
    assert_eq!(nested_yaml_scalar_value(&out, "s", "k"), Some("v".to_string()));
}

#[test]
fn finish_lines_joins_with_line_feeds() {
    assert_eq!(finish_lines(vec!["a".to_string(), "b".to_string()], true), "a\nb\n");
    assert_eq!(finish_lines(vec!["a".to_string()], false), "a");
    assert_eq!(finish_lines(vec![], true), "\n");
}

#[test]
fn browser_host_maps_wildcards_and_brackets_ipv6() {
    assert_eq!(browser_host(None), "127.0.0.1");
    assert_eq!(browser_host(Some(" 0.0.0.0 ")), "127.0.0.1");
    assert_eq!(browser_host(Some("[::]")), "127.0.0.1");
    assert_eq!(browser_host(Some("::1")), "[::1]");
    assert_eq!(browser_host(Some("[::1]")), "[::1]");
    assert_eq!(browser_host(Some("example.org")), "example.org");
}

#[test]
fn clearing_twice_is_clearing_once() {
    let once = clear_management_secret(CONFIG);
    assert_eq!(clear_management_secret(&once), once);
    let crlf = "remote-management:\r\n  secret-key: abc\r\nport: 1\r\n";
    let once = clear_management_secret(crlf);
    assert_eq!(once, "remote-management:\n  secret-key: \"\"\nport: 1\n");
    assert_eq!(clear_management_secret(&once), once);
}

#[test]
fn upsert_twice_is_upsert_once() {
    let text = "s:\n  a: 1\nt:\n";
    let once = upsert_nested_yaml_scalar(text, "s", "k", "v");
    assert_eq!(upsert_nested_yaml_scalar(&once, "s", "k", "v"), once);
}

#[test]
fn upsert_twice_with_crlf_lines_is_stable() {
    let content = "remote-management:\r\n  allow-remote: false\r\nport: 1\r\n";
    let once = upsert_nested_yaml_scalar(content, "remote-management", "secret-key", "abc");
    let twice = upsert_nested_yaml_scalar(&once, "remote-management", "secret-key", "abc");
    assert_eq!(once, twice);
    assert_eq!(nested_yaml_scalar_value(&once, "remote-management", "secret-key"), Some("abc".to_string()));
    let cleared = clear_management_secret(content);
    assert_eq!(clear_management_secret(&cleared), cleared);
    assert_eq!(plain_management_secret_from_content(&cleared), None);
}

#[test]
fn upsert_without_section_writes_nothing_readable() {
    let content = "port: 1\r\n";
    let out = upsert_nested_yaml_scalar(content, "remote-management", "secret-key", "abc");
    assert_eq!(nested_yaml_scalar_value(&out, "remote-management", "secret-key"), None);
    assert_eq!(upsert_nested_yaml_scalar("", "s", "k", "v"), "");
}
