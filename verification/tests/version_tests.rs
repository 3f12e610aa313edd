use clawpanel::json::{Json, Member};
use clawpanel::version::{
    cli_version, installed_version_from_output, is_newer_version, parse_version, version_field,
    version_info,
};

#[test]
fn parse_version_reads_each_run_of_digits() {
    assert_eq!(parse_version("2026.3.13-zh.1"), vec![2026, 3, 13, 1]);
    assert_eq!(parse_version("v1.2.3"), vec![1, 2, 3]);
    assert_eq!(parse_version("1..2"), vec![1, 2]);
    assert_eq!(parse_version("007"), vec![7]);
    assert_eq!(parse_version(""), Vec::<u32>::new());
    assert_eq!(parse_version("beta"), Vec::<u32>::new());
}

#[test]
fn parse_version_drops_numbers_beyond_u32() {
    assert_eq!(parse_version("4294967295.1"), vec![4294967295, 1]);
    assert_eq!(parse_version("4294967296.1"), vec![1]);
    assert_eq!(parse_version("1.99999999999999999999"), vec![1]);
}

#[test]
fn newer_versions_compare_number_by_number() {
    assert!(is_newer_version("1.10.0", "1.9.9"));
    assert!(!is_newer_version("1.9.9", "1.10.0"));
    assert!(is_newer_version("1.2.1", "1.2"));
    assert!(!is_newer_version("1.2", "1.2.1"));
    assert!(is_newer_version("2026.3.13-zh.2", "2026.3.13-zh.1"));
    assert!(!is_newer_version("2026.3.13-zh.1", "2026.3.13-zh.1"));
}

#[test]
fn no_version_is_newer_than_itself() {
    for v in ["", "1", "1.2.3", "2026.3.13-zh.1", "abc"] {
        assert!(!is_newer_version(v, v));
    }
}

#[test]
fn newer_is_asymmetric_and_transitive() {
    let vs = ["1.0", "1.0.1", "1.2", "2", "10.0", "v3"];
    for a in vs {
        for b in vs {
            if is_newer_version(a, b) {
                assert!(!is_newer_version(b, a));
            }
            for c in vs {
                if is_newer_version(a, b) && is_newer_version(b, c) {
                    assert!(is_newer_version(a, c));
                }
            }
        }
    }
}

#[test]
fn versions_that_read_alike_are_not_newer() {
    // "v1.2" and "1.2" have the same numbers
    assert!(!is_newer_version("v1.2", "1.2"));
    assert!(!is_newer_version("1.2", "v1.2"));
}

#[test]
fn update_available_only_with_both_versions() {
    let r = version_info(Some("1.0.0".to_string()), Some("1.0.1".to_string()), "official".to_string());
    assert!(r.update_available);
    assert_eq!(r.current.as_deref(), Some("1.0.0"));
    assert_eq!(r.latest.as_deref(), Some("1.0.1"));
    assert_eq!(r.source, "official");
    let r = version_info(Some("1.0.1".to_string()), Some("1.0.1".to_string()), "chinese".to_string());
    assert!(!r.update_available);
    let r = version_info(None, Some("1.0.1".to_string()), "official".to_string());
    assert!(!r.update_available);
    let r = version_info(Some("1.0.1".to_string()), None, "official".to_string());
    assert!(!r.update_available);
}

#[test]
fn cli_version_is_the_last_word() {
    assert_eq!(cli_version("openclaw 2026.1.5\n").as_deref(), Some("2026.1.5"));
    assert_eq!(cli_version("2026.1.5").as_deref(), Some("2026.1.5"));
    assert_eq!(cli_version("  a\tb  c \n\n").as_deref(), Some("c"));
    assert_eq!(cli_version(" \n\t "), None);
    assert_eq!(cli_version(""), None);
    assert_eq!(cli_version("x\u{3000}y").as_deref(), Some("y"));
}

#[test]
fn installed_version_decodes_output() {
    assert_eq!(installed_version_from_output(b"OpenClaw 2026.2.1\n").as_deref(), Some("2026.2.1"));
    assert_eq!(installed_version_from_output(b"v1 \xff\xfe\n").as_deref(), Some("\u{fffd}\u{fffd}"));
    assert_eq!(installed_version_from_output(b"   "), None);
}

#[test]
fn version_field_reads_string_versions_only() {
    let doc = Json::Object(vec![
        Member { key: "name".to_string(), value: Json::Str("openclaw".to_string()) },
        Member { key: "version".to_string(), value: Json::Str("2026.1.2".to_string()) },
    ]);
    assert_eq!(version_field(&doc).as_deref(), Some("2026.1.2"));
    let doc = Json::Object(vec![Member { key: "version".to_string(), value: Json::Number("3".to_string()) }]);
    assert_eq!(version_field(&doc), None);
    assert_eq!(version_field(&Json::Array(vec![])), None);
}
