use clawpanel::backup::BackupEntry;
use clawpanel::json::{Json, Member};
use clawpanel::system::{
    backup_listing, backup_report, count_value, gateway_launchd_target, installation_report,
    node_report, node_report_from_text, parse_u32, parse_uid, uid_from_text, IntErrorKind,
};

fn m(key: &str, value: Json) -> Member {
    Member { key: key.to_string(), value }
}

#[test]
fn installation_report_holds_the_directory() {
    assert_eq!(
        installation_report(true, "/home/u/.openclaw"),
        Json::Object(vec![m("installed", Json::Bool(true)), m("path", Json::Str("/home/u/.openclaw".to_string()))])
    );
}

#[test]
fn node_report_trims_the_version() {
    assert_eq!(
        node_report(Some(b"v20.11.1\n")),
        Json::Object(vec![m("installed", Json::Bool(true)), m("version", Json::Str("v20.11.1".to_string()))])
    );
    assert_eq!(
        node_report(None),
        Json::Object(vec![m("installed", Json::Bool(false)), m("version", Json::Null)])
    );
}

#[test]
fn counts_are_decimal_numbers() {
    assert_eq!(count_value(0), Json::Number("0".to_string()));
    assert_eq!(count_value(1700000000), Json::Number("1700000000".to_string()));
    assert_eq!(count_value(u64::MAX), Json::Number(u64::MAX.to_string()));
    assert_eq!(
        backup_report("openclaw-1.json".to_string(), 2048),
        Json::Object(vec![m("name", Json::Str("openclaw-1.json".to_string())), m("size", Json::Number("2048".to_string()))])
    );
}

#[test]
fn listing_shows_newest_first() {
    let listing = backup_listing(vec![
        BackupEntry { name: "old.json".to_string(), size: 1, created_at: 10 },
        BackupEntry { name: "new.json".to_string(), size: 2, created_at: 20 },
    ]);
    let item = |name: &str, size: &str, at: &str| {
        Json::Object(vec![
            m("created_at", Json::Number(at.to_string())),
            m("name", Json::Str(name.to_string())),
            m("size", Json::Number(size.to_string())),
        ])
    };
    assert_eq!(listing, Json::Array(vec![item("new.json", "2", "20"), item("old.json", "1", "10")]));
    assert_eq!(backup_listing(vec![]), Json::Array(vec![]));
}

#[test]
fn parse_u32_agrees_with_the_standard_library() {
    for s in ["0", "501", "+7", "4294967295", "4294967296", "99999999999a", "12a", "", "+", "-", "-1", " 1", "1 ", "00000000000000000001", "+-1"] {
        let expected = match s.parse::<u32>() {
            Ok(v) => Ok(v),
            Err(e) => Err(match e.kind() {
                std::num::IntErrorKind::Empty => IntErrorKind::Empty,
                std::num::IntErrorKind::InvalidDigit => IntErrorKind::InvalidDigit,
                std::num::IntErrorKind::PosOverflow => IntErrorKind::PosOverflow,
                _ => unreachable!(),
            }),
        };
        assert_eq!(parse_u32(s), expected, "{s:?}");
    }
}

#[test]
fn uid_from_id_output() {
    assert_eq!(parse_uid(b"501\n"), Ok(501));
    assert_eq!(parse_uid(b"  0 \n"), Ok(0));
    assert_eq!(parse_uid(b"\n"), Err("解析 UID 失败: cannot parse integer from empty string".to_string()));
    assert_eq!(parse_uid(b"abc"), Err("解析 UID 失败: invalid digit found in string".to_string()));
    assert_eq!(parse_uid(b"99999999999"), Err("解析 UID 失败: number too large to fit in target type".to_string()));
    let e = "abc".parse::<u32>().unwrap_err();
    assert_eq!(parse_uid(b"abc"), Err(format!("解析 UID 失败: {e}")));
}

#[test]
fn gateway_target_names_the_user() {
    assert_eq!(gateway_launchd_target(501), "gui/501/ai.openclaw.gateway");
    assert_eq!(gateway_launchd_target(0), "gui/0/ai.openclaw.gateway");
}

#[test]
fn uid_and_node_reports_from_text() {
    assert_eq!(uid_from_text("\u{3000}42\n"), Ok(42));
    assert_eq!(uid_from_text("+"), Err("解析 UID 失败: invalid digit found in string".to_string()));
    assert_eq!(
        node_report_from_text(Some(" v18.0.0 ")),
        Json::Object(vec![m("installed", Json::Bool(true)), m("version", Json::Str("v18.0.0".to_string()))])
    );
}
