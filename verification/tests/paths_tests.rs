use clawpanel::paths::{backups_dir, env_file_target, is_under, join_paths, lies_inside};

#[test]
fn backups_live_in_the_panel_directory() {
    assert_eq!(backups_dir("/home/u/.openclaw", false), "/home/u/.openclaw/backups");
    assert_eq!(backups_dir("/home/u/.openclaw/", false), "/home/u/.openclaw/backups");
    assert_eq!(backups_dir("", false), "backups");
    assert_eq!(backups_dir("C:\\Users\\x\\.openclaw", true), "C:\\Users\\x\\.openclaw\\backups");
    assert_eq!(backups_dir("C:\\Users\\x\\.openclaw/", true), "C:\\Users\\x\\.openclaw/backups");
}

#[test]
fn join_follows_path_join() {
    for (a, b) in [("/a", "b"), ("/a/", "b"), ("/a", "/b"), ("", "b"), ("a", ""), ("/a", "./b"), ("C:", "b"), ("/a", "a\\b")] {
        let expected = std::path::Path::new(a).join(b);
        assert_eq!(join_paths(a, b, false), expected.to_str().unwrap(), "{a} + {b}");
    }
}

#[test]
fn join_on_windows() {
    assert_eq!(join_paths("C:\\Users\\x", ".openclaw", true), "C:\\Users\\x\\.openclaw");
    assert_eq!(join_paths("C:\\Users\\x", ".openclaw/.env", true), "C:\\Users\\x\\.openclaw/.env");
    assert_eq!(join_paths("C:\\a\\", "b", true), "C:\\a\\b");
    assert_eq!(join_paths("C:\\a/", "b", true), "C:\\a/b");
    assert_eq!(join_paths("C:\\a", "\\b", true), "C:\\b");
    assert_eq!(join_paths("C:\\a", "/b", true), "C:/b");
    assert_eq!(join_paths("C:\\a", "D:\\b", true), "D:\\b");
    assert_eq!(join_paths("C:\\a", "d:b", true), "d:b");
    assert_eq!(join_paths("C:", "b", true), "C:b");
    assert_eq!(join_paths("/a", "/b", true), "/b");
    assert_eq!(join_paths("", "b", true), "b");
}

#[test]
fn under_compares_components() {
    let cases = [
        ("/home/u/.openclaw/.env", "/home/u/.openclaw"),
        ("/home/u/.openclaw", "/home/u/.openclaw/"),
        ("/home/u/.openclaw2/.env", "/home/u/.openclaw"),
        ("/home/u//.openclaw/./x", "/home/u/.openclaw"),
        ("/home/u/.openclaw/../x", "/home/u/.openclaw"),
        ("home/u/.openclaw/x", "/home/u/.openclaw"),
        ("./a/b", "a"),
        ("./a/b", "./a"),
        (".", "./"),
        ("a/b", ""),
        ("/", "/"),
        ("/home/u\\.openclaw", "/home/u"),
        ("C:/a", "C:"),
    ];
    for (p, b) in cases {
        let expected = std::path::Path::new(p).starts_with(b);
        assert_eq!(is_under(p, b, false), expected, "{p} under {b}");
    }
}

#[test]
fn under_on_windows() {
    let base = "C:\\Users\\x\\.openclaw";
    assert!(is_under("C:\\Users\\x\\.openclaw/.env", base, true));
    assert!(is_under("C:/Users/x/.openclaw/.env", base, true));
    assert!(is_under("c:\\Users\\x\\.openclaw\\.env", base, true));
    assert!(is_under("C:\\Users\\\\x\\.\\.openclaw\\", base, true));
    assert!(!is_under("C:\\Users\\X\\.openclaw\\.env", base, true));
    assert!(!is_under("D:\\Users\\x\\.openclaw\\.env", base, true));
    assert!(!is_under("C:Users\\x\\.openclaw\\.env", base, true));
    assert!(!is_under("\\Users\\x\\.openclaw\\.env", base, true));
    assert!(is_under(".\\a\\b", ".", true));
    assert!(is_under("C:.\\a", "C:.", true));
}

#[test]
fn parent_steps_are_resolved() {
    assert!(lies_inside("/home/u/.openclaw/gw/.env", "/home/u/.openclaw", false));
    assert!(!lies_inside("/home/u/.openclaw/../evil.txt", "/home/u/.openclaw", false));
    assert!(lies_inside("/home/u/.openclaw/gw/../.env", "/home/u/.openclaw", false));
    assert!(lies_inside("/home/u/.openclaw/a/b/../../.env", "/home/u/.openclaw", false));
    assert!(!lies_inside("/home/u/.openclaw/a/../../.env", "/home/u/.openclaw", false));
    assert!(!lies_inside("/home/u/.openclaw/..", "/home/u/.openclaw", false));
    assert!(lies_inside("/home/u/.openclaw/a/..", "/home/u/.openclaw", false));
    assert!(!lies_inside("/home/u/x/../.openclaw/.env", "/home/u/.openclaw", false));
    assert!(lies_inside("C:\\Users\\x\\.openclaw\\a\\..\\.env", "C:\\Users\\x\\.openclaw", true));
    assert!(!lies_inside("\\\\srv\\share\\.openclaw\\.env", "\\\\srv\\share\\.openclaw", true));
    assert!(!lies_inside("//?/C:/Users/x/.openclaw/.env", "C:\\Users\\x\\.openclaw", true));
    assert!(!lies_inside("C:\\Users\\x\\.openclaw\\..\\evil.txt", "C:\\Users\\x\\.openclaw", true));
    // on Unix a backslash is part of a name, not a separator
    assert!(lies_inside("/home/u/.openclaw/..\\x", "/home/u/.openclaw", false));
}

#[test]
fn env_files_only_inside_the_panel_directory() {
    let home = "/home/u";
    let base = "/home/u/.openclaw";
    assert_eq!(env_file_target("~/.openclaw/.env", home, base, false), Ok("/home/u/.openclaw/.env".to_string()));
    assert_eq!(env_file_target("/home/u/.openclaw/gw/.env", home, base, false), Ok("/home/u/.openclaw/gw/.env".to_string()));
    let refusal = Err("只允许写入 ~/.openclaw/ 目录下的文件".to_string());
    assert_eq!(env_file_target("/etc/passwd", home, base, false), refusal);
    assert_eq!(env_file_target("~/.openclaw2/.env", home, base, false), refusal);
    assert_eq!(env_file_target("~//etc/.env", home, base, false), refusal);
    assert_eq!(env_file_target(".openclaw/.env", home, base, false), refusal);
    assert_eq!(env_file_target("~/.openclaw/../evil.txt", home, base, false), refusal);
    assert_eq!(
        env_file_target("~/.openclaw/sub/../.env", home, base, false),
        Ok("/home/u/.openclaw/sub/../.env".to_string())
    );
    assert_eq!(env_file_target("/home/u/.openclaw/../../../etc/passwd", home, base, false), refusal);
    // without a home directory the path stays relative
    assert_eq!(env_file_target("~/.openclaw/.env", "", base, false), refusal);
}

#[test]
fn env_files_on_windows() {
    let home = "C:\\Users\\x";
    let base = "C:\\Users\\x\\.openclaw";
    assert_eq!(
        env_file_target("~/.openclaw/.env", home, base, true),
        Ok("C:\\Users\\x\\.openclaw/.env".to_string())
    );
    assert_eq!(
        env_file_target("C:\\Users\\x\\.openclaw\\gw\\.env", home, base, true),
        Ok("C:\\Users\\x\\.openclaw\\gw\\.env".to_string())
    );
    let refusal = Err("只允许写入 ~/.openclaw/ 目录下的文件".to_string());
    assert_eq!(env_file_target("~/.openclaw/../evil.txt", home, base, true), refusal);
    assert_eq!(env_file_target("~/.openclaw\\..\\evil.txt", home, base, true), refusal);
    assert_eq!(env_file_target("D:\\Users\\x\\.openclaw\\.env", home, base, true), refusal);
    assert_eq!(env_file_target("~/\\Windows\\.env", home, base, true), refusal);
}
