use clawpanel::registry::{
    configured_registry, latest_version_url, next_install_progress, npm_package_name, plan_upgrade,
    registry_to_store, source_from_link_target, source_from_npm_list, source_from_npm_list_output,
    upgrade_success_message, DEFAULT_REGISTRY, INSTALL_PROGRESS_START,
};

#[test]
fn registry_falls_back_to_the_mirror() {
    assert_eq!(configured_registry(None), "https://registry.npmmirror.com");
    assert_eq!(configured_registry(Some("   \n".to_string())), DEFAULT_REGISTRY);
    assert_eq!(configured_registry(Some(String::new())), DEFAULT_REGISTRY);
    assert_eq!(
        configured_registry(Some("  https://registry.npmjs.org/ \n".to_string())),
        "https://registry.npmjs.org/"
    );
}

#[test]
fn stored_registry_reads_back() {
    for given in ["https://r.example", "  https://r.example\t", " ", "\u{3000}x\u{3000}"] {
        let stored = registry_to_store(given);
        let read = configured_registry(Some(stored));
        let t = given.trim();
        if t.is_empty() {
            assert_eq!(read, DEFAULT_REGISTRY);
        } else {
            assert_eq!(read, t);
        }
    }
}

#[test]
fn package_names_follow_the_source() {
    assert_eq!(npm_package_name("official"), "openclaw");
    assert_eq!(npm_package_name("chinese"), "@qingchencloud/openclaw-zh");
    assert_eq!(npm_package_name(""), "@qingchencloud/openclaw-zh");
    assert_eq!(npm_package_name("Official"), "@qingchencloud/openclaw-zh");
}

#[test]
fn latest_version_url_escapes_the_package() {
    assert_eq!(
        latest_version_url("https://registry.npmmirror.com", "chinese"),
        "https://registry.npmmirror.com/%40qingchencloud%2Fopenclaw-zh/latest"
    );
    assert_eq!(
        latest_version_url("https://registry.npmjs.org", "official"),
        "https://registry.npmjs.org/openclaw/latest"
    );
}

#[test]
fn upgrade_to_chinese_build_keeps_a_mirror_that_carries_it() {
    let p = plan_upgrade("official", "chinese", "https://registry.npmmirror.com");
    assert_eq!(p.install, "@qingchencloud/openclaw-zh@latest");
    assert_eq!(p.uninstall.as_deref(), Some("openclaw"));
    assert_eq!(p.registry, "https://registry.npmmirror.com");
    assert!(p.reinstall_gateway);
    let p = plan_upgrade("chinese", "chinese", "https://registry.npm.taobao.org");
    assert_eq!(p.registry, "https://registry.npm.taobao.org");
    assert_eq!(p.uninstall, None);
    assert!(!p.reinstall_gateway);
}

#[test]
fn upgrade_to_chinese_build_leaves_other_mirrors() {
    let p = plan_upgrade("chinese", "chinese", "https://mirrors.example.com/npm");
    assert_eq!(p.registry, "https://registry.npmjs.org");
}

#[test]
fn upgrade_to_official_build_uses_the_configured_registry() {
    let p = plan_upgrade("chinese", "official", "https://mirrors.example.com/npm");
    assert_eq!(p.install, "openclaw@latest");
    assert_eq!(p.uninstall.as_deref(), Some("@qingchencloud/openclaw-zh"));
    assert_eq!(p.registry, "https://mirrors.example.com/npm");
    assert!(p.reinstall_gateway);
}

#[test]
fn install_progress_climbs_by_two_to_75() {
    let mut p = INSTALL_PROGRESS_START;
    let mut shown = vec![];
    while let Some(next) = next_install_progress(p) {
        p = next;
        shown.push(p);
    }
    assert_eq!(shown.first(), Some(&17));
    assert_eq!(shown.last(), Some(&75));
    assert_eq!(shown.len(), 30);
    assert!(shown.iter().all(|v| *v >= 15 && *v <= 75 && v % 2 == 1));
    assert_eq!(next_install_progress(75), None);
    assert_eq!(next_install_progress(74), Some(76));
}

#[test]
fn success_message_names_the_version() {
    assert_eq!(upgrade_success_message(Some("2026.1.1".to_string())), "✅ 升级成功，当前版本: 2026.1.1");
    assert_eq!(upgrade_success_message(None), "✅ 升级成功，当前版本: 未知");
}

#[test]
fn installed_source_from_listings() {
    assert_eq!(source_from_npm_list("/usr/lib\n└── @qingchencloud/openclaw-zh@2026.1.1\n"), "chinese");
    assert_eq!(source_from_npm_list("/usr/lib\n└── openclaw@2026.1.1\n"), "official");
    assert_eq!(source_from_npm_list("openclaw-zh"), "official");
    assert_eq!(source_from_npm_list_output(b"@qingchencloud/openclaw-zh@1"), "chinese");
    assert_eq!(source_from_link_target("../lib/node_modules/@qingchencloud/openclaw-zh/openclaw.mjs"), "chinese");
    assert_eq!(source_from_link_target("../lib/node_modules/openclaw/openclaw.mjs"), "official");
}
