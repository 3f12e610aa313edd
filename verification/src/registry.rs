use vstd::prelude::*;

use crate::text::{
    chars_of, concat, contains, contains_text, decode_output, lemma_trim_idempotent, lossy_utf8,
    push_char, same_text, trim, trim_text,
};

verus! {

/// The registry that npm is pointed at where the user has configured none.
pub const DEFAULT_REGISTRY: &'static str = "https://registry.npmmirror.com";

/// npm's own registry, for the Chinese build where the configured mirror does not
/// carry it.
pub const NPM_OFFICIAL_REGISTRY: &'static str = "https://registry.npmjs.org";

/// The registry in use, from the content of the registry file (`None` where it
/// cannot be read): its text without surrounding whitespace, unless that is empty.
pub open spec fn registry_in_use(content: Option<Seq<char>>) -> Seq<char> {
    match content {
        Some(c) => if trim(c).len() > 0 {
            trim(c)
        } else {
            DEFAULT_REGISTRY@
        },
        None => DEFAULT_REGISTRY@,
    }
}

/// The registry in use, given what the registry file holds.
pub fn configured_registry(content: Option<String>) -> (r: String)
    ensures
        r@ == registry_in_use(
            match content {
                Some(c) => Some(c@),
                None => None,
            },
        ),
{
    match content {
        Some(c) => {
            let t = trim_text(c.as_str());
            if t.as_str().unicode_len() > 0 {
                t
            } else {
                String::from_str(DEFAULT_REGISTRY)
            }
        },
        None => String::from_str(DEFAULT_REGISTRY),
    }
}

/// What the panel stores as the registry that the user gave: the text without
/// surrounding whitespace.
pub fn registry_to_store(registry: &str) -> (r: String)
    ensures
        r@ == trim(registry@),
{
    trim_text(registry)
}

/// A registry that is stored and read again is the one given, trimmed, or the default
/// where only whitespace was given.
pub proof fn law_registry_read_after_write(given: Seq<char>)
    ensures
        registry_in_use(Some(trim(given))) == if trim(given).len() > 0 {
            trim(given)
        } else {
            DEFAULT_REGISTRY@
        },
{
    lemma_trim_idempotent(given);
}

// ---------------------------------------------------------------------------
// Packages

/// The npm package of an installation source: `official` is the upstream package,
/// anything else the Chinese build.
pub open spec fn package_for_source(source: Seq<char>) -> Seq<char> {
    if source == "official"@ {
        "openclaw"@
    } else {
        "@qingchencloud/openclaw-zh"@
    }
}

/// The npm package of an installation source.
pub fn npm_package_name(source: &str) -> (r: &'static str)
    ensures
        r@ == package_for_source(source@),
{
    if same_text(source, "official") {
        "openclaw"
    } else {
        "@qingchencloud/openclaw-zh"
    }
}

/// The escape of one character of a package name inside a registry path.
pub open spec fn escape_char(c: char) -> Seq<char> {
    if c == '/' {
        seq!['%', '2', 'F']
    } else if c == '@' {
        seq!['%', '4', '0']
    } else {
        seq![c]
    }
}

/// A package name as it stands in a registry path: `/` becomes `%2F` and `@` becomes
/// `%40` (what replacing `/` and then `@` gives, since `%2F` holds no `@`).
pub open spec fn escape_package(s: Seq<char>) -> Seq<char>
    decreases s.len(),
{
    if s.len() == 0 {
        seq![]
    } else {
        escape_package(s.drop_last()) + escape_char(s.last())
    }
}

/// `name` escaped for a registry path.
pub fn escaped_package(name: &str) -> (r: String)
    ensures
        r@ == escape_package(name@),
{
    let cs = chars_of(name);
    let mut r = String::new();
    let mut i: usize = 0;
    while i < cs.len()
        invariant
            cs@ == name@,
            i <= cs.len(),
            r@ == escape_package(cs@.take(i as int)),
        decreases cs.len() - i,
    {
        let c = cs[i];
        proof {
            assert(cs@.take(i + 1).drop_last() =~= cs@.take(i as int));
        }
        if c == '/' {
            push_char(&mut r, '%');
            push_char(&mut r, '2');
            push_char(&mut r, 'F');
        } else if c == '@' {
            push_char(&mut r, '%');
            push_char(&mut r, '4');
            push_char(&mut r, '0');
        } else {
            push_char(&mut r, c);
        }
        proof {
            assert(r@ =~= escape_package(cs@.take(i as int)) + escape_char(c));
        }
        i = i + 1;
    }
    proof {
        assert(cs@.take(cs.len() as int) =~= cs@);
    }
    r
}

/// The address at which the registry answers with the latest release of the package
/// of `source`.
pub open spec fn latest_version_address(registry: Seq<char>, source: Seq<char>) -> Seq<char> {
    registry + "/"@ + escape_package(package_for_source(source)) + "/latest"@
}

pub fn latest_version_url(registry: &str, source: &str) -> (r: String)
    ensures
        r@ == latest_version_address(registry@, source@),
{
    let pkg = escaped_package(npm_package_name(source));
    let mut r = concat(registry, "/");
    r.append(pkg.as_str());
    r.append("/latest");
    r
}

// ---------------------------------------------------------------------------
// Installation source

/// The name of an installation source.
pub open spec fn source_name(chinese: bool) -> Seq<char> {
    if chinese {
        "chinese"@
    } else {
        "official"@
    }
}

/// The installation source that `npm list -g` reports: the Chinese build where the
/// listing names it.
pub fn source_from_npm_list(listing: &str) -> (r: &'static str)
    ensures
        r@ == source_name(contains_text(listing@, "openclaw-zh@"@)),
{
    if contains(listing, "openclaw-zh@") {
        "chinese"
    } else {
        "official"
    }
}

/// The installation source from the bytes that `npm list -g` printed.
pub fn source_from_npm_list_output(stdout: &[u8]) -> (r: &'static str)
    ensures
        r@ == source_name(contains_text(lossy_utf8(stdout@), "openclaw-zh@"@)),
{
    let text = decode_output(stdout);
    source_from_npm_list(text.as_str())
}

/// The installation source that the target of the `openclaw` link shows.
pub fn source_from_link_target(target: &str) -> (r: &'static str)
    ensures
        r@ == source_name(contains_text(target@, "openclaw-zh"@)),
{
    if contains(target, "openclaw-zh") {
        "chinese"
    } else {
        "official"
    }
}

// ---------------------------------------------------------------------------
// Upgrade

/// What an upgrade does.
#[derive(Debug, PartialEq, Eq)]
pub struct UpgradePlan {
    /// The package to install, with its `@latest` tag.
    pub install: String,
    /// The package of the other source, to remove first when the source changes.
    pub uninstall: Option<String>,
    /// The registry to install from.
    pub registry: String,
    /// Whether the gateway service is to be installed again afterwards.
    pub reinstall_gateway: bool,
}

/// The registry that an upgrade to `package` installs from: the Chinese build only
/// comes from a mirror that carries it (npmmirror or taobao), else from npm itself.
pub open spec fn install_registry(package: Seq<char>, configured: Seq<char>) -> Seq<char> {
    if contains_text(package, "openclaw-zh"@) {
        if contains_text(configured, "npmmirror.com"@) || contains_text(configured, "taobao.org"@) {
            configured
        } else {
            NPM_OFFICIAL_REGISTRY@
        }
    } else {
        configured
    }
}

/// The plan of an upgrade from the installed source `current` to `source`.
pub fn plan_upgrade(current: &str, source: &str, configured: &str) -> (p: UpgradePlan)
    ensures
        p.install@ == package_for_source(source@) + "@latest"@,
        match p.uninstall {
            Some(old) => current@ != source@ && old@ == package_for_source(current@),
            None => current@ == source@,
        },
        p.registry@ == install_registry(package_for_source(source@), configured@),
        p.reinstall_gateway == (current@ != source@),
{
    let name = npm_package_name(source);
    let install = concat(name, "@latest");
    let switching = !same_text(current, source);
    let uninstall = if switching {
        Some(String::from_str(npm_package_name(current)))
    } else {
        None
    };
    let registry = if contains(name, "openclaw-zh") {
        if contains(configured, "npmmirror.com") || contains(configured, "taobao.org") {
            String::from_str(configured)
        } else {
            String::from_str(NPM_OFFICIAL_REGISTRY)
        }
    } else {
        String::from_str(configured)
    };
    UpgradePlan { install, uninstall, registry, reinstall_gateway: switching }
}

/// The progress shown when npm starts to report.
pub const INSTALL_PROGRESS_START: u32 = 15;

/// The progress after one more line of npm's report: two points more, until 75.
pub fn next_install_progress(progress: u32) -> (r: Option<u32>)
    ensures
        progress < 75 ==> r == Some((progress + 2) as u32),
        progress >= 75 ==> r is None,
{
    if progress < 75 {
        Some(progress + 2)
    } else {
        None
    }
}

/// Progress that starts at `INSTALL_PROGRESS_START` stays odd and within 15 to 75
/// however many lines npm reports, so it never reaches the 80 shown after the install.
pub proof fn law_install_progress_bounded(progress: u32)
    requires
        INSTALL_PROGRESS_START <= progress <= 75,
        progress % 2 == 1,
    ensures
        progress < 75 ==> {
            &&& INSTALL_PROGRESS_START <= progress + 2 <= 75
            &&& (progress + 2) % 2 == 1
        },
{
}

/// The message after a successful upgrade, with the version found afterwards.
pub fn upgrade_success_message(version: Option<String>) -> (r: String)
    ensures
        r@ == "✅ 升级成功，当前版本: "@ + match version {
            Some(v) => v@,
            None => "未知"@,
        },
{
    match version {
        Some(v) => concat("✅ 升级成功，当前版本: ", v.as_str()),
        None => concat("✅ 升级成功，当前版本: ", "未知"),
    }
}

} // verus!
