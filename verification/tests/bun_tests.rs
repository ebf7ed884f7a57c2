use chaste::bun::keys::{parse_descriptor, parse_package_key};
use chaste::bun::resolve::parse_contents;
use chaste::bun::{BunLock, Error, LockPackageElement, PackageRelations, WorkspaceMember};
use chaste::dependency::DependencyKind;
use chaste::error::Error as ChasteError;
use chaste::meta::{LockfileVersion, ProviderMeta};
use chaste::source::PackageSourceType;

#[test]
fn test_parse_package_key() -> Result<(), Error> {
    assert_eq!(parse_package_key("ltx")?, (None, "ltx"));
    assert_eq!(parse_package_key("@types/node")?, (None, "@types/node"));
    assert_eq!(
        parse_package_key("@xmpp/xml/ltx")?,
        (Some(("@xmpp/xml", vec!["@xmpp/xml"])), "ltx")
    );
    assert_eq!(
        parse_package_key("socket.io/debug/ms")?,
        (Some(("socket.io/debug", vec!["socket.io", "debug"])), "ms")
    );
    Ok(())
}

#[test]
fn package_keys_refused() {
    assert!(matches!(parse_package_key("a//b"), Err(Error::InvalidKey(k)) if k == "a//b"));
    assert!(matches!(parse_package_key(""), Err(Error::InvalidKey(_))));
}

#[test]
fn descriptors() -> Result<(), Error> {
    assert_eq!(parse_descriptor("nop@1.0.0")?, ("nop", "1.0.0"));
    assert_eq!(
        parse_descriptor("@a/empty@workspace:packages/empty")?,
        ("@a/empty", "workspace:packages/empty")
    );
    assert!(matches!(parse_descriptor("nop"), Err(Error::InvalidKey(_))));
    Ok(())
}

fn relations(deps: &[(&str, &str)]) -> PackageRelations {
    PackageRelations {
        dependencies: deps.iter().map(|(a, b)| (a.to_string(), b.to_string())).collect(),
        dev_dependencies: Vec::new(),
        peer_dependencies: Vec::new(),
        optional_dependencies: Vec::new(),
        optional_peers: Vec::new(),
    }
}

const EMPTY_SHA512: &str =
    "sha512-z4PhNX7vuL3xVChQ1m2AB9Yg5AULVxXcg/SpIdNs6c5H0NE8XYXysP+DGNKHfuwvY7kxvUdBeoGlODJ6+SfaPg==";

fn registry_entry(descriptor: &str, deps: &[(&str, &str)]) -> Vec<LockPackageElement> {
    vec![
        LockPackageElement::String(descriptor.to_string()),
        LockPackageElement::String(String::new()),
        LockPackageElement::Relations(relations(deps)),
        LockPackageElement::String(EMPTY_SHA512.to_string()),
    ]
}

fn basic_lock() -> BunLock {
    BunLock {
        lockfile_version: 1,
        workspaces: vec![(
            String::new(),
            WorkspaceMember {
                name: Some("@chastelock/testcase".to_string()),
                version: Some("1.0.0".to_string()),
                relations: relations(&[("pakig", "npm:nop@^1.0.0"), ("chalk", "^5")]),
            },
        )],
        packages: vec![
            ("pakig".to_string(), registry_entry("nop@1.0.0", &[])),
            ("chalk".to_string(), registry_entry("chalk@5.4.1", &[("ansi", "^1")])),
            ("ansi".to_string(), registry_entry("ansi@1.0.0", &[])),
        ],
        patched_dependencies: Vec::new(),
    }
}

#[test]
fn bun_lock_basic() -> Result<(), Error> {
    let chastefile = parse_contents(basic_lock())?;
    assert_eq!(chastefile.packages().len(), 4);
    let root = chastefile.root_package();
    assert_eq!(root.name().map(|n| n.as_str()), Some("@chastelock/testcase"));
    let root_deps = chastefile.root_package_dependencies();
    assert_eq!(root_deps.len(), 2);
    assert_eq!(root_deps[0].alias_name().map(|n| n.as_str()), Some("pakig"));
    assert_eq!(
        chastefile.package(root_deps[0].on()).name().map(|n| n.as_str()),
        Some("nop")
    );
    assert!(root_deps[1].alias_name().is_none());
    let chalk = chastefile.package(root_deps[1].on());
    assert_eq!(chalk.source_type(), Some(PackageSourceType::Npm));
    assert!(chalk.checksums().is_some());
    assert_eq!(chastefile.package_dependencies(root_deps[1].on()).len(), 1);
    assert_eq!(chastefile.meta().provider_name(), "bun");
    assert_eq!(chastefile.meta().lockfile_version(), Some(LockfileVersion::U8(1)));
    assert_eq!(chastefile.package_installations(root_deps[1].on())[0].path().as_str(), "node_modules/chalk");
    Ok(())
}

#[test]
fn bun_lock_nested_install() -> Result<(), Error> {
    let mut lock = basic_lock();
    lock.packages.push(("chalk/ansi".to_string(), registry_entry("ansi@2.0.0", &[])));
    let chastefile = parse_contents(lock)?;
    let root_deps = chastefile.root_package_dependencies();
    let chalk_pid = root_deps[1].on();
    let chalk_deps = chastefile.package_dependencies(chalk_pid);
    let nested = chastefile.package(chalk_deps[0].on());
    assert!(nested.version().is_some());
    assert_eq!(
        chastefile.package_installations(chalk_deps[0].on())[0].path().as_str(),
        "node_modules/chalk/node_modules/ansi"
    );
    Ok(())
}

#[test]
fn bun_lock_errors() {
    let mut lock = basic_lock();
    lock.lockfile_version = 2;
    assert!(matches!(parse_contents(lock), Err(Error::UnknownLockfileVersion(2))));

    let mut lock = basic_lock();
    lock.workspaces[0].1.relations = relations(&[("missing", "^1")]);
    assert!(matches!(parse_contents(lock), Err(Error::DependencyNotFound(d)) if d == "missing@^1"));

    let mut lock = basic_lock();
    lock.packages[0].1 = vec![LockPackageElement::Relations(relations(&[]))];
    assert!(matches!(parse_contents(lock), Err(Error::InvalidVariant(k)) if k == "pakig"));

    let mut lock = basic_lock();
    lock.packages[0].1 = vec![LockPackageElement::String("nop@latest".to_string())];
    assert!(matches!(parse_contents(lock), Err(Error::VariantMarkerMismatch(k)) if k == "pakig"));

    let mut lock = basic_lock();
    lock.workspaces[0].0 = "packages/app".to_string();
    assert!(matches!(parse_contents(lock), Err(Error::ChasteError(_))));
}

#[test]
fn bun_lock_first_failure_decides() {
    let mut lock = basic_lock();
    lock.workspaces[0].0 = "packages/app".to_string();
    assert!(matches!(
        parse_contents(lock),
        Err(Error::ChasteError(ChasteError::MissingRootPackageID))
    ));

    let mut lock = basic_lock();
    lock.workspaces[0].0 = "a/".to_string();
    assert!(matches!(
        parse_contents(lock),
        Err(Error::ChasteError(ChasteError::InvalidModulePath(p))) if p == "a/"
    ));

    let mut lock = basic_lock();
    lock.workspaces[0].1.name = Some("Bad Name".to_string());
    lock.workspaces[0].1.version = Some("not.a.version".to_string());
    assert!(matches!(
        parse_contents(lock),
        Err(Error::ChasteError(ChasteError::InvalidPackageName(n))) if n == "Bad Name"
    ));

    let mut lock = basic_lock();
    lock.workspaces[0].1.relations = relations(&[("missing", "^1"), ("absent", "^2")]);
    assert!(matches!(parse_contents(lock), Err(Error::DependencyNotFound(d)) if d == "missing@^1"));

    let mut lock = basic_lock();
    lock.packages[1].1.push(LockPackageElement::Relations(relations(&[])));
    lock.packages[2].1 = vec![LockPackageElement::Relations(relations(&[]))];
    assert!(matches!(parse_contents(lock), Err(Error::VariantMarkerMismatch(k)) if k == "chalk"));

    let mut lock = basic_lock();
    lock.packages[0].1 = registry_entry("nop@^1.0.0", &[]);
    assert!(matches!(
        parse_contents(lock),
        Err(Error::ChasteError(ChasteError::SemverError(_)))
    ));

    let spec = "github:isaacs/minimatch#v10.0.1";
    let mut entry = other_entry(&format!("minimatch@{spec}"), Some("isaacs-minimatch-0123456"));
    entry.push(LockPackageElement::Relations(relations(&[])));
    let lock = lock_of(
        member("root", None, &[("minimatch", spec), ("missing", "^1")]),
        vec![("minimatch".to_string(), entry)],
    );
    assert!(matches!(parse_contents(lock), Err(Error::InvalidVariant(k)) if k == "minimatch"));

    let mut lock = basic_lock();
    lock.workspaces[0].1.version = Some("not.a.version".to_string());
    lock.packages[0].1 = vec![LockPackageElement::Relations(relations(&[]))];
    assert!(matches!(
        parse_contents(lock),
        Err(Error::ChasteError(ChasteError::SemverError(_)))
    ));
}

#[test]
fn bun_lock_patched() -> Result<(), Error> {
    let mut lock = basic_lock();
    lock.patched_dependencies = vec![("ansi@1.0.0".to_string(), "patches/ansi.patch".to_string())];
    let chastefile = parse_contents(lock)?;
    assert_eq!(chastefile.packages().len(), 5);
    let patched = chastefile
        .packages()
        .into_iter()
        .find(|p| p.is_derived())
        .expect("a patched package");
    let meta = patched.derivation_meta().unwrap();
    assert_eq!(meta.patch().unwrap().path(), "patches/ansi.patch");
    assert_eq!(
        chastefile.package(meta.derived_from()).name().map(|n| n.as_str()),
        Some("ansi")
    );
    Ok(())
}

fn member(name: &str, version: Option<&str>, deps: &[(&str, &str)]) -> WorkspaceMember {
    WorkspaceMember {
        name: Some(name.to_string()),
        version: version.map(|v| v.to_string()),
        relations: relations(deps),
    }
}

fn dev_member(name: &str, dev: &[(&str, &str)]) -> WorkspaceMember {
    let mut m = member(name, None, &[]);
    m.relations.dev_dependencies = dev.iter().map(|(a, b)| (a.to_string(), b.to_string())).collect();
    m
}

fn lock_of(root: WorkspaceMember, packages: Vec<(String, Vec<LockPackageElement>)>) -> BunLock {
    BunLock {
        lockfile_version: 1,
        workspaces: vec![(String::new(), root)],
        packages,
        patched_dependencies: Vec::new(),
    }
}

fn other_entry(descriptor: &str, tail: Option<&str>) -> Vec<LockPackageElement> {
    let mut v = vec![LockPackageElement::String(descriptor.to_string()), LockPackageElement::Relations(relations(&[]))];
    if let Some(t) = tail {
        v.push(LockPackageElement::String(t.to_string()));
    }
    v
}

fn names_of(c: &chaste::chastefile::Chastefile<chaste::bun::Meta>, name: &str) -> Vec<chaste::package::PackageID> {
    c.packages_with_ids()
        .into_iter()
        .filter(|(_, p)| p.name().is_some_and(|n| n.as_str() == name))
        .map(|(pid, _)| pid)
        .collect()
}

#[test]
fn text_v1_basic() -> Result<(), Error> {
    let names = ["a", "b", "c", "d", "e", "f", "g", "h"];
    let mut packages = Vec::new();
    for (i, n) in names.iter().enumerate() {
        let next: Vec<(&str, &str)> = if i + 1 < names.len() { vec![(names[i + 1], "^1.0.0")] } else { Vec::new() };
        packages.push((n.to_string(), registry_entry(&format!("{n}@1.0.0"), &next)));
    }
    let c = parse_contents(lock_of(member("@chastelock/test__text_v1_basic", None, &[("a", "^1.0.0")]), packages))?;
    let root = c.root_package();
    assert_eq!(root.name().unwrap().as_str(), "@chastelock/test__text_v1_basic");
    assert!(root.version().is_none());
    assert_eq!(c.packages().len(), 9);
    assert_eq!(c.recursive_package_dependencies(c.root_package_id()).len(), 8);
    Ok(())
}

#[test]
fn text_v1_git_ssh() -> Result<(), Error> {
    let spec = "git+ssh://git@github.com:npm/node-semver.git#v7.6.3";
    let c = parse_contents(lock_of(
        member("root", None, &[("semver", spec)]),
        vec![("semver".to_string(), other_entry(&format!("semver@{spec}"), Some("npm-node-semver-0123456")))],
    ))?;
    let root_deps = c.root_package_dependencies();
    assert_eq!(root_deps.len(), 1);
    let svs = root_deps[0].svs().unwrap();
    assert!(svs.is_git());
    assert_eq!(svs.ssh_path_sep(), Some(":"));
    let semver = c.package(root_deps[0].on());
    assert_eq!(semver.name().unwrap().as_str(), "semver");
    assert_eq!(semver.source_type(), Some(PackageSourceType::Git));
    Ok(())
}

#[test]
fn text_v1_git_url() -> Result<(), Error> {
    let spec = "git+https://codeberg.org/keyoxide/doipjs.git#0123456789abcdef";
    let c = parse_contents(lock_of(
        dev_member("root", &[("doipjs", spec)]),
        vec![("doipjs".to_string(), other_entry(&format!("doipjs@{spec}"), Some("0123456789abcdef")))],
    ))?;
    let root_dev_deps: Vec<_> = c.root_package_dependencies().into_iter().filter(|d| d.kind().is_dev()).collect();
    assert_eq!(root_dev_deps.len(), 1);
    let doipjs = c.package(root_dev_deps[0].on());
    assert_eq!(doipjs.name().unwrap().as_str(), "doipjs");
    assert_eq!(doipjs.source_type(), Some(PackageSourceType::Git));
    assert!(doipjs.checksums().is_none());
    Ok(())
}

#[test]
fn text_v1_github_ref() -> Result<(), Error> {
    let spec = "github:isaacs/minimatch#v10.0.1";
    let c = parse_contents(lock_of(
        dev_member("root", &[("minimatch", spec)]),
        vec![("minimatch".to_string(), other_entry(&format!("minimatch@{spec}"), Some("isaacs-minimatch-0123456")))],
    ))?;
    let root_dev_deps: Vec<_> = c.root_package_dependencies().into_iter().filter(|d| d.kind().is_dev()).collect();
    let minimatch = c.package(root_dev_deps[0].on());
    assert_eq!(minimatch.name().unwrap().as_str(), "minimatch");
    assert_eq!(minimatch.source_type(), None);
    assert!(minimatch.checksums().is_none());
    Ok(())
}

#[test]
fn text_v1_hoist_partial() -> Result<(), Error> {
    let c = parse_contents(lock_of(
        member("root", None, &[("chalk", "^5.4.1"), ("old-tool", "^1.0.0")]),
        vec![
            ("chalk".to_string(), registry_entry("chalk@5.4.1", &[])),
            ("old-tool".to_string(), registry_entry("old-tool@1.0.0", &[("chalk", "^2.4.2")])),
            ("old-tool/chalk".to_string(), registry_entry("chalk@2.4.2", &[])),
        ],
    ))?;
    let mut chalks: Vec<String> = names_of(&c, "chalk")
        .into_iter()
        .map(|pid| c.package(pid).version().unwrap().to_string())
        .collect();
    chalks.sort();
    assert_eq!(chalks, vec!["2.4.2".to_string(), "5.4.1".to_string()]);
    Ok(())
}

#[test]
fn text_v1_npm_aliased() -> Result<(), Error> {
    let c = parse_contents(lock_of(
        member("root", None, &[("pakig", "npm:nop@^1.0.0")]),
        vec![("pakig".to_string(), registry_entry("nop@1.0.0", &[]))],
    ))?;
    let root_deps = c.root_package_dependencies();
    assert_eq!(root_deps.len(), 1);
    let pakig_dep = root_deps[0];
    assert_eq!(pakig_dep.alias_name().unwrap().as_str(), "pakig");
    assert_eq!(pakig_dep.svs().unwrap().aliased_package_name().unwrap().as_str(), "nop");
    let pakig = c.package(pakig_dep.on());
    assert_eq!(pakig.name().unwrap().as_str(), "nop");
    assert_eq!(pakig.version().unwrap().to_string(), "1.0.0");
    assert_eq!(pakig.checksums().unwrap().integrity().hashes.len(), 1);
    assert_eq!(pakig.source_type(), Some(PackageSourceType::Npm));
    Ok(())
}

#[test]
fn text_v1_npm_tag() -> Result<(), Error> {
    let c = parse_contents(lock_of(
        member("root", None, &[("nop", "latest")]),
        vec![("nop".to_string(), registry_entry("nop@1.0.0", &[]))],
    ))?;
    let root_deps = c.root_package_dependencies();
    assert_eq!(root_deps.len(), 1);
    assert_eq!(c.package(root_deps[0].on()).name().unwrap().as_str(), "nop");
    assert!(root_deps[0].svs().unwrap().is_npm_tag());
    Ok(())
}

#[test]
fn text_v1_overrides() -> Result<(), Error> {
    let c = parse_contents(lock_of(
        member("root", None, &[("ms", "2.1.3"), ("a", "^1.0.0"), ("b", "^1.0.0")]),
        vec![
            ("a".to_string(), registry_entry("a@1.0.0", &[("ms", "2.0.0")])),
            ("b".to_string(), registry_entry("b@1.0.0", &[("ms", "^2.1"), ("path-to-regexp", "0.1.10")])),
            ("ms".to_string(), registry_entry("ms@2.1.3", &[])),
            ("path-to-regexp".to_string(), registry_entry("path-to-regexp@0.1.12", &[])),
        ],
    ))?;
    let ms = names_of(&c, "ms");
    assert_eq!(ms.len(), 1);
    let ms_pkg = c.package(ms[0]);
    assert_eq!(ms_pkg.version().unwrap().to_string(), "2.1.3");
    assert_eq!(ms_pkg.source_type(), Some(PackageSourceType::Npm));
    let mut ms_svss: Vec<String> =
        c.package_dependents(ms[0]).into_iter().map(|d| d.svs().unwrap().as_str().to_string()).collect();
    ms_svss.sort_unstable();
    assert_eq!(ms_svss, ["2.0.0", "2.1.3", "^2.1"]);
    let path = names_of(&c, "path-to-regexp");
    assert_eq!(path.len(), 1);
    let path_pkg = c.package(path[0]);
    assert_eq!(path_pkg.version().unwrap().to_string(), "0.1.12");
    assert_eq!(path_pkg.source_type(), Some(PackageSourceType::Npm));
    let path_svss: Vec<String> =
        c.package_dependents(path[0]).into_iter().map(|d| d.svs().unwrap().as_str().to_string()).collect();
    assert_eq!(path_svss, ["0.1.10"]);
    Ok(())
}

#[test]
fn text_v1_scope_registry() -> Result<(), Error> {
    let mut entry = registry_entry("@a/empty@0.0.1", &[]);
    entry[1] = LockPackageElement::String("https://registry.example.com/".to_string());
    let c = parse_contents(lock_of(member("root", None, &[("@a/empty", "^0.0.1")]), vec![("@a/empty".to_string(), entry)]))?;
    let empty = c.package(c.root_package_dependencies()[0].on());
    assert_eq!(empty.name().unwrap().as_str(), "@a/empty");
    assert_eq!(empty.version().unwrap().to_string(), "0.0.1");
    assert_eq!(empty.checksums().unwrap().integrity().hashes.len(), 1);
    assert_eq!(empty.source_type(), Some(PackageSourceType::Npm));
    Ok(())
}

#[test]
fn text_v1_tarball_url() -> Result<(), Error> {
    let url = "https://example.com/empty-0.0.1.tgz";
    let c = parse_contents(lock_of(
        member("root", None, &[("@a/empty", url)]),
        vec![("@a/empty".to_string(), other_entry(&format!("@a/empty@{url}"), None))],
    ))?;
    let empty = c.package(c.root_package_dependencies()[0].on());
    assert_eq!(empty.name().unwrap().as_str(), "@a/empty");
    assert!(empty.version().is_none());
    assert!(empty.checksums().is_none());
    assert_eq!(empty.source_type(), Some(PackageSourceType::TarballURL));
    Ok(())
}

fn workspace_lock(version: u8) -> BunLock {
    BunLock {
        lockfile_version: version,
        workspaces: vec![
            (String::new(), member("root", None, &[])),
            ("balls".to_string(), member("@chastelock/balls", Some("1.0.0"), &[("nop", "^1.0.0")])),
            ("ligma".to_string(), member("ligma-api", Some("1.0.0"), &[])),
        ],
        packages: vec![
            (
                "@chastelock/balls".to_string(),
                vec![LockPackageElement::String("@chastelock/balls@workspace:balls".to_string())],
            ),
            ("ligma-api".to_string(), vec![LockPackageElement::String("ligma-api@workspace:ligma".to_string())]),
            ("nop".to_string(), registry_entry("nop@1.0.0", &[])),
        ],
        patched_dependencies: Vec::new(),
    }
}

fn check_workspace(c: &chaste::chastefile::Chastefile<chaste::bun::Meta>) {
    assert_eq!(c.packages().len(), 4);
    let balls = names_of(c, "@chastelock/balls");
    assert_eq!(balls.len(), 1);
    let ligma = names_of(c, "ligma-api");
    assert_eq!(ligma.len(), 1);
    let members = c.workspace_member_ids();
    assert_eq!(members.len(), 2);
    assert!(members.contains(&balls[0]) && members.contains(&ligma[0]));
    let mut paths: Vec<&str> = c.package_installations(balls[0]).iter().map(|i| i.path().as_str()).collect();
    paths.sort_unstable();
    assert_eq!(paths, ["balls", "node_modules/@chastelock/balls"]);
}

#[test]
fn text_v0_workspace_basic() -> Result<(), Error> {
    let c = parse_contents(workspace_lock(0))?;
    check_workspace(&c);
    Ok(())
}

#[test]
fn text_v1_workspace_basic() -> Result<(), Error> {
    let c = parse_contents(workspace_lock(1))?;
    check_workspace(&c);
    Ok(())
}
