use chaste::dependency::DependencyKind;
use chaste::meta::{LockfileVersion, ProviderMeta};
use chaste::npm::parse::{parse_lock, recognize_source};
use chaste::npm::paths::{find_pid, package_name_from_path};
use chaste::npm::{DependencyTreePackage, Error, PackageLock, PeerDependencyMeta};
use chaste::chastefile::ChastefileBuilder;
use chaste::package::{PackageBuilder, PackageID};
use chaste::source::{PackageSource, PackageSourceType};

const EMPTY_SHA512: &str =
    "sha512-z4PhNX7vuL3xVChQ1m2AB9Yg5AULVxXcg/SpIdNs6c5H0NE8XYXysP+DGNKHfuwvY7kxvUdBeoGlODJ6+SfaPg==";

fn tree(version: Option<&str>, deps: &[(&str, &str)]) -> DependencyTreePackage {
    DependencyTreePackage {
        name: None,
        version: version.map(|v| v.to_string()),
        resolved: None,
        link: None,
        integrity: None,
        dependencies: deps.iter().map(|(a, b)| (a.to_string(), b.to_string())).collect(),
        dev_dependencies: Vec::new(),
        peer_dependencies: Vec::new(),
        peer_dependencies_meta: Vec::new(),
        optional_dependencies: Vec::new(),
    }
}

fn basic_lock() -> PackageLock {
    let mut is_even = tree(Some("1.0.0"), &[("is-odd", "^1.0.0")]);
    is_even.resolved = Some("https://registry.npmjs.org/is-even/-/is-even-1.0.0.tgz".to_string());
    is_even.integrity = Some(EMPTY_SHA512.to_string());
    PackageLock {
        name: "@chastelock/testcase".to_string(),
        lockfile_version: 3,
        packages: vec![
            (String::new(), tree(Some("1.0.0"), &[("is-even", "^1.0.0")])),
            ("node_modules/is-even".to_string(), is_even),
            (
                "node_modules/is-even/node_modules/is-odd".to_string(),
                tree(Some("1.0.0"), &[]),
            ),
        ],
    }
}

#[test]
fn npm_lock_basic() -> Result<(), Error> {
    let chastefile = parse_lock(&basic_lock())?;
    assert_eq!(chastefile.packages().len(), 3);
    assert_eq!(
        chastefile.root_package().name().map(|n| n.as_str()),
        Some("@chastelock/testcase")
    );
    let root_deps = chastefile.root_package_dependencies();
    assert_eq!(root_deps.len(), 1);
    assert_eq!(root_deps[0].kind(), DependencyKind::Dependency);
    let is_even = chastefile.package(root_deps[0].on());
    assert_eq!(is_even.name().map(|n| n.as_str()), Some("is-even"));
    assert_eq!(is_even.source_type(), Some(PackageSourceType::Npm));
    assert!(is_even.checksums().is_some());
    let odd_deps = chastefile.package_dependencies(root_deps[0].on());
    assert_eq!(
        chastefile.package(odd_deps[0].on()).name().map(|n| n.as_str()),
        Some("is-odd")
    );
    assert_eq!(chastefile.recursive_package_dependencies(chastefile.root_package_id()).len(), 2);
    assert_eq!(chastefile.meta().provider_name(), "npm");
    assert_eq!(chastefile.meta().lockfile_version(), Some(LockfileVersion::U8(3)));
    Ok(())
}

#[test]
fn npm_lock_links_and_members() -> Result<(), Error> {
    let mut lock = basic_lock();
    let mut member = tree(Some("0.1.0"), &[]);
    member.name = Some("balls".to_string());
    lock.packages.push(("packages/balls".to_string(), member));
    let mut link = tree(None, &[]);
    link.link = Some(true);
    link.resolved = Some("packages/balls".to_string());
    lock.packages.push(("node_modules/balls".to_string(), link));
    let chastefile = parse_lock(&lock)?;
    assert_eq!(chastefile.packages().len(), 4);
    let members = chastefile.workspace_member_ids();
    assert_eq!(members.len(), 1);
    let installs = chastefile.package_installations(members[0]);
    assert_eq!(installs.len(), 2);
    assert_eq!(installs[1].path().as_str(), "node_modules/balls");
    Ok(())
}

#[test]
fn npm_lock_errors() {
    let mut lock = basic_lock();
    lock.lockfile_version = 1;
    assert!(matches!(parse_lock(&lock), Err(Error::UnknownLockVersion(1))));

    let mut lock = basic_lock();
    lock.packages[0].1.dependencies.push(("missing".to_string(), "^1".to_string()));
    assert!(matches!(parse_lock(&lock), Err(Error::DependencyNotFound(n)) if n == "missing"));

    let mut lock = basic_lock();
    lock.packages[0].1.peer_dependencies.push(("missing".to_string(), "^1".to_string()));
    lock.packages[0].1.peer_dependencies_meta.push(("missing".to_string(), PeerDependencyMeta { optional: Some(true) }));
    assert!(parse_lock(&lock).is_ok());

    let mut lock = basic_lock();
    let mut link = tree(None, &[]);
    link.link = Some(true);
    link.resolved = Some("packages/nowhere".to_string());
    lock.packages.push(("node_modules/nowhere".to_string(), link));
    assert!(matches!(parse_lock(&lock), Err(Error::WorkspaceMemberNotFound(p)) if p == "node_modules/nowhere"));

    let mut lock = basic_lock();
    lock.packages[1].1.integrity = Some("not an integrity".to_string());
    assert!(matches!(parse_lock(&lock), Err(Error::SSRIError(_))));

    let mut lock = basic_lock();
    lock.packages.remove(0);
    assert!(matches!(parse_lock(&lock), Err(Error::ChasteError(_))));
}

#[test]
fn npm_sources() {
    assert_eq!(
        recognize_source("https://registry.npmjs.org/a/-/a-1.0.0.tgz"),
        Some(PackageSource::Npm)
    );
    assert_eq!(
        recognize_source("git+ssh://git@github.com/a/b.git#abc"),
        Some(PackageSource::Git { url: "git+ssh://git@github.com/a/b.git#abc".to_string() })
    );
    assert_eq!(recognize_source("https://example.com/a.tgz"), None);
}

fn two_ids() -> (PackageID, PackageID) {
    let mut builder = ChastefileBuilder::new(());
    let a = builder.add_package(PackageBuilder::new(None, None).build().unwrap());
    let b = builder.add_package(PackageBuilder::new(None, None).build().unwrap());
    (a, b)
}

#[test]
fn npm_find_pid_walks_up() {
    let (hoisted, nested) = two_ids();
    let table = vec![
        ("node_modules/a".to_string(), hoisted),
        ("node_modules/b/node_modules/a".to_string(), nested),
    ];
    assert_eq!(find_pid("node_modules/b", "a", &table).ok(), Some(nested));
    assert_eq!(find_pid("node_modules/c", "a", &table).ok(), Some(hoisted));
    assert_eq!(find_pid("", "a", &table).ok(), Some(hoisted));
    assert!(matches!(find_pid("node_modules/c", "z", &table), Err(Error::DependencyNotFound(n)) if n == "z"));
}

#[test]
fn npm_names_from_paths() {
    assert_eq!(package_name_from_path("node_modules/a/node_modules/@b/c").ok(), Some(Some("@b/c")));
    assert_eq!(package_name_from_path("node_modules/a").ok(), Some(Some("a")));
    assert_eq!(package_name_from_path("balls").ok(), Some(Some("balls")));
    assert_eq!(package_name_from_path("packages/balls").ok(), Some(None));
}

#[test]
fn npm_lock_first_failure_decides() {
    // two links that point nowhere: the first in lockfile order is reported
    let mut lock = basic_lock();
    for p in ["node_modules/first", "node_modules/second"] {
        let mut link = tree(None, &[]);
        link.link = Some(true);
        link.resolved = Some("packages/nowhere".to_string());
        lock.packages.push((p.to_string(), link));
    }
    assert!(matches!(parse_lock(&lock), Err(Error::WorkspaceMemberNotFound(p)) if p == "node_modules/first"));

    // an entry refused beats a link that points nowhere
    let mut lock2 = lock;
    lock2.packages[1].1.version = Some("not a version".to_string());
    assert!(matches!(
        parse_lock(&lock2),
        Err(Error::ChasteError(chaste::error::Error::SemverError(_)))
    ));

    // a path that is not a module path
    let mut lock = basic_lock();
    lock.packages.push(("node_modules/".to_string(), tree(Some("1.0.0"), &[])));
    assert!(matches!(
        parse_lock(&lock),
        Err(Error::ChasteError(chaste::error::Error::InvalidModulePath(p))) if p == "node_modules/"
    ));

    // the lockfile's name stands for an unnamed root, and must be valid
    let mut lock = basic_lock();
    lock.name = "Not A Name".to_string();
    assert!(matches!(
        parse_lock(&lock),
        Err(Error::ChasteError(chaste::error::Error::InvalidPackageName(n))) if n == "Not A Name"
    ));

    // no root entry
    let mut lock = basic_lock();
    lock.packages.remove(0);
    assert!(matches!(
        parse_lock(&lock),
        Err(Error::ChasteError(chaste::error::Error::MissingRootPackageID))
    ));
}
