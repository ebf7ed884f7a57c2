use chaste::audit::{audit, decimal_string, report_lines_exec, Audit};
use chaste::chastefile::{Chastefile, ChastefileBuilder};
use chaste::checksums::{integrity_concat, parse_integrity, Checksums, HashAlgorithm};
use chaste::dependency::{DependencyBuilder, DependencyKind};
use chaste::meta::{LockfileVersion, ProviderMeta};
use chaste::name::PackageName;
use chaste::package::{PackageBuilder, PackageID};
use chaste::provider::{implem_from_name, Implementation, Meta};
use chaste::source::PackageSource;
use chaste::why::{chain_line, chains_to, permute, Why};
use chaste::npm::parse::parse_lock;
use chaste::npm::{DependencyTreePackage, PackageLock};
use chaste::yarn::classic_model::PackageJson;
use chaste::yarn::classic_resolve::resolve;
use chaste::yarn::parse::{read_lockfile, YarnLock};

fn named(b: &mut ChastefileBuilder<()>, name: &str) -> PackageID {
    let pkg = PackageBuilder::new(Some(PackageName::new(name.to_string()).unwrap()), None);
    b.add_package(pkg.build().unwrap())
}

fn dep(b: &mut ChastefileBuilder<()>, from: PackageID, on: PackageID) {
    b.add_dependency(DependencyBuilder::new(DependencyKind::Dependency, from, on).build());
}

/// testcase -> recursion-a -> recursion-b -> recursion-a
fn recursive_tree() -> (Chastefile<()>, PackageID, PackageID, PackageID) {
    let mut b = ChastefileBuilder::new(());
    let root = named(&mut b, "@chastelock/testcase");
    let a = named(&mut b, "@chastelock/recursion-a");
    let bb = named(&mut b, "@chastelock/recursion-b");
    dep(&mut b, root, a);
    dep(&mut b, a, bb);
    dep(&mut b, bb, a);
    b.set_root_package_id(root).unwrap();
    (b.build().unwrap(), root, a, bb)
}

fn names(c: &Chastefile<()>, chain: &[&chaste::dependency::Dependency]) -> Vec<String> {
    let mut out = vec![c.package(chain[0].from()).name().unwrap().as_str().to_string()];
    for d in chain {
        out.push(c.package(d.on()).name().unwrap().as_str().to_string());
    }
    out
}

#[test]
fn why_in_recursive_tree() {
    let (c, _, _, _) = recursive_tree();
    let chains = chains_to(&c, "@chastelock/recursion-a");
    let rendered: Vec<Vec<String>> = chains.iter().map(|ch| names(&c, ch)).collect();
    assert_eq!(
        rendered,
        vec![vec!["@chastelock/testcase".to_string(), "@chastelock/recursion-a".to_string()]]
    );
    let chains = chains_to(&c, "@chastelock/recursion-b");
    let rendered: Vec<Vec<String>> = chains.iter().map(|ch| names(&c, ch)).collect();
    assert_eq!(
        rendered,
        vec![vec![
            "@chastelock/testcase".to_string(),
            "@chastelock/recursion-a".to_string(),
            "@chastelock/recursion-b".to_string()
        ]]
    );
}

#[test]
fn why_lines_show_kinds_and_names() {
    let mut b = ChastefileBuilder::new(());
    let root = named(&mut b, "@chastelock/testcase");
    let pkg = PackageBuilder::new(None, None);
    let unnamed = b.add_package(pkg.build().unwrap());
    let leaf = named(&mut b, "leaf");
    b.add_dependency(DependencyBuilder::new(DependencyKind::DevDependency, root, unnamed).build());
    b.add_dependency(DependencyBuilder::new(DependencyKind::OptionalPeerDependency, unnamed, leaf).build());
    b.set_root_package_id(root).unwrap();
    let c = b.build().unwrap();
    let chains = chains_to(&c, "leaf");
    assert_eq!(chains.len(), 1);
    assert_eq!(
        chain_line(&c, &chains[0]),
        "@chastelock/testcase -DevDependency-> [unnamed] -OptionalPeerDependency-> leaf"
    );
}

#[test]
fn permute_from_one_dependent() {
    let (c, _, a, _) = recursive_tree();
    let dependents = c.package_dependents(a);
    assert_eq!(dependents.len(), 2);
    let chains = permute(vec![dependents[0]], &c);
    assert_eq!(chains.len(), 1);
    assert_eq!(chains[0].len(), 1);
}

#[test]
fn audit_reports() {
    let mut b = ChastefileBuilder::new(());
    let root = named(&mut b, "root");
    let mut good = PackageBuilder::new(Some(PackageName::new("good".to_string()).unwrap()), None);
    good.checksums(Checksums::Tarball(
        parse_integrity(
            "sha512-z4PhNX7vuL3xVChQ1m2AB9Yg5AULVxXcg/SpIdNs6c5H0NE8XYXysP+DGNKHfuwvY7kxvUdBeoGlODJ6+SfaPg==",
        )
        .unwrap(),
    ));
    good.source(PackageSource::Npm);
    b.add_package(good.build().unwrap());
    let mut weak = PackageBuilder::new(Some(PackageName::new("weak".to_string()).unwrap()), None);
    weak.checksums(Checksums::Tarball(parse_integrity("sha1-2jmj7l5rSw0yVb/vlWAYkK/YBwk=").unwrap()));
    b.add_package(weak.build().unwrap());
    named(&mut b, "bare");
    b.set_root_package_id(root).unwrap();
    let c = b.build().unwrap();
    let report = audit(&c);
    let list = |v: &Vec<&chaste::package::Package>| {
        v.iter().map(|p| p.name().unwrap().as_str().to_string()).collect::<Vec<_>>()
    };
    assert_eq!(list(&report.checksumless), vec!["bare".to_string()]);
    assert_eq!(list(&report.insufficient_checksums), vec!["weak".to_string()]);
    assert_eq!(list(&report.unknown_source), vec!["weak".to_string(), "bare".to_string()]);
    assert_eq!(Audit { failures_ok: false }.exit_code(&report), Some(3));
    assert_eq!(Audit { failures_ok: true }.exit_code(&report), None);
    assert_eq!(
        report_lines_exec(&report, c.packages().len()),
        vec![
            "Out of 4 dependencies:".to_string(),
            "❌ 1 package with no checksums:\n\tbare".to_string(),
            "❌ 1 package with insecure checksums:\n\tweak".to_string(),
            "❌ 2 packages with unrecognized source:\n\tbare weak".to_string(),
        ]
    );
}

#[test]
fn audit_all_good_exits_with_zero() {
    let mut b = ChastefileBuilder::new(());
    let root = named(&mut b, "root");
    b.set_root_package_id(root).unwrap();
    let c = b.build().unwrap();
    let report = audit(&c);
    assert_eq!(Audit { failures_ok: false }.exit_code(&report), Some(0));
    assert_eq!(
        report_lines_exec(&report, c.packages().len()),
        vec![
            "All good! Out of 1 dependencies:".to_string(),
            "✅ No packages with no checksums".to_string(),
            "✅ No packages with insecure checksums".to_string(),
            "✅ No packages with unrecognized source".to_string(),
        ]
    );
}

#[test]
fn decimal_numbers() {
    assert_eq!(decimal_string(0), "0");
    assert_eq!(decimal_string(7), "7");
    assert_eq!(decimal_string(1209), "1209");
}

#[test]
fn why_options_give_chains() {
    let (c, _, _, _) = recursive_tree();
    let why = Why { package_name: "@chastelock/recursion-b".to_string() };
    let chains = why.chains(&c);
    assert_eq!(chains.len(), 1);
    assert_eq!(names(&c, &chains[0]).len(), 3);
}

#[test]
fn implementations_by_name() {
    assert_eq!(implem_from_name("npm"), Ok(Implementation::Npm));
    assert_eq!(Implementation::from_name("yarn"), Some(Implementation::Yarn));
    assert_eq!(
        implem_from_name("cargo"),
        Err("Unknown implementation name: \"cargo\"".to_string())
    );
}

#[test]
fn provider_metadata() {
    let meta = Meta::Npm(chaste::npm::Meta { lockfile_version: 3 });
    assert_eq!(meta.provider_name(), "npm");
    assert_eq!(meta.lockfile_version(), Some(LockfileVersion::U8(3)));
    assert_eq!(LockfileVersion::U8(3).to_string(), "3".to_string());
    assert_eq!(LockfileVersion::U8(255).to_string(), "255".to_string());
    assert_eq!(LockfileVersion::U8(10).to_string(), "10".to_string());
    assert_eq!(LockfileVersion::Str("v6").to_string(), "v6".to_string());
    assert_eq!(().provider_name(), "()");
    assert_eq!(().lockfile_version(), None);
}

#[test]
fn meta_is_mapped() {
    let mut b = ChastefileBuilder::new(7u8);
    let root = named_generic(&mut b);
    b.set_root_package_id(root).unwrap();
    let c = b.build().unwrap();
    let mapped = c.map_meta(|m| m as u32 + 1);
    assert_eq!(*mapped.meta(), 8u32);
    assert_eq!(mapped.packages().len(), 1);
}

fn named_generic(b: &mut ChastefileBuilder<u8>) -> PackageID {
    b.add_package(PackageBuilder::new(None, None).build().unwrap())
}

fn render<M>(c: &Chastefile<M>, chain: &[&chaste::dependency::Dependency]) -> String {
    let mut out = c.package(chain[0].from()).name().unwrap().as_str().to_string();
    for d in chain {
        out.push_str(&format!(" -{:?}-> {}", d.kind(), c.package(d.on()).name().unwrap().as_str()));
    }
    out.push('\n');
    out
}

fn why_lines<M>(c: &Chastefile<M>, name: &str) -> String {
    chains_to(c, name).iter().map(|ch| render(c, ch)).collect()
}

#[test]
fn npm_v3_infinite_recursion() {
    let tree = |deps: &[(&str, &str)]| DependencyTreePackage {
        name: None,
        version: Some("1.0.0".to_string()),
        resolved: None,
        link: None,
        integrity: None,
        dependencies: deps.iter().map(|(a, b)| (a.to_string(), b.to_string())).collect(),
        dev_dependencies: Vec::new(),
        peer_dependencies: Vec::new(),
        peer_dependencies_meta: Vec::new(),
        optional_dependencies: Vec::new(),
    };
    let lock = PackageLock {
        name: "@chastelock/testcase".to_string(),
        lockfile_version: 3,
        packages: vec![
            (String::new(), tree(&[("@chastelock/recursion-a", "^1.0.0")])),
            ("node_modules/@chastelock/recursion-a".to_string(), tree(&[("@chastelock/recursion-b", "^1.0.0")])),
            ("node_modules/@chastelock/recursion-b".to_string(), tree(&[("@chastelock/recursion-a", "^1.0.0")])),
        ],
    };
    let c = parse_lock(&lock).unwrap();
    assert_eq!(
        why_lines(&c, "@chastelock/recursion-a"),
        "@chastelock/testcase -Dependency-> @chastelock/recursion-a\n"
    );
    assert_eq!(
        why_lines(&c, "@chastelock/recursion-b"),
        "@chastelock/testcase -Dependency-> @chastelock/recursion-a -Dependency-> @chastelock/recursion-b\n"
    );
}

#[test]
fn yarn_v1_infinite_recursion() {
    let contents = "# THIS IS AN AUTOGENERATED FILE. DO NOT EDIT THIS FILE DIRECTLY.\n# yarn lockfile v1\n\n\n\
\"@chastelock/recursion-a@^1.0.0\":\n  version \"1.0.0\"\n  resolved \"https://registry.yarnpkg.com/@chastelock/recursion-a/-/recursion-a-1.0.0.tgz\"\n  dependencies:\n    \"@chastelock/recursion-b\" \"^1.0.0\"\n\n\
\"@chastelock/recursion-b@^1.0.0\":\n  version \"1.0.0\"\n  resolved \"https://registry.yarnpkg.com/@chastelock/recursion-b/-/recursion-b-1.0.0.tgz\"\n  dependencies:\n    \"@chastelock/recursion-a\" \"^1.0.0\"\n";
    let root = PackageJson {
        name: Some("@chastelock/testcase".to_string()),
        version: Some("1.0.0".to_string()),
        dependencies: vec![("@chastelock/recursion-a".to_string(), "^1.0.0".to_string())],
        dev_dependencies: Vec::new(),
        peer_dependencies: Vec::new(),
        optional_dependencies: Vec::new(),
    };
    let c = match read_lockfile(contents).unwrap() {
        YarnLock::Classic(lock) => resolve(&lock, &root, &Vec::new()).unwrap(),
        YarnLock::Berry(_) => panic!("expected a classic lockfile"),
    };
    assert_eq!(
        why_lines(&c, "@chastelock/recursion-a"),
        "@chastelock/testcase -Dependency-> @chastelock/recursion-a\n"
    );
    assert_eq!(
        why_lines(&c, "@chastelock/recursion-b"),
        "@chastelock/testcase -Dependency-> @chastelock/recursion-a -Dependency-> @chastelock/recursion-b\n"
    );
}

#[test]
fn integrity_concat_sorts_and_dedups() {
    let a = parse_integrity("sha1-2jmj7l5rSw0yVb/vlWAYkK/YBwk= sha512-AP8=").unwrap();
    let b = parse_integrity("sha1-2jmj7l5rSw0yVb/vlWAYkK/YBwk=").unwrap();
    let c = integrity_concat(&a, &b);
    assert_eq!(c.hashes.len(), 2);
    assert_eq!(c.hashes[0].algorithm, HashAlgorithm::Sha512);
    assert_eq!(c.hashes[1].algorithm, HashAlgorithm::Sha1);
}
