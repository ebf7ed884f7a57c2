use chaste::checksums::Checksums;
use chaste::dependency::DependencyKind;
use chaste::derivation::PackageDerivation;
use chaste::pnpm::resolve::{is_known_version, resolve};
use chaste::pnpm::{
    Error, Importer, ImporterDependency, PackageEntry, PackageJson, PackageResolution, PatchedDependency,
    PnpmLockfile, Snapshot,
};
use chaste::source::PackageSourceType;

const HASH: &str = "0123456789abcdef0123456789abcdef0123456789abcdef0123456789abcdef";

fn pairs(v: &[(&str, &str)]) -> Vec<(String, String)> {
    v.iter().map(|(a, b)| (a.to_string(), b.to_string())).collect()
}

fn deps(v: &[(&str, &str, &str)]) -> Vec<(String, ImporterDependency)> {
    v.iter()
        .map(|(n, s, ver)| {
            (
                n.to_string(),
                ImporterDependency { specifier: s.to_string(), version: ver.to_string() },
            )
        })
        .collect()
}

fn importer(path: &str, dependencies: &[(&str, &str, &str)]) -> (String, Importer) {
    (
        path.to_string(),
        Importer {
            dependencies: deps(dependencies),
            dev_dependencies: Vec::new(),
            peer_dependencies: Vec::new(),
            optional_dependencies: Vec::new(),
        },
    )
}

fn package(key: &str, integrity: Option<&str>, version: Option<&str>, peers: &[(&str, &str)]) -> (String, PackageEntry) {
    (
        key.to_string(),
        PackageEntry {
            resolution: PackageResolution { integrity: integrity.map(|s| s.to_string()), tarball: None },
            version: version.map(|s| s.to_string()),
            peer_dependencies: pairs(peers),
        },
    )
}

fn snapshot(key: &str, dependencies: &[(&str, &str)]) -> (String, Snapshot) {
    (
        key.to_string(),
        Snapshot { dependencies: pairs(dependencies), optional_dependencies: Vec::new() },
    )
}

fn lockfile(
    importers: Vec<(String, Importer)>,
    packages: Vec<(String, PackageEntry)>,
    snapshots: Vec<(String, Snapshot)>,
) -> PnpmLockfile {
    PnpmLockfile {
        lockfile_version: "9.0".to_string(),
        importers,
        packages,
        snapshots,
        patched_dependencies: Vec::new(),
    }
}

fn manifest(path: &str, name: &str) -> (String, PackageJson) {
    (
        path.to_string(),
        PackageJson { name: Some(name.to_string()), version: Some("1.0.0".to_string()) },
    )
}

#[test]
fn pnpm_basic() {
    let lock = lockfile(
        vec![importer(".", &[("left-pad", "^1.0.0", "1.3.0")])],
        vec![package("left-pad@1.3.0", Some("sha512-AP8="), None, &[])],
        vec![snapshot("left-pad@1.3.0", &[])],
    );
    let c = resolve(&lock, &vec![manifest(".", "pnpm-root")]).unwrap();
    assert_eq!(c.meta().lockfile_version, "9.0");
    assert_eq!(c.packages().len(), 2);
    assert_eq!(c.root_package().name().unwrap().as_str(), "pnpm-root");
    assert_eq!(c.root_package().version().unwrap().to_string(), "1.0.0");
    let root_deps = c.root_package_dependencies();
    assert_eq!(root_deps.len(), 1);
    assert_eq!(root_deps[0].kind(), DependencyKind::Dependency);
    assert_eq!(root_deps[0].svs().unwrap().as_str(), "^1.0.0");
    let pad = c.package(root_deps[0].on());
    assert_eq!(pad.name().unwrap().as_str(), "left-pad");
    assert_eq!(pad.version().unwrap().to_string(), "1.3.0");
    assert_eq!(pad.source_type(), Some(PackageSourceType::Npm));
    match pad.checksums().unwrap() {
        Checksums::Tarball(i) => assert_eq!(i.hashes.len(), 1),
        _ => panic!("expected a tarball checksum"),
    }
    let inst = c.package_installations(c.root_package_id());
    assert_eq!(inst.len(), 1);
    assert_eq!(inst[0].path().as_str(), "");
}

#[test]
fn pnpm_unknown_version() {
    let mut lock = lockfile(Vec::new(), Vec::new(), Vec::new());
    lock.lockfile_version = "6.0".to_string();
    assert!(!is_known_version(&lock));
    match resolve(&lock, &Vec::new()) {
        Err(Error::UnknownLockfileVersion(v)) => assert_eq!(v, "6.0"),
        _ => panic!("expected an unknown version"),
    }
}

#[test]
fn pnpm_known_version() {
    let lock = lockfile(Vec::new(), Vec::new(), Vec::new());
    assert!(is_known_version(&lock));
}

#[test]
fn pnpm_missing_root() {
    let lock = lockfile(Vec::new(), Vec::new(), Vec::new());
    assert!(matches!(
        resolve(&lock, &Vec::new()),
        Err(Error::ChasteError(chaste::error::Error::MissingRootPackageID))
    ));
}

#[test]
fn pnpm_manifest_not_found() {
    let lock = lockfile(vec![importer(".", &[])], Vec::new(), Vec::new());
    match resolve(&lock, &Vec::new()) {
        Err(Error::ManifestNotFound(p)) => assert_eq!(p, "."),
        _ => panic!("expected a missing package.json"),
    }
}

#[test]
fn pnpm_workspace_member() {
    let lock = lockfile(vec![importer(".", &[]), importer("packages/a", &[])], Vec::new(), Vec::new());
    let c = resolve(&lock, &vec![manifest(".", "root"), manifest("packages/a", "member-a")]).unwrap();
    let members = c.workspace_member_ids();
    assert_eq!(members.len(), 1);
    assert_eq!(c.package(members[0]).name().unwrap().as_str(), "member-a");
    assert_eq!(c.package_installations(members[0])[0].path().as_str(), "packages/a");
}

#[test]
fn pnpm_peer_snapshot() {
    let lock = lockfile(
        vec![importer(".", &[("react-dom", "^18.0.0", "18.0.0(react@18.0.0)"), ("react", "^18.0.0", "18.0.0")])],
        vec![
            package("react-dom@18.0.0", None, None, &[("react", "^18.0.0")]),
            package("react@18.0.0", None, None, &[]),
        ],
        vec![snapshot("react-dom@18.0.0(react@18.0.0)", &[("react", "18.0.0")]), snapshot("react@18.0.0", &[])],
    );
    let c = resolve(&lock, &vec![manifest(".", "root")]).unwrap();
    assert_eq!(c.packages().len(), 3);
    let root_deps = c.root_package_dependencies();
    assert_eq!(root_deps.len(), 2);
    let dom = root_deps[0].on();
    assert_eq!(c.package(dom).name().unwrap().as_str(), "react-dom");
    let dom_deps = c.package_dependencies(dom);
    assert_eq!(dom_deps.len(), 1);
    assert_eq!(dom_deps[0].kind(), DependencyKind::PeerDependency);
    assert_eq!(dom_deps[0].svs().unwrap().as_str(), "^18.0.0");
    assert_eq!(dom_deps[0].on(), root_deps[1].on());
}

#[test]
fn pnpm_alias() {
    let lock = lockfile(
        vec![importer(".", &[("my-pad", "npm:left-pad@^1.0.0", "left-pad@1.3.0")])],
        vec![package("left-pad@1.3.0", None, None, &[])],
        vec![snapshot("left-pad@1.3.0", &[])],
    );
    let c = resolve(&lock, &vec![manifest(".", "root")]).unwrap();
    let root_deps = c.root_package_dependencies();
    assert_eq!(root_deps.len(), 1);
    assert_eq!(root_deps[0].alias_name().unwrap().as_str(), "my-pad");
    assert_eq!(c.package(root_deps[0].on()).name().unwrap().as_str(), "left-pad");
}

#[test]
fn pnpm_link_is_skipped() {
    let lock = lockfile(vec![importer(".", &[("local", "link:../local", "link:../local")])], Vec::new(), Vec::new());
    let c = resolve(&lock, &vec![manifest(".", "root")]).unwrap();
    assert_eq!(c.root_package_dependencies().len(), 0);
}

#[test]
fn pnpm_dependency_not_found() {
    let lock = lockfile(vec![importer(".", &[("nope", "^1.0.0", "1.0.0")])], Vec::new(), Vec::new());
    match resolve(&lock, &vec![manifest(".", "root")]) {
        Err(Error::DependencyPackageNotFound(s)) => assert_eq!(s, "nope@1.0.0"),
        _ => panic!("expected a missing dependency"),
    }
}

#[test]
fn pnpm_invalid_package_descriptor() {
    let lock = lockfile(vec![importer(".", &[])], vec![package("left-pad", None, None, &[])], Vec::new());
    match resolve(&lock, &vec![manifest(".", "root")]) {
        Err(Error::InvalidPackageDescriptor(s)) => assert_eq!(s, "left-pad"),
        _ => panic!("expected an invalid descriptor"),
    }
}

#[test]
fn pnpm_unmatched_snapshot() {
    let lock = lockfile(
        vec![importer(".", &[])],
        vec![package("left-pad@1.3.0", None, None, &[])],
        vec![snapshot("left-pad@2.0.0", &[])],
    );
    match resolve(&lock, &vec![manifest(".", "root")]) {
        Err(Error::InvalidSnapshotDescriptor(s)) => assert_eq!(s, "left-pad@2.0.0"),
        _ => panic!("expected an unmatched snapshot"),
    }
}

#[test]
fn pnpm_git_source() {
    let lock = lockfile(
        vec![importer(".", &[])],
        vec![package("foo@git+https://example.com/foo.git#abc", None, Some("1.2.0"), &[])],
        Vec::new(),
    );
    let c = resolve(&lock, &vec![manifest(".", "root")]).unwrap();
    let foo = c.packages()[1];
    assert_eq!(foo.source_type(), Some(PackageSourceType::Git));
    assert_eq!(foo.version().unwrap().to_string(), "1.2.0");
    assert!(foo.checksums().is_none());
}

#[test]
fn pnpm_patched_package() {
    let snap_key = format!("left-pad@1.3.0(patch_hash={HASH})");
    let version = format!("1.3.0(patch_hash={HASH})");
    let mut lock = lockfile(
        vec![importer(".", &[("left-pad", "^1.0.0", &version)])],
        vec![package("left-pad@1.3.0", None, None, &[])],
        vec![snapshot(&snap_key, &[])],
    );
    lock.patched_dependencies = vec![(
        "left-pad".to_string(),
        PatchedDependency { path: "patches/left-pad.patch".to_string(), hash: HASH.to_string() },
    )];
    let c = resolve(&lock, &vec![manifest(".", "root")]).unwrap();
    assert_eq!(c.packages().len(), 3);
    let root_deps = c.root_package_dependencies();
    assert_eq!(root_deps.len(), 1);
    let patched = c.package(root_deps[0].on());
    assert_eq!(patched.name().unwrap().as_str(), "left-pad");
    assert_eq!(patched.derived_from(), Some(c.packages_with_ids()[1].0));
    match patched.derivation().unwrap() {
        PackageDerivation::Patch(p) => {
            assert_eq!(p.path(), "patches/left-pad.patch");
            assert_eq!(p.integrity().unwrap().hashes.len(), 1);
        },
        _ => panic!("expected a patch"),
    }
}

#[test]
fn pnpm_patch_hash_unknown() {
    let snap_key = format!("left-pad@1.3.0(patch_hash={HASH})");
    let lock = lockfile(
        vec![importer(".", &[])],
        vec![package("left-pad@1.3.0", None, None, &[])],
        vec![snapshot(&snap_key, &[])],
    );
    match resolve(&lock, &vec![manifest(".", "root")]) {
        Err(Error::InvalidPatchHash(h)) => assert_eq!(h, HASH),
        _ => panic!("expected an unknown patch hash"),
    }
}

#[test]
fn pnpm_patch_hash_wrong_length() {
    let mut lock = lockfile(vec![importer(".", &[])], Vec::new(), Vec::new());
    lock.patched_dependencies = vec![(
        "left-pad".to_string(),
        PatchedDependency { path: "p.patch".to_string(), hash: "abc".to_string() },
    )];
    match resolve(&lock, &vec![manifest(".", "root")]) {
        Err(Error::InvalidPatchHash(h)) => assert_eq!(h, "abc"),
        _ => panic!("expected a bad patch hash"),
    }
}

#[test]
fn pnpm_patched_specifier_invalid() {
    let mut lock = lockfile(vec![importer(".", &[])], Vec::new(), Vec::new());
    lock.patched_dependencies = vec![(
        "left-pad#1".to_string(),
        PatchedDependency { path: "p.patch".to_string(), hash: HASH.to_string() },
    )];
    match resolve(&lock, &vec![manifest(".", "root")]) {
        Err(Error::InvalidPatchedPackageSpecifier(k)) => assert_eq!(k, "left-pad#1"),
        _ => panic!("expected a bad patched specifier"),
    }
}

#[test]
fn pnpm_optional_peer_of_snapshot() {
    let lock = lockfile(
        vec![importer(".", &[("plugin", "^1.0.0", "1.0.0(host@2.0.0)")])],
        vec![package("host@2.0.0", None, None, &[]), package("plugin@1.0.0", None, None, &[("host", "^2.0.0")])],
        vec![
            snapshot("host@2.0.0", &[]),
            (
                "plugin@1.0.0(host@2.0.0)".to_string(),
                Snapshot { dependencies: Vec::new(), optional_dependencies: pairs(&[("host", "2.0.0")]) },
            ),
        ],
    );
    let c = resolve(&lock, &vec![manifest(".", "root")]).unwrap();
    let plugin = c.root_package_dependencies()[0].on();
    let d = c.package_dependencies(plugin);
    assert_eq!(d.len(), 1);
    assert_eq!(d[0].kind(), DependencyKind::OptionalPeerDependency);
    assert_eq!(d[0].svs().unwrap().as_str(), "^2.0.0");
}

fn entry_full(key: &str, integrity: Option<&str>, tarball: Option<&str>, version: Option<&str>, peers: &[(&str, &str)]) -> (String, PackageEntry) {
    (
        key.to_string(),
        PackageEntry {
            resolution: PackageResolution {
                integrity: integrity.map(|s| s.to_string()),
                tarball: tarball.map(|s| s.to_string()),
            },
            version: version.map(|s| s.to_string()),
            peer_dependencies: pairs(peers),
        },
    )
}

fn manifest_v(path: &str, name: &str, version: &str) -> (String, PackageJson) {
    (
        path.to_string(),
        PackageJson { name: Some(name.to_string()), version: Some(version.to_string()) },
    )
}

fn dev_importer(path: &str, dev: &[(&str, &str, &str)]) -> (String, Importer) {
    (
        path.to_string(),
        Importer {
            dependencies: Vec::new(),
            dev_dependencies: deps(dev),
            peer_dependencies: Vec::new(),
            optional_dependencies: Vec::new(),
        },
    )
}

const SHA: &str = "sha512-AP8=";

#[test]
fn v9_basic() {
    let names = ["a", "b", "c", "d", "e", "f", "g", "h"];
    let mut packages = Vec::new();
    let mut snapshots = Vec::new();
    for (i, n) in names.iter().enumerate() {
        packages.push(package(&format!("{n}@1.0.0"), Some(SHA), None, &[]));
        let next: Vec<(&str, &str)> = if i + 1 < names.len() { vec![(names[i + 1], "1.0.0")] } else { Vec::new() };
        snapshots.push(snapshot(&format!("{n}@1.0.0"), &next));
    }
    let lock = lockfile(vec![importer(".", &[("a", "^1.0.0", "1.0.0")])], packages, snapshots);
    let c = resolve(&lock, &vec![manifest_v(".", "@chastelock/test__v9_basic", "0.0.0")]).unwrap();
    let root = c.root_package();
    assert_eq!(root.name().unwrap().as_str(), "@chastelock/test__v9_basic");
    assert_eq!(root.version().unwrap().to_string(), "0.0.0");
    assert_eq!(c.packages().len(), 9);
    assert_eq!(c.recursive_package_dependencies(c.root_package_id()).len(), 8);
}

#[test]
fn v9_git_ssh() {
    let url = "git+ssh://git@github.com/selfisekai/gulp-sass.git#0123456789abcdef0123456789abcdef01234567";
    let lock = lockfile(
        vec![importer(".", &[("@selfisekai/gulp-sass", url, url)])],
        vec![entry_full(&format!("@selfisekai/gulp-sass@{url}"), None, None, Some("5.1.0"), &[])],
        vec![snapshot(&format!("@selfisekai/gulp-sass@{url}"), &[])],
    );
    let c = resolve(&lock, &vec![manifest(".", "root")]).unwrap();
    let root_deps = c.root_package_dependencies();
    assert_eq!(root_deps.len(), 1);
    let dep = root_deps[0];
    let svs = dep.svs().unwrap();
    assert!(svs.is_git());
    assert_eq!(svs.ssh_path_sep(), Some("/"));
    let pkg = c.package(dep.on());
    assert_eq!(pkg.name().unwrap().as_str(), "@selfisekai/gulp-sass");
    assert_eq!(pkg.source_type(), Some(PackageSourceType::Git));
}

#[test]
fn v9_git_url() {
    let url = "git+https://codeberg.org/keyoxide/doipjs.git#0123456789abcdef0123456789abcdef01234567";
    let lock = lockfile(
        vec![dev_importer(".", &[("doipjs", url, url)])],
        vec![entry_full(&format!("doipjs@{url}"), None, None, Some("1.2.9"), &[])],
        vec![snapshot(&format!("doipjs@{url}"), &[])],
    );
    let c = resolve(&lock, &vec![manifest(".", "root")]).unwrap();
    let root_dev_deps: Vec<_> = c.root_package_dependencies().into_iter().filter(|d| d.kind().is_dev()).collect();
    assert_eq!(root_dev_deps.len(), 1);
    let doipjs = c.package(root_dev_deps[0].on());
    assert_eq!(doipjs.name().unwrap().as_str(), "doipjs");
    assert_eq!(doipjs.source_type(), Some(PackageSourceType::Git));
    assert!(doipjs.checksums().is_none());
}

#[test]
fn v9_github_ref() {
    let url = "https://codeload.github.com/isaacs/minimatch/tar.gz/0123456789abcdef0123456789abcdef01234567";
    let lock = lockfile(
        vec![dev_importer(".", &[("minimatch", "github:isaacs/minimatch#v10.0.1", url)])],
        vec![entry_full(&format!("minimatch@{url}"), None, Some(url), Some("10.0.1"), &[])],
        vec![snapshot(&format!("minimatch@{url}"), &[])],
    );
    let c = resolve(&lock, &vec![manifest(".", "root")]).unwrap();
    let root_dev_deps: Vec<_> = c.root_package_dependencies().into_iter().filter(|d| d.kind().is_dev()).collect();
    let minimatch = c.package(root_dev_deps[0].on());
    assert_eq!(minimatch.name().unwrap().as_str(), "minimatch");
    assert_eq!(minimatch.source_type(), Some(PackageSourceType::TarballURL));
    assert!(minimatch.checksums().is_none());
}

#[test]
fn v9_hoist_partial() {
    let lock = lockfile(
        vec![importer(".", &[("chalk", "^5.4.1", "5.4.1"), ("old-tool", "^1.0.0", "1.0.0")])],
        vec![
            package("chalk@2.4.2", Some(SHA), None, &[]),
            package("chalk@5.4.1", Some(SHA), None, &[]),
            package("old-tool@1.0.0", Some(SHA), None, &[]),
        ],
        vec![
            snapshot("chalk@2.4.2", &[]),
            snapshot("chalk@5.4.1", &[]),
            snapshot("old-tool@1.0.0", &[("chalk", "2.4.2")]),
        ],
    );
    let c = resolve(&lock, &vec![manifest(".", "root")]).unwrap();
    let mut chalks: Vec<String> = c
        .packages()
        .into_iter()
        .filter(|p| p.name().is_some_and(|n| n.as_str() == "chalk"))
        .map(|p| p.version().unwrap().to_string())
        .collect();
    chalks.sort();
    assert_eq!(chalks, vec!["2.4.2".to_string(), "5.4.1".to_string()]);
}

#[test]
fn v9_npm_aliased() {
    let lock = lockfile(
        vec![importer(".", &[("pakig", "npm:nop@^1.0.0", "nop@1.0.0")])],
        vec![package("nop@1.0.0", Some(SHA), None, &[])],
        vec![snapshot("nop@1.0.0", &[])],
    );
    let c = resolve(&lock, &vec![manifest(".", "root")]).unwrap();
    let root_deps = c.root_package_dependencies();
    assert_eq!(root_deps.len(), 1);
    let pakig_dep = root_deps[0];
    assert_eq!(pakig_dep.alias_name().unwrap().as_str(), "pakig");
    assert_eq!(pakig_dep.svs().unwrap().aliased_package_name().unwrap().as_str(), "nop");
    let pakig = c.package(pakig_dep.on());
    assert_eq!(pakig.name().unwrap().as_str(), "nop");
    assert_eq!(pakig.version().unwrap().to_string(), "1.0.0");
    assert_eq!(pakig.checksums().unwrap().integrity().hashes.len(), 1);
    assert_eq!(pakig.source_type(), Some(PackageSourceType::Npm));
}

#[test]
fn v9_npm_tag() {
    let lock = lockfile(
        vec![importer(".", &[("nop", "latest", "1.0.0")])],
        vec![package("nop@1.0.0", Some(SHA), None, &[])],
        vec![snapshot("nop@1.0.0", &[])],
    );
    let c = resolve(&lock, &vec![manifest(".", "root")]).unwrap();
    let root_deps = c.root_package_dependencies();
    assert_eq!(root_deps.len(), 1);
    let nop = c.package(root_deps[0].on());
    assert_eq!(nop.name().unwrap().as_str(), "nop");
    assert!(root_deps[0].svs().unwrap().is_npm_tag());
}

#[test]
fn v9_overrides() {
    let scwm_url = "https://registry.example.com/side-channel-weakmap/-/side-channel-weakmap-1.0.1.tgz";
    let lock = lockfile(
        vec![importer(
            ".",
            &[("ms", "2.1.3", "2.1.3"), ("path-to-regexp", "0.1.12", "0.1.12"), ("side-channel-weakmap", scwm_url, "1.0.1")],
        )],
        vec![
            package("ms@2.1.3", Some(SHA), None, &[]),
            package("path-to-regexp@0.1.12", Some(SHA), None, &[]),
            entry_full("side-channel-weakmap@1.0.1", None, Some(scwm_url), None, &[]),
        ],
        vec![snapshot("ms@2.1.3", &[]), snapshot("path-to-regexp@0.1.12", &[]), snapshot("side-channel-weakmap@1.0.1", &[])],
    );
    let c = resolve(&lock, &vec![manifest(".", "root")]).unwrap();
    let find = |name: &str| -> Vec<_> {
        c.packages_with_ids().into_iter().filter(|(_, p)| p.name().is_some_and(|n| n.as_str() == name)).collect()
    };
    let ms = find("ms");
    assert_eq!(ms.len(), 1);
    assert_eq!(ms[0].1.version().unwrap().to_string(), "2.1.3");
    assert_eq!(ms[0].1.source_type(), Some(PackageSourceType::Npm));
    let ptr = find("path-to-regexp");
    assert_eq!(ptr.len(), 1);
    assert_eq!(ptr[0].1.version().unwrap().to_string(), "0.1.12");
    assert_eq!(ptr[0].1.source_type(), Some(PackageSourceType::Npm));
    let scwm = find("side-channel-weakmap");
    assert_eq!(scwm.len(), 1);
    assert_eq!(scwm[0].1.version().unwrap().to_string(), "1.0.1");
    assert_eq!(scwm[0].1.source_type(), Some(PackageSourceType::TarballURL));
}

#[test]
fn v9_peer_circular() {
    let a = "@chastelock/circular-peers-a";
    let b = "@chastelock/circular-peers-b";
    let r = "@chastelock/recursion-a";
    let a_long = format!("{a}@1.0.0({b}@1.0.0({a}@1.0.0))({r}@1.0.0)");
    let a_version = format!("1.0.0({b}@1.0.0({a}@1.0.0))({r}@1.0.0)");
    let b_long = format!("{b}@1.0.0({a}@1.0.0)");
    let b_version = format!("1.0.0({a}@1.0.0)");
    let lock = lockfile(
        vec![importer(".", &[(a, "^1.0.0", &a_version)])],
        vec![
            package(&format!("{a}@1.0.0"), Some(SHA), None, &[(b, "^1.0.0"), (r, "^1.0.0")]),
            package(&format!("{b}@1.0.0"), Some(SHA), None, &[(a, "^1.0.0")]),
            package(&format!("{r}@1.0.0"), Some(SHA), None, &[]),
        ],
        vec![
            snapshot(&a_long, &[(b, &b_version), (r, "1.0.0")]),
            snapshot(&format!("{a}@1.0.0"), &[]),
            snapshot(&b_long, &[(a, "1.0.0")]),
            snapshot(&format!("{r}@1.0.0"), &[]),
        ],
    );
    let c = resolve(&lock, &vec![manifest(".", "root")]).unwrap();
    let root_deps = c.root_package_dependencies();
    assert_eq!(root_deps.len(), 1);
    let circ_a_pid = root_deps[0].on();
    assert_eq!(c.package(circ_a_pid).name().unwrap().as_str(), a);
    let mut circ_a_deps: Vec<_> = c
        .package_dependencies(circ_a_pid)
        .into_iter()
        .map(|d| (d.kind(), c.package(d.on()).name().unwrap().as_str().to_string()))
        .collect();
    circ_a_deps.sort_by(|x, y| x.1.cmp(&y.1));
    assert_eq!(circ_a_deps.len(), 2);
    assert_eq!(circ_a_deps[0], (DependencyKind::PeerDependency, b.to_string()));
    assert_eq!(circ_a_deps[1], (DependencyKind::PeerDependency, r.to_string()));
}

#[test]
fn v9_peer_deps() {
    let rr_key = "react-router@7.2.0(react-dom@19.0.0(react@19.0.0))(react@19.0.0)";
    let lock = lockfile(
        vec![importer(".", &[("react-router", "^7.2.0", "7.2.0(react-dom@19.0.0(react@19.0.0))(react@19.0.0)")])],
        vec![
            package("@types/cookie@0.6.0", Some(SHA), None, &[]),
            package("cookie@1.0.2", Some(SHA), None, &[]),
            package("react-dom@19.0.0", Some(SHA), None, &[("react", "^19.0.0")]),
            package("react-router@7.2.0", Some(SHA), None, &[("react", ">=18"), ("react-dom", ">=18")]),
            package("react@19.0.0", Some(SHA), None, &[]),
            package("scheduler@0.25.0", Some(SHA), None, &[]),
            package("set-cookie-parser@2.7.1", Some(SHA), None, &[]),
            package("turbo-stream@2.4.0", Some(SHA), None, &[]),
        ],
        vec![
            snapshot("@types/cookie@0.6.0", &[]),
            snapshot("cookie@1.0.2", &[]),
            snapshot("react-dom@19.0.0(react@19.0.0)", &[("react", "19.0.0"), ("scheduler", "0.25.0")]),
            snapshot(
                rr_key,
                &[
                    ("@types/cookie", "0.6.0"),
                    ("cookie", "1.0.2"),
                    ("react", "19.0.0"),
                    ("react-dom", "19.0.0(react@19.0.0)"),
                    ("set-cookie-parser", "2.7.1"),
                    ("turbo-stream", "2.4.0"),
                ],
            ),
            snapshot("react@19.0.0", &[]),
            snapshot("scheduler@0.25.0", &[]),
            snapshot("set-cookie-parser@2.7.1", &[]),
            snapshot("turbo-stream@2.4.0", &[]),
        ],
    );
    let c = resolve(&lock, &vec![manifest(".", "root")]).unwrap();
    let root_deps = c.root_package_dependencies();
    assert_eq!(root_deps.len(), 1);
    let rrouter = root_deps[0].on();
    assert_eq!(c.package(rrouter).name().unwrap().as_str(), "react-router");
    let rrouter_deps = c.package_dependencies(rrouter);
    assert_eq!(rrouter_deps.len(), 6);
    let rdom_dep = *rrouter_deps
        .iter()
        .find(|d| c.package(d.on()).name().is_some_and(|n| n.as_str() == "react-dom"))
        .unwrap();
    assert_eq!(rdom_dep.svs().unwrap().as_str(), ">=18");
    let rdom_deps = c.package_dependencies(rdom_dep.on());
    assert_eq!(rdom_deps.len(), 2);
    let react_dep = *rdom_deps.iter().find(|d| d.kind().is_peer()).unwrap();
    assert_eq!(react_dep.svs().unwrap().as_str(), "^19.0.0");
    assert_eq!(c.package(react_dep.on()).name().unwrap().as_str(), "react");
}

#[test]
fn v9_peer_unsatisfied() {
    let lock = lockfile(
        vec![importer(".", &[("@bazel/typescript", "^5.8.1", "5.8.1")])],
        vec![package(
            "@bazel/typescript@5.8.1",
            Some(SHA),
            None,
            &[("@bazel/bazelisk", "*"), ("@bazel/concatjs", "*"), ("typescript", ">=3.0.0")],
        )],
        vec![snapshot("@bazel/typescript@5.8.1", &[])],
    );
    let c = resolve(&lock, &vec![manifest(".", "root")]).unwrap();
    assert!(!c.packages().into_iter().any(|p| p.name().is_some_and(|n| {
        let n = n.as_str();
        n == "@bazel/bazelisk" || n == "@bazel/concatjs" || n == "typescript"
    })));
}

#[test]
fn v9_scope_registry() {
    let lock = lockfile(
        vec![importer(".", &[("@a/empty", "^0.0.1", "0.0.1")])],
        vec![entry_full(
            "@a/empty@0.0.1",
            Some(SHA),
            Some("https://registry.example.com/@a/empty/-/empty-0.0.1.tgz"),
            None,
            &[],
        )],
        vec![snapshot("@a/empty@0.0.1", &[])],
    );
    let c = resolve(&lock, &vec![manifest(".", "root")]).unwrap();
    let empty = c.package(c.root_package_dependencies()[0].on());
    assert_eq!(empty.name().unwrap().as_str(), "@a/empty");
    assert_eq!(empty.version().unwrap().to_string(), "0.0.1");
    assert_eq!(empty.checksums().unwrap().integrity().hashes.len(), 1);
    assert_eq!(empty.source_type(), Some(PackageSourceType::Npm));
}

#[test]
fn v9_special_chars_name() {
    let dep = "@a/verboden(name~'!*)";
    let lock = lockfile(
        vec![importer(".", &[(dep, "^0.0.1", "0.0.1")])],
        vec![package(&format!("{dep}@0.0.1"), Some(SHA), None, &[])],
        vec![snapshot(&format!("{dep}@0.0.1"), &[])],
    );
    let c = resolve(&lock, &vec![manifest(".", "verboden(root)(name~'!*)")]).unwrap();
    assert_eq!(c.root_package().name().unwrap().as_str(), "verboden(root)(name~'!*)");
    let root_deps = c.root_package_dependencies();
    assert_eq!(root_deps.len(), 1);
    let a_pkg = c.package(root_deps[0].on());
    assert_eq!(a_pkg.name().unwrap().as_str(), dep);
    assert_eq!(a_pkg.source_type(), Some(PackageSourceType::Npm));
}

#[test]
fn v9_tarball_url() {
    let url = "https://example.com/empty-0.0.1.tgz";
    let lock = lockfile(
        vec![importer(".", &[("@a/empty", url, url)])],
        vec![entry_full(&format!("@a/empty@{url}"), None, Some(url), Some("0.0.1"), &[])],
        vec![snapshot(&format!("@a/empty@{url}"), &[])],
    );
    let c = resolve(&lock, &vec![manifest(".", "root")]).unwrap();
    let empty = c.package(c.root_package_dependencies()[0].on());
    assert_eq!(empty.name().unwrap().as_str(), "@a/empty");
    assert_eq!(empty.version().unwrap().to_string(), "0.0.1");
    assert!(empty.checksums().is_none());
    assert_eq!(empty.source_type(), Some(PackageSourceType::TarballURL));
}

#[test]
fn v9_workspace_basic() {
    let lock = lockfile(
        vec![
            importer(".", &[]),
            importer("balls", &[("ligma-api", "workspace:*", "link:../ligma"), ("nop", "^1.0.0", "1.0.0")]),
            importer("ligma", &[]),
        ],
        vec![package("nop@1.0.0", Some(SHA), None, &[])],
        vec![snapshot("nop@1.0.0", &[])],
    );
    let c = resolve(
        &lock,
        &vec![manifest(".", "root"), manifest("balls", "@chastelock/balls"), manifest("ligma", "ligma-api")],
    )
    .unwrap();
    assert_eq!(c.packages().len(), 4);
    let find = |name: &str| -> Vec<_> {
        c.packages_with_ids().into_iter().filter(|(_, p)| p.name().is_some_and(|n| n.as_str() == name)).collect()
    };
    let balls = find("@chastelock/balls");
    assert_eq!(balls.len(), 1);
    let ligma = find("ligma-api");
    assert_eq!(ligma.len(), 1);
    let members = c.workspace_member_ids();
    assert_eq!(members.len(), 2);
    assert!(members.contains(&balls[0].0) && members.contains(&ligma[0].0));
    let paths: Vec<&str> = c.package_installations(balls[0].0).iter().map(|i| i.path().as_str()).collect();
    assert_eq!(paths, ["balls"]);
}
