use chaste::checksums::{Checksums, HashAlgorithm};
use chaste::chastefile::Chastefile;
use chaste::dependency::DependencyKind;
use chaste::derivation::PackageDerivation;
use chaste::source::PackageSourceType;
use chaste::yarn::workspace_globs::workspace_dirs;
use chaste::yarn::zpm_resolve::{is_known_version, patches_apply, resolve, try_resolve};
use chaste::yarn::zpm_types::{JsonEntry, Lockfile, Metadata, PackageJson, Resolution};
use chaste::yarn::Error;

fn pairs(v: &[(&str, &str)]) -> Vec<(String, String)> {
    v.iter().map(|(a, b)| (a.to_string(), b.to_string())).collect()
}

fn package_json(name: Option<&str>, dependencies: &[(&str, &str)]) -> PackageJson {
    PackageJson {
        name: name.map(|s| s.to_string()),
        version: Some("1.0.0".to_string()),
        dependencies: pairs(dependencies),
        dev_dependencies: Vec::new(),
        optional_dependencies: Vec::new(),
        peer_dependencies: Vec::new(),
        resolutions: Vec::new(),
    }
}

fn entry(key: &str, resolution: &str, version: &str, checksum: Option<&str>) -> (String, JsonEntry) {
    (
        key.to_string(),
        JsonEntry {
            checksum: checksum.map(|s| s.to_string()),
            resolution: Resolution {
                resolution: resolution.to_string(),
                version: version.to_string(),
                dependencies: Vec::new(),
                peer_dependencies: Vec::new(),
                optional_dependencies: Vec::new(),
                optional_peer_dependencies: Vec::new(),
            },
        },
    )
}

fn lockfile(version: u8, entries: Vec<(String, JsonEntry)>) -> Lockfile {
    Lockfile { metadata: Metadata { version }, entries }
}

fn name_of(c: &Chastefile<chaste::yarn::Meta>, pid: chaste::package::PackageID) -> String {
    c.package(pid).name().unwrap().as_str().to_string()
}

#[test]
fn zpm_basic() {
    let lock = lockfile(9, vec![entry("left-pad@npm:^1.0.0", "left-pad@npm:1.3.0", "1.3.0", Some("00ff"))]);
    let root = package_json(Some("zpm-root"), &[("left-pad", "npm:^1.0.0")]);
    let c = resolve(&lock, &root, &Vec::new()).unwrap();
    assert_eq!(c.meta().lockfile_version, 9);
    assert_eq!(c.packages().len(), 2);
    assert_eq!(c.root_package().name().unwrap().as_str(), "zpm-root");
    let deps = c.root_package_dependencies();
    assert_eq!(deps.len(), 1);
    assert_eq!(deps[0].kind(), DependencyKind::Dependency);
    assert_eq!(deps[0].svs().unwrap().as_str(), "npm:^1.0.0");
    let pad = c.package(deps[0].on());
    assert_eq!(pad.name().unwrap().as_str(), "left-pad");
    assert_eq!(pad.version().unwrap().to_string(), "1.3.0");
    assert_eq!(pad.source_type(), Some(PackageSourceType::Npm));
    match pad.checksums().unwrap() {
        Checksums::RepackZip(i) => {
            assert_eq!(i.hashes.len(), 1);
            assert_eq!(i.hashes[0].algorithm, HashAlgorithm::Sha512);
            assert_eq!(i.hashes[0].digest, "AP8=");
        }
        _ => panic!("expected a repacked checksum"),
    }
}

#[test]
fn zpm_unknown_version() {
    let lock = lockfile(8, Vec::new());
    let root = package_json(None, &[]);
    assert_eq!(resolve(&lock, &root, &Vec::new()).unwrap_err(), Error::UnknownLockfileVersion(8));
}

#[test]
fn zpm_workspace_member() {
    let lock = lockfile(
        9,
        vec![entry("member-a@workspace:packages/a", "member-a@workspace:packages/a", "0.0.0-use.local", None)],
    );
    let root = package_json(Some("zpm-root"), &[("member-a", "workspace:packages/a")]);
    let members = vec![("packages/a".to_string(), package_json(Some("member-a"), &[]))];
    let c = resolve(&lock, &root, &members).unwrap();
    assert_eq!(c.packages().len(), 2);
    assert_eq!(c.workspace_member_ids().len(), 1);
    let member = c.workspace_member_ids()[0];
    assert_eq!(c.package_installations(member)[0].path().as_str(), "packages/a");
    let deps = c.root_package_dependencies();
    assert_eq!(deps.len(), 1);
    assert_eq!(deps[0].on(), member);
}

#[test]
fn zpm_unrecognized_workspace() {
    let lock = lockfile(9, vec![entry("member-b@workspace:packages/b", "member-b@workspace:packages/b", "0.0.0", None)]);
    let root = package_json(Some("zpm-root"), &[]);
    assert_eq!(
        resolve(&lock, &root, &Vec::new()).unwrap_err(),
        Error::UnrecognizedWorkspaceMember("packages/b".to_string())
    );
}

#[test]
fn zpm_duplicate_specifiers() {
    let lock = lockfile(
        9,
        vec![
            entry("a@npm:^1.0.0", "a@npm:1.0.0", "1.0.0", None),
            entry("a@npm:1.0.0, a@npm:^1.0.0", "a@npm:1.0.0", "1.0.0", None),
        ],
    );
    let root = package_json(None, &[]);
    assert_eq!(
        resolve(&lock, &root, &Vec::new()).unwrap_err(),
        Error::DuplicateSpecifiers("a@npm:^1.0.0".to_string())
    );
}

#[test]
fn zpm_invalid_entry_key() {
    let lock = lockfile(9, vec![entry("no-range", "no-range@npm:1.0.0", "1.0.0", None)]);
    let root = package_json(None, &[]);
    assert_eq!(resolve(&lock, &root, &Vec::new()).unwrap_err(), Error::InvalidEntryKey("no-range".to_string()));
}

#[test]
fn zpm_missing_and_optional_dependencies() {
    let mut e = entry("a@npm:1.0.0", "a@npm:1.0.0", "1.0.0", None);
    e.1.resolution.dependencies = pairs(&[("fsevents", "npm:^2.0.0")]);
    e.1.resolution.optional_dependencies = vec!["fsevents".to_string()];
    let lock = lockfile(9, vec![e]);
    let root = package_json(None, &[("a", "npm:1.0.0")]);
    let c = resolve(&lock, &root, &Vec::new()).unwrap();
    assert_eq!(c.packages().len(), 2);
    assert_eq!(c.package_dependencies(c.root_package_dependencies()[0].on()).len(), 0);
    let root = package_json(None, &[("left-pad", "npm:^1.0.0")]);
    assert_eq!(
        resolve(&lock, &root, &Vec::new()).unwrap_err(),
        Error::DependencyNotFound("left-pad@npm:^1.0.0".to_string())
    );
}

#[test]
fn zpm_peer_dependency() {
    let mut dom = entry("react-dom@npm:18.2.0", "react-dom@npm:18.2.0", "18.2.0", None);
    dom.1.resolution.peer_dependencies = pairs(&[("react", "npm:^18.2.0")]);
    let lock = lockfile(9, vec![entry("react@npm:18.2.0", "react@npm:18.2.0", "18.2.0", None), dom]);
    let root = package_json(None, &[("react", "npm:18.2.0"), ("react-dom", "npm:18.2.0")]);
    let c = resolve(&lock, &root, &Vec::new()).unwrap();
    let dom_pid = c
        .root_package_dependencies()
        .into_iter()
        .find(|d| name_of(&c, d.on()) == "react-dom")
        .unwrap()
        .on();
    let deps = c.package_dependencies(dom_pid);
    assert_eq!(deps.len(), 1);
    assert_eq!(deps[0].kind(), DependencyKind::PeerDependency);
    assert_eq!(name_of(&c, deps[0].on()), "react");
}

#[test]
fn zpm_patch_override() {
    let lock = lockfile(9, vec![entry("lodash@npm:4.17.21", "lodash@npm:4.17.21", "4.17.21", None)]);
    let mut root = package_json(None, &[]);
    root.resolutions = pairs(&[("lodash", "patch:lodash@npm%3A4.17.21#./patches/lodash.patch")]);
    assert!(patches_apply(&lock, &root, &Vec::new()));
    let c = resolve(&lock, &root, &Vec::new()).unwrap();
    assert_eq!(c.packages().len(), 3);
    let patched = c.packages()[2];
    assert!(patched.is_derived());
    assert_eq!(name_of(&c, patched.derived_from().unwrap()), "lodash");
    match patched.derivation().unwrap() {
        PackageDerivation::Patch(p) => assert_eq!(p.path(), "./patches/lodash.patch"),
        _ => panic!("expected a patch"),
    }
}

#[test]
fn zpm_patch_of_nothing() {
    let lock = lockfile(9, vec![entry("lodash@npm:4.17.21", "lodash@npm:4.17.21", "4.17.21", None)]);
    let mut root = package_json(None, &[]);
    root.resolutions = pairs(&[("left-pad", "patch:left-pad@npm%3A1.0.0#./patches/left-pad.patch")]);
    assert!(!patches_apply(&lock, &root, &Vec::new()));
    assert!(try_resolve(&lock, &root, &Vec::new()).is_none());
}

#[test]
fn zpm_workspace_globs() {
    let dirs: Vec<String> = ["", "packages/a", "other/b", "packages/b"].iter().map(|s| s.to_string()).collect();
    assert_eq!(
        workspace_dirs(&vec!["packages/*".to_string()], &dirs).unwrap(),
        vec!["packages/a".to_string(), "packages/b".to_string()]
    );
    assert_eq!(
        workspace_dirs(&vec!["packages/*".to_string(), "!packages/b".to_string()], &dirs).unwrap(),
        vec!["packages/a".to_string()]
    );
    assert!(matches!(workspace_dirs(&vec!["[".to_string()], &dirs), Err(Error::GlobreeksError(_))));
}

#[test]
fn zpm_known_version_only_nine() {
    assert!(is_known_version(&lockfile(9, Vec::new())));
    assert!(!is_known_version(&lockfile(8, Vec::new())));
}

#[test]
fn workspace_globs_last_pattern_decides() {
    let ws = vec!["packages/*".to_string(), "!packages/b*".to_string(), "packages/b1".to_string()];
    let dirs = vec!["packages/a".to_string(), "packages/b2".to_string(), "packages/b1".to_string(), "docs".to_string()];
    let selected = workspace_dirs(&ws, &dirs).unwrap();
    assert_eq!(selected, vec!["packages/a".to_string(), "packages/b1".to_string()]);
}
