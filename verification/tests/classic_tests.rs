use chaste::checksums::HashAlgorithm;
use chaste::chastefile::Chastefile;
use chaste::dependency::DependencyKind;
use chaste::source::PackageSourceType;
use chaste::yarn::classic_model::PackageJson;
use chaste::yarn::classic_resolve::resolve;
use chaste::yarn::parse::{read_lockfile, YarnLock};
use chaste::yarn::Error;

const HEADER: &str = "# THIS IS AN AUTOGENERATED FILE. DO NOT EDIT THIS FILE DIRECTLY.\n# yarn lockfile v1\n\n\n";

const BASIC: &str = "ansi-styles@^3.2.1:\n  version \"3.2.1\"\n  resolved \"https://registry.yarnpkg.com/ansi-styles/-/ansi-styles-3.2.1.tgz#41fbb20243e50b12be0f04b8dedbf07520ce841d\"\n  integrity sha512-VT0ZI6kZRdTh8YyJw3SMbYm/u+NqfsAxEpWO0Pf9sq8/e94WxxOpPKx9FR1FlyCtOVDNOQ+8ntlqFxiRc+r5qA==\n  dependencies:\n    color-convert \"^1.9.0\"\n\n\
color-convert@^1.9.0:\n  version \"1.9.3\"\n  resolved \"https://registry.yarnpkg.com/color-convert/-/color-convert-1.9.3.tgz\"\n  integrity sha512-QfAUtd+vFdAtFQcC8CCyYt1fYWxSqAiK2cSD6zDB8N3cpsEBAvRxp9zOGg6G/SHHJYAT88/az/IuDGALsNVbGg==\n  dependencies:\n    color-name \"1.1.3\"\n\n\
color-name@1.1.3:\n  version \"1.1.3\"\n  resolved \"https://registry.npmjs.org/color-name/-/color-name-1.1.3.tgz\"\n  integrity sha1-p9BVi9icQveV3UIyj3QIMcpTvCU=\n";

fn lockfile(body: &str) -> String {
    format!("{HEADER}{body}")
}

fn package_json(name: Option<&str>, version: Option<&str>, dependencies: &[(&str, &str)]) -> PackageJson {
    PackageJson {
        name: name.map(|s| s.to_string()),
        version: version.map(|s| s.to_string()),
        dependencies: dependencies.iter().map(|(a, b)| (a.to_string(), b.to_string())).collect(),
        dev_dependencies: Vec::new(),
        peer_dependencies: Vec::new(),
        optional_dependencies: Vec::new(),
    }
}

fn parse_classic(
    contents: &str,
    root: &PackageJson,
    members: &Vec<(String, PackageJson)>,
) -> Result<Chastefile<chaste::yarn::Meta>, Error> {
    match read_lockfile(contents)? {
        YarnLock::Classic(lock) => resolve(&lock, root, members),
        YarnLock::Berry(_) => panic!("expected a classic lockfile"),
    }
}

#[test]
fn classic_lockfile_is_version_one() {
    match read_lockfile(&lockfile(BASIC)).unwrap() {
        YarnLock::Classic(lock) => {
            assert_eq!(lock.version, 1);
            assert_eq!(lock.entries.len(), 3);
            assert_eq!(lock.entries[0].name, "ansi-styles");
            assert_eq!(
                lock.entries[0].descriptors,
                vec![("ansi-styles".to_string(), "^3.2.1".to_string())]
            );
        }
        YarnLock::Berry(_) => panic!("expected a classic lockfile"),
    }
}

#[test]
fn classic_basic() {
    let root = package_json(Some("classic-root"), Some("1.0.0"), &[("ansi-styles", "^3.2.1")]);
    let chastefile = parse_classic(&lockfile(BASIC), &root, &Vec::new()).unwrap();
    assert_eq!(chastefile.meta().lockfile_version, 1);
    assert_eq!(chastefile.packages().len(), 4);
    let root_package = chastefile.root_package();
    assert_eq!(root_package.name().unwrap().as_str(), "classic-root");
    assert_eq!(root_package.version().unwrap().to_string(), "1.0.0");
    let root_installations = chastefile.package_installations(chastefile.root_package_id());
    assert_eq!(root_installations.len(), 1);
    assert_eq!(root_installations[0].path().as_str(), "");
    let deps = chastefile.root_package_dependencies();
    assert_eq!(deps.len(), 1);
    assert_eq!(deps[0].kind(), DependencyKind::Dependency);
    assert_eq!(deps[0].svs().unwrap().as_str(), "^3.2.1");
    let rec = chastefile.recursive_package_dependencies(chastefile.root_package_id());
    assert_eq!(rec.len(), 3);
    assert!(rec
        .iter()
        .all(|d| chastefile.package(d.on()).source_type() == Some(PackageSourceType::Npm)));
}

#[test]
fn classic_registry_hash_joins_integrity() {
    let root = package_json(None, None, &[("ansi-styles", "^3.2.1")]);
    let chastefile = parse_classic(&lockfile(BASIC), &root, &Vec::new()).unwrap();
    let ansi = chastefile.package(chastefile.root_package_dependencies()[0].on());
    assert_eq!(ansi.name().unwrap().as_str(), "ansi-styles");
    let hashes = &ansi.checksums().unwrap().integrity().hashes;
    assert_eq!(hashes.len(), 2);
    assert_eq!(hashes[0].algorithm, HashAlgorithm::Sha512);
    assert_eq!(hashes[1].algorithm, HashAlgorithm::Sha1);
    assert_eq!(hashes[1].digest, "QfuyAkPlCxK+DwS43tvwdSDOhB0=");
    let color_convert = chastefile.package(chastefile.package_dependencies(chastefile.root_package_dependencies()[0].on())[0].on());
    assert_eq!(color_convert.name().unwrap().as_str(), "color-convert");
    assert_eq!(color_convert.checksums().unwrap().integrity().hashes.len(), 1);
}

#[test]
fn classic_git_source_has_no_hash() {
    let body = "\"minimatch@git+https://github.com/isaacs/minimatch.git#v10.0.1\":\n  version \"10.0.1\"\n  resolved \"git+https://github.com/isaacs/minimatch.git#0569cd3373408f9d701d3aab187b3f43a24a0db7\"\n";
    let root = package_json(None, None, &[("minimatch", "git+https://github.com/isaacs/minimatch.git#v10.0.1")]);
    let chastefile = parse_classic(&lockfile(body), &root, &Vec::new()).unwrap();
    let minimatch = chastefile.package(chastefile.root_package_dependencies()[0].on());
    assert_eq!(minimatch.name().unwrap().as_str(), "minimatch");
    assert_eq!(minimatch.version().unwrap().to_string(), "10.0.1");
    assert_eq!(minimatch.source_type(), Some(PackageSourceType::Git));
    assert!(minimatch.checksums().is_none());
}

#[test]
fn classic_tarball_url() {
    let body = "\"is-buffer@https://example.com/is-buffer-1.1.6.tgz\":\n  version \"1.1.6\"\n  resolved \"https://example.com/is-buffer-1.1.6.tgz#41fbb20243e50b12be0f04b8dedbf07520ce841d\"\n";
    let root = package_json(None, None, &[("is-buffer", "https://example.com/is-buffer-1.1.6.tgz")]);
    let chastefile = parse_classic(&lockfile(body), &root, &Vec::new()).unwrap();
    let pkg = chastefile.package(chastefile.root_package_dependencies()[0].on());
    assert_eq!(pkg.source_type(), Some(PackageSourceType::TarballURL));
    let hashes = &pkg.checksums().unwrap().integrity().hashes;
    assert_eq!(hashes.len(), 1);
    assert_eq!(hashes[0].algorithm, HashAlgorithm::Sha1);
}

#[test]
fn classic_aliased_entry_takes_aliased_name() {
    let body = "\"lodash-alias@npm:lodash@4.17.21\":\n  version \"4.17.21\"\n  resolved \"https://registry.yarnpkg.com/lodash/-/lodash-4.17.21.tgz\"\n  integrity sha512-v2kDEe57lecTulaDIuNTPy3Ry4gLGJ6Z1O3vE1krgXZNrsQ+LFTGHVxVjcXPs17LhbZVGedAJv8XZ1tvj5FvSg==\n";
    let root = package_json(None, None, &[("lodash-alias", "npm:lodash@4.17.21")]);
    let chastefile = parse_classic(&lockfile(body), &root, &Vec::new()).unwrap();
    let deps = chastefile.root_package_dependencies();
    assert_eq!(deps.len(), 1);
    assert_eq!(deps[0].alias_name().unwrap().as_str(), "lodash-alias");
    let lodash = chastefile.package(deps[0].on());
    assert_eq!(lodash.name().unwrap().as_str(), "lodash");
    assert_eq!(lodash.source_type(), Some(PackageSourceType::Npm));
}

#[test]
fn classic_duplicate_entries_share_a_package() {
    let body = "lodash@4.17.21:\n  version \"4.17.21\"\n  resolved \"https://registry.yarnpkg.com/lodash/-/lodash-4.17.21.tgz\"\n  integrity sha512-v2kDEe57lecTulaDIuNTPy3Ry4gLGJ6Z1O3vE1krgXZNrsQ+LFTGHVxVjcXPs17LhbZVGedAJv8XZ1tvj5FvSg==\n\n\
\"lodash-alias@npm:lodash@4.17.21\":\n  version \"4.17.21\"\n  resolved \"https://registry.yarnpkg.com/lodash/-/lodash-4.17.21.tgz\"\n  integrity sha512-v2kDEe57lecTulaDIuNTPy3Ry4gLGJ6Z1O3vE1krgXZNrsQ+LFTGHVxVjcXPs17LhbZVGedAJv8XZ1tvj5FvSg==\n";
    let root = package_json(None, None, &[("lodash", "4.17.21"), ("lodash-alias", "npm:lodash@4.17.21")]);
    let chastefile = parse_classic(&lockfile(body), &root, &Vec::new()).unwrap();
    assert_eq!(chastefile.packages().len(), 2);
    let deps = chastefile.root_package_dependencies();
    assert_eq!(deps.len(), 2);
    assert_eq!(deps[0].on(), deps[1].on());
}

#[test]
fn classic_workspace_member() {
    let body = "color-name@1.1.3:\n  version \"1.1.3\"\n  resolved \"https://registry.npmjs.org/color-name/-/color-name-1.1.3.tgz\"\n  integrity sha1-p9BVi9icQveV3UIyj3QIMcpTvCU=\n";
    let root = package_json(Some("ws-root"), Some("1.0.0"), &[("member-a", "1.0.0")]);
    let member = package_json(Some("member-a"), Some("1.0.0"), &[("color-name", "1.1.3")]);
    let members = vec![("packages/member-a".to_string(), member)];
    let chastefile = parse_classic(&lockfile(body), &root, &members).unwrap();
    assert_eq!(chastefile.packages().len(), 3);
    let member_ids = chastefile.workspace_member_ids();
    assert_eq!(member_ids.len(), 1);
    let installations = chastefile.package_installations(member_ids[0]);
    assert_eq!(installations.len(), 1);
    assert_eq!(installations[0].path().as_str(), "packages/member-a");
    let root_deps = chastefile.root_package_dependencies();
    assert!(root_deps.iter().any(|d| d.on() == member_ids[0]));
    assert!(root_deps
        .iter()
        .any(|d| chastefile.package(d.on()).name().unwrap().as_str() == "color-name"));
}

#[test]
fn classic_missing_dependency() {
    let root = package_json(None, None, &[("left-pad", "^1.0.0")]);
    assert_eq!(
        parse_classic(&lockfile(BASIC), &root, &Vec::new()).unwrap_err(),
        Error::DependencyNotFound("left-pad@^1.0.0".to_string())
    );
}

#[test]
fn classic_model_errors_are_pinned() {
    let body = "color-name@1.1.3:\n  version \"1.1.3\"\n  resolved \"https://registry.npmjs.org/color-name/-/color-name-1.1.3.tgz\"\n  integrity sha1-p9BVi9icQveV3UIyj3QIMcpTvCU=\n";
    let root = package_json(Some("Bad Root"), Some("1.0.0"), &[]);
    match parse_classic(&lockfile(body), &root, &Vec::new()) {
        Err(Error::ChasteError(chaste::error::Error::InvalidPackageName(n))) => assert_eq!(n, "Bad Root"),
        _ => panic!("expected the root's name to be refused"),
    }
    let root = package_json(Some("root"), Some("1.0.0"), &[]);
    let members = vec![
        ("packages/ok".to_string(), package_json(Some("ok"), Some("1.0.0"), &[])),
        ("packages/bad".to_string(), package_json(Some("bad"), Some("not.a.version"), &[])),
        ("a/".to_string(), package_json(Some("worse"), Some("1.0.0"), &[])),
    ];
    assert!(matches!(
        parse_classic(&lockfile(body), &root, &members),
        Err(Error::ChasteError(chaste::error::Error::SemverError(_)))
    ));
    let members = vec![("a/".to_string(), package_json(Some("worse"), Some("1.0.0"), &[]))];
    match parse_classic(&lockfile(body), &root, &members) {
        Err(Error::ChasteError(chaste::error::Error::InvalidModulePath(p))) => assert_eq!(p, "a/"),
        _ => panic!("expected the member's path to be refused"),
    }
}
