use chaste::checksums::{Checksums, HashAlgorithm};
use chaste::dependency::DependencyKind;
use chaste::derivation::PackageDerivation;
use chaste::source::PackageSourceType;
use chaste::yarn::berry_resolve::parse_checksum;
use chaste::yarn::lockfile::parse_lockfile;
use chaste::chastefile::Chastefile;
use chaste::yarn::berry_resolve::resolve;
use chaste::yarn::parse::{lockfile_format, read_lockfile, LockFormat, YarnLock};
use chaste::yarn::Error;

const HEADER: &str = "# This file is generated by running \"yarn install\" inside your project.\n\
# Manual changes might be lost - proceed with caution!\n\
\n\
__metadata:\n  version: 8\n  cacheKey: 10c0\n\n";

const BASIC: &str = "\"ansi-styles@npm:^3.2.1\":\n  version: 3.2.1\n  resolution: \"ansi-styles@npm:3.2.1\"\n  dependencies:\n    color-convert: \"npm:^1.9.0\"\n  checksum: 10c0/00ff\n  languageName: node\n  linkType: hard\n\
\n\
\"color-convert@npm:^1.9.0\":\n  version: 1.9.3\n  resolution: \"color-convert@npm:1.9.3\"\n  dependencies:\n    color-name: \"npm:1.1.3\"\n  checksum: 10c0/abcd\n  languageName: node\n  linkType: hard\n\
\n\
\"color-name@npm:1.1.3\":\n  version: 1.1.3\n  resolution: \"color-name@npm:1.1.3\"\n  checksum: 10c0/0123\n  languageName: node\n  linkType: hard\n\
\n\
\"root-workspace-0b6124@workspace:.\":\n  version: 0.0.0-use.local\n  resolution: \"root-workspace-0b6124@workspace:.\"\n  dependencies:\n    ansi-styles: \"npm:^3.2.1\"\n  languageName: unknown\n  linkType: soft\n";

fn lockfile(body: &str) -> String {
    format!("{HEADER}{body}")
}

fn parse_contents(
    contents: &str,
    resolutions: &Vec<(String, String)>,
    state: Option<&str>,
) -> Result<Chastefile<chaste::yarn::Meta>, Error> {
    match read_lockfile(contents)? {
        YarnLock::Berry(lock) => resolve(&lock, resolutions, state),
        YarnLock::Classic(_) => panic!("expected a berry lockfile"),
    }
}

#[test]
fn berry_lockfile_entries_are_read() {
    let lock = parse_lockfile(&lockfile(BASIC)).unwrap();
    assert_eq!(lock.version, 8);
    assert_eq!(lock.entries.len(), 4);
    assert_eq!(lock.entries[0].name, "ansi-styles");
    assert_eq!(lock.entries[0].resolved, "ansi-styles@npm:3.2.1");
    assert_eq!(
        lock.entries[0].dependencies,
        vec![("color-convert".to_string(), "npm:^1.9.0".to_string())]
    );
    assert_eq!(
        lock.entries[3].descriptors,
        vec![("root-workspace-0b6124".to_string(), "workspace:.".to_string())]
    );
}

#[test]
fn berry_basic() {
    let chastefile = parse_contents(&lockfile(BASIC), &Vec::new(), None).unwrap();
    assert_eq!(chastefile.meta().lockfile_version, 8);
    assert_eq!(chastefile.packages().len(), 4);
    let root = chastefile.root_package();
    assert_eq!(root.name().unwrap().as_str(), "root-workspace-0b6124");
    assert_eq!(root.source_type(), None);
    let root_deps = chastefile.root_package_dependencies();
    assert_eq!(root_deps.len(), 1);
    assert_eq!(root_deps[0].kind(), DependencyKind::Dependency);
    let ansi = chastefile.package(root_deps[0].on());
    assert_eq!(ansi.name().unwrap().as_str(), "ansi-styles");
    assert_eq!(ansi.version().unwrap().to_string(), "3.2.1");
    assert_eq!(ansi.source_type(), Some(PackageSourceType::Npm));
    let checksums = ansi.checksums().unwrap();
    assert!(matches!(checksums, Checksums::RepackZip(_)));
    assert_eq!(checksums.integrity().hashes.len(), 1);
    assert_eq!(checksums.integrity().hashes[0].algorithm, HashAlgorithm::Sha512);
    assert_eq!(checksums.integrity().hashes[0].digest, "AP8=");
    let rec = chastefile.recursive_package_dependencies(chastefile.root_package_id());
    assert_eq!(rec.len(), 3);
    assert!(rec
        .iter()
        .all(|d| chastefile.package(d.on()).source_type() == Some(PackageSourceType::Npm)));
    let installations = chastefile.package_installations(chastefile.root_package_id());
    assert_eq!(installations.len(), 1);
    assert_eq!(installations[0].path().as_str(), "");
}

#[test]
fn berry_state_file_gives_installations() {
    let state = "__metadata:\n  version: 1\n\n\"ansi-styles@npm:3.2.1\":\n  locations:\n    - \"node_modules/ansi-styles\"\n";
    let chastefile = parse_contents(&lockfile(BASIC), &Vec::new(), Some(state)).unwrap();
    let ansi = chastefile.root_package_dependencies()[0].on();
    let installations = chastefile.package_installations(ansi);
    assert_eq!(installations.len(), 1);
    assert_eq!(installations[0].path().as_str(), "node_modules/ansi-styles");
}

#[test]
fn berry_state_package_not_found() {
    let state = "__metadata:\n  version: 1\n\n\"left-pad@npm:1.0.0\":\n  locations:\n    - \"node_modules/left-pad\"\n";
    assert_eq!(
        parse_contents(&lockfile(BASIC), &Vec::new(), Some(state)).unwrap_err(),
        Error::StatePackageNotFound("left-pad@npm:1.0.0".to_string())
    );
}

#[test]
fn berry_missing_dependency() {
    let body = "\"root-workspace-0b6124@workspace:.\":\n  version: 0.0.0-use.local\n  resolution: \"root-workspace-0b6124@workspace:.\"\n  dependencies:\n    left-pad: \"npm:^1.0.0\"\n  languageName: unknown\n  linkType: soft\n";
    assert_eq!(
        parse_contents(&lockfile(body), &Vec::new(), None).unwrap_err(),
        Error::DependencyNotFound("left-pad@npm:^1.0.0".to_string())
    );
}

#[test]
fn berry_resolution_override() {
    let body = "\"left-pad@npm:1.3.0\":\n  version: 1.3.0\n  resolution: \"left-pad@npm:1.3.0\"\n  languageName: node\n  linkType: hard\n\
\n\
\"root-workspace-0b6124@workspace:.\":\n  version: 0.0.0-use.local\n  resolution: \"root-workspace-0b6124@workspace:.\"\n  dependencies:\n    left-pad: \"npm:^1.0.0\"\n  languageName: unknown\n  linkType: soft\n";
    let resolutions = vec![("left-pad".to_string(), "npm:1.3.0".to_string())];
    let chastefile = parse_contents(&lockfile(body), &resolutions, None).unwrap();
    let deps = chastefile.root_package_dependencies();
    assert_eq!(deps.len(), 1);
    assert_eq!(chastefile.package(deps[0].on()).name().unwrap().as_str(), "left-pad");
    assert_eq!(deps[0].svs().unwrap().as_str(), "npm:^1.0.0");
}

#[test]
fn berry_invalid_resolution_key() {
    let resolutions = vec![("@".to_string(), "1.0.0".to_string())];
    assert_eq!(
        parse_contents(&lockfile(BASIC), &resolutions, None).unwrap_err(),
        Error::InvalidResolution("@".to_string())
    );
}

#[test]
fn berry_patch() {
    let body = "\"resolve@npm:^1.1.7\":\n  version: 1.22.8\n  resolution: \"resolve@npm:1.22.8\"\n  languageName: node\n  linkType: hard\n\
\n\
\"resolve@patch:resolve@npm%3A^1.1.7#~builtin<compat/resolve>\":\n  version: 1.22.8\n  resolution: \"resolve@patch:resolve@npm%3A1.22.8#~builtin<compat/resolve>::version=1.22.8&hash=c3c19d\"\n  languageName: node\n  linkType: hard\n\
\n\
\"root-workspace-0b6124@workspace:.\":\n  version: 0.0.0-use.local\n  resolution: \"root-workspace-0b6124@workspace:.\"\n  dependencies:\n    resolve: \"patch:resolve@npm%3A^1.1.7#~builtin<compat/resolve>\"\n  languageName: unknown\n  linkType: soft\n";
    let chastefile = parse_contents(&lockfile(body), &Vec::new(), None).unwrap();
    assert_eq!(chastefile.packages().len(), 3);
    let deps = chastefile.root_package_dependencies();
    assert_eq!(deps.len(), 1);
    let patched = chastefile.package(deps[0].on());
    assert!(patched.is_derived());
    let unpatched = patched.derived_from().unwrap();
    assert_eq!(chastefile.package(unpatched).name().unwrap().as_str(), "resolve");
    assert!(!chastefile.package(unpatched).is_derived());
    match patched.derivation().unwrap() {
        PackageDerivation::Patch(p) => assert_eq!(p.path(), "~builtin<compat/resolve>"),
        _ => panic!("expected a patch"),
    }
}

#[test]
fn berry_peer_dependency() {
    let body = "\"react-dom@npm:18.2.0\":\n  version: 18.2.0\n  resolution: \"react-dom@npm:18.2.0\"\n  peerDependencies:\n    react: ^18.2.0\n  languageName: node\n  linkType: hard\n\
\n\
\"react@npm:18.2.0\":\n  version: 18.2.0\n  resolution: \"react@npm:18.2.0\"\n  languageName: node\n  linkType: hard\n\
\n\
\"root-workspace-0b6124@workspace:.\":\n  version: 0.0.0-use.local\n  resolution: \"root-workspace-0b6124@workspace:.\"\n  dependencies:\n    react: \"npm:18.2.0\"\n    react-dom: \"npm:18.2.0\"\n  languageName: unknown\n  linkType: soft\n";
    let chastefile = parse_contents(&lockfile(body), &Vec::new(), None).unwrap();
    let react_dom = chastefile.packages_with_ids().into_iter().find(|(_, p)| p.name().unwrap().as_str() == "react-dom").unwrap().0;
    let deps = chastefile.package_dependencies(react_dom);
    assert_eq!(deps.len(), 1);
    assert_eq!(deps[0].kind(), DependencyKind::PeerDependency);
    assert_eq!(chastefile.package(deps[0].on()).name().unwrap().as_str(), "react");
}

#[test]
fn berry_unsupported_versions_and_formats() {
    let v9 = "# This file is generated by running \"yarn install\" inside your project.\n# Manual changes might be lost - proceed with caution!\n\n__metadata:\n  version: 9\n  cacheKey: 10c0\n\n\"a@npm:1.0.0\":\n  version: 1.0.0\n  resolution: \"a@npm:1.0.0\"\n";
    assert_eq!(read_lockfile(v9).unwrap_err(), Error::UnknownLockfileVersion(9));
    assert_eq!(read_lockfile("  {\"a\": 1}").unwrap_err(), Error::UnknownFormat);
    assert_eq!(read_lockfile("").unwrap_err(), Error::UnknownFormat);
    assert_eq!(lockfile_format(" \t# x"), Some(LockFormat::Indented));
    assert_eq!(lockfile_format("{}"), Some(LockFormat::Json));
    assert_eq!(lockfile_format("x"), None);
}

#[test]
fn berry_checksum_prefix() {
    match parse_checksum("10c0/00ff").unwrap() {
        Checksums::RepackZip(i) => assert_eq!(i.hashes[0].digest, "AP8="),
        _ => panic!("expected a repacked checksum"),
    }
    match parse_checksum("00ff").unwrap() {
        Checksums::RepackZip(i) => assert_eq!(i.hashes[0].digest, "AP8="),
        _ => panic!("expected a repacked checksum"),
    }
    assert!(matches!(parse_checksum("10c0/xyz"), Err(Error::SSRIError(_))));
}
