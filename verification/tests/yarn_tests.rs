use chaste::error::Error as ChasteError;
use chaste::name::PackageName;
use chaste::source::PackageSource;
use chaste::yarn::berry::{
    is_commit_hash, parse_source, patch_descriptor, resolution_from_state_key,
};
use chaste::yarn::candidates::Candidates;
use chaste::yarn::classic::{is_github_svs, is_registry_url};
use chaste::yarn::resolutions::{is_same_svs, is_same_svs_zpm, ResolutionKey, Resolutions};
use chaste::yarn::zpm::{resolved, specifiers, Resolved};
use chaste::yarn::Error;

fn compare(input: &str, expected: (Option<(&str, Option<&str>)>, (&str, Option<&str>))) {
    assert_eq!(
        ResolutionKey::parse(input)
            .map(|rk| {
                (
                    rk.parent.map(|s| (s.name, s.svs)),
                    (rk.selector.name, rk.selector.svs),
                )
            })
            .unwrap(),
        expected
    );
}

#[test]
fn test_parse_resolution_keys() -> Result<(), Error> {
    compare("lodash", (None, ("lodash", None)));
    compare(
        "@chastelock/testcase",
        (None, ("@chastelock/testcase", None)),
    );
    compare(
        "@yarnpkg/core@npm:^4.5",
        (None, ("@yarnpkg/core", Some("npm:^4.5"))),
    );
    compare(
        "@yarnpkg/core@npm:^4.5/lodash",
        (Some(("@yarnpkg/core", Some("npm:^4.5"))), ("lodash", None)),
    );
    compare(
        "@yarnpkg/core@npm:^4.5/@scope/lodash",
        (
            Some(("@yarnpkg/core", Some("npm:^4.5"))),
            ("@scope/lodash", None),
        ),
    );
    compare(
        "@yarnpkg/core@npm:^4.5/@scope/lodash@^1",
        (
            Some(("@yarnpkg/core", Some("npm:^4.5"))),
            ("@scope/lodash", Some("^1")),
        ),
    );
    Ok(())
}

const IRRELEVANT_PARENT: [(&str, &str); 1] = [("irrelevant", "npm:nop@^1")];

#[test]
fn test_evaluate_resolutions() -> Result<(), Error> {
    let mut resolutions = Resolutions::new();
    resolutions.insert("lodash", "^6.7")?;
    resolutions.insert("preact@^1", "^10")?;
    resolutions.insert("kleur@^999999998/preact", "^2000")?;

    assert_eq!(
        resolutions.find(("nonexistent", "^5000"), &IRRELEVANT_PARENT),
        None
    );
    assert_eq!(
        resolutions.find(("lodash", "^1337"), &IRRELEVANT_PARENT),
        Some("^6.7")
    );
    assert_eq!(
        resolutions.find(("preact", "npm:^1"), &IRRELEVANT_PARENT),
        Some("^10")
    );
    assert_eq!(
        resolutions.find(
            ("preact", "^19"),
            &[("kleur", "^0"), ("kleur", "=999999998.1.0")]
        ),
        None
    );
    assert_eq!(
        resolutions.find(
            ("preact", "^19"),
            &[("kleur", "^999999998"), ("kleur", "=999999998.1.0")]
        ),
        Some("^2000")
    );
    Ok(())
}

#[test]
fn resolution_keys_refused() {
    assert_eq!(
        ResolutionKey::parse("lodash@").map(|_| ()),
        Err(Error::InvalidResolution("lodash@".to_string()))
    );
    let mut resolutions = Resolutions::new();
    assert_eq!(
        resolutions.insert("a/b/c", "^1"),
        Err(Error::InvalidResolution("a/b/c".to_string()))
    );
}

#[test]
fn resolution_reinserted_key_takes_new_value() -> Result<(), Error> {
    let mut resolutions = Resolutions::new();
    resolutions.insert("lodash", "^1")?;
    resolutions.insert("lodash", "^2")?;
    assert_eq!(resolutions.find(("lodash", "^0"), &[]), Some("^2"));
    Ok(())
}

#[test]
fn bare_name_resolution_applies_to_any_request() -> Result<(), Error> {
    let mut resolutions = Resolutions::new();
    resolutions.insert("kleur@^3/lodash", "^9")?;
    resolutions.insert("lodash@^4", "^8")?;
    resolutions.insert("lodash", "^7")?;
    assert_eq!(
        resolutions.find(("lodash", "^4"), &[("kleur", "^3")]),
        Some("^7")
    );
    Ok(())
}

#[test]
fn same_svs_comparisons() {
    assert!(is_same_svs("^4.20", "^4.20"));
    assert!(is_same_svs("^4.20", "npm:^4.20"));
    assert!(is_same_svs(
        "name@patch:name@0.1.0#./file.patch",
        "name@patch:name@0.1.0#./file.patch::locator=%40chastelock%2Ftestcase%40workspace%3A."
    ));
    assert!(!is_same_svs("^4.20", "^4.21"));
    assert!(is_same_svs_zpm(
        "https://github.com/isaacs/minimatch.git#v10.0.1",
        "github:isaacs/minimatch#v10.0.1"
    ));
    assert!(is_same_svs_zpm("isaacs/minimatch", "github:isaacs/minimatch"));
    assert!(is_same_svs_zpm(
        "github:npm/node-semver#semver:^7.5.0",
        "github:npm/node-semver#semver=^7.5.0"
    ));
    assert!(!is_same_svs_zpm("isaacs/minimatch", "github:isaacs/other"));
    assert!(is_same_svs_zpm(
        "https://github.com/npm/node-semver.git#v7.6.3",
        "github:npm/node-semver#v7.6.3"
    ));
    assert!(is_same_svs_zpm(
        "npm/node-semver#semver:^7.5.0",
        "github:npm/node-semver#semver=^7.5.0"
    ));
}

#[test]
fn github_cvd() -> Result<(), ChasteError> {
    assert!(is_github_svs("isaacs/minimatch#v10.0.1"));
    assert!(is_github_svs("github:isaacs/minimatch#v10.0.1"));
    assert!(is_github_svs("isaacs/minimatch"));
    Ok(())
}

#[test]
fn github_svs_refused() {
    assert!(!is_github_svs("isaacs/.minimatch"));
    assert!(!is_github_svs("isaacs"));
    assert!(!is_github_svs("isa_acs/minimatch"));
}

#[test]
fn registry_url() -> Result<(), ChasteError> {
    assert!(is_registry_url(
        PackageName::new("is-buffer".to_string())?.as_borrowed(),
        "1.1.6",
        "https://registry.yarnpkg.com/is-buffer/-/is-buffer-1.1.6.tgz"
    ));
    assert!(is_registry_url(
        PackageName::new("is-buffer".to_string())?.as_borrowed(),
        "1.1.6",
        "https://registry.npmjs.org/is-buffer/-/is-buffer-1.1.6.tgz"
    ));
    assert!(is_registry_url(
        PackageName::new("@chastelock/recursion-a".to_string())?.as_borrowed(),
        "0.1.0",
        "https://registry.yarnpkg.com/@chastelock/recursion-a/-/recursion-a-0.1.0.tgz"
    ));
    Ok(())
}

#[test]
fn registry_url_refused() -> Result<(), ChasteError> {
    assert!(!is_registry_url(
        PackageName::new("is-buffer".to_string())?.as_borrowed(),
        "1.1.7",
        "https://registry.yarnpkg.com/is-buffer/-/is-buffer-1.1.6.tgz"
    ));
    Ok(())
}

#[test]
fn commit_hashes() {
    assert!(is_commit_hash("0123456789abcdef0123456789abcdef01234567"));
    assert!(!is_commit_hash("0123456789ABCDEF0123456789abcdef01234567"));
    assert!(!is_commit_hash("0123456789abcdef"));
}

#[test]
fn berry_sources() {
    assert_eq!(
        parse_source("lodash@npm:4.17.21"),
        Some(("lodash", Some(PackageSource::Npm)))
    );
    assert_eq!(
        parse_source("a@https://example.com/a.tgz"),
        Some((
            "a",
            Some(PackageSource::TarballURL {
                url: "https://example.com/a.tgz".to_string()
            })
        ))
    );
    assert_eq!(
        parse_source(
            "semver@https://github.com/npm/node-semver.git#commit=0123456789abcdef0123456789abcdef01234567"
        ),
        Some((
            "semver",
            Some(PackageSource::Git {
                url: "https://github.com/npm/node-semver.git".to_string()
            })
        ))
    );
    assert_eq!(parse_source("a@"), Some(("a", None)));
    assert_eq!(parse_source("a@workspace:."), None);
}

#[test]
fn berry_patch_descriptors() {
    assert_eq!(
        patch_descriptor("a@patch:a@npm%3A1.0.0#./a.patch::version=1.0.0"),
        Some(("a", "a", "npm%3A1.0.0", "./a.patch", "version=1.0.0"))
    );
    assert_eq!(patch_descriptor("a@npm:1.0.0"), None);
}

#[test]
fn berry_state_keys() {
    let hex = "a".repeat(128);
    let key = format!("tsec@virtual:{hex}#npm:0.2.8");
    assert_eq!(resolution_from_state_key(&key), "tsec@npm:0.2.8".to_string());
    assert_eq!(resolution_from_state_key("tsec@npm:0.2.8"), "tsec@npm:0.2.8".to_string());
}

#[test]
fn zpm_specifiers() -> Result<(), Error> {
    assert_eq!(
        specifiers("a@npm:^1, @b/c@npm:^2")?,
        vec![("a", "npm:^1"), ("@b/c", "npm:^2")]
    );
    assert_eq!(
        specifiers("a@1,b@2").map(|_| ()),
        Err(Error::InvalidEntryKey("a@1,b@2".to_string()))
    );
    Ok(())
}

#[test]
fn zpm_resolved() -> Result<(), Error> {
    let (name, src) = resolved("lodash@npm:4.17.21")?;
    assert_eq!(name, "lodash");
    assert!(matches!(src, Some(Resolved::Remote(PackageSource::Npm))));
    let (_, src) = resolved("app@workspace:packages/app")?;
    assert!(matches!(src, Some(Resolved::Workspace("packages/app"))));
    let (_, src) = resolved("x@git:https://example.com/x.git")?;
    assert!(
        matches!(src, Some(Resolved::Remote(PackageSource::Git { url })) if url == "https://example.com/x.git")
    );
    assert!(resolved("@@").is_err());
    Ok(())
}

#[test]
fn candidates_walk_one_name() {
    let table = [(("a", "1"), 1u8), (("b", "1"), 2u8), (("b", "2"), 3u8), (("c", "1"), 4u8)];
    let mut c = Candidates::new("b", &table);
    assert_eq!(c.next().map(|(k, v)| (*k, *v)), Some((("b", "1"), 2)));
    assert_eq!(c.next().map(|(k, v)| (*k, *v)), Some((("b", "2"), 3)));
    assert_eq!(c.next(), None);
}

#[test]
fn find_after_insert_gives_the_new_value() -> Result<(), Error> {
    let mut resolutions = Resolutions::new();
    resolutions.insert("lodash", "^6.7")?;
    assert_eq!(resolutions.find(("lodash", "^1"), &IRRELEVANT_PARENT), Some("^6.7"));
    resolutions.insert("lodash", "^7")?;
    assert_eq!(resolutions.find(("lodash", "^1"), &IRRELEVANT_PARENT), Some("^7"));
    Ok(())
}
