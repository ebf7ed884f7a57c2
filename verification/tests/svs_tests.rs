use chaste::error::Error;
use chaste::quirks::QuirksMode;
use chaste::svs::{SourceVersionSpecifier, SourceVersionSpecifierKind};

#[test]
fn npm_svs_basic() -> Result<(), Error> {
    let svs = SourceVersionSpecifier::new("^7.0.1".to_string())?;
    assert!(svs.is_npm());
    assert!(svs.aliased_package_name().is_none());
    Ok(())
}

#[test]
fn npm_svs_basic_any() -> Result<(), Error> {
    let svs = SourceVersionSpecifier::new("*".to_string())?;
    assert!(svs.is_npm());
    assert!(svs.aliased_package_name().is_none());
    Ok(())
}

#[test]
fn npm_svs_basic_empty() -> Result<(), Error> {
    let svs = SourceVersionSpecifier::new("".to_string())?;
    assert!(svs.is_npm());
    assert!(svs.aliased_package_name().is_none());
    Ok(())
}

#[test]
fn npm_svs_alias() -> Result<(), Error> {
    let svs = SourceVersionSpecifier::new("npm:chazzwazzer@*".to_string())?;
    assert!(svs.is_npm());
    assert_eq!(svs.aliased_package_name().unwrap().as_str(), "chazzwazzer");
    Ok(())
}

#[test]
fn npm_svs_alias_scoped() -> Result<(), Error> {
    let svs = SourceVersionSpecifier::new("@chastelock/testcase@1.0.x".to_string())?;
    assert!(svs.is_npm());
    assert_eq!(svs.aliased_package_name().unwrap().as_str(), "@chastelock/testcase");
    Ok(())
}

#[test]
fn npm_svs_tag() -> Result<(), Error> {
    let svs = SourceVersionSpecifier::new("next-11".to_string())?;
    assert!(svs.is_npm_tag());
    Ok(())
}

#[test]
fn tar_svs() -> Result<(), Error> {
    let svs = SourceVersionSpecifier::new("https://example.com/not-a-git-repo".to_string())?;
    assert!(svs.is_tar());
    Ok(())
}

#[test]
fn git_http_svs_unspecified() -> Result<(), Error> {
    let svs = SourceVersionSpecifier::new("https://codeberg.org/selfisekai/chaste.git".to_string())?;
    assert!(svs.is_git());
    Ok(())
}

#[test]
fn git_http_svs_unspecified_prefixed() -> Result<(), Error> {
    let svs = SourceVersionSpecifier::new("git+https://codeberg.org/selfisekai/chaste".to_string())?;
    assert!(svs.is_git());
    Ok(())
}

#[test]
fn git_http_svs_tag() -> Result<(), Error> {
    let svs = SourceVersionSpecifier::new("https://github.com/npm/node-semver.git#v7.6.3".to_string())?;
    assert!(svs.is_git());
    Ok(())
}

#[test]
fn git_http_svs_semver() -> Result<(), Error> {
    let svs = SourceVersionSpecifier::new("https://github.com/npm/node-semver.git#semver:^7.5.0".to_string())?;
    assert!(svs.is_git());
    Ok(())
}

#[test]
fn git_ssh_svs_unspecified() -> Result<(), Error> {
    let svs = SourceVersionSpecifier::new("git@codeberg.org:selfisekai/chaste.git".to_string())?;
    assert!(svs.is_git());
    assert_eq!(svs.ssh_path_sep(), Some(":"));
    Ok(())
}

#[test]
fn git_ssh_svs_unspecified_prefixed() -> Result<(), Error> {
    let svs = SourceVersionSpecifier::new("git+ssh://git@codeberg.org:selfisekai/chaste".to_string())?;
    assert!(svs.is_git());
    assert_eq!(svs.ssh_path_sep(), Some(":"));
    Ok(())
}

#[test]
fn git_ssh_svs_tag() -> Result<(), Error> {
    let svs = SourceVersionSpecifier::new("git@github.com:npm/node-semver.git#v7.6.3".to_string())?;
    assert!(svs.is_git());
    assert_eq!(svs.ssh_path_sep(), Some(":"));
    Ok(())
}

#[test]
fn git_ssh_svs_semver() -> Result<(), Error> {
    let svs = SourceVersionSpecifier::new("git@github.com:npm/node-semver.git#semver:^7.5.0".to_string())?;
    assert!(svs.is_git());
    assert_eq!(svs.ssh_path_sep(), Some(":"));
    Ok(())
}

#[test]
fn github_svs_unspecified() -> Result<(), Error> {
    let svs = SourceVersionSpecifier::new("npm/node-semver".to_string())?;
    assert!(svs.is_github());
    Ok(())
}

#[test]
fn github_svs_unspecified_prefixed() -> Result<(), Error> {
    let svs = SourceVersionSpecifier::new("github:npm/node-semver".to_string())?;
    assert!(svs.is_github());
    Ok(())
}

#[test]
fn github_svs_tag() -> Result<(), Error> {
    let svs = SourceVersionSpecifier::new("npm/node-semver#7.5.1".to_string())?;
    assert!(svs.is_github());
    Ok(())
}

#[test]
fn github_svs_semver() -> Result<(), Error> {
    let svs = SourceVersionSpecifier::new("npm/node-semver#semver:^7.5.0".to_string())?;
    assert!(svs.is_github());
    Ok(())
}
#[test]
fn svs_kinds_and_ranges() -> Result<(), Error> {
    let svs = SourceVersionSpecifier::new("npm:chazzwazzer@^1.2".to_string())?;
    assert_eq!(svs.kind(), SourceVersionSpecifierKind::Npm);
    assert_eq!(svs.npm_range_str(), Some("^1.2"));
    assert!(svs.npm_range().is_some());
    assert_eq!(svs.as_str(), "npm:chazzwazzer@^1.2");
    let tag = SourceVersionSpecifier::new("latest".to_string())?;
    assert_eq!(tag.kind(), SourceVersionSpecifierKind::NpmTag);
    assert_eq!(tag.npm_range_str(), None);
    let gh = SourceVersionSpecifier::new("npm/node-semver".to_string())?;
    assert_eq!(gh.kind(), SourceVersionSpecifierKind::GitHub);
    Ok(())
}

#[test]
fn svs_with_quirks() -> Result<(), Error> {
    let svs = SourceVersionSpecifier::with_quirks("^1.0.0".to_string(), QuirksMode::Yarn(1))?;
    assert!(svs.is_npm());
    Ok(())
}

#[test]
fn svs_yarn1_reads_colon_ssh_as_tag() -> Result<(), Error> {
    let text = "ssh://git@github.com:npm/node-semver.git";
    let plain = SourceVersionSpecifier::new(text.to_string())?;
    assert!(plain.is_git());
    assert_eq!(plain.ssh_path_sep(), Some(":"));
    let yarn1 = SourceVersionSpecifier::with_quirks(text.to_string(), QuirksMode::Yarn(1))?;
    assert!(yarn1.is_npm_tag());
    let slash = "ssh://git@github.com/npm/node-semver.git";
    let yarn1_slash = SourceVersionSpecifier::with_quirks(slash.to_string(), QuirksMode::Yarn(1))?;
    assert!(yarn1_slash.is_git());
    Ok(())
}

#[test]
fn svs_npm_text_splits_into_prefix_alias_range() -> Result<(), Error> {
    let svs = SourceVersionSpecifier::new("npm:@scope/pkg@~2.1".to_string())?;
    assert_eq!(svs.aliased_package_name().unwrap().as_str(), "@scope/pkg");
    assert_eq!(svs.npm_range_str(), Some("~2.1"));
    let bare = SourceVersionSpecifier::new("^3".to_string())?;
    assert!(bare.aliased_package_name().is_none());
    assert_eq!(bare.npm_range_str(), Some("^3"));
    Ok(())
}
