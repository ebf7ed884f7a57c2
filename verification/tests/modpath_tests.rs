use chaste::error::Error;
use chaste::modpath::{ModulePath, ModulePathSegment};
use chaste::name::PackageName;

#[test]
fn basic_mod() -> Result<(), Error> {
    let semver_pn = PackageName::new("semver".to_string())?;
    let path = ModulePath::new("node_modules/semver".to_string())?;
    let mut segments = path.iter();
    assert_eq!(
        segments.next(),
        Some(ModulePathSegment::NodeModules("node_modules"))
    );
    assert_eq!(
        segments.next(),
        Some(ModulePathSegment::PackageName(semver_pn.as_borrowed()))
    );
    assert_eq!(segments.next(), None);
    Ok(())
}

#[test]
fn basic_mod_scoped() -> Result<(), Error> {
    let testcase_pn = PackageName::new("@chastelock/testcase".to_string())?;
    let path = ModulePath::new("node_modules/@chastelock/testcase".to_string())?;
    let mut segments = path.iter();
    assert_eq!(
        segments.next(),
        Some(ModulePathSegment::NodeModules("node_modules"))
    );
    assert_eq!(
        segments.next(),
        Some(ModulePathSegment::PackageName(testcase_pn.as_borrowed()))
    );
    assert_eq!(segments.next(), None);
    Ok(())
}

#[test]
fn empty() -> Result<(), Error> {
    let path = ModulePath::new("".to_string())?;
    let mut segments = path.iter();
    assert_eq!(segments.next(), None);
    Ok(())
}

#[test]
fn mod_inside_workspace_member() -> Result<(), Error> {
    let testcase_pn = PackageName::new("@chastelock/testcase".to_string())?;
    let path = ModulePath::new("arbitrary/prefix/node_modules/@chastelock/testcase".to_string())?;
    let mut segments = path.iter();
    assert_eq!(
        segments.next(),
        Some(ModulePathSegment::Arbitrary("arbitrary"))
    );
    assert_eq!(segments.next(), Some(ModulePathSegment::Arbitrary("prefix")));
    assert_eq!(
        segments.next(),
        Some(ModulePathSegment::NodeModules("node_modules"))
    );
    assert_eq!(
        segments.next(),
        Some(ModulePathSegment::PackageName(testcase_pn.as_borrowed()))
    );
    assert_eq!(segments.next(), None);
    Ok(())
}

#[test]
fn bs_paths() -> Result<(), Error> {
    fn invalid(input: &str) {
        assert!(ModulePath::new(input.to_string()).is_err());
    }
    invalid("/");
    invalid("a/");
    invalid("node_modules");
    invalid("node_modules/@chastelock/testcase/something/deeper");
    invalid("node_modules/@chastelock");
    Ok(())
}

#[test]
fn implied_names_of_paths() -> Result<(), Error> {
    let path = ModulePath::new("node_modules/@chastelock/testcase".to_string())?;
    assert_eq!(
        path.implied_package_name().map(|n| n.as_str().to_string()),
        Some("@chastelock/testcase".to_string())
    );
    let member = ModulePath::new("packages/balls".to_string())?;
    assert_eq!(
        member.implied_package_name().map(|n| n.as_str().to_string()),
        Some("balls".to_string())
    );
    let root = ModulePath::new("".to_string())?;
    assert!(root.implied_package_name().is_none());
    assert_eq!(path.len(), 2);
    assert_eq!(path.segment(1).as_str(), "@chastelock/testcase");
    Ok(())
}

#[test]
fn module_path_errors() {
    assert_eq!(
        ModulePath::new("a/".to_string()).unwrap_err(),
        Error::InvalidModulePath("a/".to_string())
    );
    assert!(matches!(
        ModulePath::new("node_modules/.bin".to_string()),
        Err(Error::InvalidPackageName(_))
    ));
}

#[test]
fn segments_rejoin_to_the_path() -> Result<(), Error> {
    let text = "packages/a/node_modules/@scope/b/node_modules/c";
    let path = ModulePath::new(text.to_string())?;
    let mut parts: Vec<String> = Vec::new();
    let mut it = path.iter();
    while let Some(seg) = it.next() {
        parts.push(seg.as_str().to_string());
    }
    assert_eq!(parts, vec!["packages", "a", "node_modules", "@scope/b", "node_modules", "c"]);
    assert_eq!(parts.join("/"), text);
    let again: Vec<String> = {
        let mut v = Vec::new();
        let mut it2 = path.iter();
        while let Some(seg) = it2.next() {
            v.push(seg.as_str().to_string());
        }
        v
    };
    assert_eq!(again, parts);
    let name = path.implied_package_name().unwrap();
    assert_eq!(name.as_str(), "c");
    assert!(text.ends_with(name.as_str()));
    Ok(())
}
