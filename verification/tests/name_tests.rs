use chaste::error::Error;
use chaste::name::{package_name_part, package_name_str, PackageName};

#[test]
fn test_positions_scoped() -> Result<(), Error> {
    let name = PackageName::new("@scope/name".to_string())?;
    assert_eq!(name.scope(), Some("@scope"));
    assert_eq!(name.scope_name(), Some("scope"));
    assert_eq!(name.scope_prefix(), Some("@scope/"));
    assert_eq!(name.name_rest(), "name");
    Ok(())
}

#[test]
fn test_positions_unscoped() -> Result<(), Error> {
    let name = PackageName::new("name__1".to_string())?;
    assert_eq!(name.scope(), None);
    assert_eq!(name.scope_name(), None);
    assert_eq!(name.scope_prefix(), None);
    assert_eq!(name.name_rest(), "name__1");
    Ok(())
}

#[test]
fn test_cursed_chars() -> Result<(), Error> {
    let name = PackageName::new("@a/verboden(name~'!*)".to_string())?;
    assert_eq!(name.scope(), Some("@a"));
    assert_eq!(name.scope_name(), Some("a"));
    assert_eq!(name.scope_prefix(), Some("@a/"));
    assert_eq!(name.name_rest(), "verboden(name~'!*)");
    Ok(())
}

fn assert_name_error(name: &str) {
    assert_eq!(
        PackageName::new(name.to_string()),
        Err(Error::InvalidPackageName(name.to_string()))
    );
}

#[test]
fn test_invalid_names() {
    assert_name_error("");
    assert_name_error("ą");
    assert_name_error(".bin");
    assert_name_error("a/");
    assert_name_error("a@a/a");
    assert_name_error("@");
    assert_name_error("@a");
    assert_name_error("@a/");
    assert_name_error("/");
    assert_name_error("@/a");
    assert_name_error("@/");
    assert_name_error("@chastelock/node_modules");
    assert_name_error("node_modules");
}

#[test]
fn borrowed_names_round_trip() -> Result<(), Error> {
    let name = PackageName::new("@scope/name".to_string())?;
    let borrowed = name.as_borrowed();
    assert_eq!(borrowed.as_str(), "@scope/name");
    assert_eq!(borrowed.scope(), Some("@scope"));
    assert_eq!(borrowed.name_rest(), "name");
    assert_eq!(borrowed.to_owned(), name);
    assert_eq!(name.clone().into_string(), "@scope/name".to_string());
    Ok(())
}

#[test]
fn name_recognizers_on_plain_text() {
    assert_eq!(package_name_part("abc/def"), Some(("/def", "abc")));
    assert_eq!(package_name_part("_abc"), None);
    assert_eq!(package_name_part(""), None);
    assert_eq!(package_name_str("@scope/name@1.0.0"), Some(("@1.0.0", "@scope/name")));
    assert_eq!(package_name_str("lodash"), Some(("", "lodash")));
    assert_eq!(package_name_str("node_modules"), None);
    assert_eq!(package_name_str("@scope"), None);
}
