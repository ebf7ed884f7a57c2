use chaste::error::{Error, SVDError};
use chaste::svd::SourceVersionDescriptor;

#[test]
fn npm_svd_basic() -> Result<(), Error> {
    let name = SourceVersionDescriptor::new("^7.0.1".to_string())?;
    assert_eq!(name.aliased_package_name(), None);
    Ok(())
}

#[test]
fn npm_svd_basic_any() -> Result<(), Error> {
    let name = SourceVersionDescriptor::new("*".to_string())?;
    assert_eq!(name.aliased_package_name(), None);
    Ok(())
}

#[test]
fn npm_svd_basic_empty() -> Result<(), Error> {
    let name = SourceVersionDescriptor::new("".to_string())?;
    assert_eq!(name.aliased_package_name(), None);
    Ok(())
}

#[test]
fn npm_svd_alias() -> Result<(), Error> {
    let name = SourceVersionDescriptor::new("npm:chazzwazzer@*".to_string())?;
    assert_eq!(name.aliased_package_name(), Some("chazzwazzer"));
    Ok(())
}

#[test]
fn npm_svd_alias_scoped() -> Result<(), Error> {
    let name = SourceVersionDescriptor::new("@chastelock/testcase@1.0.x".to_string())?;
    assert_eq!(name.aliased_package_name(), Some("@chastelock/testcase"));
    Ok(())
}

#[test]
fn svd_is_npm() -> Result<(), Error> {
    let svd = SourceVersionDescriptor::new("npm:chazzwazzer@*".to_string())?;
    assert!(svd.is_npm());
    assert_eq!(svd.as_str(), "npm:chazzwazzer@*");
    Ok(())
}

#[test]
fn svd_unrecognized() {
    assert_eq!(
        SourceVersionDescriptor::new("%%%".to_string()).map(|d| d.as_str().to_string()),
        Err(Error::SVDError(SVDError::UnrecognizedType("%%%".to_string())))
    );
}
