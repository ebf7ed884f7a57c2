use chaste::chastefile::ChastefileBuilder;
use chaste::dependency::{DependencyBuilder, DependencyKind};
use chaste::error::Error;
use chaste::installation::InstallationBuilder;
use chaste::modpath::ModulePath;
use chaste::name::PackageName;
use chaste::package::PackageBuilder;
use chaste::svs::SourceVersionSpecifier;

#[test]
fn builder_requires_root() {
    let b = ChastefileBuilder::new(());
    assert_eq!(b.build().map(|_| ()).unwrap_err(), Error::MissingRootPackageID);
}

#[test]
fn prod_walk_skips_dev_edges() -> Result<(), Error> {
    let mut b = ChastefileBuilder::new(());
    let root = b.add_package(PackageBuilder::new(None, None).build()?);
    let x = b.add_package(PackageBuilder::new(None, None).build()?);
    let y = b.add_package(PackageBuilder::new(None, None).build()?);
    let z = b.add_package(PackageBuilder::new(None, None).build()?);
    b.add_dependency(DependencyBuilder::new(DependencyKind::Dependency, root, x).build());
    b.add_dependency(DependencyBuilder::new(DependencyKind::DevDependency, root, y).build());
    b.add_dependency(DependencyBuilder::new(DependencyKind::Dependency, y, z).build());
    b.add_dependency(DependencyBuilder::new(DependencyKind::Dependency, x, root).build());
    b.add_package_installation(InstallationBuilder::new(x, ModulePath::new("node_modules/x".to_string())?).build()?);
    b.set_root_package_id(root)?;
    let c = b.build()?;
    assert_eq!(c.recursive_package_dependencies(root).len(), 4);
    assert_eq!(c.recursive_prod_package_dependencies(root).len(), 2);
    assert_eq!(c.root_package_prod_dependencies().len(), 1);
    assert_eq!(c.package_dependents(root).len(), 1);
    assert_eq!(c.package_installations(x).len(), 1);
    assert_eq!(c.packages_with_ids().len(), 4);
    Ok(())
}

#[test]
fn dependency_kinds() {
    assert!(DependencyKind::OptionalPeerDependency.is_optional());
    assert!(DependencyKind::OptionalPeerDependency.is_peer());
    assert!(DependencyKind::DevDependency.is_dev());
    assert!(!DependencyKind::DevDependency.is_prod());
    assert!(DependencyKind::PeerDependency.is_prod());
}

#[test]
fn dependency_builder_keeps_last_calls() -> Result<(), Error> {
    let mut b = ChastefileBuilder::new(());
    let root = b.add_package(PackageBuilder::new(None, None).build()?);
    let x = b.add_package(PackageBuilder::new(None, None).build()?);
    let mut d = DependencyBuilder::new(DependencyKind::PeerDependency, root, x);
    d.alias_name(PackageName::new("first".to_string())?);
    d.svs(SourceVersionSpecifier::new("^1".to_string())?);
    d.alias_name(PackageName::new("second".to_string())?);
    d.svs(SourceVersionSpecifier::new("^2".to_string())?);
    let dep = d.build();
    assert_eq!(dep.kind(), DependencyKind::PeerDependency);
    assert_eq!(dep.from(), root);
    assert_eq!(dep.on(), x);
    assert_eq!(dep.alias_name().unwrap().as_str(), "second");
    assert_eq!(dep.svs().unwrap().as_str(), "^2");
    let plain = DependencyBuilder::new(DependencyKind::Dependency, x, root).build();
    assert!(plain.alias_name().is_none());
    assert!(plain.svs().is_none());
    Ok(())
}

#[test]
fn prod_walk_reaches_within_full_walk() -> Result<(), Error> {
    let mut b = ChastefileBuilder::new(());
    let root = b.add_package(PackageBuilder::new(None, None).build()?);
    let x = b.add_package(PackageBuilder::new(None, None).build()?);
    let y = b.add_package(PackageBuilder::new(None, None).build()?);
    b.add_dependency(DependencyBuilder::new(DependencyKind::Dependency, root, x).build());
    b.add_dependency(DependencyBuilder::new(DependencyKind::DevDependency, x, y).build());
    b.set_root_package_id(root)?;
    let c = b.build()?;
    let all: Vec<_> = c.recursive_package_dependencies(root).iter().map(|d| d.on()).collect();
    for d in c.recursive_prod_package_dependencies(root) {
        assert!(all.contains(&d.on()));
    }
    assert_eq!(all.len(), 2);
    Ok(())
}

#[test]
fn package_version_keeps_its_text() {
    let v = chaste::package::PackageVersion::new("v1.2.3".to_string()).unwrap();
    assert_eq!(v.as_str(), "v1.2.3");
    assert_eq!(v.to_string(), "1.2.3");
    assert!(chaste::package::PackageVersion::new("latest".to_string()).is_err());
    let pkg = chaste::package::PackageBuilder::new(None, Some("1.0.0-beta.1+build.5".to_string()))
        .build()
        .unwrap();
    let version = pkg.version().unwrap();
    assert_eq!(version.as_str(), "1.0.0-beta.1+build.5");
    assert_eq!(version.to_string(), "1.0.0-beta.1+build.5");
}
