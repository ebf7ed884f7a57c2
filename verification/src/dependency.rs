//! Dependency relations between packages.

use vstd::prelude::*;

use crate::name::{PackageName, PackageNameBorrowed};
use crate::package::{opt_name_view, PackageID};
use crate::svs::SourceVersionSpecifier;

verus! {

/// The type of a [`Dependency`].
#[derive(Debug, PartialEq, Eq, Clone, Copy, Structural)]
#[non_exhaustive]
pub enum DependencyKind {
    /// A regular dependency (`"dependencies"` in package.json), or, depending on the
    /// implementation, any other kind that is not a dev dependency.
    Dependency,
    /// Defined in `"devDependencies"`.
    DevDependency,
    /// Defined in `"peerDependencies"` and not known to be optional.
    PeerDependency,
    /// Defined in `"optionalDependencies"`.
    OptionalDependency,
    /// Defined in `"peerDependencies"` and marked optional in `"peerDependenciesMeta"`.
    OptionalPeerDependency,
}

impl DependencyKind {
    pub open spec fn spec_is_prod(self) -> bool {
        self != DependencyKind::DevDependency
    }

    pub open spec fn spec_is_optional(self) -> bool {
        self == DependencyKind::OptionalDependency || self == DependencyKind::OptionalPeerDependency
    }

    pub open spec fn spec_is_peer(self) -> bool {
        self == DependencyKind::PeerDependency || self == DependencyKind::OptionalPeerDependency
    }

    /// Anything but a dev dependency.
    pub fn is_prod(self) -> (b: bool)
        ensures
            b == self.spec_is_prod(),
    {
        !matches!(self, DependencyKind::DevDependency)
    }

    pub fn is_dev(self) -> (b: bool)
        ensures
            b == !self.spec_is_prod(),
    {
        matches!(self, DependencyKind::DevDependency)
    }

    pub fn is_optional(self) -> (b: bool)
        ensures
            b == self.spec_is_optional(),
    {
        matches!(self, DependencyKind::OptionalDependency | DependencyKind::OptionalPeerDependency)
    }

    pub fn is_peer(self) -> (b: bool)
        ensures
            b == self.spec_is_peer(),
    {
        matches!(self, DependencyKind::PeerDependency | DependencyKind::OptionalPeerDependency)
    }
}

/// A relation of dependency between two packages.
#[derive(Debug)]
pub struct Dependency {
    /// Type of dependency.
    pub kind: DependencyKind,
    /// The package that defined this dependency.
    pub from: PackageID,
    /// The package that is depended on.
    pub on: PackageID,
    alias_name: Option<PackageName>,
    svs: Option<SourceVersionSpecifier>,
}

impl Dependency {
    pub closed spec fn spec_kind(self) -> DependencyKind {
        self.kind
    }

    pub closed spec fn spec_from(self) -> PackageID {
        self.from
    }

    pub closed spec fn spec_on(self) -> PackageID {
        self.on
    }

    /// Type of dependency.
    pub fn kind(&self) -> (r: DependencyKind)
        ensures
            r == self.spec_kind(),
    {
        self.kind
    }

    /// The package that defined this dependency.
    pub fn from(&self) -> (r: PackageID)
        ensures
            r == self.spec_from(),
    {
        self.from
    }

    /// The package that is depended on.
    pub fn on(&self) -> (r: PackageID)
        ensures
            r == self.spec_on(),
    {
        self.on
    }

    pub closed spec fn spec_alias_name(self) -> Option<Seq<char>> {
        opt_name_view(self.alias_name)
    }

    pub closed spec fn spec_svs(self) -> Option<SourceVersionSpecifier> {
        self.svs
    }

    /// The source and version range chosen by the dependent package.
    pub fn svs(&self) -> (r: Option<&SourceVersionSpecifier>)
        ensures
            r == match self.spec_svs() {
                Some(s) => Some(&s),
                None => None,
            },
    {
        self.svs.as_ref()
    }

    /// The name under which an npm dependency aliases a package with another name.
    pub fn alias_name(&self) -> (r: Option<PackageNameBorrowed<'_>>)
        ensures
            match r {
                Some(n) => self.spec_alias_name() == Some(n@),
                None => self.spec_alias_name() is None,
            },
    {
        match &self.alias_name {
            Some(a) => Some(a.as_borrowed()),
            None => None,
        }
    }
}

/// Collects a [`Dependency`].
pub struct DependencyBuilder {
    kind: DependencyKind,
    of: PackageID,
    on: PackageID,
    alias_name: Option<PackageName>,
    svs: Option<SourceVersionSpecifier>,
}

impl DependencyBuilder {
    pub closed spec fn spec_kind(self) -> DependencyKind {
        self.kind
    }

    pub closed spec fn spec_of(self) -> PackageID {
        self.of
    }

    pub closed spec fn spec_on(self) -> PackageID {
        self.on
    }

    pub closed spec fn spec_alias_name(self) -> Option<Seq<char>> {
        opt_name_view(self.alias_name)
    }

    pub closed spec fn spec_svs(self) -> Option<SourceVersionSpecifier> {
        self.svs
    }

    pub fn new(kind: DependencyKind, of: PackageID, on: PackageID) -> (r: DependencyBuilder)
        ensures
            r.spec_kind() == kind,
            r.spec_of() == of,
            r.spec_on() == on,
            r.spec_alias_name() is None,
            r.spec_svs() is None,
    {
        DependencyBuilder { kind, of, on, alias_name: None, svs: None }
    }

    pub fn alias_name(&mut self, alias_name: PackageName)
        ensures
            final(self).spec_kind() == old(self).spec_kind(),
            final(self).spec_of() == old(self).spec_of(),
            final(self).spec_on() == old(self).spec_on(),
            final(self).spec_alias_name() == Some(alias_name@),
            final(self).spec_svs() == old(self).spec_svs(),
    {
        self.alias_name = Some(alias_name);
    }

    pub fn svs(&mut self, svs: SourceVersionSpecifier)
        ensures
            final(self).spec_kind() == old(self).spec_kind(),
            final(self).spec_of() == old(self).spec_of(),
            final(self).spec_on() == old(self).spec_on(),
            final(self).spec_alias_name() == old(self).spec_alias_name(),
            final(self).spec_svs() == Some(svs),
    {
        self.svs = Some(svs);
    }

    pub fn build(self) -> (d: Dependency)
        ensures
            d.spec_kind() == self.spec_kind(),
            d.spec_from() == self.spec_of(),
            d.spec_on() == self.spec_on(),
            d.spec_alias_name() == self.spec_alias_name(),
            d.spec_svs() == self.spec_svs(),
    {
        Dependency {
            kind: self.kind,
            from: self.of,
            on: self.on,
            alias_name: self.alias_name,
            svs: self.svs,
        }
    }
}


/// A call on a dependency builder: naming an alias, or setting the specifier.
pub enum BuilderCall {
    Alias(Seq<char>),
    Svs(SourceVersionSpecifier),
}

/// `b` is `a` after `call`, as [`DependencyBuilder::alias_name`] and
/// [`DependencyBuilder::svs`] state it.
pub open spec fn after_call(a: DependencyBuilder, call: BuilderCall, b: DependencyBuilder) -> bool {
    &&& b.spec_kind() == a.spec_kind()
    &&& b.spec_of() == a.spec_of()
    &&& b.spec_on() == a.spec_on()
    &&& match call {
        BuilderCall::Alias(n) => b.spec_alias_name() == Some(n) && b.spec_svs() == a.spec_svs(),
        BuilderCall::Svs(x) => b.spec_svs() == Some(x) && b.spec_alias_name() == a.spec_alias_name(),
    }
}

/// The last alias named in `calls`.
pub open spec fn last_alias(calls: Seq<BuilderCall>) -> Option<Seq<char>>
    decreases calls.len(),
{
    if calls.len() == 0 {
        None
    } else {
        match calls.last() {
            BuilderCall::Alias(n) => Some(n),
            BuilderCall::Svs(_) => last_alias(calls.drop_last()),
        }
    }
}

/// The last specifier set in `calls`.
pub open spec fn last_svs(calls: Seq<BuilderCall>) -> Option<SourceVersionSpecifier>
    decreases calls.len(),
{
    if calls.len() == 0 {
        None
    } else {
        match calls.last() {
            BuilderCall::Svs(x) => Some(x),
            BuilderCall::Alias(_) => last_svs(calls.drop_last()),
        }
    }
}

/// Whatever calls of `alias_name` and `svs` follow `new`, the builder keeps the kind
/// and both ends given to `new`, the last alias named and the last specifier set
/// (none where none was), which is what `build` hands on.
pub proof fn law_builder_keeps_last(bs: Seq<DependencyBuilder>, calls: Seq<BuilderCall>, kind: DependencyKind, of: PackageID, on: PackageID)
    requires
        bs.len() == calls.len() + 1,
        bs[0].spec_kind() == kind,
        bs[0].spec_of() == of,
        bs[0].spec_on() == on,
        bs[0].spec_alias_name() is None,
        bs[0].spec_svs() is None,
        forall|i: int| 0 <= i < calls.len() ==> after_call(#[trigger] bs[i], calls[i], bs[i + 1]),
    ensures
        bs.last().spec_kind() == kind,
        bs.last().spec_of() == of,
        bs.last().spec_on() == on,
        bs.last().spec_alias_name() == last_alias(calls),
        bs.last().spec_svs() == last_svs(calls),
    decreases calls.len(),
{
    if calls.len() > 0 {
        let n = calls.len() - 1;
        assert forall|i: int| 0 <= i < calls.drop_last().len() implies after_call(#[trigger] bs.drop_last()[i], calls.drop_last()[i], bs.drop_last()[i + 1]) by {
            assert(after_call(bs[i], calls[i], bs[i + 1]));
        }
        law_builder_keeps_last(bs.drop_last(), calls.drop_last(), kind, of, on);
        assert(after_call(bs[n], calls[n], bs[n + 1]));
    }
}

} // verus!
