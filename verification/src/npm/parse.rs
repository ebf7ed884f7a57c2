//! Packages and dependencies of an npm lockfile.

use vstd::prelude::*;
use vstd::string::StrSliceExecFns;

use crate::checksums::{parse_integrity, sri_hashes, Checksums};
use crate::dependency::{Dependency, DependencyBuilder, DependencyKind};
use crate::error::Error as ChasteError;
use crate::modpath::{is_module_path, parse_module_path, spec_implied_package_name, MpErr, ModulePath};
use crate::name::{is_package_name, PackageName};
use crate::npm::paths::{find_pid, lookup_path, path_lookup, path_map_view, spec_find_pid};
use crate::npm::{DependencyTreePackage, Error, Meta, PackageLock, PeerDependencyMeta};
use crate::chastefile::{records_dependency, Chastefile, ChastefileBuilder};
use crate::package::{lemma_pid_at, opt_string_view, pid_at, Package, PackageBuilder, PackageID};
use crate::semver::semver_version_parses;
use crate::installation::InstallationBuilder;
use crate::source::{opt_source_view, PackageSource, SourceView};
use crate::svs::{parse_svs, spec_aliased_name, SourceVersionSpecifier};
use crate::text::{contains_exec, contains_seq, has_at, starts_with_exec, str_eq};

verus! {

/// What a `resolved` URL tells of the source: the default registry, or a git
/// repository when it starts with `git+`.
pub open spec fn spec_recognize_source(r: Seq<char>) -> Option<SourceView> {
    if has_at(r, 0, "https://registry.npmjs.org/"@) {
        Some(SourceView::Npm)
    } else if has_at(r, 0, "git+"@) {
        Some(SourceView::Git(r))
    } else {
        None
    }
}

/// Recognizes the source of a package by its `resolved` URL.
pub fn recognize_source(resolved: &str) -> (r: Option<PackageSource>)
    ensures
        opt_source_view(r) == spec_recognize_source(resolved@),
{
    if starts_with_exec(resolved, "https://registry.npmjs.org/") {
        Some(PackageSource::Npm)
    } else if starts_with_exec(resolved, "git+") {
        Some(PackageSource::Git { url: resolved.to_owned() })
    } else {
        None
    }
}

/// The source that an entry's `resolved` field tells.
pub open spec fn resolved_source(tp: DependencyTreePackage) -> Option<SourceView> {
    match tp.resolved {
        Some(r) => spec_recognize_source(r@),
        None => None,
    }
}

/// The entry's name: its own `name`, else the one its path implies.
pub open spec fn tree_name(tp: DependencyTreePackage, path: Seq<char>) -> Option<Seq<char>> {
    match tp.name {
        Some(n) => Some(n@),
        None => spec_implied_package_name(path),
    }
}

/// The entry's own `name`, when present, is a package name.
pub open spec fn tree_name_ok(tp: DependencyTreePackage) -> bool {
    tp.name matches Some(n) ==> is_package_name(n@)
}

/// The entry's `integrity`, when present, is accepted by the integrity parser.
pub open spec fn tree_integrity_ok(tp: DependencyTreePackage) -> bool {
    tp.integrity matches Some(i) ==> sri_hashes(i@) is Some
}

/// `c` holds the tarball hashes of the entry's integrity, when it has any.
pub open spec fn tree_checksums(c: Option<Checksums>, tp: DependencyTreePackage) -> bool {
    match tp.integrity {
        Some(i) => if sri_hashes(i@) is Some && sri_hashes(i@)->0.len() > 0 {
            c matches Some(Checksums::Tarball(x)) && x@ == sri_hashes(i@)->0
        } else {
            c is None
        },
        None => c is None,
    }
}

/// Reads the package of an entry installed at `path`.
pub fn parse_package(path: &ModulePath, tree_package: &DependencyTreePackage) -> (r: Result<
    PackageBuilder,
    Error,
>)
    ensures
        match r {
            Ok(b) => {
                &&& tree_name_ok(*tree_package)
                &&& tree_integrity_ok(*tree_package)
                &&& b.spec_name() == tree_name(*tree_package, path@)
                &&& b.spec_version() == opt_string_view(tree_package.version)
                &&& tree_checksums(b.spec_checksums(), *tree_package)
                &&& opt_source_view(b.spec_source()) == resolved_source(*tree_package)
                &&& b.spec_derived() is None
            },
            Err(e) => if !tree_name_ok(*tree_package) {
                e matches Error::ChasteError(ChasteError::InvalidPackageName(n)) && Some(n@)
                    == opt_string_view(tree_package.name)
            } else {
                !tree_integrity_ok(*tree_package) && e is SSRIError
            },
        },
{
    let mut name = match &tree_package.name {
        Some(s) => match PackageName::new(s.clone()) {
            Ok(n) => Some(n),
            Err(e) => {
                return Err(Error::ChasteError(e));
            },
        },
        None => None,
    };
    // Most entries have no name: the path implies it.
    if name.is_none() {
        name = path.implied_package_name();
    }
    let mut pkg = PackageBuilder::new(name, tree_package.version.clone());
    if let Some(integrity) = &tree_package.integrity {
        let inte = match parse_integrity(integrity.as_str()) {
            Ok(i) => i,
            Err(e) => {
                return Err(Error::SSRIError(e));
            },
        };
        if !inte.is_empty() {
            pkg.checksums(Checksums::Tarball(inte));
        }
    }
    if let Some(resolved) = &tree_package.resolved {
        if let Some(source) = recognize_source(resolved.as_str()) {
            pkg.source(source);
        }
    }
    Ok(pkg)
}

/// A dependency as an entry requests it: the name, the specifier, the kind.
pub type DepRequest = (Seq<char>, Seq<char>, DependencyKind);

pub open spec fn requests_of(deps: Seq<(String, String)>, kind: DependencyKind) -> Seq<DepRequest> {
    deps.map_values(|p: (String, String)| (p.0@, p.1@, kind))
}

/// Whether the peer dependency `name` is marked optional (the last record for it counts).
pub open spec fn peer_is_optional(meta: Seq<(String, PeerDependencyMeta)>, name: Seq<char>) -> bool
    decreases meta.len(),
{
    if meta.len() == 0 {
        false
    } else if meta.last().0@ == name {
        meta.last().1.optional == Some(true)
    } else {
        peer_is_optional(meta.drop_last(), name)
    }
}

pub open spec fn peer_kind(meta: Seq<(String, PeerDependencyMeta)>, name: Seq<char>) -> DependencyKind {
    if peer_is_optional(meta, name) {
        DependencyKind::OptionalPeerDependency
    } else {
        DependencyKind::PeerDependency
    }
}

/// The requests of an entry: dependencies, dev dependencies, peer dependencies and
/// optional dependencies, in this order.
pub open spec fn dep_requests(tp: DependencyTreePackage) -> Seq<DepRequest> {
    requests_of(tp.dependencies@, DependencyKind::Dependency) + requests_of(
        tp.dev_dependencies@,
        DependencyKind::DevDependency,
    ) + tp.peer_dependencies@.map_values(
        |p: (String, String)| (p.0@, p.1@, peer_kind(tp.peer_dependencies_meta@, p.0@)),
    ) + requests_of(tp.optional_dependencies@, DependencyKind::OptionalDependency)
}

/// What a request comes to.
pub enum ReqOutcome {
    /// A dependency on this package.
    Added(PackageID),
    /// Not installed, which a peer or optional dependency may be.
    Skipped,
    NotFound,
    BadSpecifier,
    BadAlias,
}

pub open spec fn req_outcome(q: DepRequest, path: Seq<char>, m: Seq<(Seq<char>, PackageID)>) -> ReqOutcome {
    match spec_find_pid(path, q.0, m) {
        Some(pid) => match parse_svs(q.1, None) {
            None => ReqOutcome::BadSpecifier,
            Some(pos) => if spec_aliased_name(q.1, pos) is Some && !is_package_name(q.0) {
                ReqOutcome::BadAlias
            } else {
                ReqOutcome::Added(pid)
            },
        },
        None => if q.2.spec_is_peer() || q.2.spec_is_optional() {
            ReqOutcome::Skipped
        } else {
            ReqOutcome::NotFound
        },
    }
}

pub open spec fn outcome_ok(o: ReqOutcome) -> bool {
    o is Added || o is Skipped
}

/// `e` is the error of a failed request.
pub open spec fn outcome_error(o: ReqOutcome, q: DepRequest, e: Error) -> bool {
    match o {
        ReqOutcome::NotFound => e matches Error::DependencyNotFound(n) && n@ == q.0,
        ReqOutcome::BadSpecifier => e matches Error::ChasteError(ChasteError::InvalidSVS(s)) && s@
            == q.1,
        ReqOutcome::BadAlias => e matches Error::ChasteError(ChasteError::InvalidPackageName(n))
            && n@ == q.0,
        _ => false,
    }
}

/// A dependency as plain values: kind, target, specifier and alias.
pub struct DepView {
    pub kind: DependencyKind,
    pub on: PackageID,
    pub svs: Seq<char>,
    pub alias: Option<Seq<char>>,
}

/// The dependencies that the requests add, in order.
pub open spec fn added_deps(reqs: Seq<DepRequest>, path: Seq<char>, m: Seq<(Seq<char>, PackageID)>) -> Seq<
    DepView,
>
    decreases reqs.len(),
{
    if reqs.len() == 0 {
        Seq::empty()
    } else {
        let prev = added_deps(reqs.drop_last(), path, m);
        let q = reqs.last();
        match req_outcome(q, path, m) {
            ReqOutcome::Added(pid) => prev.push(
                DepView {
                    kind: q.2,
                    on: pid,
                    svs: q.1,
                    alias: if spec_aliased_name(q.1, parse_svs(q.1, None)->0) is Some {
                        Some(q.0)
                    } else {
                        None
                    },
                },
            ),
            _ => prev,
        }
    }
}

pub open spec fn dep_matches(d: Dependency, v: DepView, from: PackageID) -> bool {
    &&& d.spec_kind() == v.kind
    &&& d.spec_from() == from
    &&& d.spec_on() == v.on
    &&& d.spec_alias_name() == v.alias
    &&& d.spec_svs() matches Some(s) && s@ == v.svs
}

/// All requests succeed.
pub open spec fn requests_ok(reqs: Seq<DepRequest>, path: Seq<char>, m: Seq<(Seq<char>, PackageID)>) -> bool {
    forall|i: int| 0 <= i < reqs.len() ==> outcome_ok(#[trigger] req_outcome(reqs[i], path, m))
}

pub open spec fn req_view(r: Seq<(&str, &str, DependencyKind)>) -> Seq<DepRequest> {
    r.map_values(|q: (&str, &str, DependencyKind)| (q.0@, q.1@, q.2))
}

fn push_requests<'a>(
    out: &mut Vec<(&'a str, &'a str, DependencyKind)>,
    deps: &'a Vec<(String, String)>,
    kind: DependencyKind,
)
    ensures
        req_view(final(out)@) == req_view(old(out)@) + requests_of(deps@, kind),
{
    let ghost start = req_view(out@);
    let mut i: usize = 0;
    while i < deps.len()
        invariant
            i <= deps.len(),
            req_view(out@) == start + requests_of(deps@.take(i as int), kind),
        decreases deps.len() - i,
    {
        let ghost prev = out@;
        out.push((deps[i].0.as_str(), deps[i].1.as_str(), kind));
        proof {
            assert(deps@.take(i + 1) =~= deps@.take(i as int).push(deps@[i as int]));
            assert(req_view(out@) =~= req_view(prev).push((deps@[i as int].0@, deps@[i as int].1@, kind)));
            assert(requests_of(deps@.take(i + 1), kind) =~= requests_of(deps@.take(i as int), kind).push(
                (deps@[i as int].0@, deps@[i as int].1@, kind),
            ));
            assert(req_view(out@) =~= start + requests_of(deps@.take(i + 1), kind));
        }
        i = i + 1;
    }
    assert(deps@.take(deps.len() as int) =~= deps@);
}

fn is_optional_peer(meta: &Vec<(String, PeerDependencyMeta)>, name: &str) -> (b: bool)
    ensures
        b == peer_is_optional(meta@, name@),
{
    let mut i = meta.len();
    assert(meta@.take(i as int) =~= meta@);
    while i > 0
        invariant
            i <= meta.len(),
            peer_is_optional(meta@, name@) == peer_is_optional(meta@.take(i as int), name@),
        decreases i,
    {
        assert(meta@.take(i as int).drop_last() =~= meta@.take(i - 1));
        if str_eq(meta[i - 1].0.as_str(), name) {
            return meta[i - 1].1.optional == Some(true);
        }
        i = i - 1;
    }
    false
}

fn requests(tp: &DependencyTreePackage) -> (r: Vec<(&str, &str, DependencyKind)>)
    ensures
        req_view(r@) == dep_requests(*tp),
{
    let mut r: Vec<(&str, &str, DependencyKind)> = Vec::new();
    assert(req_view(r@) =~= Seq::<DepRequest>::empty());
    push_requests(&mut r, &tp.dependencies, DependencyKind::Dependency);
    push_requests(&mut r, &tp.dev_dependencies, DependencyKind::DevDependency);
    let ghost before = req_view(r@);
    let peers = &tp.peer_dependencies;
    let ghost pk = tp.peer_dependencies@.map_values(
        |p: (String, String)| (p.0@, p.1@, peer_kind(tp.peer_dependencies_meta@, p.0@)),
    );
    let mut i: usize = 0;
    while i < peers.len()
        invariant
            i <= peers.len(),
            peers == &tp.peer_dependencies,
            pk == tp.peer_dependencies@.map_values(
                |p: (String, String)| (p.0@, p.1@, peer_kind(tp.peer_dependencies_meta@, p.0@)),
            ),
            req_view(r@) == before + pk.take(i as int),
        decreases peers.len() - i,
    {
        let n = peers[i].0.as_str();
        let kind = if is_optional_peer(&tp.peer_dependencies_meta, n) {
            DependencyKind::OptionalPeerDependency
        } else {
            DependencyKind::PeerDependency
        };
        let ghost prev = r@;
        r.push((n, peers[i].1.as_str(), kind));
        proof {
            assert(req_view(r@) =~= req_view(prev).push((n@, peers@[i as int].1@, kind)));
            assert(pk.take(i + 1) =~= pk.take(i as int).push(pk[i as int]));
            assert(req_view(r@) =~= before + pk.take(i + 1));
        }
        i = i + 1;
    }
    assert(pk.take(peers.len() as int) =~= pk);
    push_requests(&mut r, &tp.optional_dependencies, DependencyKind::OptionalDependency);
    r
}

/// The dependencies of the entry at `path`, each resolved with [`spec_find_pid`]. A
/// peer or optional dependency that is not installed is left out.
pub fn parse_dependencies(
    path: &str,
    tree_package: &DependencyTreePackage,
    path_pid: &Vec<(String, PackageID)>,
    self_pid: PackageID,
) -> (r: Result<Vec<Dependency>, Error>)
    ensures
        ({
            let reqs = dep_requests(*tree_package);
            let m = path_map_view(path_pid@);
            match r {
                Ok(v) => {
                    &&& requests_ok(reqs, path@, m)
                    &&& v@.len() == added_deps(reqs, path@, m).len()
                    &&& forall|j: int|
                        0 <= j < v@.len() ==> dep_matches(
                            #[trigger] v@[j],
                            added_deps(reqs, path@, m)[j],
                            self_pid,
                        )
                },
                Err(e) => exists|i: int|
                    0 <= i < reqs.len() && (forall|j: int|
                        0 <= j < i ==> outcome_ok(#[trigger] req_outcome(reqs[j], path@, m)))
                        && outcome_error(req_outcome(reqs[i], path@, m), reqs[i], e),
            }
        }),
{
    let reqs = requests(tree_package);
    let ghost rq = dep_requests(*tree_package);
    let ghost m = path_map_view(path_pid@);
    let mut dependencies: Vec<Dependency> = Vec::new();
    let mut i: usize = 0;
    while i < reqs.len()
        invariant
            i <= reqs.len(),
            req_view(reqs@) == rq,
            rq == dep_requests(*tree_package),
            m == path_map_view(path_pid@),
            forall|j: int| 0 <= j < i ==> outcome_ok(#[trigger] req_outcome(rq[j], path@, m)),
            dependencies@.len() == added_deps(rq.take(i as int), path@, m).len(),
            forall|j: int|
                0 <= j < dependencies@.len() ==> dep_matches(
                    #[trigger] dependencies@[j],
                    added_deps(rq.take(i as int), path@, m)[j],
                    self_pid,
                ),
        decreases reqs.len() - i,
    {
        let (n, s, kind) = reqs[i];
        let ghost q = rq[i as int];
        assert(q == (n@, s@, kind));
        assert(rq.take(i + 1).drop_last() =~= rq.take(i as int));
        assert(rq.take(i + 1).last() == q);
        match find_pid(path, n, path_pid) {
            Ok(pid) => {
                let mut dep = DependencyBuilder::new(kind, self_pid, pid);
                let svs = match SourceVersionSpecifier::new(s.to_owned()) {
                    Ok(x) => x,
                    Err(e) => {
                        return Err(Error::ChasteError(e));
                    },
                };
                if svs.aliased_package_name().is_some() {
                    match PackageName::new(n.to_owned()) {
                        Ok(alias) => dep.alias_name(alias),
                        Err(e) => {
                            return Err(Error::ChasteError(e));
                        },
                    }
                }
                dep.svs(svs);
                let d = dep.build();
                dependencies.push(d);
                proof {
                    assert(req_outcome(q, path@, m) == ReqOutcome::Added(pid));
                    let ghost a = added_deps(rq.take(i + 1), path@, m);
                    assert(a == added_deps(rq.take(i as int), path@, m).push(a.last()));
                    assert forall|j: int| 0 <= j < dependencies@.len() implies dep_matches(
                        #[trigger] dependencies@[j],
                        a[j],
                        self_pid,
                    ) by {
                        if j < dependencies@.len() - 1 {
                            assert(dependencies@[j] == dependencies@.drop_last()[j]);
                        }
                    }
                }
            },
            Err(e) => {
                if !(kind.is_peer() || kind.is_optional()) {
                    return Err(e);
                }
                assert(added_deps(rq.take(i + 1), path@, m) == added_deps(rq.take(i as int), path@, m));
            },
        }
        i = i + 1;
    }
    assert(rq.take(reqs.len() as int) =~= rq);
    Ok(dependencies)
}


/// Whether an entry links to another one.
pub open spec fn is_link(e: (String, DependencyTreePackage)) -> bool {
    e.1.link == Some(true)
}

/// The entries that are links (`link`), or that are not, in order.
pub open spec fn entries_where(s: Seq<(String, DependencyTreePackage)>, link: bool) -> Seq<
    (String, DependencyTreePackage),
>
    decreases s.len(),
{
    if s.len() == 0 {
        Seq::empty()
    } else {
        let prev = entries_where(s.drop_last(), link);
        if is_link(s.last()) == link {
            prev.push(s.last())
        } else {
            prev
        }
    }
}

/// The selected entries of a prefix are a prefix of the selected entries.
pub proof fn lemma_entries_where_prefix(s: Seq<(String, DependencyTreePackage)>, i: int, link: bool)
    requires
        0 <= i <= s.len(),
    ensures
        entries_where(s.take(i), link).len() <= entries_where(s, link).len(),
        forall|k: int|
            0 <= k < entries_where(s.take(i), link).len() ==> entries_where(s.take(i), link)[k]
                == entries_where(s, link)[k],
    decreases s.len(),
{
    if i == s.len() {
        assert(s.take(i) =~= s);
    } else {
        let t = s.drop_last();
        assert(s.take(i) =~= t.take(i));
        lemma_entries_where_prefix(t, i, link);
    }
}

/// The name of an entry's package: its own, the one its path implies, or, for the
/// project itself, the lockfile's name.
pub open spec fn entry_name(lock_name: Seq<char>, e: (String, DependencyTreePackage)) -> Option<
    Seq<char>,
> {
    match tree_name(e.1, e.0@) {
        Some(n) => Some(n),
        None => if e.0@.len() == 0 {
            Some(lock_name)
        } else {
            None
        },
    }
}

/// The entry's path, name, integrity and version are all accepted.
pub open spec fn entry_ok(lock_name: Seq<char>, e: (String, DependencyTreePackage)) -> bool {
    &&& is_module_path(e.0@)
    &&& tree_name_ok(e.1)
    &&& tree_integrity_ok(e.1)
    &&& (e.0@.len() == 0 && tree_name(e.1, e.0@) is None ==> is_package_name(lock_name))
    &&& (e.1.version matches Some(v) ==> semver_version_parses(v@))
}

/// `p` is the package read from the entry.
pub open spec fn package_matches(p: Package, lock_name: Seq<char>, e: (String, DependencyTreePackage)) -> bool {
    &&& p.spec_name() == entry_name(lock_name, e)
    &&& p.spec_version() == opt_string_view(e.1.version)
    &&& tree_checksums(p.spec_checksums(), e.1)
    &&& opt_source_view(p.spec_source()) == resolved_source(e.1)
    &&& p.spec_derived() is None
}

/// The path of each entry, with the id of its package.
pub open spec fn package_map(nl: Seq<(String, DependencyTreePackage)>) -> Seq<(Seq<char>, PackageID)> {
    Seq::new(nl.len(), |k: int| (nl[k].0@, pid_at(k as nat)))
}

/// The package that a link entry points to, by its `resolved` path.
pub open spec fn link_target(e: (String, DependencyTreePackage), m: Seq<(Seq<char>, PackageID)>) -> Option<
    PackageID,
> {
    match e.1.resolved {
        Some(r) => path_lookup(m, r@),
        None => None,
    }
}

/// The path map with the links recorded in order, each to the package it points to;
/// `None` when one points nowhere.
pub open spec fn link_map(links: Seq<(String, DependencyTreePackage)>, m: Seq<(Seq<char>, PackageID)>) -> Option<
    Seq<(Seq<char>, PackageID)>,
>
    decreases links.len(),
{
    if links.len() == 0 {
        Some(m)
    } else {
        match link_map(links.drop_last(), m) {
            None => None,
            Some(prev) => match link_target(links.last(), prev) {
                Some(p) => Some(prev.push((links.last().0@, p))),
                None => None,
            },
        }
    }
}

/// The last entry at the project root.
pub open spec fn last_root(nl: Seq<(String, DependencyTreePackage)>) -> Option<nat>
    decreases nl.len(),
{
    if nl.len() == 0 {
        None
    } else if nl.last().0@.len() == 0 {
        Some((nl.len() - 1) as nat)
    } else {
        last_root(nl.drop_last())
    }
}

pub open spec fn root_pid(nl: Seq<(String, DependencyTreePackage)>) -> Option<PackageID> {
    match last_root(nl) {
        Some(k) => Some(pid_at(k)),
        None => None,
    }
}

/// A path of a workspace member: not the root, and not under `node_modules`.
pub open spec fn is_member_path(p: Seq<char>) -> bool {
    p.len() > 0 && !has_at(p, 0, "node_modules/"@) && !contains_seq(p, "/node_modules/"@)
}

/// The ids of the entries at workspace member paths.
pub open spec fn member_ids(nl: Seq<(String, DependencyTreePackage)>) -> Seq<PackageID>
    decreases nl.len(),
{
    if nl.len() == 0 {
        Seq::empty()
    } else if is_member_path(nl.last().0@) {
        member_ids(nl.drop_last()).push(pid_at((nl.len() - 1) as nat))
    } else {
        member_ids(nl.drop_last())
    }
}

/// The dependencies of all entries, each with the id of the dependent.
pub open spec fn all_deps(nl: Seq<(String, DependencyTreePackage)>, m: Seq<(Seq<char>, PackageID)>) -> Seq<
    (DepView, PackageID),
>
    decreases nl.len(),
{
    if nl.len() == 0 {
        Seq::empty()
    } else {
        all_deps(nl.drop_last(), m) + added_deps(dep_requests(nl.last().1), nl.last().0@, m).map_values(
            |d: DepView| (d, pid_at((nl.len() - 1) as nat)),
        )
    }
}

/// The lockfile has a known version, valid entries, links that point to packages,
/// dependencies that resolve, and a root entry.
pub open spec fn lock_ok(lock: PackageLock) -> bool {
    let nl = entries_where(lock.packages@, false);
    let lk = entries_where(lock.packages@, true);
    &&& (lock.lockfile_version == 2 || lock.lockfile_version == 3)
    &&& forall|k: int| 0 <= k < nl.len() ==> entry_ok(lock.name@, #[trigger] nl[k])
    &&& forall|j: int| 0 <= j < lk.len() ==> is_module_path(#[trigger] lk[j].0@)
    &&& link_map(lk, package_map(nl)) is Some
    &&& forall|k: int|
        0 <= k < nl.len() ==> requests_ok(
            dep_requests(#[trigger] nl[k].1),
            nl[k].0@,
            link_map(lk, package_map(nl))->0,
        )
    &&& last_root(nl) is Some
}

/// A check that reading a lockfile makes, in the order they are made.
pub enum LockCheck {
    /// The lockfile's version is 2 or 3.
    Version,
    /// Every installed entry is a valid package at a valid path.
    Entries,
    /// Every link is at a valid path and points to an installed entry.
    Links,
    /// Every dependency of every entry is found from where the entry is installed.
    Requests,
    /// Some entry is the root package.
    Root,
}

/// The position of the first element of `s` that `ok` refuses, if any.
pub open spec fn first_bad<A>(s: Seq<A>, ok: spec_fn(A) -> bool) -> Option<int>
    decreases s.len(),
{
    if s.len() == 0 {
        None
    } else {
        match first_bad(s.drop_last(), ok) {
            Some(k) => Some(k),
            None => if !ok(s.last()) {
                Some(s.len() - 1)
            } else {
                None
            },
        }
    }
}

pub proof fn lemma_first_bad<A>(s: Seq<A>, ok: spec_fn(A) -> bool)
    ensures
        first_bad(s, ok) is None <==> forall|k: int| 0 <= k < s.len() ==> ok(#[trigger] s[k]),
        first_bad(s, ok) matches Some(k) ==> 0 <= k < s.len() && !ok(s[k]) && forall|q: int|
            0 <= q < k ==> ok(#[trigger] s[q]),
    decreases s.len(),
{
    if s.len() > 0 {
        lemma_first_bad(s.drop_last(), ok);
        assert forall|k: int| 0 <= k < s.len() - 1 implies s.drop_last()[k] == s[k] by {}
        if first_bad(s.drop_last(), ok) is None && ok(s.last()) {
            assert forall|k: int| 0 <= k < s.len() implies ok(#[trigger] s[k]) by {
                if k < s.len() - 1 {
                    assert(ok(s.drop_last()[k]));
                }
            }
        }
        if first_bad(s.drop_last(), ok) is Some {
            assert(!ok(s.drop_last()[first_bad(s.drop_last(), ok)->0]));
        }
    }
}

/// What the first refused element of a prefix is, it is of the whole sequence.
pub proof fn lemma_first_bad_prefix<A>(t: Seq<A>, s: Seq<A>, ok: spec_fn(A) -> bool)
    requires
        t.len() <= s.len(),
        forall|k: int| 0 <= k < t.len() ==> t[k] == s[k],
        first_bad(t, ok) is Some,
    ensures
        first_bad(s, ok) == first_bad(t, ok),
    decreases s.len(),
{
    if s.len() == t.len() {
        assert(s =~= t);
    } else {
        lemma_first_bad_prefix(t, s.drop_last(), ok);
    }
}

/// The check of an entry.
pub open spec fn entry_pred(lock_name: Seq<char>) -> spec_fn((String, DependencyTreePackage)) -> bool {
    |e: (String, DependencyTreePackage)| entry_ok(lock_name, e)
}

/// The check of the requests of an entry, against the path map `m`.
pub open spec fn reqs_pred(m: Seq<(Seq<char>, PackageID)>) -> spec_fn((String, DependencyTreePackage)) -> bool {
    |e: (String, DependencyTreePackage)| requests_ok(dep_requests(e.1), e.0@, m)
}

/// The error reported for a refused module path.
pub open spec fn modpath_error(s: Seq<char>, e: Error) -> bool {
    match parse_module_path(s) {
        Err(MpErr::Path) => e matches Error::ChasteError(ChasteError::InvalidModulePath(v)) && v@ == s,
        Err(MpErr::Name(a, b)) => e matches Error::ChasteError(ChasteError::InvalidPackageName(t))
            && t@ == s.subrange(a, b),
        Ok(_) => false,
    }
}

/// `e` is the error reported for an entry that is refused: its path, its name, its
/// integrity, the lockfile's name for an unnamed root, then its version, in this
/// order; the first that fails decides.
pub open spec fn entry_error(lock_name: Seq<char>, ent: (String, DependencyTreePackage), e: Error) -> bool {
    if !is_module_path(ent.0@) {
        modpath_error(ent.0@, e)
    } else if !tree_name_ok(ent.1) {
        e matches Error::ChasteError(ChasteError::InvalidPackageName(n)) && Some(n@) == opt_string_view(
            ent.1.name,
        )
    } else if !tree_integrity_ok(ent.1) {
        e is SSRIError
    } else if ent.0@.len() == 0 && tree_name(ent.1, ent.0@) is None && !is_package_name(lock_name) {
        e matches Error::ChasteError(ChasteError::InvalidPackageName(n)) && n@ == lock_name
    } else {
        e matches Error::ChasteError(ChasteError::SemverError(_))
    }
}

/// The links recorded in order, each at its path with the package it points to, or
/// the first link that fails: `true` when it points nowhere, `false` when its path is
/// not a module path.
pub open spec fn links_run(links: Seq<(String, DependencyTreePackage)>, m: Seq<(Seq<char>, PackageID)>) -> Result<
    Seq<(Seq<char>, PackageID)>,
    ((String, DependencyTreePackage), bool),
>
    decreases links.len(),
{
    if links.len() == 0 {
        Ok(m)
    } else {
        match links_run(links.drop_last(), m) {
            Err(x) => Err(x),
            Ok(prev) => match link_target(links.last(), prev) {
                None => Err((links.last(), true)),
                Some(p) => if !is_module_path(links.last().0@) {
                    Err((links.last(), false))
                } else {
                    Ok(prev.push((links.last().0@, p)))
                },
            },
        }
    }
}

/// The error reported for a link that fails: one that points nowhere gives its path.
pub open spec fn link_error(l: (String, DependencyTreePackage), missing: bool, e: Error) -> bool {
    if missing {
        e matches Error::WorkspaceMemberNotFound(p) && p@ == l.0@
    } else {
        modpath_error(l.0@, e)
    }
}

/// The error reported for requests that fail: that of the first request that fails.
pub open spec fn reqs_error(reqs: Seq<DepRequest>, path: Seq<char>, m: Seq<(Seq<char>, PackageID)>, e: Error) -> bool {
    exists|i: int|
        0 <= i < reqs.len() && (forall|j: int| 0 <= j < i ==> outcome_ok(#[trigger] req_outcome(reqs[j], path, m)))
            && outcome_error(req_outcome(reqs[i], path, m), reqs[i], e)
}

/// The links succeed exactly when they all point to packages and lie at module
/// paths, with the same path map.
pub proof fn lemma_links_run(links: Seq<(String, DependencyTreePackage)>, m: Seq<(Seq<char>, PackageID)>)
    ensures
        links_run(links, m) is Ok <==> (link_map(links, m) is Some && forall|j: int|
            0 <= j < links.len() ==> is_module_path(#[trigger] links[j].0@)),
        links_run(links, m) matches Ok(x) ==> link_map(links, m) == Some(x),
    decreases links.len(),
{
    if links.len() > 0 {
        let d = links.drop_last();
        lemma_links_run(d, m);
        assert forall|j: int| 0 <= j < d.len() implies d[j] == links[j] by {}
        if links_run(links, m) is Ok {
            assert forall|j: int| 0 <= j < links.len() implies is_module_path(#[trigger] links[j].0@) by {
                if j < d.len() {
                    assert(is_module_path(d[j].0@));
                }
            }
        }
        if link_map(links, m) is Some && forall|j: int| 0 <= j < links.len() ==> is_module_path(#[trigger] links[j].0@) {
            assert forall|j: int| 0 <= j < d.len() implies is_module_path(#[trigger] d[j].0@) by {
                assert(is_module_path(links[j].0@));
            }
            assert(is_module_path(links[links.len() - 1].0@));
        }
    }
}

/// A link that fails in a prefix fails the whole sequence of links.
pub proof fn lemma_links_run_prefix(
    t: Seq<(String, DependencyTreePackage)>,
    s: Seq<(String, DependencyTreePackage)>,
    m: Seq<(Seq<char>, PackageID)>,
)
    requires
        t.len() <= s.len(),
        forall|k: int| 0 <= k < t.len() ==> t[k] == s[k],
        links_run(t, m) is Err,
    ensures
        links_run(s, m) == links_run(t, m),
    decreases s.len(),
{
    if s.len() == t.len() {
        assert(s =~= t);
    } else {
        lemma_links_run_prefix(t, s.drop_last(), m);
    }
}

/// The first check that `lock` fails, if any.
pub open spec fn first_failed_check(lock: PackageLock) -> Option<LockCheck> {
    let nl = entries_where(lock.packages@, false);
    let lk = entries_where(lock.packages@, true);
    if !(lock.lockfile_version == 2 || lock.lockfile_version == 3) {
        Some(LockCheck::Version)
    } else if first_bad(nl, entry_pred(lock.name@)) is Some {
        Some(LockCheck::Entries)
    } else if links_run(lk, package_map(nl)) is Err {
        Some(LockCheck::Links)
    } else if first_bad(nl, reqs_pred(links_run(lk, package_map(nl))->Ok_0)) is Some {
        Some(LockCheck::Requests)
    } else if last_root(nl) is None {
        Some(LockCheck::Root)
    } else {
        None
    }
}

/// A lockfile is accepted exactly when none of the checks fails.
pub proof fn lemma_lock_ok_checks(lock: PackageLock)
    ensures
        lock_ok(lock) <==> first_failed_check(lock) is None,
{
    let nl = entries_where(lock.packages@, false);
    let lk = entries_where(lock.packages@, true);
    lemma_first_bad(nl, entry_pred(lock.name@));
    lemma_links_run(lk, package_map(nl));
    if links_run(lk, package_map(nl)) is Ok {
        let m = links_run(lk, package_map(nl))->Ok_0;
        lemma_first_bad(nl, reqs_pred(m));
        if lock_ok(lock) {
            assert forall|k: int| 0 <= k < nl.len() implies (entry_pred(lock.name@))(#[trigger] nl[k]) by {
                assert(entry_ok(lock.name@, nl[k]));
            }
            assert forall|k: int| 0 <= k < nl.len() implies (reqs_pred(m))(#[trigger] nl[k]) by {
                assert(requests_ok(dep_requests(nl[k].1), nl[k].0@, m));
            }
        }
        if first_failed_check(lock) is None {
            assert forall|k: int| 0 <= k < nl.len() implies entry_ok(lock.name@, #[trigger] nl[k]) by {
                assert((entry_pred(lock.name@))(nl[k]));
            }
            assert forall|k: int| 0 <= k < nl.len() implies requests_ok(dep_requests(#[trigger] nl[k].1), nl[k].0@, m) by {
                assert((reqs_pred(m))(nl[k]));
            }
        }
    } else if lock_ok(lock) {
        assert forall|j: int| 0 <= j < lk.len() implies is_module_path(#[trigger] lk[j].0@) by {}
    }
}

/// `e` is the error reported for `lock`: the one the first failing check gives.
pub open spec fn lock_error(lock: PackageLock, e: Error) -> bool {
    let nl = entries_where(lock.packages@, false);
    let lk = entries_where(lock.packages@, true);
    let name = lock.name@;
    match first_failed_check(lock) {
        Some(LockCheck::Version) => e == Error::UnknownLockVersion(lock.lockfile_version),
        Some(LockCheck::Entries) => first_bad(nl, entry_pred(name)) matches Some(k) && entry_error(
            name,
            nl[k],
            e,
        ),
        Some(LockCheck::Links) => links_run(lk, package_map(nl)) matches Err((l, missing)) && link_error(
            l,
            missing,
            e,
        ),
        Some(LockCheck::Requests) => {
            let m = links_run(lk, package_map(nl))->Ok_0;
            first_bad(nl, reqs_pred(m)) matches Some(k) && reqs_error(dep_requests(nl[k].1), nl[k].0@, m, e)
        },
        Some(LockCheck::Root) => e == Error::ChasteError(ChasteError::MissingRootPackageID),
        None => false,
    }
}

/// The chastefile that the lockfile describes.
pub open spec fn chastefile_matches(c: Chastefile<Meta>, lock: PackageLock) -> bool {
    let nl = entries_where(lock.packages@, false);
    let lk = entries_where(lock.packages@, true);
    let m = link_map(lk, package_map(nl))->0;
    &&& c.spec_meta().lockfile_version == lock.lockfile_version
    &&& c.spec_packages().len() == nl.len()
    &&& forall|k: int|
        0 <= k < nl.len() ==> package_matches(#[trigger] c.spec_packages()[k], lock.name@, nl[k])
    &&& c.spec_installations().len() == nl.len() + lk.len()
    &&& forall|k: int|
        0 <= k < nl.len() ==> (#[trigger] c.spec_installations()[k]).spec_package_id() == pid_at(
            k as nat,
        ) && c.spec_installations()[k].spec_path()@ == nl[k].0@
    &&& forall|j: int|
        0 <= j < lk.len() ==> (#[trigger] c.spec_installations()[nl.len() + j]).spec_package_id()
            == m[nl.len() + j].1 && c.spec_installations()[nl.len() + j].spec_path()@ == lk[j].0@
    &&& Some(c.spec_root()) == root_pid(nl)
    &&& c.spec_members() == member_ids(nl)
    &&& c.deps().len() == all_deps(nl, m).len()
    &&& forall|j: int|
        0 <= j < c.deps().len() ==> dep_matches(
            #[trigger] c.deps()[j],
            all_deps(nl, m)[j].0,
            all_deps(nl, m)[j].1,
        )
}


/// The state after the packages of the non-link entries `nl` are added.
pub open spec fn packages_added(
    b: ChastefileBuilder<Meta>,
    path_pid: Seq<(String, PackageID)>,
    lock_name: Seq<char>,
    nl: Seq<(String, DependencyTreePackage)>,
) -> bool {
    &&& b.spec_packages().len() == nl.len()
    &&& forall|k: int|
        0 <= k < nl.len() ==> package_matches(#[trigger] b.spec_packages()[k], lock_name, nl[k])
    &&& b.spec_installations().len() == nl.len()
    &&& forall|k: int|
        0 <= k < nl.len() ==> (#[trigger] b.spec_installations()[k]).spec_package_id() == pid_at(
            k as nat,
        ) && b.spec_installations()[k].spec_path()@ == nl[k].0@
    &&& b.spec_root() == root_pid(nl)
    &&& b.spec_members() == member_ids(nl)
    &&& b.deps() == Seq::<Dependency>::empty()
    &&& path_map_view(path_pid) == package_map(nl)
}

/// When a prefix is accepted up to its last element, which is refused, that element
/// is the first refused of the whole sequence.
pub proof fn lemma_first_bad_at<A>(t: Seq<A>, all: Seq<A>, ok: spec_fn(A) -> bool)
    requires
        0 < t.len() <= all.len(),
        forall|k: int| 0 <= k < t.len() ==> t[k] == all[k],
        forall|k: int| 0 <= k < t.len() - 1 ==> ok(#[trigger] t[k]),
        !ok(t.last()),
    ensures
        first_bad(all, ok) == Some(t.len() - 1),
{
    let d = t.drop_last();
    assert forall|k: int| 0 <= k < d.len() implies ok(#[trigger] d[k]) by {
        assert(d[k] == t[k]);
    }
    lemma_first_bad(d, ok);
    assert(first_bad(t, ok) == Some(t.len() - 1));
    lemma_first_bad_prefix(t, all, ok);
}

/// The first entry refused in a prefix that ends with it is the first refused of
/// all the entries.
proof fn lemma_entry_fails(name: Seq<char>, t: Seq<(String, DependencyTreePackage)>, all: Seq<(String, DependencyTreePackage)>, err: Error)
    requires
        0 < t.len() <= all.len(),
        forall|k: int| 0 <= k < t.len() ==> t[k] == all[k],
        forall|k: int| 0 <= k < t.len() - 1 ==> entry_ok(name, #[trigger] t[k]),
        !entry_ok(name, t.last()),
        entry_error(name, t.last(), err),
    ensures
        first_bad(all, entry_pred(name)) == Some(t.len() - 1),
        entry_error(name, all[t.len() - 1], err),
{
    let d = t.drop_last();
    assert forall|k: int| 0 <= k < d.len() implies (entry_pred(name))(#[trigger] d[k]) by {
        assert(d[k] == t[k]);
    }
    lemma_first_bad(d, entry_pred(name));
    assert(first_bad(t, entry_pred(name)) == Some(t.len() - 1));
    lemma_first_bad_prefix(t, all, entry_pred(name));
}

/// Adds the package and installation of each non-link entry.
fn add_packages(
    lock: &PackageLock,
    builder: &mut ChastefileBuilder<Meta>,
    path_pid: &mut Vec<(String, PackageID)>,
) -> (r: Result<(), Error>)
    requires
        packages_added(*old(builder), old(path_pid)@, lock.name@, Seq::empty()),
    ensures
        final(builder).spec_meta() == old(builder).spec_meta(),
        match r {
            Ok(()) => {
                &&& forall|k: int|
                    0 <= k < entries_where(lock.packages@, false).len() ==> entry_ok(
                        lock.name@,
                        #[trigger] entries_where(lock.packages@, false)[k],
                    )
                &&& packages_added(
                    *final(builder),
                    final(path_pid)@,
                    lock.name@,
                    entries_where(lock.packages@, false),
                )
            },
            Err(e) => first_bad(entries_where(lock.packages@, false), entry_pred(lock.name@)) matches Some(k)
                && entry_error(lock.name@, entries_where(lock.packages@, false)[k], e),
        },
{
    let ghost all = entries_where(lock.packages@, false);
    let ghost meta = builder.spec_meta();
    let n = lock.packages.len();
    let mut i: usize = 0;
    while i < n
        invariant
            n == lock.packages@.len(),
            i <= n,
            all == entries_where(lock.packages@, false),
            builder.spec_meta() == meta,
            meta == old(builder).spec_meta(),
            forall|k: int|
                0 <= k < entries_where(lock.packages@.take(i as int), false).len() ==> entry_ok(
                    lock.name@,
                    #[trigger] entries_where(lock.packages@.take(i as int), false)[k],
                ),
            packages_added(
                *builder,
                path_pid@,
                lock.name@,
                entries_where(lock.packages@.take(i as int), false),
            ),
        decreases n - i,
    {
        let ghost nl = entries_where(lock.packages@.take(i as int), false);
        let ghost e = lock.packages@[i as int];
        proof {
            assert(lock.packages@.take(i + 1).drop_last() =~= lock.packages@.take(i as int));
            assert(lock.packages@.take(i + 1).last() == e);
            lemma_entries_where_prefix(lock.packages@, i + 1, false);
        }
        let (package_path, tree_package) = &lock.packages[i];
        if tree_package.link != Some(true) {
            let ghost nl2 = nl.push(e);
            assert(entries_where(lock.packages@.take(i + 1), false) == nl2);
            assert(nl2[nl.len() as int] == e);
            assert(all[nl.len() as int] == e);
            proof {
                assert(nl2.last() == e);
                assert forall|k: int| 0 <= k < nl2.len() - 1 implies entry_ok(lock.name@, #[trigger] nl2[k]) by {
                    assert(nl2[k] == nl[k]);
                }
            }
            let mod_path = match ModulePath::new(package_path.clone()) {
                Ok(mp) => mp,
                Err(err) => {
                    proof {
                        lemma_entry_fails(lock.name@, nl2, all, Error::ChasteError(err));
                    }
                    return Err(Error::ChasteError(err));
                },
            };
            let mut package = match parse_package(&mod_path, tree_package) {
                Ok(p) => p,
                Err(err) => {
                    proof {
                        lemma_entry_fails(lock.name@, nl2, all, err);
                    }
                    return Err(err);
                },
            };
            let is_root = package_path.as_str().unicode_len() == 0;
            if is_root && package.get_name().is_none() {
                match PackageName::new(lock.name.clone()) {
                    Ok(n) => package.name(Some(n)),
                    Err(err) => {
                        proof {
                            lemma_entry_fails(lock.name@, nl2, all, Error::ChasteError(err));
                        }
                        return Err(Error::ChasteError(err));
                    },
                }
            }
            let built = match package.build() {
                Ok(p) => p,
                Err(err) => {
                    proof {
                        lemma_entry_fails(lock.name@, nl2, all, Error::ChasteError(err));
                    }
                    return Err(Error::ChasteError(err));
                },
            };
            let ghost before = *builder;
            let pid = builder.add_package(built);
            let ghost pp = path_pid@;
            path_pid.push((package_path.clone(), pid));
            assert(path_map_view(path_pid@) =~= path_map_view(pp).push((e.0@, pid)));
            let installation = match InstallationBuilder::new(pid, mod_path).build() {
                Ok(inst) => inst,
                Err(err) => {
                    return Err(Error::ChasteError(err));
                },
            };
            builder.add_package_installation(installation);
            if is_root {
                let _ = builder.set_root_package_id(pid);
            } else if !starts_with_exec(package_path.as_str(), "node_modules/") && !contains_exec(
                package_path.as_str(),
                "/node_modules/",
            ) {
                let _ = builder.set_as_workspace_member(pid);
            }
            proof {
                assert(nl2.drop_last() =~= nl);
                assert(entry_ok(lock.name@, e));
                assert forall|k: int| 0 <= k < nl2.len() implies entry_ok(
                    lock.name@,
                    #[trigger] nl2[k],
                ) by {
                    if k < nl.len() {
                        assert(nl2[k] == nl[k]);
                    }
                }
                lemma_pid_at(nl.len());
                assert(package_map(nl2) =~= package_map(nl).push((e.0@, pid_at(nl.len()))));
                assert forall|k: int| 0 <= k < nl2.len() implies package_matches(
                    #[trigger] builder.spec_packages()[k],
                    lock.name@,
                    nl2[k],
                ) by {
                    if k < nl.len() {
                        assert(builder.spec_packages()[k] == before.spec_packages()[k]);
                        assert(nl2[k] == nl[k]);
                    }
                }
                assert forall|k: int| 0 <= k < nl2.len() implies (
                #[trigger] builder.spec_installations()[k]).spec_package_id() == pid_at(k as nat)
                    && builder.spec_installations()[k].spec_path()@ == nl2[k].0@ by {
                    if k < nl.len() {
                        assert(builder.spec_installations()[k] == before.spec_installations()[k]);
                        assert(nl2[k] == nl[k]);
                    }
                }
            }
        } else {
            assert(entries_where(lock.packages@.take(i + 1), false) == nl);
        }
        i = i + 1;
    }
    assert(lock.packages@.take(n as int) =~= lock.packages@);
    Ok(())
}


/// Records the links: each link path gets the package that its `resolved` path holds.
fn add_links(
    lock: &PackageLock,
    builder: &mut ChastefileBuilder<Meta>,
    path_pid: &mut Vec<(String, PackageID)>,
) -> (r: Result<(), Error>)
    requires
        packages_added(
            *old(builder),
            old(path_pid)@,
            lock.name@,
            entries_where(lock.packages@, false),
        ),
    ensures
        ({
            let nl = entries_where(lock.packages@, false);
            let lk = entries_where(lock.packages@, true);
            &&& final(builder).spec_meta() == old(builder).spec_meta()
            &&& final(builder).spec_packages() == old(builder).spec_packages()
            &&& final(builder).spec_root() == old(builder).spec_root()
            &&& final(builder).spec_members() == old(builder).spec_members()
            &&& final(builder).deps() == old(builder).deps()
            &&& match r {
                Ok(()) => {
                    &&& link_map(lk, package_map(nl)) == Some(path_map_view(final(path_pid)@))
                    &&& forall|j: int| 0 <= j < lk.len() ==> is_module_path(#[trigger] lk[j].0@)
                    &&& final(builder).spec_installations().len() == nl.len() + lk.len()
                    &&& forall|k: int|
                        0 <= k < nl.len() ==> #[trigger] final(builder).spec_installations()[k]
                            == old(builder).spec_installations()[k]
                    &&& forall|j: int|
                        0 <= j < lk.len() ==> {
                            let inst = #[trigger] final(builder).spec_installations()[nl.len() + j];
                            let fm = path_map_view(final(path_pid)@);
                            inst.spec_package_id() == fm[nl.len() + j].1 && inst.spec_path()@ == lk[j].0@
                        }
                },
                Err(e) => links_run(lk, package_map(nl)) matches Err((l, missing)) && link_error(l, missing, e),
            }
        }),
{
    let ghost nl = entries_where(lock.packages@, false);
    let ghost all = entries_where(lock.packages@, true);
    let ghost b0 = *builder;
    let n = lock.packages.len();
    let mut i: usize = 0;
    assert(lock.packages@.take(0) =~= Seq::<(String, DependencyTreePackage)>::empty());
    assert(entries_where(lock.packages@.take(0), true).len() == 0);
    assert(path_pid@.len() == path_map_view(path_pid@).len());
    while i < n
        invariant
            n == lock.packages@.len(),
            i <= n,
            nl == entries_where(lock.packages@, false),
            all == entries_where(lock.packages@, true),
            b0 == *old(builder),
            packages_added(b0, old(path_pid)@, lock.name@, nl),
            builder.spec_meta() == b0.spec_meta(),
            builder.spec_packages() == b0.spec_packages(),
            builder.spec_root() == b0.spec_root(),
            builder.spec_members() == b0.spec_members(),
            builder.deps() == b0.deps(),
            ({
                let lk = entries_where(lock.packages@.take(i as int), true);
                &&& link_map(lk, package_map(nl)) == Some(path_map_view(path_pid@))
                &&& path_pid@.len() == nl.len() + lk.len()
                &&& forall|j: int| 0 <= j < lk.len() ==> is_module_path(#[trigger] lk[j].0@)
                &&& builder.spec_installations().len() == nl.len() + lk.len()
                &&& forall|k: int|
                    0 <= k < nl.len() ==> #[trigger] builder.spec_installations()[k]
                        == b0.spec_installations()[k]
                &&& forall|j: int|
                    0 <= j < lk.len() ==> (#[trigger] builder.spec_installations()[nl.len()
                        + j]).spec_package_id() == path_map_view(path_pid@)[nl.len() + j].1
                        && builder.spec_installations()[nl.len() + j].spec_path()@ == lk[j].0@
            }),
        decreases n - i,
    {
        let ghost lk = entries_where(lock.packages@.take(i as int), true);
        let ghost e = lock.packages@[i as int];
        proof {
            assert(lock.packages@.take(i + 1).drop_last() =~= lock.packages@.take(i as int));
            assert(lock.packages@.take(i + 1).last() == e);
            lemma_entries_where_prefix(lock.packages@, i + 1, true);
        }
        let (package_path, tree_package) = &lock.packages[i];
        if tree_package.link == Some(true) {
            let ghost lk2 = lk.push(e);
            assert(entries_where(lock.packages@.take(i + 1), true) == lk2);
            assert(lk2.drop_last() =~= lk);
            assert(all[lk.len() as int] == e);
            let target = match &tree_package.resolved {
                Some(lt) => lookup_path(path_pid, lt.as_str()),
                None => None,
            };
            proof {
                lemma_links_run(lk, package_map(nl));
                assert(links_run(lk, package_map(nl)) == Ok::<Seq<(Seq<char>, PackageID)>, ((String, DependencyTreePackage), bool)>(path_map_view(path_pid@)));
                assert(all.take(lk2.len() as int) =~= lk2);
                assert forall|k: int| 0 <= k < lk2.len() implies lk2[k] == all[k] by {
                    assert(all.take(lk2.len() as int)[k] == all[k]);
                }
            }
            let pid = match target {
                Some(p) => p,
                None => {
                    proof {
                        assert(links_run(lk2, package_map(nl)) == Err::<Seq<(Seq<char>, PackageID)>, ((String, DependencyTreePackage), bool)>((e, true)));
                        lemma_links_run_prefix(lk2, all, package_map(nl));
                    }
                    return Err(Error::WorkspaceMemberNotFound(package_path.clone()));
                },
            };
            let ghost pp = path_pid@;
            path_pid.push((package_path.clone(), pid));
            assert(path_map_view(path_pid@) =~= path_map_view(pp).push((e.0@, pid)));
            let mod_path = match ModulePath::new(package_path.clone()) {
                Ok(mp) => mp,
                Err(err) => {
                    proof {
                        assert(links_run(lk2, package_map(nl)) == Err::<Seq<(Seq<char>, PackageID)>, ((String, DependencyTreePackage), bool)>((e, false)));
                        lemma_links_run_prefix(lk2, all, package_map(nl));
                    }
                    return Err(Error::ChasteError(err));
                },
            };
            let installation = match InstallationBuilder::new(pid, mod_path).build() {
                Ok(inst) => inst,
                Err(err) => {
                    return Err(Error::ChasteError(err));
                },
            };
            let ghost bi = builder.spec_installations();
            builder.add_package_installation(installation);
            proof {
                assert(link_map(lk2, package_map(nl)) == Some(path_map_view(path_pid@)));
                assert forall|j: int| 0 <= j < lk2.len() implies is_module_path(#[trigger] lk2[j].0@) by {
                    if j < lk.len() {
                        assert(lk2[j] == lk[j]);
                    }
                }
                assert forall|k: int| 0 <= k < nl.len() implies #[trigger] builder.spec_installations()[k]
                    == b0.spec_installations()[k] by {
                    assert(builder.spec_installations()[k] == bi[k]);
                }
                assert forall|j: int| 0 <= j < lk2.len() implies (
                #[trigger] builder.spec_installations()[nl.len() + j]).spec_package_id()
                    == path_map_view(path_pid@)[nl.len() + j].1
                    && builder.spec_installations()[nl.len() + j].spec_path()@ == lk2[j].0@ by {
                    if j < lk.len() {
                        assert(builder.spec_installations()[nl.len() + j] == bi[nl.len() + j]);
                        assert(path_map_view(path_pid@)[nl.len() + j] == path_map_view(pp)[nl.len() + j]);
                        assert(lk2[j] == lk[j]);
                    }
                }
            }
        } else {
            assert(entries_where(lock.packages@.take(i + 1), true) == lk);
        }
        i = i + 1;
    }
    assert(lock.packages@.take(n as int) =~= lock.packages@);
    Ok(())
}

/// Adds the dependencies of each non-link entry, resolved against the path map `m`.
fn add_all_dependencies(
    lock: &PackageLock,
    builder: &mut ChastefileBuilder<Meta>,
    path_pid: &Vec<(String, PackageID)>,
) -> (r: Result<(), Error>)
    requires
        old(builder).deps() == Seq::<Dependency>::empty(),
    ensures
        ({
            let nl = entries_where(lock.packages@, false);
            let m = path_map_view(path_pid@);
            &&& final(builder).spec_meta() == old(builder).spec_meta()
            &&& final(builder).spec_packages() == old(builder).spec_packages()
            &&& final(builder).spec_installations() == old(builder).spec_installations()
            &&& final(builder).spec_root() == old(builder).spec_root()
            &&& final(builder).spec_members() == old(builder).spec_members()
            &&& match r {
                Ok(()) => {
                    &&& forall|k: int|
                        0 <= k < nl.len() ==> requests_ok(
                            dep_requests(#[trigger] nl[k].1),
                            nl[k].0@,
                            m,
                        )
                    &&& final(builder).deps().len() == all_deps(nl, m).len()
                    &&& forall|j: int|
                        0 <= j < final(builder).deps().len() ==> dep_matches(
                            #[trigger] final(builder).deps()[j],
                            all_deps(nl, m)[j].0,
                            all_deps(nl, m)[j].1,
                        )
                },
                Err(e) => first_bad(nl, reqs_pred(m)) matches Some(k) && reqs_error(
                    dep_requests(nl[k].1),
                    nl[k].0@,
                    m,
                    e,
                ),
            }
        }),
{
    let ghost all = entries_where(lock.packages@, false);
    let ghost m = path_map_view(path_pid@);
    let ghost b0 = *builder;
    let n = lock.packages.len();
    let mut i: usize = 0;
    let mut k: usize = 0;
    assert(lock.packages@.take(0) =~= Seq::<(String, DependencyTreePackage)>::empty());
    while i < n
        invariant
            n == lock.packages@.len(),
            i <= n,
            k <= i,
            all == entries_where(lock.packages@, false),
            m == path_map_view(path_pid@),
            b0 == *old(builder),
            builder.spec_meta() == b0.spec_meta(),
            builder.spec_packages() == b0.spec_packages(),
            builder.spec_installations() == b0.spec_installations(),
            builder.spec_root() == b0.spec_root(),
            builder.spec_members() == b0.spec_members(),
            ({
                let nl = entries_where(lock.packages@.take(i as int), false);
                &&& k == nl.len()
                &&& forall|q: int|
                    0 <= q < nl.len() ==> requests_ok(dep_requests(#[trigger] nl[q].1), nl[q].0@, m)
                &&& builder.deps().len() == all_deps(nl, m).len()
                &&& forall|j: int|
                    0 <= j < builder.deps().len() ==> dep_matches(
                        #[trigger] builder.deps()[j],
                        all_deps(nl, m)[j].0,
                        all_deps(nl, m)[j].1,
                    )
            }),
        decreases n - i,
    {
        let ghost nl = entries_where(lock.packages@.take(i as int), false);
        let ghost e = lock.packages@[i as int];
        proof {
            assert(lock.packages@.take(i + 1).drop_last() =~= lock.packages@.take(i as int));
            assert(lock.packages@.take(i + 1).last() == e);
            lemma_entries_where_prefix(lock.packages@, i + 1, false);
        }
        let (package_path, tree_package) = &lock.packages[i];
        if tree_package.link != Some(true) {
            let ghost nl2 = nl.push(e);
            assert(entries_where(lock.packages@.take(i + 1), false) == nl2);
            assert(nl2.drop_last() =~= nl);
            assert(all[k as int] == e);
            let pid = PackageID::from_index(k);
            let dependencies = match parse_dependencies(package_path.as_str(), tree_package, path_pid, pid) {
                Ok(v) => v,
                Err(err) => {
                    proof {
                        let rq = dep_requests(e.1);
                        let w = choose|w: int|
                            0 <= w < rq.len() && (forall|j: int| 0 <= j < w ==> outcome_ok(#[trigger] req_outcome(rq[j], e.0@, m)))
                                && outcome_error(req_outcome(rq[w], e.0@, m), rq[w], err);
                        assert(!outcome_ok(req_outcome(rq[w], e.0@, m)));
                        assert(!(reqs_pred(m))(e));
                        assert(nl2.last() == e);
                        assert forall|q: int| 0 <= q < nl2.len() - 1 implies (reqs_pred(m))(#[trigger] nl2[q]) by {
                            assert(nl2[q] == nl[q]);
                        }
                        lemma_first_bad_at(nl2, all, reqs_pred(m));
                        assert(reqs_error(dep_requests(e.1), e.0@, m, err));
                    }
                    return Err(err);
                },
            };
            let ghost prev = builder.deps();
            let ghost added = added_deps(dep_requests(e.1), e.0@, m);
            builder.add_dependencies(dependencies);
            proof {
                let ad = all_deps(nl2, m);
                assert(ad == all_deps(nl, m) + added.map_values(|d: DepView| (d, pid_at(k as nat))));
                assert forall|q: int| 0 <= q < nl2.len() implies requests_ok(
                    dep_requests(#[trigger] nl2[q].1),
                    nl2[q].0@,
                    m,
                ) by {
                    if q < nl.len() {
                        assert(nl2[q] == nl[q]);
                    }
                }
                assert forall|j: int| 0 <= j < builder.deps().len() implies dep_matches(
                    #[trigger] builder.deps()[j],
                    ad[j].0,
                    ad[j].1,
                ) by {
                    if j < prev.len() {
                        assert(builder.deps()[j] == prev[j]);
                    } else {
                        assert(builder.deps()[j] == dependencies@[j - prev.len()]);
                    }
                }
            }
            k = k + 1;
        } else {
            assert(entries_where(lock.packages@.take(i + 1), false) == nl);
        }
        i = i + 1;
    }
    assert(lock.packages@.take(n as int) =~= lock.packages@);
    Ok(())
}


/// Reads the packages of a lockfile into a chastefile.
struct PackageParser<'a> {
    package_lock: &'a PackageLock,
    chastefile_builder: ChastefileBuilder<Meta>,
    path_pid: Vec<(String, PackageID)>,
}

impl<'a> PackageParser<'a> {
    fn new(package_lock: &'a PackageLock) -> (r: PackageParser<'a>)
        ensures
            r.package_lock == package_lock,
            r.chastefile_builder.spec_meta().lockfile_version == package_lock.lockfile_version,
            packages_added(r.chastefile_builder, r.path_pid@, package_lock.name@, Seq::empty()),
    {
        let r = PackageParser {
            package_lock,
            chastefile_builder: ChastefileBuilder::new(
                Meta { lockfile_version: package_lock.lockfile_version },
            ),
            path_pid: Vec::new(),
        };
        assert(path_map_view(r.path_pid@) =~= package_map(Seq::empty()));
        r
    }

    /// First the packages of the entries that are not links, then the links, then
    /// the dependencies, which may resolve through links.
    fn resolve(self) -> (r: Result<Chastefile<Meta>, Error>)
        requires
            self.package_lock.lockfile_version == 2 || self.package_lock.lockfile_version == 3,
            self.chastefile_builder.spec_meta().lockfile_version
                == self.package_lock.lockfile_version,
            packages_added(
                self.chastefile_builder,
                self.path_pid@,
                self.package_lock.name@,
                Seq::empty(),
            ),
        ensures
            match r {
                Ok(c) => lock_ok(*self.package_lock) && chastefile_matches(c, *self.package_lock),
                Err(e) => lock_error(*self.package_lock, e),
            },
    {
        let lock = self.package_lock;
        proof {
            lemma_lock_ok_checks(*lock);
            lemma_first_bad(entries_where(lock.packages@, false), entry_pred(lock.name@));
            lemma_links_run(entries_where(lock.packages@, true), package_map(entries_where(lock.packages@, false)));
        }
        let mut builder = self.chastefile_builder;
        let mut path_pid = self.path_pid;
        let ghost nl = entries_where(lock.packages@, false);
        let ghost lk = entries_where(lock.packages@, true);
        match add_packages(lock, &mut builder, &mut path_pid) {
            Ok(()) => {},
            Err(e) => {
                return Err(e);
            },
        }
        let ghost after_packages = builder;
        match add_links(lock, &mut builder, &mut path_pid) {
            Ok(()) => {},
            Err(e) => {
                return Err(e);
            },
        }
        let ghost after_links = builder;
        let ghost m = path_map_view(path_pid@);
        assert(link_map(lk, package_map(nl)) == Some(m));
        assert(links_run(lk, package_map(nl)) == Ok::<Seq<(Seq<char>, PackageID)>, ((String, DependencyTreePackage), bool)>(m));
        proof {
            lemma_first_bad(nl, reqs_pred(m));
        }
        match add_all_dependencies(lock, &mut builder, &path_pid) {
            Ok(()) => {},
            Err(e) => {
                return Err(e);
            },
        }
        proof {
            assert forall|k: int| 0 <= k < nl.len() implies (
            #[trigger] builder.spec_installations()[k]).spec_package_id() == pid_at(k as nat)
                && builder.spec_installations()[k].spec_path()@ == nl[k].0@ by {
                assert(builder.spec_installations()[k] == after_links.spec_installations()[k]);
                assert(after_links.spec_installations()[k] == after_packages.spec_installations()[k]);
            }
        }
        proof {
            assert forall|k: int| 0 <= k < nl.len() implies (reqs_pred(m))(#[trigger] nl[k]) by {
                assert(requests_ok(dep_requests(nl[k].1), nl[k].0@, m));
            }
        }
        match builder.build() {
            Ok(c) => Ok(c),
            Err(e) => Err(Error::ChasteError(e)),
        }
    }
}

/// Reads a lockfile of version 2 or 3 into a chastefile (see [`chastefile_matches`]).
pub fn parse_lock(package_lock: &PackageLock) -> (r: Result<Chastefile<Meta>, Error>)
    ensures
        match r {
            Ok(c) => lock_ok(*package_lock) && chastefile_matches(c, *package_lock),
            Err(e) => !lock_ok(*package_lock) && lock_error(*package_lock, e),
        },
        r is Ok <==> first_failed_check(*package_lock) is None,
{
    proof {
        lemma_lock_ok_checks(*package_lock);
    }
    if !(package_lock.lockfile_version == 2 || package_lock.lockfile_version == 3) {
        return Err(Error::UnknownLockVersion(package_lock.lockfile_version));
    }
    let parser = PackageParser::new(package_lock);
    parser.resolve()
}


/// A request that adds a dependency on `pid` is among the dependencies added, with
/// its kind and specifier.
proof fn lemma_added_deps_has(reqs: Seq<DepRequest>, path: Seq<char>, m: Seq<(Seq<char>, PackageID)>, i: int, pid: PackageID) -> (j: int)
    requires
        0 <= i < reqs.len(),
        req_outcome(reqs[i], path, m) == ReqOutcome::Added(pid),
    ensures
        0 <= j < added_deps(reqs, path, m).len(),
        added_deps(reqs, path, m)[j].kind == reqs[i].2,
        added_deps(reqs, path, m)[j].on == pid,
        added_deps(reqs, path, m)[j].svs == reqs[i].1,
    decreases reqs.len(),
{
    if i == reqs.len() - 1 {
        added_deps(reqs.drop_last(), path, m).len() as int
    } else {
        assert(reqs.drop_last()[i] == reqs[i]);
        lemma_added_deps_has(reqs.drop_last(), path, m, i, pid)
    }
}

/// The dependencies an entry adds are among those of all entries, from its package.
proof fn lemma_all_deps_has(nl: Seq<(String, DependencyTreePackage)>, m: Seq<(Seq<char>, PackageID)>, k: int, j: int) -> (t: int)
    requires
        0 <= k < nl.len(),
        0 <= j < added_deps(dep_requests(nl[k].1), nl[k].0@, m).len(),
    ensures
        0 <= t < all_deps(nl, m).len(),
        all_deps(nl, m)[t] == (added_deps(dep_requests(nl[k].1), nl[k].0@, m)[j], pid_at(k as nat)),
    decreases nl.len(),
{
    if k == nl.len() - 1 {
        all_deps(nl.drop_last(), m).len() + j
    } else {
        assert(nl.drop_last()[k] == nl[k]);
        lemma_all_deps_has(nl.drop_last(), m, k, j)
    }
}

/// The entries of a lockfile that are no links.
pub open spec fn lock_entries(lock: PackageLock) -> Seq<(String, DependencyTreePackage)> {
    entries_where(lock.packages@, false)
}

/// Where each path of a lockfile leads: the entries, then the links.
pub open spec fn lock_paths(lock: PackageLock) -> Seq<(Seq<char>, PackageID)> {
    link_map(entries_where(lock.packages@, true), package_map(entries_where(lock.packages@, false)))->0
}

/// The `i`-th request of entry `k` that resolves to `p` becomes a dependency of kind `kind`.
proof fn lemma_request_recorded(lock: PackageLock, c: Chastefile<Meta>, k: int, q: int, p: PackageID)
    requires
        lock_ok(lock),
        chastefile_matches(c, lock),
        0 <= k < lock_entries(lock).len(),
        0 <= q < dep_requests(lock_entries(lock)[k].1).len(),
        spec_find_pid(lock_entries(lock)[k].0@, dep_requests(lock_entries(lock)[k].1)[q].0, lock_paths(lock))
            == Some(p),
    ensures
        records_dependency(
            c,
            pid_at(k as nat),
            p,
            dep_requests(lock_entries(lock)[k].1)[q].2,
            dep_requests(lock_entries(lock)[k].1)[q].1,
        ),
{
    let nl = lock_entries(lock);
    let m = lock_paths(lock);
    let reqs = dep_requests(nl[k].1);
    assert(requests_ok(reqs, nl[k].0@, m));
    assert(outcome_ok(req_outcome(reqs[q], nl[k].0@, m)));
    let j = lemma_added_deps_has(reqs, nl[k].0@, m, q, p);
    let t = lemma_all_deps_has(nl, m, k, j);
    assert(dep_matches(c.deps()[t], all_deps(nl, m)[t].0, all_deps(nl, m)[t].1));
}

/// Reading a lockfile keeps the kind of each list an entry writes its dependencies
/// in: for every entry and every dependency it lists that resolves to a package, the
/// chastefile records a dependency of the entry's package on that package, with the
/// specifier written, of kind `Dependency` for `dependencies`, `DevDependency` for
/// `devDependencies`, `OptionalDependency` for `optionalDependencies`, and for
/// `peerDependencies` `OptionalPeerDependency` when `peerDependenciesMeta` marks the
/// peer optional and `PeerDependency` otherwise.
pub proof fn law_npm_dependency_kinds(lock: PackageLock, c: Chastefile<Meta>, k: int, i: int)
    requires
        lock_ok(lock),
        chastefile_matches(c, lock),
        0 <= k < lock_entries(lock).len(),
    ensures
        ({
            let e = lock_entries(lock)[k];
            0 <= i < e.1.dependencies@.len()
        }) ==> (spec_find_pid(lock_entries(lock)[k].0@, lock_entries(lock)[k].1.dependencies@[i].0@, lock_paths(lock))
            matches Some(p) ==> records_dependency(
            c,
            pid_at(k as nat),
            p,
            DependencyKind::Dependency,
            lock_entries(lock)[k].1.dependencies@[i].1@,
        )),
        (0 <= i < lock_entries(lock)[k].1.dev_dependencies@.len()) ==> (spec_find_pid(
            lock_entries(lock)[k].0@,
            lock_entries(lock)[k].1.dev_dependencies@[i].0@,
            lock_paths(lock),
        ) matches Some(p) ==> records_dependency(
            c,
            pid_at(k as nat),
            p,
            DependencyKind::DevDependency,
            lock_entries(lock)[k].1.dev_dependencies@[i].1@,
        )),
        (0 <= i < lock_entries(lock)[k].1.optional_dependencies@.len()) ==> (spec_find_pid(
            lock_entries(lock)[k].0@,
            lock_entries(lock)[k].1.optional_dependencies@[i].0@,
            lock_paths(lock),
        ) matches Some(p) ==> records_dependency(
            c,
            pid_at(k as nat),
            p,
            DependencyKind::OptionalDependency,
            lock_entries(lock)[k].1.optional_dependencies@[i].1@,
        )),
        (0 <= i < lock_entries(lock)[k].1.peer_dependencies@.len()) ==> (spec_find_pid(
            lock_entries(lock)[k].0@,
            lock_entries(lock)[k].1.peer_dependencies@[i].0@,
            lock_paths(lock),
        ) matches Some(p) ==> records_dependency(
            c,
            pid_at(k as nat),
            p,
            if peer_is_optional(
                lock_entries(lock)[k].1.peer_dependencies_meta@,
                lock_entries(lock)[k].1.peer_dependencies@[i].0@,
            ) {
                DependencyKind::OptionalPeerDependency
            } else {
                DependencyKind::PeerDependency
            },
            lock_entries(lock)[k].1.peer_dependencies@[i].1@,
        )),
{
    let e = lock_entries(lock)[k].1;
    let reqs = dep_requests(e);
    let nd = e.dependencies@.len() as int;
    let nv = e.dev_dependencies@.len() as int;
    let np = e.peer_dependencies@.len() as int;
    let no = e.optional_dependencies@.len() as int;
    assert(reqs.len() == nd + nv + np + no);
    if 0 <= i < nd {
        assert(reqs[i] == (e.dependencies@[i].0@, e.dependencies@[i].1@, DependencyKind::Dependency));
        if let Some(p) = spec_find_pid(lock_entries(lock)[k].0@, e.dependencies@[i].0@, lock_paths(lock)) {
            lemma_request_recorded(lock, c, k, i, p);
        }
    }
    if 0 <= i < nv {
        assert(reqs[nd + i] == (e.dev_dependencies@[i].0@, e.dev_dependencies@[i].1@, DependencyKind::DevDependency));
        if let Some(p) = spec_find_pid(lock_entries(lock)[k].0@, e.dev_dependencies@[i].0@, lock_paths(lock)) {
            lemma_request_recorded(lock, c, k, nd + i, p);
        }
    }
    if 0 <= i < np {
        assert(reqs[nd + nv + i].0 == e.peer_dependencies@[i].0@);
        assert(reqs[nd + nv + i].1 == e.peer_dependencies@[i].1@);
        assert(reqs[nd + nv + i].2 == peer_kind(e.peer_dependencies_meta@, e.peer_dependencies@[i].0@));
        if let Some(p) = spec_find_pid(lock_entries(lock)[k].0@, e.peer_dependencies@[i].0@, lock_paths(lock)) {
            lemma_request_recorded(lock, c, k, nd + nv + i, p);
        }
    }
    if 0 <= i < no {
        assert(reqs[nd + nv + np + i] == (
            e.optional_dependencies@[i].0@,
            e.optional_dependencies@[i].1@,
            DependencyKind::OptionalDependency,
        ));
        if let Some(p) = spec_find_pid(lock_entries(lock)[k].0@, e.optional_dependencies@[i].0@, lock_paths(lock)) {
            lemma_request_recorded(lock, c, k, nd + nv + np + i, p);
        }
    }
}


/// `out` holds a dependency from `from` on `on`, of this kind, with this specifier.
pub open spec fn out_has(out: Seq<(PackageID, DepView)>, from: PackageID, on: PackageID, kind: DependencyKind, svs: Seq<char>) -> bool {
    exists|j: int|
        0 <= j < out.len() && #[trigger] out[j].0 == from && out[j].1.on == on && out[j].1.kind == kind
            && out[j].1.svs == svs
}

/// What a sequence of dependencies holds, any sequence it begins holds too.
pub proof fn lemma_out_has_extends(
    a: Seq<(PackageID, DepView)>,
    b: Seq<(PackageID, DepView)>,
    from: PackageID,
    on: PackageID,
    kind: DependencyKind,
    svs: Seq<char>,
)
    requires
        out_has(a, from, on, kind, svs),
        a.len() <= b.len(),
        forall|j: int| 0 <= j < a.len() ==> b[j] == a[j],
    ensures
        out_has(b, from, on, kind, svs),
{
    let j = choose|j: int|
        0 <= j < a.len() && #[trigger] a[j].0 == from && a[j].1.on == on && a[j].1.kind == kind && a[j].1.svs == svs;
    assert(b[j] == a[j]);
}

/// A chastefile whose dependencies are those of `out` records what `out` holds.
pub proof fn lemma_out_recorded<M>(
    c: Chastefile<M>,
    out: Seq<(PackageID, DepView)>,
    from: PackageID,
    on: PackageID,
    kind: DependencyKind,
    svs: Seq<char>,
)
    requires
        out_has(out, from, on, kind, svs),
        c.deps().len() == out.len(),
        forall|j: int| 0 <= j < out.len() ==> dep_matches(#[trigger] c.deps()[j], out[j].1, out[j].0),
    ensures
        records_dependency(c, from, on, kind, svs),
{
    let j = choose|j: int|
        0 <= j < out.len() && #[trigger] out[j].0 == from && out[j].1.on == on && out[j].1.kind == kind
            && out[j].1.svs == svs;
    assert(dep_matches(c.deps()[j], out[j].1, out[j].0));
}

} // verus!
