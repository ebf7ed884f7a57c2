//! Workspace members, packages and dependencies of a bun lockfile.

use vstd::prelude::*;

use crate::bun::keys::{is_package_key, key_name, key_source, spec_parse_descriptor};
use crate::bun::{BunLock, Error, LockPackageElement, PackageRelations, WorkspaceMember};
use crate::checksums::{sri_hashes, Checksums};
use crate::dependency::{Dependency, DependencyKind};
use crate::derivation::PackageDerivation;
use crate::error::modpath_refusal;
use crate::modpath::is_module_path;
use crate::name::is_package_name;
use crate::bun::Meta;
use crate::chastefile::{records_dependency, Chastefile};
use crate::npm::parse::{dep_matches, first_bad, requests_of, DepRequest, DepView, ReqOutcome};
use crate::npm::paths::path_lookup;
use crate::package::{pid_at, Package, PackageID};
use crate::semver::semver_version_parses;
use crate::source::{opt_source_view, SourceView};
use crate::svs::{parse_svs, SvsPos};
use crate::text::has_at;

verus! {

/// A package as plain values: name, version, integrity string, source, and the
/// patch and the package it was derived from.
pub struct PkgView {
    pub name: Option<Seq<char>>,
    pub version: Option<Seq<char>>,
    pub integrity: Option<Seq<char>>,
    pub source: Option<SourceView>,
    pub patch: Option<(Seq<char>, PackageID)>,
}

/// `p` is the package that `v` describes; its checksums are the hashes of the
/// integrity string, when there are any.
pub open spec fn package_is(p: Package, v: PkgView) -> bool {
    &&& p.spec_name() == v.name
    &&& p.spec_version() == v.version
    &&& match v.integrity {
        Some(i) => if sri_hashes(i) is Some && sri_hashes(i)->0.len() > 0 {
            p.spec_checksums() matches Some(Checksums::Tarball(x)) && x@ == sri_hashes(i)->0
        } else {
            p.spec_checksums() is None
        },
        None => p.spec_checksums() is None,
    }
    &&& opt_source_view(p.spec_source()) == v.source
    &&& match v.patch {
        Some((path, from)) => p.spec_derived() matches Some(d) && d.spec_from() == from && (
        d.spec_derivation() matches PackageDerivation::Patch(pt) && pt.spec_path() == path
            && pt.spec_integrity() is None),
        None => p.spec_derived() is None,
    }
}

/// The packages of the workspace members, in order.
pub open spec fn ws_package(w: (String, WorkspaceMember)) -> PkgView {
    PkgView {
        name: match w.1.name {
            Some(n) => Some(n@),
            None => None,
        },
        version: match w.1.version {
            Some(v) => Some(v@),
            None => None,
        },
        integrity: None,
        source: None,
        patch: None,
    }
}

/// A workspace member has a valid location, name and version.
pub open spec fn ws_ok(w: (String, WorkspaceMember)) -> bool {
    &&& is_module_path(w.0@)
    &&& (w.1.name matches Some(n) ==> is_package_name(n@))
    &&& (w.1.version matches Some(v) ==> semver_version_parses(v@))
}

/// The check of a workspace member.
pub open spec fn ws_pred() -> spec_fn((String, WorkspaceMember)) -> bool {
    |w: (String, WorkspaceMember)| ws_ok(w)
}

/// `e` is the error reported for a refused workspace member: its location, its name,
/// then its version, in this order; the first that fails decides.
pub open spec fn ws_error(w: (String, WorkspaceMember), e: Error) -> bool {
    if !is_module_path(w.0@) {
        e matches Error::ChasteError(c) && modpath_refusal(w.0@, c)
    } else if w.1.name matches Some(n) && !is_package_name(n@) {
        w.1.name matches Some(n) && e matches Error::ChasteError(
            crate::error::Error::InvalidPackageName(t),
        ) && t@ == n@
    } else {
        e matches Error::ChasteError(crate::error::Error::SemverError(_))
    }
}

/// Workspace locations, each with the id of its package.
pub open spec fn ws_map(ws: Seq<(String, WorkspaceMember)>) -> Seq<(Seq<char>, PackageID)> {
    Seq::new(ws.len(), |k: int| (ws[k].0@, pid_at(k as nat)))
}

/// The last workspace member at the project root.
pub open spec fn ws_root(ws: Seq<(String, WorkspaceMember)>) -> Option<PackageID>
    decreases ws.len(),
{
    if ws.len() == 0 {
        None
    } else if ws.last().0@.len() == 0 {
        Some(pid_at((ws.len() - 1) as nat))
    } else {
        ws_root(ws.drop_last())
    }
}

/// The ids of the workspace members other than the root.
pub open spec fn ws_members(ws: Seq<(String, WorkspaceMember)>) -> Seq<PackageID>
    decreases ws.len(),
{
    if ws.len() == 0 {
        Seq::empty()
    } else if ws.last().0@.len() > 0 {
        ws_members(ws.drop_last()).push(pid_at((ws.len() - 1) as nat))
    } else {
        ws_members(ws.drop_last())
    }
}

/// What has been read of the packages so far: descriptors with their ids (the first
/// package read for a descriptor counts), ids by (parent key, installed name), the
/// ids of packages installed under another name, and the packages and
/// installations added.
pub struct PkgState {
    pub desc: Seq<(Seq<char>, PackageID)>,
    pub pre: Seq<((Seq<char>, Seq<char>), PackageID)>,
    pub aliased: Seq<PackageID>,
    pub pkgs: Seq<PkgView>,
    pub insts: Seq<(PackageID, Seq<char>)>,
}

/// The value recorded last for a key.
pub open spec fn pair_lookup(m: Seq<((Seq<char>, Seq<char>), PackageID)>, k: (Seq<char>, Seq<char>)) -> Option<
    PackageID,
>
    decreases m.len(),
{
    if m.len() == 0 {
        None
    } else if m.last().0 == k {
        Some(m.last().1)
    } else {
        pair_lookup(m.drop_last(), k)
    }
}

/// The string recorded last for a key.
pub open spec fn str_lookup(m: Seq<(String, String)>, k: Seq<char>) -> Option<Seq<char>>
    decreases m.len(),
{
    if m.len() == 0 {
        None
    } else if m.last().0@ == k {
        Some(m.last().1@)
    } else {
        str_lookup(m.drop_last(), k)
    }
}

/// The descriptor of a package: the first element of its data, when a string.
pub open spec fn descriptor_of(elems: Seq<LockPackageElement>) -> Option<Seq<char>> {
    if elems.len() > 0 {
        match elems[0] {
            LockPackageElement::String(d) => Some(d@),
            _ => None,
        }
    } else {
        None
    }
}

/// `node_modules/parent/` for each parent in turn.
pub open spec fn parents_prefix(parents: Seq<Seq<char>>) -> Seq<char>
    decreases parents.len(),
{
    if parents.len() == 0 {
        Seq::empty()
    } else {
        parents_prefix(parents.drop_last()) + "node_modules/"@ + parents.last() + "/"@
    }
}

/// Where a package is installed: in the `node_modules` of its innermost parent.
pub open spec fn install_path(parents: Seq<Seq<char>>, name: Seq<char>) -> Seq<char> {
    parents_prefix(parents) + "node_modules/"@ + name
}

/// The installation path for a key.
pub open spec fn key_install_path(key: Seq<char>) -> Seq<char> {
    match key_source(key) {
        Some((_, parents)) => install_path(parents, key_name(key)),
        None => install_path(Seq::empty(), key_name(key)),
    }
}

/// The source a registry entry gets, by the kind of its marker; `None` when the
/// data does not fit the marker.
pub open spec fn marker_source(elems: Seq<LockPackageElement>, marker: Seq<char>, pos: SvsPos) -> Option<
    (Option<Seq<char>>, Option<Seq<char>>, Option<SourceView>),
> {
    match pos {
        SvsPos::Npm { .. } => if elems.len() == 4 && elems[1] is String && elems[2] is Relations
            && elems[3] is String {
            Some((Some(marker), Some(elems[3]->String_0@), Some(SourceView::Npm)))
        } else {
            None
        },
        SvsPos::TarballURL => Some((None, None, Some(SourceView::TarballURL(marker)))),
        SvsPos::Git { .. } => Some((None, None, Some(SourceView::Git(marker)))),
        SvsPos::GitHub { .. } => Some((None, None, None)),
        SvsPos::NpmTag => None,
    }
}

/// The package name of a descriptor.
pub open spec fn descriptor_name(d: Seq<char>) -> Seq<char> {
    match spec_parse_descriptor(d) {
        Some((n, _)) => n,
        None => Seq::empty(),
    }
}

/// The package of a new descriptor, with the packages it adds; `None` on an error.
pub open spec fn new_packages(
    st: PkgState,
    nws: nat,
    key: Seq<char>,
    elems: Seq<LockPackageElement>,
    d: Seq<char>,
    patched: Seq<(String, String)>,
) -> Option<(PackageID, Seq<PkgView>)> {
    match spec_parse_descriptor(d) {
        None => None,
        Some((pname, marker)) => match parse_svs(marker, None) {
            None => None,
            Some(pos) => if !is_package_name(pname) {
                None
            } else {
                match marker_source(elems, marker, pos) {
                    None => None,
                    Some((version, integrity, source)) => {
                        let og = PkgView {
                            name: Some(pname),
                            version,
                            integrity,
                            source,
                            patch: None,
                        };
                        let og_pid = pid_at(nws + st.pkgs.len());
                        if (version matches Some(v) && !semver_version_parses(v)) || (
                        integrity matches Some(i) && sri_hashes(i) is None) {
                            None
                        } else {
                            match str_lookup(patched, d) {
                                None => Some((og_pid, seq![og])),
                                Some(path) => Some(
                                    (
                                        pid_at(nws + st.pkgs.len() + 1),
                                        seq![
                                            og,
                                            PkgView {
                                                name: Some(pname),
                                                version,
                                                integrity: None,
                                                source: None,
                                                patch: Some((path, og_pid)),
                                            },
                                        ],
                                    ),
                                ),
                            }
                        }
                    },
                }
            },
        },
    }
}

/// The workspace member that a `workspace:` descriptor stands for.
pub open spec fn workspace_target(wsm: Seq<(Seq<char>, PackageID)>, d: Seq<char>) -> Option<PackageID> {
    match spec_parse_descriptor(d) {
        Some((_, marker)) => if has_at(marker, 0, "workspace:"@) {
            path_lookup(wsm, marker.subrange("workspace:"@.len() as int, marker.len() as int))
        } else {
            None
        },
        None => None,
    }
}

/// `e` is the error reported when the packages of descriptor `d` are refused: its
/// specifier, its package name, data that do not fit the specifier, the integrity,
/// then the version, in this order.
pub open spec fn new_packages_error(key: Seq<char>, elems: Seq<LockPackageElement>, d: Seq<char>, e: Error) -> bool {
    match spec_parse_descriptor(d) {
        None => false,
        Some((pname, marker)) => match parse_svs(marker, None) {
            None => e matches Error::ChasteError(crate::error::Error::InvalidSVS(t)) && t@ == marker,
            Some(pos) => if !is_package_name(pname) {
                e matches Error::ChasteError(crate::error::Error::InvalidPackageName(t)) && t@ == pname
            } else {
                match marker_source(elems, marker, pos) {
                    None => e matches Error::VariantMarkerMismatch(k) && k@ == key,
                    Some((_, integrity, _)) => if integrity matches Some(i) && sri_hashes(i) is None {
                        e is SSRIError
                    } else {
                        e matches Error::ChasteError(crate::error::Error::SemverError(_))
                    },
                }
            },
        },
    }
}

/// `e` is the error reported for an entry of `packages` that is refused: its key, its
/// data without a descriptor, its descriptor, the packages of a new descriptor (see
/// [`new_packages_error`]), then its installation path, in this order.
pub open spec fn entry_read_error(
    st: PkgState,
    nws: nat,
    wsm: Seq<(Seq<char>, PackageID)>,
    patched: Seq<(String, String)>,
    entry: (String, Vec<LockPackageElement>),
    e: Error,
) -> bool {
    let key = entry.0@;
    let elems = entry.1@;
    if !is_package_key(key) {
        e matches Error::InvalidKey(k) && k@ == key
    } else {
        match descriptor_of(elems) {
            None => e matches Error::InvalidVariant(k) && k@ == key,
            Some(d) => if path_lookup(st.desc, d) is Some {
                false
            } else if spec_parse_descriptor(d) is None {
                e matches Error::InvalidKey(k) && k@ == d
            } else if workspace_target(wsm, d) is None && new_packages(st, nws, key, elems, d, patched)
                is None {
                new_packages_error(key, elems, d, e)
            } else {
                e matches Error::ChasteError(c) && modpath_refusal(key_install_path(key), c)
            },
        }
    }
}

/// `e` is the error of the first entry of `packages` that is refused.
pub open spec fn pkg_phase_error(
    entries: Seq<(String, Vec<LockPackageElement>)>,
    nws: nat,
    wsm: Seq<(Seq<char>, PackageID)>,
    patched: Seq<(String, String)>,
    e: Error,
) -> bool {
    exists|k: int|
        0 <= k < entries.len() && (#[trigger] pkg_run(entries.take(k), nws, wsm, patched) matches Some(st)
            && pkg_step(st, nws, wsm, patched, entries[k]) is None && entry_read_error(
            st,
            nws,
            wsm,
            patched,
            entries[k],
            e,
        ))
}

/// Reads one entry of `packages`; `None` on an error.
pub open spec fn pkg_step(
    st: PkgState,
    nws: nat,
    wsm: Seq<(Seq<char>, PackageID)>,
    patched: Seq<(String, String)>,
    entry: (String, Vec<LockPackageElement>),
) -> Option<PkgState> {
    let key = entry.0@;
    let elems = entry.1@;
    if !is_package_key(key) {
        None
    } else {
        match descriptor_of(elems) {
            None => None,
            Some(d) => {
                let pre_with = |pid: PackageID|
                    match key_source(key) {
                        Some((sk, _)) => st.pre.push(((sk, key_name(key)), pid)),
                        None => st.pre,
                    };
                match path_lookup(st.desc, d) {
                    Some(pid) => Some(PkgState { pre: pre_with(pid), ..st }),
                    None => {
                        let ws_target = workspace_target(wsm, d);
                        let added: Option<(PackageID, Seq<PkgView>, bool)> = if spec_parse_descriptor(
                            d,
                        ) is None {
                            None
                        } else if ws_target is Some {
                            Some((ws_target->0, Seq::empty(), false))
                        } else {
                            match new_packages(st, nws, key, elems, d, patched) {
                                Some((pid, ps)) => Some(
                                    (pid, ps, key_name(key) != descriptor_name(d)),
                                ),
                                None => None,
                            }
                        };
                        match added {
                            None => None,
                            Some((pid, ps, alias)) => if is_module_path(key_install_path(key)) {
                                Some(
                                    PkgState {
                                        desc: st.desc.push((d, pid)),
                                        pre: pre_with(pid),
                                        aliased: if alias {
                                            st.aliased.push(pid)
                                        } else {
                                            st.aliased
                                        },
                                        pkgs: st.pkgs + ps,
                                        insts: st.insts.push((pid, key_install_path(key))),
                                    },
                                )
                            } else {
                                None
                            },
                        }
                    },
                }
            },
        }
    }
}

/// The state after reading the entries in order; `None` on an error.
pub open spec fn pkg_run(
    entries: Seq<(String, Vec<LockPackageElement>)>,
    nws: nat,
    wsm: Seq<(Seq<char>, PackageID)>,
    patched: Seq<(String, String)>,
) -> Option<PkgState>
    decreases entries.len(),
{
    if entries.len() == 0 {
        Some(
            PkgState {
                desc: Seq::empty(),
                pre: Seq::empty(),
                aliased: Seq::empty(),
                pkgs: Seq::empty(),
                insts: Seq::empty(),
            },
        )
    } else {
        match pkg_run(entries.drop_last(), nws, wsm, patched) {
            None => None,
            Some(st) => pkg_step(st, nws, wsm, patched, entries.last()),
        }
    }
}


/// Whether `name` is listed among the optional peers.
pub open spec fn listed(peers: Seq<String>, name: Seq<char>) -> bool {
    exists|i: int| 0 <= i < peers.len() && (#[trigger] peers[i])@ == name
}

/// The requests of a set of relations: dependencies, dev dependencies, peer
/// dependencies (optional when listed so) and optional dependencies, in this order.
pub open spec fn rel_requests(r: PackageRelations) -> Seq<DepRequest> {
    requests_of(r.dependencies@, DependencyKind::Dependency) + requests_of(
        r.dev_dependencies@,
        DependencyKind::DevDependency,
    ) + r.peer_dependencies@.map_values(
        |p: (String, String)|
            (
                p.0@,
                p.1@,
                if listed(r.optional_peers@, p.0@) {
                    DependencyKind::OptionalPeerDependency
                } else {
                    DependencyKind::PeerDependency
                },
            ),
    ) + requests_of(r.optional_dependencies@, DependencyKind::OptionalDependency)
}

/// The data recorded last under a key of `packages`.
pub open spec fn entry_lookup(m: Seq<(String, Vec<LockPackageElement>)>, k: Seq<char>) -> Option<
    Seq<LockPackageElement>,
>
    decreases m.len(),
{
    if m.len() == 0 {
        None
    } else if m.last().0@ == k {
        Some(m.last().1@)
    } else {
        entry_lookup(m.drop_last(), k)
    }
}

/// The package that a dependency named `name` resolves to through `packages`.
pub open spec fn hoisted_target(
    all: Seq<(String, Vec<LockPackageElement>)>,
    desc: Seq<(Seq<char>, PackageID)>,
    name: Seq<char>,
) -> Option<PackageID> {
    match entry_lookup(all, name) {
        Some(elems) => match descriptor_of(elems) {
            Some(d) => path_lookup(desc, d),
            None => None,
        },
        None => None,
    }
}

/// What a request comes to, given the package it resolves to. When `aliased` is
/// given, a dependency on one of its packages records its name as an alias.
pub open spec fn bun_outcome(q: DepRequest, target: Option<PackageID>, aliased: Option<Seq<PackageID>>) -> ReqOutcome {
    match target {
        Some(t) => if parse_svs(q.1, None) is None {
            ReqOutcome::BadSpecifier
        } else if aliased matches Some(a) && a.contains(t) && !is_package_name(q.0) {
            ReqOutcome::BadAlias
        } else {
            ReqOutcome::Added(t)
        },
        None => if q.2.spec_is_optional() {
            ReqOutcome::Skipped
        } else {
            ReqOutcome::NotFound
        },
    }
}

/// The dependencies that the requests add, each resolved by `target`; `None` when
/// one fails.
pub open spec fn reqs_run(
    reqs: Seq<DepRequest>,
    target: spec_fn(Seq<char>) -> Option<PackageID>,
    aliased: Option<Seq<PackageID>>,
) -> Option<Seq<DepView>>
    decreases reqs.len(),
{
    if reqs.len() == 0 {
        Some(Seq::empty())
    } else {
        match reqs_run(reqs.drop_last(), target, aliased) {
            None => None,
            Some(prev) => {
                let q = reqs.last();
                match bun_outcome(q, target(q.0), aliased) {
                    ReqOutcome::Added(t) => Some(
                        prev.push(
                            DepView {
                                kind: q.2,
                                on: t,
                                svs: q.1,
                                alias: if aliased matches Some(a) && a.contains(t) {
                                    Some(q.0)
                                } else {
                                    None
                                },
                            },
                        ),
                    ),
                    ReqOutcome::Skipped => Some(prev),
                    _ => None,
                }
            },
        }
    }
}

/// How many elements of a package's data are relations.
pub open spec fn relations_count(elems: Seq<LockPackageElement>) -> nat
    decreases elems.len(),
{
    if elems.len() == 0 {
        0
    } else {
        relations_count(elems.drop_last()) + if elems.last() is Relations {
            1nat
        } else {
            0nat
        }
    }
}

/// The first relations in a package's data.
pub open spec fn first_relations(elems: Seq<LockPackageElement>) -> Option<PackageRelations>
    decreases elems.len(),
{
    if elems.len() == 0 {
        None
    } else {
        match first_relations(elems.drop_last()) {
            Some(r) => Some(r),
            None => match elems.last() {
                LockPackageElement::Relations(r) => Some(r),
                _ => None,
            },
        }
    }
}

/// How a dependency of the package under `key` resolves: first among the packages
/// nested under it, then through `packages`.
pub open spec fn pkg_target(
    pre: Seq<((Seq<char>, Seq<char>), PackageID)>,
    key: Seq<char>,
    all: Seq<(String, Vec<LockPackageElement>)>,
    desc: Seq<(Seq<char>, PackageID)>,
) -> spec_fn(Seq<char>) -> Option<PackageID> {
    |n: Seq<char>|
        match pair_lookup(pre, (key, n)) {
            Some(p) => Some(p),
            None => hoisted_target(all, desc, n),
        }
}

/// How a dependency of a workspace member resolves: through `packages`.
pub open spec fn ws_target(
    all: Seq<(String, Vec<LockPackageElement>)>,
    desc: Seq<(Seq<char>, PackageID)>,
) -> spec_fn(Seq<char>) -> Option<PackageID> {
    |n: Seq<char>| hoisted_target(all, desc, n)
}

/// The dependencies of one package entry, each with the dependent; `None` on an
/// error, or when the entry's package is unknown, which reading the packages rules out.
pub open spec fn entry_deps(
    entry: (String, Vec<LockPackageElement>),
    all: Seq<(String, Vec<LockPackageElement>)>,
    st: PkgState,
) -> Option<Seq<(DepView, PackageID)>> {
    let elems = entry.1@;
    if relations_count(elems) > 1 {
        None
    } else {
        match descriptor_of(elems) {
            None => None,
            Some(d) => match path_lookup(st.desc, d) {
                None => None,
                Some(pid) => match first_relations(elems) {
                    None => Some(Seq::empty()),
                    Some(r) => match reqs_run(
                        rel_requests(r),
                        pkg_target(st.pre, entry.0@, all, st.desc),
                        None,
                    ) {
                        Some(ds) => Some(ds.map_values(|dv: DepView| (dv, pid))),
                        None => None,
                    },
                },
            },
        }
    }
}

/// The dependencies of the package entries, in order; `None` on an error.
pub open spec fn pkg_deps_run(
    entries: Seq<(String, Vec<LockPackageElement>)>,
    all: Seq<(String, Vec<LockPackageElement>)>,
    st: PkgState,
) -> Option<Seq<(DepView, PackageID)>>
    decreases entries.len(),
{
    if entries.len() == 0 {
        Some(Seq::empty())
    } else {
        match pkg_deps_run(entries.drop_last(), all, st) {
            None => None,
            Some(prev) => match entry_deps(entries.last(), all, st) {
                Some(ds) => Some(prev + ds),
                None => None,
            },
        }
    }
}

/// The dependencies of the workspace members, in order; `None` on an error.
pub open spec fn ws_deps_run(
    members: Seq<(String, WorkspaceMember)>,
    wsm: Seq<(Seq<char>, PackageID)>,
    all: Seq<(String, Vec<LockPackageElement>)>,
    st: PkgState,
) -> Option<Seq<(DepView, PackageID)>>
    decreases members.len(),
{
    if members.len() == 0 {
        Some(Seq::empty())
    } else {
        match ws_deps_run(members.drop_last(), wsm, all, st) {
            None => None,
            Some(prev) => {
                let w = members.last();
                match path_lookup(wsm, w.0@) {
                    None => None,
                    Some(pid) => match reqs_run(
                        rel_requests(w.1.relations),
                        ws_target(all, st.desc),
                        Some(st.aliased),
                    ) {
                        Some(ds) => Some(prev + ds.map_values(|d: DepView| (d, pid))),
                        None => None,
                    },
                }
            },
        }
    }
}

/// The lockfile has a known version, valid workspace members and packages,
/// dependencies that resolve, and a root member.
pub open spec fn bun_ok(lock: BunLock) -> bool {
    let ws = lock.workspaces@;
    let wsm = ws_map(ws);
    let st = pkg_run(lock.packages@, ws.len(), wsm, lock.patched_dependencies@);
    &&& lock.lockfile_version <= 1
    &&& forall|k: int| 0 <= k < ws.len() ==> ws_ok(#[trigger] ws[k])
    &&& st is Some
    &&& pkg_deps_run(lock.packages@, lock.packages@, st->0) is Some
    &&& ws_deps_run(ws, wsm, lock.packages@, st->0) is Some
    &&& ws_root(ws) is Some
}

/// `e` is the error reported for a request with outcome `o`: a package that is not
/// found gives `name@specifier`, a specifier or an alias that is refused gives the
/// refusal.
pub open spec fn bun_req_error(o: ReqOutcome, q: DepRequest, e: Error) -> bool {
    match o {
        ReqOutcome::NotFound => e matches Error::DependencyNotFound(m) && m@ == q.0 + "@"@ + q.1,
        ReqOutcome::BadSpecifier => e matches Error::ChasteError(crate::error::Error::InvalidSVS(t))
            && t@ == q.1,
        ReqOutcome::BadAlias => e matches Error::ChasteError(
            crate::error::Error::InvalidPackageName(t),
        ) && t@ == q.0,
        _ => false,
    }
}

/// `e` is the error of the first request that fails.
pub open spec fn bun_reqs_error(
    reqs: Seq<DepRequest>,
    target: spec_fn(Seq<char>) -> Option<PackageID>,
    aliased: Option<Seq<PackageID>>,
    e: Error,
) -> bool {
    exists|i: int|
        0 <= i < reqs.len() && #[trigger] reqs_run(reqs.take(i), target, aliased) is Some && bun_req_error(
            bun_outcome(reqs[i], target(reqs[i].0), aliased),
            reqs[i],
            e,
        )
}

/// `e` is the error reported for a package entry whose dependencies fail: an entry
/// with several relations, without a descriptor or of no package read gives its key;
/// otherwise the first request that fails decides.
pub open spec fn bun_entry_error(
    entry: (String, Vec<LockPackageElement>),
    all: Seq<(String, Vec<LockPackageElement>)>,
    st: PkgState,
    e: Error,
) -> bool {
    let elems = entry.1@;
    if relations_count(elems) > 1 || descriptor_of(elems) is None || path_lookup(
        st.desc,
        descriptor_of(elems)->0,
    ) is None {
        e matches Error::InvalidVariant(k) && k@ == entry.0@
    } else {
        first_relations(elems) matches Some(r) && bun_reqs_error(
            rel_requests(r),
            pkg_target(st.pre, entry.0@, all, st.desc),
            None,
            e,
        )
    }
}

/// `e` is the error of the first package entry whose dependencies fail.
pub open spec fn pkg_deps_error(
    entries: Seq<(String, Vec<LockPackageElement>)>,
    all: Seq<(String, Vec<LockPackageElement>)>,
    st: PkgState,
    e: Error,
) -> bool {
    exists|k: int|
        0 <= k < entries.len() && #[trigger] pkg_deps_run(entries.take(k), all, st) is Some
            && entry_deps(entries[k], all, st) is None && bun_entry_error(entries[k], all, st, e)
}

/// `e` is the error of the first workspace member whose dependencies fail: one whose
/// location is not a member's gives the location, otherwise its first request that
/// fails decides.
pub open spec fn ws_deps_error(
    members: Seq<(String, WorkspaceMember)>,
    wsm: Seq<(Seq<char>, PackageID)>,
    all: Seq<(String, Vec<LockPackageElement>)>,
    st: PkgState,
    e: Error,
) -> bool {
    exists|k: int|
        0 <= k < members.len() && #[trigger] ws_deps_run(members.take(k), wsm, all, st) is Some && if path_lookup(
            wsm,
            members[k].0@,
        ) is None {
            e matches Error::DependencyNotFound(l) && l@ == members[k].0@
        } else {
            reqs_run(rel_requests(members[k].1.relations), ws_target(all, st.desc), Some(st.aliased)) is None
                && bun_reqs_error(
                rel_requests(members[k].1.relations),
                ws_target(all, st.desc),
                Some(st.aliased),
                e,
            )
        }
}

/// `e` is the error reported for a lockfile that is refused. The checks run in this
/// order and the first that fails decides: the version gives
/// `UnknownLockfileVersion`; the first refused workspace member gives its error (see
/// [`ws_error`]); then the entries of `packages` (see [`pkg_phase_error`]); then the
/// dependencies of the packages (see [`pkg_deps_error`]) and of the members (see
/// [`ws_deps_error`]); and a lockfile without a member at the root gives
/// `MissingRootPackageID`.
pub open spec fn bun_error(lock: BunLock, e: Error) -> bool {
    let ws = lock.workspaces@;
    let wsm = ws_map(ws);
    let st = pkg_run(lock.packages@, ws.len(), wsm, lock.patched_dependencies@);
    if lock.lockfile_version > 1 {
        e == Error::UnknownLockfileVersion(lock.lockfile_version)
    } else if first_bad(ws, ws_pred()) is Some {
        ws_error(ws[first_bad(ws, ws_pred())->0], e)
    } else if st is None {
        pkg_phase_error(lock.packages@, ws.len(), wsm, lock.patched_dependencies@, e)
    } else if pkg_deps_run(lock.packages@, lock.packages@, st->0) is None {
        pkg_deps_error(lock.packages@, lock.packages@, st->0, e)
    } else if ws_deps_run(ws, wsm, lock.packages@, st->0) is None {
        ws_deps_error(ws, wsm, lock.packages@, st->0, e)
    } else {
        e == Error::ChasteError(crate::error::Error::MissingRootPackageID)
    }
}

/// The chastefile that the lockfile describes: the members' packages and then the
/// packages of `packages`; installations likewise; the dependencies of the packages
/// and then those of the members.
pub open spec fn bun_chastefile_matches(c: Chastefile<Meta>, lock: BunLock) -> bool {
    let ws = lock.workspaces@;
    let wsm = ws_map(ws);
    let st = pkg_run(lock.packages@, ws.len(), wsm, lock.patched_dependencies@)->0;
    let deps = pkg_deps_run(lock.packages@, lock.packages@, st)->0 + ws_deps_run(
        ws,
        wsm,
        lock.packages@,
        st,
    )->0;
    &&& c.spec_meta().lockfile_version == lock.lockfile_version
    &&& c.spec_packages().len() == ws.len() + st.pkgs.len()
    &&& forall|k: int|
        0 <= k < ws.len() ==> package_is(#[trigger] c.spec_packages()[k], ws_package(ws[k]))
    &&& forall|k: int|
        0 <= k < st.pkgs.len() ==> package_is(
            #[trigger] c.spec_packages()[ws.len() + k],
            st.pkgs[k],
        )
    &&& c.spec_installations().len() == ws.len() + st.insts.len()
    &&& forall|k: int|
        0 <= k < ws.len() ==> (#[trigger] c.spec_installations()[k]).spec_package_id() == pid_at(
            k as nat,
        ) && c.spec_installations()[k].spec_path()@ == ws[k].0@
    &&& forall|k: int|
        0 <= k < st.insts.len() ==> (#[trigger] c.spec_installations()[ws.len()
            + k]).spec_package_id() == st.insts[k].0 && c.spec_installations()[ws.len()
            + k].spec_path()@ == st.insts[k].1
    &&& Some(c.spec_root()) == ws_root(ws)
    &&& c.spec_members() == ws_members(ws)
    &&& c.deps().len() == deps.len()
    &&& forall|j: int| 0 <= j < deps.len() ==> dep_matches(#[trigger] c.deps()[j], deps[j].0, deps[j].1)
}


/// A request whose name resolves, in requests that all succeed, is among the
/// dependencies they give, with its kind and specifier.
proof fn lemma_reqs_run_has(
    reqs: Seq<DepRequest>,
    target: spec_fn(Seq<char>) -> Option<PackageID>,
    aliased: Option<Seq<PackageID>>,
    i: int,
    t: PackageID,
) -> (j: int)
    requires
        reqs_run(reqs, target, aliased) is Some,
        0 <= i < reqs.len(),
        target(reqs[i].0) == Some(t),
    ensures
        0 <= j < reqs_run(reqs, target, aliased)->Some_0.len(),
        reqs_run(reqs, target, aliased)->Some_0[j].kind == reqs[i].2,
        reqs_run(reqs, target, aliased)->Some_0[j].on == t,
        reqs_run(reqs, target, aliased)->Some_0[j].svs == reqs[i].1,
    decreases reqs.len(),
{
    if i == reqs.len() - 1 {
        reqs_run(reqs.drop_last(), target, aliased)->Some_0.len() as int
    } else {
        assert(reqs.drop_last()[i] == reqs[i]);
        lemma_reqs_run_has(reqs.drop_last(), target, aliased, i, t)
    }
}

/// What one entry adds is among the dependencies of all entries.
proof fn lemma_pkg_deps_run_has(
    entries: Seq<(String, Vec<LockPackageElement>)>,
    all: Seq<(String, Vec<LockPackageElement>)>,
    st: PkgState,
    k: int,
    j: int,
) -> (t: int)
    requires
        pkg_deps_run(entries, all, st) is Some,
        0 <= k < entries.len(),
        entry_deps(entries[k], all, st) is Some,
        0 <= j < entry_deps(entries[k], all, st)->Some_0.len(),
    ensures
        0 <= t < pkg_deps_run(entries, all, st)->Some_0.len(),
        pkg_deps_run(entries, all, st)->Some_0[t] == entry_deps(entries[k], all, st)->Some_0[j],
    decreases entries.len(),
{
    if k == entries.len() - 1 {
        pkg_deps_run(entries.drop_last(), all, st)->Some_0.len() + j
    } else {
        assert(entries.drop_last()[k] == entries[k]);
        lemma_pkg_deps_run_has(entries.drop_last(), all, st, k, j)
    }
}

/// What has been read of the packages of a lockfile.
pub open spec fn bun_state(lock: BunLock) -> PkgState {
    pkg_run(lock.packages@, lock.workspaces@.len(), ws_map(lock.workspaces@), lock.patched_dependencies@)->0
}

/// The package that the entry `k` of `packages` names by its descriptor.
pub open spec fn bun_entry_pid(lock: BunLock, k: int) -> Option<PackageID> {
    match descriptor_of(lock.packages@[k].1@) {
        Some(d) => path_lookup(bun_state(lock).desc, d),
        None => None,
    }
}

/// The package a dependency `name` of entry `k` resolves to.
pub open spec fn bun_entry_target(lock: BunLock, k: int, name: Seq<char>) -> Option<PackageID> {
    pkg_target(bun_state(lock).pre, lock.packages@[k].0@, lock.packages@, bun_state(lock).desc)(name)
}

/// Request `q` of entry `k`, whose name resolves to `t`, is recorded with its kind.
proof fn lemma_bun_request_recorded(lock: BunLock, c: Chastefile<Meta>, k: int, pid: PackageID, r: PackageRelations, q: int, t: PackageID)
    requires
        bun_ok(lock),
        bun_chastefile_matches(c, lock),
        0 <= k < lock.packages@.len(),
        bun_entry_pid(lock, k) == Some(pid),
        first_relations(lock.packages@[k].1@) == Some(r),
        0 <= q < rel_requests(r).len(),
        bun_entry_target(lock, k, rel_requests(r)[q].0) == Some(t),
    ensures
        records_dependency(c, pid, t, rel_requests(r)[q].2, rel_requests(r)[q].1),
{
    let st = bun_state(lock);
    let all = lock.packages@;
    let entry = all[k];
    let target = pkg_target(st.pre, entry.0@, all, st.desc);
    let deps = pkg_deps_run(all, all, st)->Some_0;
    let wdeps = ws_deps_run(lock.workspaces@, ws_map(lock.workspaces@), all, st)->Some_0;
    if entry_deps(entry, all, st) is None {
        lemma_pkg_deps_none_at(all, all, st, k);
    }
    assert(entry_deps(entry, all, st) is Some);
    let ds = reqs_run(rel_requests(r), target, None)->Some_0;
    let j = lemma_reqs_run_has(rel_requests(r), target, None, q, t);
    let ek = entry_deps(entry, all, st)->Some_0;
    assert(ek == ds.map_values(|dv: DepView| (dv, pid)));
    let u = lemma_pkg_deps_run_has(all, all, st, k, j);
    let both = deps + wdeps;
    assert(both[u] == deps[u]);
    assert(dep_matches(c.deps()[u], both[u].0, both[u].1));
}

/// An entry whose dependencies fail makes the dependencies of all entries fail.
proof fn lemma_pkg_deps_none_at(
    entries: Seq<(String, Vec<LockPackageElement>)>,
    all: Seq<(String, Vec<LockPackageElement>)>,
    st: PkgState,
    k: int,
)
    requires
        0 <= k < entries.len(),
        entry_deps(entries[k], all, st) is None,
    ensures
        pkg_deps_run(entries, all, st) is None,
    decreases entries.len(),
{
    if k < entries.len() - 1 {
        assert(entries.drop_last()[k] == entries[k]);
        lemma_pkg_deps_none_at(entries.drop_last(), all, st, k);
    }
}

/// Reading a bun lockfile keeps the kind of each list a package's relations write
/// its dependencies in: for every entry of `packages` and every dependency of its
/// relations that resolves, the chastefile records a dependency of the entry's
/// package on the package it resolves to, with the specifier written, of kind
/// `Dependency` for `dependencies`, `DevDependency` for `devDependencies`,
/// `OptionalDependency` for `optionalDependencies`, and for `peerDependencies`
/// `OptionalPeerDependency` when `optionalPeers` names it and `PeerDependency`
/// otherwise.
pub proof fn law_bun_dependency_kinds(lock: BunLock, c: Chastefile<Meta>, k: int, pid: PackageID, r: PackageRelations, i: int, t: PackageID)
    requires
        bun_ok(lock),
        bun_chastefile_matches(c, lock),
        0 <= k < lock.packages@.len(),
        bun_entry_pid(lock, k) == Some(pid),
        first_relations(lock.packages@[k].1@) == Some(r),
    ensures
        0 <= i < r.dependencies@.len() && bun_entry_target(lock, k, r.dependencies@[i].0@) == Some(t)
            ==> records_dependency(c, pid, t, DependencyKind::Dependency, r.dependencies@[i].1@),
        0 <= i < r.dev_dependencies@.len() && bun_entry_target(lock, k, r.dev_dependencies@[i].0@) == Some(t)
            ==> records_dependency(c, pid, t, DependencyKind::DevDependency, r.dev_dependencies@[i].1@),
        0 <= i < r.optional_dependencies@.len() && bun_entry_target(lock, k, r.optional_dependencies@[i].0@)
            == Some(t) ==> records_dependency(
            c,
            pid,
            t,
            DependencyKind::OptionalDependency,
            r.optional_dependencies@[i].1@,
        ),
        0 <= i < r.peer_dependencies@.len() && bun_entry_target(lock, k, r.peer_dependencies@[i].0@) == Some(t)
            ==> records_dependency(
            c,
            pid,
            t,
            if listed(r.optional_peers@, r.peer_dependencies@[i].0@) {
                DependencyKind::OptionalPeerDependency
            } else {
                DependencyKind::PeerDependency
            },
            r.peer_dependencies@[i].1@,
        ),
{
    let reqs = rel_requests(r);
    let nd = r.dependencies@.len() as int;
    let nv = r.dev_dependencies@.len() as int;
    let np = r.peer_dependencies@.len() as int;
    let no = r.optional_dependencies@.len() as int;
    assert(reqs.len() == nd + nv + np + no);
    if 0 <= i < nd && bun_entry_target(lock, k, r.dependencies@[i].0@) == Some(t) {
        assert(reqs[i] == (r.dependencies@[i].0@, r.dependencies@[i].1@, DependencyKind::Dependency));
        lemma_bun_request_recorded(lock, c, k, pid, r, i, t);
    }
    if 0 <= i < nv && bun_entry_target(lock, k, r.dev_dependencies@[i].0@) == Some(t) {
        assert(reqs[nd + i] == (r.dev_dependencies@[i].0@, r.dev_dependencies@[i].1@, DependencyKind::DevDependency));
        lemma_bun_request_recorded(lock, c, k, pid, r, nd + i, t);
    }
    if 0 <= i < np && bun_entry_target(lock, k, r.peer_dependencies@[i].0@) == Some(t) {
        assert(reqs[nd + nv + i].0 == r.peer_dependencies@[i].0@);
        assert(reqs[nd + nv + i].1 == r.peer_dependencies@[i].1@);
        lemma_bun_request_recorded(lock, c, k, pid, r, nd + nv + i, t);
    }
    if 0 <= i < no && bun_entry_target(lock, k, r.optional_dependencies@[i].0@) == Some(t) {
        assert(reqs[nd + nv + np + i] == (
            r.optional_dependencies@[i].0@,
            r.optional_dependencies@[i].1@,
            DependencyKind::OptionalDependency,
        ));
        lemma_bun_request_recorded(lock, c, k, pid, r, nd + nv + np + i, t);
    }
}

} // verus!
