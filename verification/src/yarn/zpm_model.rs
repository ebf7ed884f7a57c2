//! What reading yarn's JSON lockfile gives, step by step, as plain values.
//!
//! The root package and the workspace members come from their `package.json`; each
//! is known by its name with an empty specifier. Each entry of the lockfile then
//! claims its specifiers, for a workspace member or for a new package. The
//! `"resolutions"` of the root that patch a package add a patched copy of it. The
//! dependencies of the members and then of the root are read, and then those of the
//! entries: first the regular ones, then the peer ones.

use vstd::prelude::*;

use crate::error::{chaste_fail_is, ChasteFail};

use crate::chastefile::Chastefile;
use crate::checksums::{hex_digest, is_hex_text};
use crate::dependency::DependencyKind;
use crate::modpath::is_module_path;
use crate::name::is_package_name;
use crate::npm::parse::{dep_matches, DepView};
use crate::package::{pid_at, Package, PackageID};
use crate::semver::{semver_at_least, semver_range_parses, semver_satisfies, semver_version_parses};
use crate::source::SourceView;
use crate::svs::{npm_range_input, parse_svs, spec_aliased_name, spec_range_str, SvsPos};
use crate::text::{first_from, has_at};
use crate::yarn::berry::percent_decoded;
use crate::yarn::berry_model::{
    candidates, checksums_are, dep_view, distinct_pids, distinct_seq, has_pid, insert_all, insert_pos,
    key_text, patch_is, res_run, DepState, DescTable, Key, LockFail,
};
use crate::yarn::lockfile::PairsView;
use crate::yarn::classic_model::lists_specifier;
use crate::yarn::resolutions::{lookup, spec_is_same_svs_zpm, EntryView as ResEntry};
use crate::yarn::zpm::{spans_view, spec_resolved, specifier_at, specifiers_from, ResolvedView};
use crate::yarn::zpm_types::{JsonView, PackageJson, ZEntryView};
use crate::yarn::Meta;

verus! {

/// A package as plain values: name, version, checksum digest, source, and the patch
/// path and unpatched package of a patched package.
pub struct ZpmPkg {
    pub name: Option<Seq<char>>,
    pub version: Option<Seq<char>>,
    pub checksum: Option<Seq<char>>,
    pub source: Option<SourceView>,
    pub patch: Option<(Seq<char>, PackageID)>,
}

/// `p` is the package `v`.
pub open spec fn zpm_package_is(p: Package, v: ZpmPkg) -> bool {
    &&& p.spec_name() == v.name
    &&& p.spec_version() == v.version
    &&& checksums_are(p.spec_checksums(), v.checksum)
    &&& crate::source::opt_source_view(p.spec_source()) == v.source
    &&& patch_is(p.spec_derived(), v.patch)
}

/// The package of a `package.json`; `None` when its name or version is refused.
pub open spec fn json_pkg(j: JsonView) -> Option<ZpmPkg> {
    if (j.name matches Some(n) && !is_package_name(n)) || (j.version matches Some(v)
        && !semver_version_parses(v)) {
        None
    } else {
        Some(ZpmPkg { name: j.name, version: j.version, checksum: None, source: None, patch: None })
    }
}

/// Why a `package.json` gives no package: its name, else its version.
pub open spec fn json_fail(j: JsonView) -> ChasteFail {
    if j.name matches Some(n) && !is_package_name(n) {
        ChasteFail::Name(j.name->Some_0)
    } else {
        ChasteFail::Version
    }
}

/// What has been read: the packages; the specifier table; the members and the
/// installations; per package the source recorded for it and the version of its
/// entry; the id of each entry read; and the packages kept, before they are built,
/// for the specifiers that a patch names.
pub struct ZpmState {
    pub pkgs: Seq<ZpmPkg>,
    pub table: DescTable,
    pub members: Seq<PackageID>,
    pub insts: Seq<(PackageID, Seq<char>)>,
    pub sources: Seq<Option<SourceView>>,
    pub versions: Seq<Seq<char>>,
    pub entry_pid: Seq<PackageID>,
    pub copies: Seq<(Key, ZpmPkg)>,
}

/// The table with `k` set to `pid`, in place of what it was set to.
pub open spec fn table_set(t: DescTable, k: Key, pid: PackageID) -> DescTable {
    let i = insert_pos(t, k, 0);
    if i < t.len() && t[i].0 == k {
        t.update(i, (k, pid))
    } else {
        t.insert(i, (k, pid))
    }
}

/// A workspace package is known by its name with an empty specifier.
pub open spec fn name_key(name: Option<Seq<char>>, t: DescTable, pid: PackageID) -> DescTable {
    match name {
        Some(n) => table_set(t, (n, seq![]), pid),
        None => t,
    }
}

/// The root package, installed at the root.
pub open spec fn root_state(root: JsonView) -> Option<ZpmState> {
    match json_pkg(root) {
        None => None,
        Some(p) => Some(
            ZpmState {
                pkgs: seq![p],
                table: name_key(root.name, seq![], pid_at(0)),
                members: seq![],
                insts: seq![(pid_at(0), seq![])],
                sources: seq![None],
                versions: seq![seq![]],
                entry_pid: seq![],
                copies: seq![],
            },
        ),
    }
}

/// Adds a workspace member, installed at its path.
pub open spec fn member_step(st: ZpmState, m: (Seq<char>, JsonView)) -> Option<ZpmState> {
    match json_pkg(m.1) {
        None => None,
        Some(p) => if !is_module_path(m.0) {
            None
        } else {
            let pid = pid_at(st.pkgs.len());
            Some(
                ZpmState {
                    pkgs: st.pkgs.push(p),
                    table: name_key(m.1.name, st.table, pid),
                    members: st.members.push(pid),
                    insts: st.insts.push((pid, m.0)),
                    sources: st.sources.push(None),
                    versions: st.versions.push(seq![]),
                    ..st
                },
            )
        },
    }
}

/// The root and the first `n` members.
pub open spec fn members_run(root: JsonView, members: Seq<(Seq<char>, JsonView)>, n: int) -> Option<ZpmState>
    decreases n,
{
    if n <= 0 {
        root_state(root)
    } else {
        match members_run(root, members, n - 1) {
            None => None,
            Some(st) => member_step(st, members[n - 1]),
        }
    }
}

/// Why the first `n` workspace members cannot be added: the root's `package.json`,
/// else that of the first member that fails, else its path.
pub open spec fn members_fail(root: JsonView, members: Seq<(Seq<char>, JsonView)>, n: int) -> ChasteFail
    decreases n,
{
    if n <= 0 {
        json_fail(root)
    } else if members_run(root, members, n - 1) is None {
        members_fail(root, members, n - 1)
    } else if json_pkg(members[n - 1].1) is None {
        json_fail(members[n - 1].1)
    } else {
        ChasteFail::Path(members[n - 1].0)
    }
}

/// The specifier a patch override applies to and the path of the patch: `patch:`,
/// the percent-encoded specifier up to the first `#`, and the path after it.
pub open spec fn patched_spec(v: Seq<char>) -> Option<(Key, Seq<char>)> {
    if !has_at(v, 0, "patch:"@) {
        None
    } else {
        let body = v.subrange("patch:"@.len() as int, v.len() as int);
        match first_from(body, 0, "#"@) {
            None => None,
            Some(j) => match percent_decoded(body.subrange(0, j)) {
                None => None,
                Some(spec) => match specifier_at(spec, 0) {
                    None => None,
                    Some((at, e)) => Some(
                        ((spec.subrange(0, at), spec.subrange(at + 1, e)), body.subrange(j + 1, body.len() as int)),
                    ),
                },
            },
        }
    }
}

/// Patches by the specifier they apply to: the path and the override's value.
pub type Patched = Seq<(Key, (Seq<char>, Seq<char>))>;

/// The first position from `i` whose specifier is `k`.
pub open spec fn patch_index(ps: Patched, k: Key, i: int) -> Option<int>
    decreases ps.len() - i,
{
    if i < 0 || i >= ps.len() {
        None
    } else if ps[i].0 == k {
        Some(i)
    } else {
        patch_index(ps, k, i + 1)
    }
}

/// The patches of the first `n` overrides: a later patch of the same specifier
/// replaces an earlier one in its place.
pub open spec fn patched_run(res: PairsView, n: int) -> Patched
    decreases n,
{
    if n <= 0 {
        seq![]
    } else {
        let ps = patched_run(res, n - 1);
        match patched_spec(res[n - 1].1) {
            None => ps,
            Some((k, path)) => match patch_index(ps, k, 0) {
                Some(i) => ps.update(i, (k, (path, res[n - 1].1))),
                None => ps.push((k, (path, res[n - 1].1))),
            },
        }
    }
}

/// The specifiers of an entry's key.
pub open spec fn entry_specs(e: ZEntryView) -> Option<PairsView> {
    match specifiers_from(e.key, 0) {
        Some(sp) => Some(spans_view(e.key, sp)),
        None => None,
    }
}

/// The first member, from index `m`, at `path`.
pub open spec fn member_at(members: Seq<(Seq<char>, JsonView)>, path: Seq<char>, m: int) -> Option<int>
    decreases members.len() - m,
{
    if m < 0 || m >= members.len() {
        None
    } else if members[m].0 == path {
        Some(m)
    } else {
        member_at(members, path, m + 1)
    }
}

/// The kept packages after the specifiers `specs` of a package `p`: one for each
/// specifier that a patch names.
pub open spec fn add_copies(cs: Seq<(Key, ZpmPkg)>, specs: PairsView, patched: Patched, p: ZpmPkg) -> Seq<(Key, ZpmPkg)>
    decreases specs.len(),
{
    if specs.len() == 0 {
        cs
    } else {
        let c2 = add_copies(cs, specs.drop_last(), patched, p);
        if patch_index(patched, specs.last(), 0) is Some {
            c2.push((specs.last(), p))
        } else {
            c2
        }
    }
}

/// Reads an entry: its specifiers go to a workspace member, or to a new package.
pub open spec fn zpm_entry_step(st: ZpmState, members: Seq<(Seq<char>, JsonView)>, patched: Patched, e: ZEntryView) -> Result<ZpmState, LockFail> {
    match entry_specs(e) {
        None => Err(LockFail::InvalidEntryKey(e.key)),
        Some(specs) => match spec_resolved(e.resolution) {
            None => Err(LockFail::InvalidResolved(e.resolution)),
            Some((name, r)) => match r {
                Some(ResolvedView::Workspace(path)) => match member_at(members, path, 0) {
                    None => Err(LockFail::UnrecognizedWorkspace(path)),
                    Some(m) => {
                        let pid = pid_at((1 + m) as nat);
                        match insert_all(st.table, specs, pid) {
                            Err(d) => Err(LockFail::Duplicate(d)),
                            Ok(t) => Ok(ZpmState { table: t, entry_pid: st.entry_pid.push(pid), ..st }),
                        }
                    },
                },
                _ => if !is_package_name(name) {
                    Err(LockFail::Chaste(ChasteFail::Name(name)))
                } else if e.checksum matches Some(c) && !is_hex_text(c) {
                    Err(LockFail::Ssri)
                } else if !semver_version_parses(e.version) {
                    Err(LockFail::Chaste(ChasteFail::Version))
                } else {
                    let src = match r {
                        Some(ResolvedView::Remote(s)) => Some(s),
                        _ => None,
                    };
                    let p = ZpmPkg {
                        name: Some(name),
                        version: Some(e.version),
                        checksum: match e.checksum {
                            Some(c) => Some(hex_digest(c)),
                            None => None,
                        },
                        source: src,
                        patch: None,
                    };
                    let pid = pid_at(st.pkgs.len());
                    match insert_all(st.table, specs, pid) {
                        Err(d) => Err(LockFail::Duplicate(d)),
                        Ok(t) => Ok(
                            ZpmState {
                                pkgs: st.pkgs.push(p),
                                table: t,
                                sources: st.sources.push(src),
                                versions: st.versions.push(e.version),
                                entry_pid: st.entry_pid.push(pid),
                                copies: add_copies(st.copies, specs, patched, p),
                                ..st
                            },
                        ),
                    }
                },
            },
        },
    }
}

/// The first `n` entries, read in order.
pub open spec fn zpm_entries_run(
    st0: ZpmState,
    members: Seq<(Seq<char>, JsonView)>,
    patched: Patched,
    entries: Seq<ZEntryView>,
    n: int,
) -> Result<ZpmState, LockFail>
    decreases n,
{
    if n <= 0 {
        Ok(st0)
    } else {
        match zpm_entries_run(st0, members, patched, entries, n - 1) {
            Err(f) => Err(f),
            Ok(st) => zpm_entry_step(st, members, patched, entries[n - 1]),
        }
    }
}

/// The first position from `i` whose key is `k`.
pub open spec fn table_find(t: DescTable, k: Key, i: int) -> Option<int>
    decreases t.len() - i,
{
    if i < 0 || i >= t.len() {
        None
    } else if t[i].0 == k {
        Some(i)
    } else {
        table_find(t, k, i + 1)
    }
}

/// The last package kept for the specifier `k`, from the first `n`.
pub open spec fn last_copy(cs: Seq<(Key, ZpmPkg)>, k: Key, n: int) -> Option<ZpmPkg>
    decreases n,
{
    if n <= 0 || n > cs.len() {
        None
    } else if cs[n - 1].0 == k {
        Some(cs[n - 1].1)
    } else {
        last_copy(cs, k, n - 1)
    }
}

/// Both what a patch applies to and the package kept for it are there.
pub open spec fn patch_found(st: ZpmState, k: Key) -> bool {
    table_find(st.table, k, 0) is Some && last_copy(st.copies, k, st.copies.len() as int) is Some
}

/// Adds the patched copy of a package, known by the override's value.
pub open spec fn zpm_patch_step(st: ZpmState, pt: (Key, (Seq<char>, Seq<char>))) -> ZpmState {
    let k = pt.0;
    let og = st.table[table_find(st.table, k, 0)->Some_0].1;
    let base = last_copy(st.copies, k, st.copies.len() as int)->Some_0;
    let pid = pid_at(st.pkgs.len());
    ZpmState {
        pkgs: st.pkgs.push(ZpmPkg { patch: Some((pt.1.0, og)), ..base }),
        table: table_set(st.table, (k.0, pt.1.1), pid),
        sources: st.sources.push(None),
        versions: st.versions.push(seq![]),
        ..st
    }
}

/// The first `n` patches added.
pub open spec fn zpm_patches_run(st: ZpmState, patched: Patched, n: int) -> ZpmState
    decreases n,
{
    if n <= 0 {
        st
    } else {
        zpm_patch_step(zpm_patches_run(st, patched, n - 1), patched[n - 1])
    }
}

/// Every patch finds what it applies to, when the first `n` are added.
pub open spec fn patches_found(st: ZpmState, patched: Patched, n: int) -> bool
    decreases n,
{
    if n <= 0 {
        true
    } else {
        patches_found(st, patched, n - 1) && patch_found(zpm_patches_run(st, patched, n - 1), patched[n - 1].0)
    }
}

/// The package was recorded as coming from an npm registry.
pub open spec fn zpm_npm(st: ZpmState, p: PackageID) -> bool {
    st.sources[p.id() as int] == Some(SourceView::Npm)
}

/// The package of the highest version; the last of them where several are highest.
pub open spec fn zpm_last_max(st: ZpmState, s: Seq<PackageID>) -> PackageID
    decreases s.len(),
{
    if s.len() <= 1 {
        s[0]
    } else {
        let b = zpm_last_max(st, s.drop_last());
        if semver_at_least(st.versions[s.last().id() as int], st.versions[b.id() as int]) {
            s.last()
        } else {
            b
        }
    }
}

/// The packages of the descriptors of `c` whose specifier names the same thing as `spec`.
pub open spec fn same_zpm(c: DescTable, spec: Seq<char>) -> Seq<PackageID> {
    distinct_pids(c.filter(|x: (Key, PackageID)| spec_is_same_svs_zpm(spec, x.0.1)))
}

/// The package a peer request for `name` at `spec` from `from` resolves to, if any:
/// the only package of that name; none when there is no package of that name; else
/// the only one that matches the override; else the only one among those `from`
/// already depends on (`kids`); else the only one that matches `spec`; else `from`
/// itself; else, for an npm range of `over_svs` (read as `over_pos`), the only
/// package from npm that satisfies it, or the highest of several.
pub open spec fn zpm_peer_target(
    st: ZpmState,
    kids: Seq<PackageID>,
    from: PackageID,
    name: Seq<char>,
    spec: Seq<char>,
    over: Option<Seq<char>>,
    over_svs: Seq<char>,
    over_pos: SvsPos,
) -> Option<PackageID> {
    let c = candidates(st.table, name);
    let d = distinct_pids(c);
    let sib = distinct_seq(kids).filter(|p: PackageID| has_pid(c, p));
    if d.len() == 1 {
        Some(d[0])
    } else if c.len() == 0 {
        None
    } else if over matches Some(ev) && same_zpm(c, ev).len() == 1 {
        Some(same_zpm(c, over->Some_0)[0])
    } else if sib.len() == 1 {
        Some(sib[0])
    } else if same_zpm(c, spec).len() == 1 {
        Some(same_zpm(c, spec)[0])
    } else if has_pid(c, from) {
        Some(from)
    } else if over_pos is Npm && semver_range_parses(npm_range_input(over_svs)) {
        let sat = d.filter(
            |p: PackageID| zpm_npm(st, p) && semver_satisfies(st.versions[p.id() as int], npm_range_input(over_svs)),
        );
        if sat.len() == 1 {
            Some(sat[0])
        } else if sat.len() > 1 {
            Some(zpm_last_max(st, sat))
        } else {
            None
        }
    } else {
        None
    }
}

/// A request for `name` at `svs` of kind `kind` from `from`, under the overrides `res`
/// and the specifiers `parents` of the requesting entry: the dependency, none (an
/// optional dependency not found, or a peer dependency unmet), or why it fails. An
/// override, and an npm alias in the (overridden) specifier, choose what is looked
/// for.
pub open spec fn zpm_dep(
    st: ZpmState,
    res: Seq<ResEntry>,
    parents: PairsView,
    kids: Seq<PackageID>,
    from: PackageID,
    kind: DependencyKind,
    name: Seq<char>,
    svs: Seq<char>,
) -> Result<Option<DepView>, LockFail> {
    let over = lookup(res, name, svs, parents);
    let osvs = match over {
        Some(o) => o,
        None => svs,
    };
    if parse_svs(svs, None) is None || parse_svs(osvs, None) is None {
        Err(LockFail::Chaste(ChasteFail::Svs(if parse_svs(svs, None) is None { svs } else { osvs })))
    } else {
        let opos = parse_svs(osvs, None)->Some_0;
        let alias = spec_aliased_name(osvs, opos);
        let aspec = match (alias, spec_range_str(osvs, opos)) {
            (Some(_), Some(rs)) => rs,
            _ => osvs,
        };
        let lname = match alias {
            Some(a) => a,
            None => name,
        };
        let target = if kind.spec_is_peer() {
            Ok(zpm_peer_target(st, kids, from, lname, aspec, over, osvs, opos))
        } else {
            let hits = same_zpm(candidates(st.table, lname), aspec);
            if hits.len() == 0 {
                if kind.spec_is_optional() {
                    Ok(None)
                } else {
                    Err(LockFail::NotFound(key_text((name, svs))))
                }
            } else if hits.len() == 1 {
                Ok(Some(hits[0]))
            } else {
                Err(LockFail::Ambiguous(key_text((name, svs))))
            }
        };
        match target {
            Err(f) => Err(f),
            Ok(None) => Ok(None),
            Ok(Some(p)) => match dep_view(kind, p, name, svs) {
                Err(f) => Err(f),
                Ok(v) => Ok(Some(v)),
            },
        }
    }
}

/// One request from `from`: a dependency found is recorded, and, unless it is a peer
/// one, counts among the packages `from` depends on.
pub open spec fn zpm_dep_step(
    st: ZpmState,
    res: Seq<ResEntry>,
    parents: PairsView,
    from: PackageID,
    kind: DependencyKind,
    ds: DepState,
    d: (Seq<char>, Seq<char>),
) -> Result<DepState, LockFail> {
    match zpm_dep(st, res, parents, ds.children[from.id() as int], from, kind, d.0, d.1) {
        Err(f) => Err(f),
        Ok(None) => Ok(ds),
        Ok(Some(v)) => Ok(
            DepState {
                children: if kind.spec_is_peer() {
                    ds.children
                } else {
                    ds.children.update(from.id() as int, ds.children[from.id() as int].push(v.on))
                },
                out: ds.out.push((from, v)),
            },
        ),
    }
}

/// The first `n` requests of one list of a `package.json`.
pub open spec fn json_list_run(
    st: ZpmState,
    res: Seq<ResEntry>,
    from: PackageID,
    kind: DependencyKind,
    list: PairsView,
    ds: DepState,
    n: int,
) -> Result<DepState, LockFail>
    decreases n,
{
    if n <= 0 {
        Ok(ds)
    } else {
        match json_list_run(st, res, from, kind, list, ds, n - 1) {
            Err(f) => Err(f),
            Ok(d2) => zpm_dep_step(st, res, seq![], from, kind, d2, list[n - 1]),
        }
    }
}

/// The first `n` lists of a `package.json`, for the package `from`.
pub open spec fn json_deps_run(
    st: ZpmState,
    res: Seq<ResEntry>,
    from: PackageID,
    j: JsonView,
    ds: DepState,
    n: int,
) -> Result<DepState, LockFail>
    decreases n,
{
    if n <= 0 {
        Ok(ds)
    } else {
        match json_deps_run(st, res, from, j, ds, n - 1) {
            Err(f) => Err(f),
            Ok(d2) => json_list_run(st, res, from, j.lists[n - 1].1, j.lists[n - 1].0, d2, j.lists[n - 1].0.len() as int),
        }
    }
}

/// The dependencies of the first `n` members, each as its own package's.
pub open spec fn members_deps_run(
    st: ZpmState,
    res: Seq<ResEntry>,
    members: Seq<(Seq<char>, JsonView)>,
    ds: DepState,
    n: int,
) -> Result<DepState, LockFail>
    decreases n,
{
    if n <= 0 {
        Ok(ds)
    } else {
        match members_deps_run(st, res, members, ds, n - 1) {
            Err(f) => Err(f),
            Ok(d2) => json_deps_run(st, res, pid_at(n as nat), members[n - 1].1, d2, members[n - 1].1.lists.len() as int),
        }
    }
}

/// The kind of a request of an entry: regular or peer, optional when its name is
/// listed as such.
pub open spec fn entry_kind(peer: bool, optional: bool) -> DependencyKind {
    if peer {
        if optional {
            DependencyKind::OptionalPeerDependency
        } else {
            DependencyKind::PeerDependency
        }
    } else if optional {
        DependencyKind::OptionalDependency
    } else {
        DependencyKind::Dependency
    }
}

/// The regular (or peer) requests of an entry, with what marks them optional.
pub open spec fn entry_list(e: ZEntryView, peer: bool) -> (PairsView, Seq<Seq<char>>) {
    if peer {
        (e.peer_dependencies, e.optional_peers)
    } else {
        (e.dependencies, e.optional)
    }
}

/// The first `n` regular (or peer) requests of entry `i`.
pub open spec fn entry_list_run(
    st: ZpmState,
    res: Seq<ResEntry>,
    entries: Seq<ZEntryView>,
    i: int,
    peer: bool,
    ds: DepState,
    n: int,
) -> Result<DepState, LockFail>
    decreases n,
{
    if n <= 0 {
        Ok(ds)
    } else {
        match entry_list_run(st, res, entries, i, peer, ds, n - 1) {
            Err(f) => Err(f),
            Ok(d2) => {
                let (list, opts) = entry_list(entries[i], peer);
                let d = list[n - 1];
                zpm_dep_step(
                    st,
                    res,
                    entry_specs(entries[i])->Some_0,
                    st.entry_pid[i],
                    entry_kind(peer, opts.contains(d.0)),
                    d2,
                    d,
                )
            },
        }
    }
}

/// The regular (or peer) requests of the first `n` entries.
pub open spec fn entries_deps_run(
    st: ZpmState,
    res: Seq<ResEntry>,
    entries: Seq<ZEntryView>,
    peer: bool,
    ds: DepState,
    n: int,
) -> Result<DepState, LockFail>
    decreases n,
{
    if n <= 0 {
        Ok(ds)
    } else {
        match entries_deps_run(st, res, entries, peer, ds, n - 1) {
            Err(f) => Err(f),
            Ok(d2) => entry_list_run(st, res, entries, n - 1, peer, d2, entry_list(entries[n - 1], peer).0.len() as int),
        }
    }
}

/// All dependencies: the members', the root's, then the entries' regular and peer ones.
pub open spec fn zpm_deps(
    st: ZpmState,
    res: Seq<ResEntry>,
    root: JsonView,
    members: Seq<(Seq<char>, JsonView)>,
    entries: Seq<ZEntryView>,
) -> Result<DepState, LockFail> {
    let d0 = DepState { children: Seq::new(st.pkgs.len(), |i: int| Seq::<PackageID>::empty()), out: seq![] };
    match members_deps_run(st, res, members, d0, members.len() as int) {
        Err(f) => Err(f),
        Ok(d1) => match json_deps_run(st, res, pid_at(0), root, d1, root.lists.len() as int) {
            Err(f) => Err(f),
            Ok(d2) => match entries_deps_run(st, res, entries, false, d2, entries.len() as int) {
                Err(f) => Err(f),
                Ok(d3) => entries_deps_run(st, res, entries, true, d3, entries.len() as int),
            },
        },
    }
}

/// What the reading gives: the packages and installations, with the dependencies.
pub struct ZpmOut {
    pub st: ZpmState,
    pub deps: Seq<(PackageID, DepView)>,
}

/// The state after the root, the members and the entries.
pub open spec fn zpm_read(
    root: JsonView,
    members: Seq<(Seq<char>, JsonView)>,
    entries: Seq<ZEntryView>,
) -> Result<ZpmState, LockFail> {
    match res_run(root.resolutions) {
        Err(k) => Err(LockFail::InvalidResolution(k)),
        Ok(_) => match members_run(root, members, members.len() as int) {
            None => Err(LockFail::Chaste(members_fail(root, members, members.len() as int))),
            Some(s0) => zpm_entries_run(
                s0,
                members,
                patched_run(root.resolutions, root.resolutions.len() as int),
                entries,
                entries.len() as int,
            ),
        },
    }
}

/// Every patch override applies to a package of the lockfile; where one does not, the
/// reader stops with a panic, so it is asked of the input.
pub open spec fn zpm_patches_apply(
    root: JsonView,
    members: Seq<(Seq<char>, JsonView)>,
    entries: Seq<ZEntryView>,
) -> bool {
    let ps = patched_run(root.resolutions, root.resolutions.len() as int);
    zpm_read(root, members, entries) matches Ok(st) ==> patches_found(st, ps, ps.len() as int)
}

/// Reading a JSON lockfile of version `version` with the `package.json` of the root
/// and of the workspace members (with their paths).
pub open spec fn zpm_run(
    version: u8,
    root: JsonView,
    members: Seq<(Seq<char>, JsonView)>,
    entries: Seq<ZEntryView>,
) -> Result<ZpmOut, LockFail> {
    if version != 9 {
        Err(LockFail::UnknownVersion(version))
    } else {
        match zpm_read(root, members, entries) {
            Err(f) => Err(f),
            Ok(s1) => {
                let ps = patched_run(root.resolutions, root.resolutions.len() as int);
                let st = zpm_patches_run(s1, ps, ps.len() as int);
                match zpm_deps(st, res_run(root.resolutions)->Ok_0, root, members, entries) {
                    Err(f) => Err(f),
                    Ok(ds) => Ok(ZpmOut { st, deps: ds.out }),
                }
            },
        }
    }
}

/// The chastefile holds what was read; the root is the first package.
pub open spec fn zpm_chastefile_is(c: Chastefile<Meta>, version: u8, out: ZpmOut) -> bool {
    &&& c.spec_meta().lockfile_version == version
    &&& c.spec_packages().len() == out.st.pkgs.len()
    &&& forall|k: int|
        0 <= k < out.st.pkgs.len() ==> zpm_package_is(#[trigger] c.spec_packages()[k], out.st.pkgs[k])
    &&& c.spec_installations().len() == out.st.insts.len()
    &&& forall|k: int|
        0 <= k < out.st.insts.len() ==> (#[trigger] c.spec_installations()[k]).spec_package_id()
            == out.st.insts[k].0 && c.spec_installations()[k].spec_path()@ == out.st.insts[k].1
    &&& c.spec_root() == pid_at(0)
    &&& c.spec_members() == out.st.members
    &&& c.deps().len() == out.deps.len()
    &&& forall|j: int|
        0 <= j < out.deps.len() ==> dep_matches(#[trigger] c.deps()[j], out.deps[j].1, out.deps[j].0)
}


/// A request that adds a dependency keeps the kind and specifier it was made with.
proof fn lemma_zpm_dep_step_kind(
    st: ZpmState,
    res: Seq<ResEntry>,
    parents: PairsView,
    from: PackageID,
    kind: DependencyKind,
    ds: DepState,
    d: (Seq<char>, Seq<char>),
    d2: DepState,
)
    requires
        zpm_dep_step(st, res, parents, from, kind, ds, d) == Ok::<DepState, LockFail>(d2),
    ensures
        d2.out.len() == ds.out.len() || d2.out.len() == ds.out.len() + 1,
        forall|j: int| 0 <= j < ds.out.len() ==> d2.out[j] == ds.out[j],
        d2.out.len() == ds.out.len() + 1 ==> d2.out[ds.out.len() as int].0 == from && d2.out[ds.out.len() as int].1.kind
            == kind && d2.out[ds.out.len() as int].1.svs == d.1,
{
}

/// `x` is a dependency that request `q` of entry `i`'s regular (or peer) list can
/// give: from the entry's package, with the request's specifier, a peer dependency
/// exactly when the list is the peer one, and optional exactly when the entry marks
/// the request's name optional (`optional` for regular requests,
/// `optionalPeerDependencies` for peer ones).
pub open spec fn given_by_request(st: ZpmState, e: ZEntryView, i: int, peer: bool, q: int, x: (PackageID, DepView)) -> bool {
    let list = if peer {
        e.peer_dependencies
    } else {
        e.dependencies
    };
    let marks = if peer {
        e.optional_peers
    } else {
        e.optional
    };
    &&& x.0 == st.entry_pid[i]
    &&& x.1.svs == list[q].1
    &&& x.1.kind.spec_is_peer() == peer
    &&& x.1.kind.spec_is_optional() == marks.contains(list[q].0)
}

/// Reading one list of an entry's requests, regular or peer, keeps what was read
/// before, and every dependency it records comes from one of the requests, as
/// [`given_by_request`] says: in particular a peer request whose name
/// `optionalPeerDependencies` lists is recorded as an optional peer dependency.
pub proof fn law_zpm_entry_list_kinds(
    st: ZpmState,
    res: Seq<ResEntry>,
    entries: Seq<ZEntryView>,
    i: int,
    peer: bool,
    ds: DepState,
    n: int,
    d2: DepState,
)
    requires
        entry_list_run(st, res, entries, i, peer, ds, n) == Ok::<DepState, LockFail>(d2),
        0 <= n <= (if peer {
            entries[i].peer_dependencies
        } else {
            entries[i].dependencies
        }).len(),
    ensures
        ds.out.len() <= d2.out.len(),
        forall|j: int| 0 <= j < ds.out.len() ==> d2.out[j] == ds.out[j],
        forall|j: int|
            #![trigger d2.out[j]]
            ds.out.len() <= j < d2.out.len() ==> exists|q: int|
                0 <= q < n && #[trigger] given_by_request(st, entries[i], i, peer, q, d2.out[j]),
    decreases n,
{
    if n > 0 {
        let d1 = entry_list_run(st, res, entries, i, peer, ds, n - 1)->Ok_0;
        law_zpm_entry_list_kinds(st, res, entries, i, peer, ds, n - 1, d1);
        let (list, opts) = entry_list(entries[i], peer);
        let d = list[n - 1];
        let kind = entry_kind(peer, opts.contains(d.0));
        lemma_zpm_dep_step_kind(st, res, entry_specs(entries[i])->Some_0, st.entry_pid[i], kind, d1, d, d2);
        assert forall|j: int| #![trigger d2.out[j]] ds.out.len() <= j < d2.out.len() implies exists|q: int|
            0 <= q < n && #[trigger] given_by_request(st, entries[i], i, peer, q, d2.out[j]) by {
            if j < d1.out.len() {
                assert(d2.out[j] == d1.out[j]);
                let q = choose|q: int| 0 <= q < n - 1 && #[trigger] given_by_request(st, entries[i], i, peer, q, d1.out[j]);
                assert(given_by_request(st, entries[i], i, peer, q, d2.out[j]));
            } else {
                assert(d2.out[j].1.kind == kind);
                assert(given_by_request(st, entries[i], i, peer, n - 1, d2.out[j]));
            }
        }
    }
}


/// Reading one list of a `package.json` keeps what was read, and each dependency it
/// adds is from `from`, of the list's kind, with the specifier of one of its requests.
proof fn lemma_json_list_kind(st: ZpmState, res: Seq<ResEntry>, from: PackageID, kind: DependencyKind, list: PairsView, ds: DepState, n: int, d2: DepState)
    requires
        json_list_run(st, res, from, kind, list, ds, n) == Ok::<DepState, LockFail>(d2),
        0 <= n <= list.len(),
    ensures
        ds.out.len() <= d2.out.len(),
        forall|j: int| 0 <= j < ds.out.len() ==> d2.out[j] == ds.out[j],
        forall|j: int|
            ds.out.len() <= j < d2.out.len() ==> (#[trigger] d2.out[j]).0 == from && d2.out[j].1.kind == kind
                && exists|q: int| 0 <= q < list.len() && #[trigger] list[q].1 == d2.out[j].1.svs,
    decreases n,
{
    if n > 0 {
        let d1 = json_list_run(st, res, from, kind, list, ds, n - 1)->Ok_0;
        lemma_json_list_kind(st, res, from, kind, list, ds, n - 1, d1);
        lemma_zpm_dep_step_kind(st, res, seq![], from, kind, d1, list[n - 1], d2);
        assert forall|j: int| ds.out.len() <= j < d2.out.len() implies (#[trigger] d2.out[j]).0 == from
            && d2.out[j].1.kind == kind && exists|q: int| 0 <= q < list.len() && #[trigger] list[q].1 == d2.out[j].1.svs by {
            if j < d1.out.len() {
                assert(d2.out[j] == d1.out[j]);
            } else {
                assert(list[n - 1].1 == d2.out[j].1.svs);
            }
        }
    }
}

/// `x` is a dependency that one of the lists of `j` can give `from`: a dependency
/// from `dependencies`, a dev dependency from `devDependencies`, an optional
/// dependency from `optionalDependencies` or a peer dependency from
/// `peerDependencies`, with a specifier the list writes.
pub open spec fn given_by_package_json(j: PackageJson, from: PackageID, x: (PackageID, DepView)) -> bool {
    &&& x.0 == from
    &&& {
        ||| x.1.kind == DependencyKind::Dependency && lists_specifier(j.dependencies@, x.1.svs)
        ||| x.1.kind == DependencyKind::DevDependency && lists_specifier(j.dev_dependencies@, x.1.svs)
        ||| x.1.kind == DependencyKind::OptionalDependency && lists_specifier(j.optional_dependencies@, x.1.svs)
        ||| x.1.kind == DependencyKind::PeerDependency && lists_specifier(j.peer_dependencies@, x.1.svs)
    }
}

/// Reading the lists of a `package.json` (the root's or a member's) keeps what was
/// read before, and every dependency it adds is one the lists give (see
/// [`given_by_package_json`]): its kind is the kind of the list it is written in.
pub proof fn law_zpm_package_json_kinds(st: ZpmState, res: Seq<ResEntry>, from: PackageID, j: PackageJson, ds: DepState, d2: DepState)
    requires
        json_deps_run(st, res, from, j@, ds, 4) == Ok::<DepState, LockFail>(d2),
    ensures
        ds.out.len() <= d2.out.len(),
        forall|t: int| 0 <= t < ds.out.len() ==> d2.out[t] == ds.out[t],
        forall|t: int| ds.out.len() <= t < d2.out.len() ==> #[trigger] given_by_package_json(j, from, d2.out[t]),
{
    let jv = j@;
    let d1 = json_deps_run(st, res, from, jv, ds, 1)->Ok_0;
    let e2 = json_deps_run(st, res, from, jv, ds, 2)->Ok_0;
    let e3 = json_deps_run(st, res, from, jv, ds, 3)->Ok_0;
    assert(json_deps_run(st, res, from, jv, ds, 0) == Ok::<DepState, LockFail>(ds));
    lemma_json_list_kind(st, res, from, jv.lists[0].1, jv.lists[0].0, ds, jv.lists[0].0.len() as int, d1);
    lemma_json_list_kind(st, res, from, jv.lists[1].1, jv.lists[1].0, d1, jv.lists[1].0.len() as int, e2);
    lemma_json_list_kind(st, res, from, jv.lists[2].1, jv.lists[2].0, e2, jv.lists[2].0.len() as int, e3);
    lemma_json_list_kind(st, res, from, jv.lists[3].1, jv.lists[3].0, e3, jv.lists[3].0.len() as int, d2);
    assert forall|t: int| ds.out.len() <= t < d2.out.len() implies #[trigger] given_by_package_json(j, from, d2.out[t]) by {
        let (lst, pairs): (PairsView, Seq<(String, String)>) = if t < d1.out.len() {
            (jv.lists[0].0, j.dependencies@)
        } else if t < e2.out.len() {
            (jv.lists[1].0, j.dev_dependencies@)
        } else if t < e3.out.len() {
            (jv.lists[2].0, j.optional_dependencies@)
        } else {
            (jv.lists[3].0, j.peer_dependencies@)
        };
        if t < d1.out.len() {
            assert(d2.out[t] == d1.out[t]);
        } else if t < e2.out.len() {
            assert(d2.out[t] == e2.out[t]);
        } else if t < e3.out.len() {
            assert(d2.out[t] == e3.out[t]);
        }
        let q = choose|q: int| 0 <= q < lst.len() && #[trigger] lst[q].1 == d2.out[t].1.svs;
        assert(lst[q] == (pairs[q].0@, pairs[q].1@));
        assert(pairs[q].1@ == d2.out[t].1.svs);
    }
}

} // verus!
