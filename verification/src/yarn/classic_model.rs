//! What reading a yarn classic (v1) lockfile gives, step by step, as plain values.
//!
//! The root package and the workspace members come from their `package.json`, since
//! the lockfile does not list them. Each entry of the lockfile then becomes a package,
//! unless an equal package with a known source is there already: the lockfile repeats
//! a package that is requested both under its name and through an npm alias. The
//! dependencies of the root and of the members are recorded as the root's, then the
//! dependencies of each entry.

use vstd::prelude::*;

use crate::error::{chaste_fail_is, ChasteFail};

use crate::checksums::{hex_digest, is_hex_text, sri_concat, sri_hashes, Checksums, HashAlgorithm};
use crate::chastefile::Chastefile;
use crate::dependency::DependencyKind;
use crate::modpath::is_module_path;
use crate::name::{is_package_name, spec_name_rest};
use crate::npm::parse::{dep_matches, DepView};
use crate::package::{lemma_pid_at, pid_at, Package, PackageID};
use crate::semver::{semver_eq, semver_version_parses};
use crate::source::{opt_source_view, SourceView};
use crate::svs::{parse_svs, spec_aliased_name};
use crate::text::{ends_with, has_at, last_index_of};
use crate::yarn::berry_model::{deps_ok, dep_view, e_deps, e_descriptors, e_integrity, e_resolved, e_version, key_text, LockFail};
use crate::yarn::classic::{spec_is_github_svs, spec_is_registry_url};
use crate::yarn::lockfile::{pairs_view, EntryView, PairsView};
use crate::yarn::Meta;

verus! {

/// What the reader takes from a `package.json`: name, version, and the dependencies,
/// dev dependencies, peer dependencies and optional dependencies.
#[derive(Debug)]
pub struct PackageJson {
    pub name: Option<String>,
    pub version: Option<String>,
    pub dependencies: Vec<(String, String)>,
    pub dev_dependencies: Vec<(String, String)>,
    pub peer_dependencies: Vec<(String, String)>,
    pub optional_dependencies: Vec<(String, String)>,
}

/// A `package.json` as text.
pub type JsonView = (Option<Seq<char>>, Option<Seq<char>>, Seq<(PairsView, DependencyKind)>);

pub open spec fn opt_view(o: Option<String>) -> Option<Seq<char>> {
    match o {
        Some(s) => Some(s@),
        None => None,
    }
}

impl View for PackageJson {
    type V = JsonView;

    /// Name, version, and the lists of dependencies with their kind, in the order in
    /// which they are recorded.
    open spec fn view(&self) -> JsonView {
        (
            opt_view(self.name),
            opt_view(self.version),
            seq![
                (pairs_view(self.dependencies@), DependencyKind::Dependency),
                (pairs_view(self.dev_dependencies@), DependencyKind::DevDependency),
                (pairs_view(self.peer_dependencies@), DependencyKind::PeerDependency),
                (pairs_view(self.optional_dependencies@), DependencyKind::OptionalDependency),
            ],
        )
    }
}

/// A package of a classic lockfile as plain values: name, version, the hashes of its
/// tarball checksums, and its source.
pub struct ClassicPkg {
    pub name: Option<Seq<char>>,
    pub version: Option<Seq<char>>,
    pub hashes: Seq<(HashAlgorithm, Seq<char>)>,
    pub source: Option<SourceView>,
}

/// `p` is the package `v`: checksums of the tarball when there are hashes.
pub open spec fn classic_package_is(p: Package, v: ClassicPkg) -> bool {
    &&& p.spec_name() == v.name
    &&& p.spec_version() == v.version
    &&& if v.hashes.len() > 0 {
        p.spec_checksums() matches Some(Checksums::Tarball(i)) && i@ == v.hashes
    } else {
        p.spec_checksums() is None
    }
    &&& opt_source_view(p.spec_source()) == v.source
    &&& p.spec_derived() is None
}

/// The package that a `package.json` describes; `None` when its name or version is
/// refused.
pub open spec fn json_package(j: JsonView) -> Option<ClassicPkg> {
    if (j.0 matches Some(n) && !is_package_name(n)) || (j.1 matches Some(v) && !semver_version_parses(v)) {
        None
    } else {
        Some(ClassicPkg { name: j.0, version: j.1, hashes: seq![], source: None })
    }
}

/// Why a `package.json` gives no package: its name, else its version.
pub open spec fn json_fail(j: JsonView) -> ChasteFail {
    if j.0 matches Some(n) && !is_package_name(n) {
        ChasteFail::Name(j.0->Some_0)
    } else {
        ChasteFail::Version
    }
}

/// The name of the package of an entry: the one its first descriptor aliases, or the
/// descriptor's name; `None` when it is refused.
pub open spec fn classic_name(e: EntryView) -> Option<Seq<char>> {
    let d = e_descriptors(e)[0];
    if has_at(d.1, 0, "npm:"@) {
        match parse_svs(d.1, None) {
            None => None,
            Some(pos) => match spec_aliased_name(d.1, pos) {
                Some(a) => Some(a),
                None => if is_package_name(d.0) {
                    Some(d.0)
                } else {
                    None
                },
            },
        }
    } else if is_package_name(d.0) {
        Some(d.0)
    } else {
        None
    }
}

/// The URL of a `resolved` field and the hash after its last `#`.
pub open spec fn split_resolved(r: Seq<char>) -> (Seq<char>, Option<Seq<char>>) {
    match last_index_of(r, '#') {
        Some(i) => (r.subrange(0, i), Some(r.subrange(i + 1, r.len() as int))),
        None => (r, None),
    }
}

/// Every descriptor is a tarball URL or a GitHub slug.
pub open spec fn all_tarball_svs(ds: PairsView) -> bool {
    forall|i: int|
        0 <= i < ds.len() ==> has_at(#[trigger] ds[i].1, 0, "https://"@) || has_at(ds[i].1, 0, "http://"@)
            || spec_is_github_svs(ds[i].1)
}

/// Every descriptor is an exact version.
pub open spec fn all_versions(ds: PairsView) -> bool {
    forall|i: int| 0 <= i < ds.len() ==> semver_version_parses(#[trigger] ds[i].1)
}

/// Where a package was fetched from, by its URL and its descriptors.
pub open spec fn source_of_url(e: EntryView, name: Seq<char>, url: Seq<char>) -> Option<SourceView> {
    if spec_is_registry_url(name, spec_name_rest(name), e_version(e), url) {
        Some(SourceView::Npm)
    } else if ends_with(url, ".git"@) {
        Some(SourceView::Git(url))
    } else if all_tarball_svs(e_descriptors(e)) {
        Some(SourceView::TarballURL(url))
    } else if all_versions(e_descriptors(e)) {
        Some(SourceView::Npm)
    } else {
        None
    }
}

/// Why an entry has no package name: its first specifier, when it starts with `npm:`
/// and is no specifier, else its first descriptor's name.
pub open spec fn classic_name_fail(e: EntryView) -> ChasteFail {
    let d = e_descriptors(e)[0];
    if has_at(d.1, 0, "npm:"@) && parse_svs(d.1, None) is None {
        ChasteFail::Svs(d.1)
    } else {
        ChasteFail::Name(d.0)
    }
}

/// The package of an entry: the SHA-1 hash after the `#` of a registry or tarball URL
/// joins the integrity.
pub open spec fn classic_entry_package(e: EntryView) -> Result<ClassicPkg, LockFail> {
    match classic_name(e) {
        None => Err(LockFail::Chaste(classic_name_fail(e))),
        Some(name) => match sri_hashes(e_integrity(e)) {
            None => Err(LockFail::Ssri),
            Some(h) => {
                let (url, hash) = split_resolved(e_resolved(e));
                let base = ClassicPkg { name: Some(name), version: Some(e_version(e)), hashes: h, source: None };
                match source_of_url(e, name, url) {
                    None => Ok(base),
                    Some(src) => {
                        let hh = if src is Git {
                            None
                        } else {
                            hash
                        };
                        match hh {
                            None => Ok(ClassicPkg { source: Some(src), ..base }),
                            Some(x) => if is_hex_text(x) {
                                Ok(
                                    ClassicPkg {
                                        source: Some(src),
                                        hashes: sri_concat(h, seq![(HashAlgorithm::Sha1, hex_digest(x))]),
                                        ..base
                                    },
                                )
                            } else {
                                Err(LockFail::Ssri)
                            },
                        }
                    },
                }
            },
        },
    }
}

/// Two packages are equal: the same name, equal versions (the same text, or equal
/// as versions), hashes and source.
pub open spec fn same_package(a: ClassicPkg, b: ClassicPkg) -> bool {
    &&& a.name == b.name
    &&& match (a.version, b.version) {
        (Some(x), Some(y)) => x == y || semver_eq(x, y),
        (None, None) => true,
        _ => false,
    }
    &&& a.hashes == b.hashes
    &&& a.source == b.source
}

/// A package read earlier stands for `v`: its source is known and it equals `v`.
pub open spec fn is_duplicate(p: ClassicPkg, v: ClassicPkg) -> bool {
    p.source is Some && same_package(p, v)
}

/// The first package from index `k` that stands for `v`.
pub open spec fn duplicate_of(pkgs: Seq<ClassicPkg>, v: ClassicPkg, k: int) -> Option<int>
    decreases pkgs.len() - k,
{
    if k < 0 || k >= pkgs.len() {
        None
    } else if is_duplicate(pkgs[k], v) {
        Some(k)
    } else {
        duplicate_of(pkgs, v, k + 1)
    }
}

/// What has been read: the packages, per entry read the id of its package, the
/// members and the installations.
pub struct ClassicState {
    pub pkgs: Seq<ClassicPkg>,
    pub entry_pid: Seq<PackageID>,
    pub members: Seq<PackageID>,
    pub insts: Seq<(PackageID, Seq<char>)>,
}

/// The root package, installed at the root.
pub open spec fn root_state(root: JsonView) -> Option<ClassicState> {
    match json_package(root) {
        None => None,
        Some(p) => Some(
            ClassicState { pkgs: seq![p], entry_pid: seq![], members: seq![], insts: seq![(pid_at(0), seq![])] },
        ),
    }
}

/// Adds the first `n` workspace members, each installed at its path.
pub open spec fn members_run(root: JsonView, members: Seq<(Seq<char>, JsonView)>, n: int) -> Option<ClassicState>
    decreases n,
{
    if n <= 0 {
        root_state(root)
    } else {
        match members_run(root, members, n - 1) {
            None => None,
            Some(st) => match json_package(members[n - 1].1) {
                None => None,
                Some(p) => if is_module_path(members[n - 1].0) {
                    let pid = pid_at(st.pkgs.len());
                    Some(
                        ClassicState {
                            pkgs: st.pkgs.push(p),
                            members: st.members.push(pid),
                            insts: st.insts.push((pid, members[n - 1].0)),
                            ..st
                        },
                    )
                } else {
                    None
                },
            },
        }
    }
}

/// Why the first `n` workspace members cannot be added: the root's `package.json`,
/// else that of the first member that fails, else its path.
pub open spec fn members_fail(root: JsonView, members: Seq<(Seq<char>, JsonView)>, n: int) -> ChasteFail
    decreases n,
{
    if n <= 0 {
        json_fail(root)
    } else if members_run(root, members, n - 1) is None {
        members_fail(root, members, n - 1)
    } else if json_package(members[n - 1].1) is None {
        json_fail(members[n - 1].1)
    } else {
        ChasteFail::Path(members[n - 1].0)
    }
}

/// Reads entry `i`: its package, unless an equal one is there already.
pub open spec fn classic_entry_step(st: ClassicState, e: EntryView) -> Result<ClassicState, LockFail> {
    match classic_entry_package(e) {
        Err(f) => Err(f),
        Ok(p) => if !semver_version_parses(e_version(e)) {
            Err(LockFail::Chaste(ChasteFail::Version))
        } else {
            match duplicate_of(st.pkgs, p, 0) {
                Some(k) => Ok(ClassicState { entry_pid: st.entry_pid.push(pid_at(k as nat)), ..st }),
                None => Ok(
                    ClassicState {
                        pkgs: st.pkgs.push(p),
                        entry_pid: st.entry_pid.push(pid_at(st.pkgs.len())),
                        ..st
                    },
                ),
            }
        },
    }
}

/// The first `n` entries read in order, after the root and the members.
pub open spec fn classic_entries_run(st0: ClassicState, entries: Seq<EntryView>, n: int) -> Result<ClassicState, LockFail>
    decreases n,
{
    if n <= 0 {
        Ok(st0)
    } else {
        match classic_entries_run(st0, entries, n - 1) {
            Err(f) => Err(f),
            Ok(st) => classic_entry_step(st, entries[n - 1]),
        }
    }
}

/// The first member, from index `m`, whose `package.json` has the name `name`.
pub open spec fn member_named(members: Seq<(Seq<char>, JsonView)>, name: Seq<char>, m: int) -> Option<int>
    decreases members.len() - m,
{
    if m < 0 || m >= members.len() {
        None
    } else if members[m].1.0 == Some(name) {
        Some(m)
    } else {
        member_named(members, name, m + 1)
    }
}

/// The first entry, from index `i`, that has the descriptor `d`.
pub open spec fn entry_with(entries: Seq<EntryView>, d: (Seq<char>, Seq<char>), i: int) -> Option<int>
    decreases entries.len() - i,
{
    if i < 0 || i >= entries.len() {
        None
    } else if e_descriptors(entries[i]).contains(d) {
        Some(i)
    } else {
        entry_with(entries, d, i + 1)
    }
}

/// The package a dependency resolves to: a workspace member of that name, else the
/// package of the first entry with that descriptor.
pub open spec fn classic_target(members: Seq<(Seq<char>, JsonView)>, entries: Seq<EntryView>, st: ClassicState, d: (Seq<char>, Seq<char>)) -> Result<PackageID, LockFail> {
    match member_named(members, d.0, 0) {
        Some(m) => Ok(pid_at((1 + m) as nat)),
        None => match entry_with(entries, d, 0) {
            Some(i) => Ok(st.entry_pid[i]),
            None => Err(LockFail::NotFound(key_text(d))),
        },
    }
}

/// Adds the dependencies `ds` of kind `kind`, from `from`, after `out`.
pub open spec fn classic_deps(members: Seq<(Seq<char>, JsonView)>, entries: Seq<EntryView>, st: ClassicState, from: PackageID, kind: DependencyKind, ds: PairsView, out: Seq<(PackageID, DepView)>) -> Result<Seq<(PackageID, DepView)>, LockFail>
    decreases ds.len(),
{
    if ds.len() == 0 {
        Ok(out)
    } else {
        match classic_deps(members, entries, st, from, kind, ds.drop_last(), out) {
            Err(f) => Err(f),
            Ok(o) => match classic_target(members, entries, st, ds.last()) {
                Err(f) => Err(f),
                Ok(p) => match dep_view(kind, p, ds.last().0, ds.last().1) {
                    Err(f) => Err(f),
                    Ok(v) => Ok(o.push((from, v))),
                },
            },
        }
    }
}

/// Adds the first `n` lists of dependencies of a `package.json`, as the root's.
pub open spec fn json_deps(members: Seq<(Seq<char>, JsonView)>, entries: Seq<EntryView>, st: ClassicState, j: JsonView, n: int, out: Seq<(PackageID, DepView)>) -> Result<Seq<(PackageID, DepView)>, LockFail>
    decreases n,
{
    if n <= 0 {
        Ok(out)
    } else {
        match json_deps(members, entries, st, j, n - 1, out) {
            Err(f) => Err(f),
            Ok(o) => classic_deps(members, entries, st, pid_at(0), j.2[n - 1].1, j.2[n - 1].0, o),
        }
    }
}

/// The dependencies of the root and of the first `n` members, all recorded as the root's.
pub open spec fn workspace_deps(root: JsonView, members: Seq<(Seq<char>, JsonView)>, entries: Seq<EntryView>, st: ClassicState, n: int) -> Result<Seq<(PackageID, DepView)>, LockFail>
    decreases n,
{
    if n <= 0 {
        json_deps(members, entries, st, root, 4, seq![])
    } else {
        match workspace_deps(root, members, entries, st, n - 1) {
            Err(f) => Err(f),
            Ok(o) => json_deps(members, entries, st, members[n - 1].1, 4, o),
        }
    }
}

/// The dependencies of the first `n` entries, after `out`.
pub open spec fn entry_deps(members: Seq<(Seq<char>, JsonView)>, entries: Seq<EntryView>, st: ClassicState, n: int, out: Seq<(PackageID, DepView)>) -> Result<Seq<(PackageID, DepView)>, LockFail>
    decreases n,
{
    if n <= 0 {
        Ok(out)
    } else {
        match entry_deps(members, entries, st, n - 1, out) {
            Err(f) => Err(f),
            Ok(o) => classic_deps(
                members,
                entries,
                st,
                st.entry_pid[n - 1],
                DependencyKind::Dependency,
                e_deps(entries[n - 1]),
                o,
            ),
        }
    }
}

/// The packages and installations read, with the dependencies.
pub struct ClassicOut {
    pub st: ClassicState,
    pub deps: Seq<(PackageID, DepView)>,
}

/// Reading a classic lockfile with the `package.json` of the root and of the
/// workspace members (with their paths).
pub open spec fn classic_run(root: JsonView, members: Seq<(Seq<char>, JsonView)>, entries: Seq<EntryView>) -> Result<ClassicOut, LockFail> {
    match members_run(root, members, members.len() as int) {
        None => Err(LockFail::Chaste(members_fail(root, members, members.len() as int))),
        Some(s0) => match classic_entries_run(s0, entries, entries.len() as int) {
            Err(f) => Err(f),
            Ok(st) => match workspace_deps(root, members, entries, st, members.len() as int) {
                Err(f) => Err(f),
                Ok(o) => match entry_deps(members, entries, st, entries.len() as int, o) {
                    Err(f) => Err(f),
                    Ok(deps) => Ok(ClassicOut { st, deps }),
                },
            },
        },
    }
}

/// The chastefile holds what was read; the root is the first package.
pub open spec fn classic_chastefile_is(c: Chastefile<Meta>, version: u8, out: ClassicOut) -> bool {
    &&& c.spec_meta().lockfile_version == version
    &&& c.spec_packages().len() == out.st.pkgs.len()
    &&& forall|k: int|
        0 <= k < out.st.pkgs.len() ==> classic_package_is(#[trigger] c.spec_packages()[k], out.st.pkgs[k])
    &&& c.spec_installations().len() == out.st.insts.len()
    &&& forall|k: int|
        0 <= k < out.st.insts.len() ==> (#[trigger] c.spec_installations()[k]).spec_package_id()
            == out.st.insts[k].0 && c.spec_installations()[k].spec_path()@ == out.st.insts[k].1
    &&& c.spec_root() == pid_at(0)
    &&& c.spec_members() == out.st.members
    &&& c.deps().len() == out.deps.len()
    &&& forall|j: int|
        0 <= j < out.deps.len() ==> dep_matches(#[trigger] c.deps()[j], out.deps[j].1, out.deps[j].0)
}


/// `duplicate_of` gives the first package from `k` that stands for `v`, and none
/// when there is none.
proof fn lemma_duplicate_of(pkgs: Seq<ClassicPkg>, v: ClassicPkg, k: int)
    requires
        0 <= k,
    ensures
        match duplicate_of(pkgs, v, k) {
            Some(m) => k <= m < pkgs.len() && is_duplicate(pkgs[m], v) && forall|t: int|
                k <= t < m ==> !is_duplicate(#[trigger] pkgs[t], v),
            None => forall|t: int| k <= t < pkgs.len() ==> !is_duplicate(#[trigger] pkgs[t], v),
        },
    decreases pkgs.len() - k,
{
    if k < pkgs.len() {
        lemma_duplicate_of(pkgs, v, k + 1);
    }
}

/// Reading more entries keeps what the first ones gave: the packages, and the id of
/// each entry read.
proof fn lemma_entries_run_prefix(s0: ClassicState, entries: Seq<EntryView>, a: int, b: int)
    requires
        0 <= a <= b,
    ensures
        classic_entries_run(s0, entries, b) matches Ok(sb) ==> classic_entries_run(s0, entries, a) matches Ok(sa)
            && sa.pkgs.len() <= sb.pkgs.len() && sa.entry_pid.len() <= sb.entry_pid.len()
            && (forall|t: int| 0 <= t < sa.pkgs.len() ==> sb.pkgs[t] == #[trigger] sa.pkgs[t])
            && (forall|t: int| 0 <= t < sa.entry_pid.len() ==> sb.entry_pid[t] == #[trigger] sa.entry_pid[t]),
    decreases b - a,
{
    if a < b {
        lemma_entries_run_prefix(s0, entries, a, b - 1);
    }
}

/// How many ids the first `n` entries leave.
proof fn lemma_entries_run_len(s0: ClassicState, entries: Seq<EntryView>, n: int)
    requires
        0 <= n,
    ensures
        classic_entries_run(s0, entries, n) matches Ok(s) ==> s.entry_pid.len() == s0.entry_pid.len() + n
            && s0.pkgs.len() <= s.pkgs.len() <= s0.pkgs.len() + n && s.members == s0.members && s.insts == s0.insts,
    decreases n,
{
    if n > 0 {
        lemma_entries_run_len(s0, entries, n - 1);
    }
}

/// Reading entry `i` gives it the id of a package at `k`, which stands for the entry's
/// package when that package has a known source, and before which no package does.
proof fn lemma_entry_step_pid(s0: ClassicState, entries: Seq<EntryView>, i: int)
    requires
        0 <= i,
        s0.entry_pid.len() == 0,
    ensures
        classic_entries_run(s0, entries, i + 1) matches Ok(s) ==> ({
            let si = classic_entries_run(s0, entries, i)->Ok_0;
            let p = classic_entry_package(entries[i])->Ok_0;
            &&& classic_entries_run(s0, entries, i) is Ok
            &&& classic_entry_package(entries[i]) is Ok
            &&& exists|k: int| #![trigger s.pkgs[k]]
                0 <= k < s.pkgs.len() && s.entry_pid[i] == pid_at(k as nat) && (p.source is Some
                    ==> is_duplicate(s.pkgs[k], p)) && same_package(s.pkgs[k], p) && forall|t: int|
                    0 <= t < k ==> !is_duplicate(#[trigger] si.pkgs[t], p) && si.pkgs[t] == s.pkgs[t]
        }),
{
    lemma_entries_run_len(s0, entries, i);
    if let Ok(si) = classic_entries_run(s0, entries, i) {
        if let Ok(p) = classic_entry_package(entries[i]) {
            lemma_duplicate_of(si.pkgs, p, 0);
            if let Ok(s) = classic_entries_run(s0, entries, i + 1) {
                match duplicate_of(si.pkgs, p, 0) {
                    Some(k) => {
                        assert(s.pkgs[k] == si.pkgs[k]);
                    },
                    None => {
                        let k = si.pkgs.len() as int;
                        assert(s.pkgs[k] == p);
                        assert(same_package(p, p));
                    },
                }
            }
        }
    }
}

/// After the root and `n` members: one package each, the members' ids follow the
/// root's, and each is installed once, the root first.
proof fn lemma_members_run_shape(root: JsonView, members: Seq<(Seq<char>, JsonView)>, n: int)
    requires
        0 <= n,
    ensures
        members_run(root, members, n) matches Some(s) ==> {
            &&& s.entry_pid.len() == 0
            &&& s.pkgs.len() == 1 + n
            &&& s.members.len() == n
            &&& s.insts.len() == 1 + n
            &&& s.insts[0].0 == pid_at(0)
            &&& forall|t: int| 0 <= t < n ==> #[trigger] s.members[t] == pid_at((1 + t) as nat) && s.insts[1 + t].0 == pid_at((1 + t) as nat)
        },
    decreases n,
{
    if n > 0 {
        lemma_members_run_shape(root, members, n - 1);
    }
}

/// The lockfile repeats a package that is requested both under its name and through
/// an npm alias: two entries that give the same package, with a known source, are
/// read to the same package id.
pub proof fn law_classic_equal_entries_share_id(
    root: JsonView,
    members: Seq<(Seq<char>, JsonView)>,
    entries: Seq<EntryView>,
    i: int,
    j: int,
)
    requires
        0 <= i < j < entries.len(),
        classic_entry_package(entries[i]) matches Ok(p) && p.source is Some,
        classic_entry_package(entries[j]) == classic_entry_package(entries[i]),
    ensures
        classic_run(root, members, entries) matches Ok(out) ==> out.st.entry_pid[i] == out.st.entry_pid[j],
{
    if let Some(s0) = members_run(root, members, members.len() as int) {
        lemma_members_run_shape(root, members, members.len() as int);
        let n = entries.len() as int;
        if let Ok(sn) = classic_entries_run(s0, entries, n) {
            let p = classic_entry_package(entries[i])->Ok_0;
            lemma_entries_run_prefix(s0, entries, i + 1, n);
            lemma_entries_run_prefix(s0, entries, j, n);
            lemma_entries_run_prefix(s0, entries, i + 1, j);
            lemma_entries_run_prefix(s0, entries, j + 1, n);
            lemma_entries_run_len(s0, entries, i + 1);
            lemma_entries_run_len(s0, entries, j + 1);
            lemma_entry_step_pid(s0, entries, i);
            let s1 = classic_entries_run(s0, entries, i + 1)->Ok_0;
            let k = choose|k: int| #![trigger s1.pkgs[k]]
                0 <= k < s1.pkgs.len() && s1.entry_pid[i] == pid_at(k as nat) && (p.source is Some
                    ==> is_duplicate(s1.pkgs[k], p)) && same_package(s1.pkgs[k], p) && forall|t: int|
                    0 <= t < k ==> !is_duplicate(#[trigger] classic_entries_run(s0, entries, i)->Ok_0.pkgs[t], p)
                    && classic_entries_run(s0, entries, i)->Ok_0.pkgs[t] == s1.pkgs[t];
            let sj = classic_entries_run(s0, entries, j)->Ok_0;
            assert(sj.pkgs[k] == s1.pkgs[k]);
            assert forall|t: int| 0 <= t < k implies !is_duplicate(#[trigger] sj.pkgs[t], p) by {
                assert(sj.pkgs[t] == s1.pkgs[t]);
            }
            lemma_duplicate_of(sj.pkgs, p, 0);
            assert(duplicate_of(sj.pkgs, p, 0) == Some(k));
            let sj1 = classic_entries_run(s0, entries, j + 1)->Ok_0;
            assert(sj1.entry_pid[j] == pid_at(k as nat));
            assert(sn.entry_pid[j] == sj1.entry_pid[j]);
            assert(sn.entry_pid[i] == s1.entry_pid[i]);
        }
    }
}


/// The id `pid` names one of `pkgs`, which equals the package of the entry `e`.
pub open spec fn read_to(pkgs: Seq<ClassicPkg>, pid: PackageID, e: EntryView) -> bool {
    &&& pid.id() < pkgs.len()
    &&& classic_entry_package(e) matches Ok(p) && same_package(pkgs[pid.id() as int], p)
}

/// Every id in what a classic lockfile is read to names a package read: the members,
/// the installations, both ends of each dependency, and the id of each entry, whose
/// package equals the entry's own.
pub open spec fn classic_ids_ok(out: ClassicOut, entries: Seq<EntryView>) -> bool {
    let n = out.st.pkgs.len();
    &&& forall|j: int| 0 <= j < out.st.members.len() ==> (#[trigger] out.st.members[j]).id() < n
    &&& forall|j: int| 0 <= j < out.st.insts.len() ==> (#[trigger] out.st.insts[j]).0.id() < n
    &&& out.st.entry_pid.len() == entries.len()
    &&& forall|i: int| 0 <= i < entries.len() ==> read_to(out.st.pkgs, #[trigger] out.st.entry_pid[i], entries[i])
    &&& deps_ok(out.deps, n)
}

/// Each of the first `n` entries has the id of a package that equals its own.
proof fn lemma_entries_run_ids(s0: ClassicState, entries: Seq<EntryView>, n: int)
    requires
        0 <= n,
        s0.entry_pid.len() == 0,
        s0.pkgs.len() + n <= usize::MAX,
    ensures
        classic_entries_run(s0, entries, n) matches Ok(s) ==> forall|i: int|
            0 <= i < n ==> read_to(s.pkgs, #[trigger] s.entry_pid[i], entries[i]),
    decreases n,
{
    if n > 0 {
        lemma_entries_run_ids(s0, entries, n - 1);
        lemma_entries_run_len(s0, entries, n);
        lemma_entries_run_prefix(s0, entries, n - 1, n);
        lemma_entry_step_pid(s0, entries, n - 1);
        if let Ok(s) = classic_entries_run(s0, entries, n) {
            let sp = classic_entries_run(s0, entries, n - 1)->Ok_0;
            let p = classic_entry_package(entries[n - 1])->Ok_0;
            let k = choose|k: int| #![trigger s.pkgs[k]]
                0 <= k < s.pkgs.len() && s.entry_pid[n - 1] == pid_at(k as nat) && (p.source is Some
                    ==> is_duplicate(s.pkgs[k], p)) && same_package(s.pkgs[k], p) && forall|t: int|
                    0 <= t < k ==> !is_duplicate(#[trigger] sp.pkgs[t], p) && sp.pkgs[t] == s.pkgs[t];
            lemma_pid_at(k as nat);
            assert forall|i: int| 0 <= i < n implies read_to(s.pkgs, #[trigger] s.entry_pid[i], entries[i]) by {
                if i < n - 1 {
                    assert(s.entry_pid[i] == sp.entry_pid[i]);
                    assert(s.pkgs[sp.entry_pid[i].id() as int] == sp.pkgs[sp.entry_pid[i].id() as int]);
                }
            }
        }
    }
}

proof fn lemma_member_named(members: Seq<(Seq<char>, JsonView)>, name: Seq<char>, m: int)
    requires
        0 <= m,
    ensures
        member_named(members, name, m) matches Some(x) ==> m <= x < members.len(),
    decreases members.len() - m,
{
    if m < members.len() {
        lemma_member_named(members, name, m + 1);
    }
}

proof fn lemma_entry_with(entries: Seq<EntryView>, d: (Seq<char>, Seq<char>), i: int)
    requires
        0 <= i,
    ensures
        entry_with(entries, d, i) matches Some(x) ==> i <= x < entries.len(),
    decreases entries.len() - i,
{
    if i < entries.len() {
        lemma_entry_with(entries, d, i + 1);
    }
}

/// What the ids of a dependency's target need: members after the root, and entries
/// with ids below `n`.
pub open spec fn targets_below(members: Seq<(Seq<char>, JsonView)>, entries: Seq<EntryView>, st: ClassicState, n: nat) -> bool {
    &&& 1 + members.len() <= n <= usize::MAX
    &&& st.entry_pid.len() == entries.len()
    &&& forall|i: int| 0 <= i < entries.len() ==> (#[trigger] st.entry_pid[i]).id() < n
}

proof fn lemma_classic_deps_ids(
    members: Seq<(Seq<char>, JsonView)>,
    entries: Seq<EntryView>,
    st: ClassicState,
    from: PackageID,
    kind: DependencyKind,
    ds: PairsView,
    out: Seq<(PackageID, DepView)>,
    n: nat,
)
    requires
        targets_below(members, entries, st, n),
        from.id() < n,
        deps_ok(out, n),
    ensures
        classic_deps(members, entries, st, from, kind, ds, out) matches Ok(o) ==> deps_ok(o, n),
    decreases ds.len(),
{
    if ds.len() > 0 {
        lemma_classic_deps_ids(members, entries, st, from, kind, ds.drop_last(), out, n);
        lemma_member_named(members, ds.last().0, 0);
        lemma_entry_with(entries, ds.last(), 0);
        if let Some(m) = member_named(members, ds.last().0, 0) {
            lemma_pid_at((1 + m) as nat);
        }
    }
}

proof fn lemma_json_deps_ids(
    members: Seq<(Seq<char>, JsonView)>,
    entries: Seq<EntryView>,
    st: ClassicState,
    j: JsonView,
    k: int,
    out: Seq<(PackageID, DepView)>,
    n: nat,
)
    requires
        targets_below(members, entries, st, n),
        deps_ok(out, n),
    ensures
        json_deps(members, entries, st, j, k, out) matches Ok(o) ==> deps_ok(o, n),
    decreases k,
{
    if k > 0 {
        lemma_json_deps_ids(members, entries, st, j, k - 1, out, n);
        lemma_pid_at(0);
        if let Ok(o) = json_deps(members, entries, st, j, k - 1, out) {
            lemma_classic_deps_ids(members, entries, st, pid_at(0), j.2[k - 1].1, j.2[k - 1].0, o, n);
        }
    }
}

proof fn lemma_workspace_deps_ids(
    root: JsonView,
    members: Seq<(Seq<char>, JsonView)>,
    entries: Seq<EntryView>,
    st: ClassicState,
    k: int,
    n: nat,
)
    requires
        targets_below(members, entries, st, n),
    ensures
        workspace_deps(root, members, entries, st, k) matches Ok(o) ==> deps_ok(o, n),
    decreases k,
{
    if k <= 0 {
        lemma_json_deps_ids(members, entries, st, root, 4, seq![], n);
    } else {
        lemma_workspace_deps_ids(root, members, entries, st, k - 1, n);
        if let Ok(o) = workspace_deps(root, members, entries, st, k - 1) {
            lemma_json_deps_ids(members, entries, st, members[k - 1].1, 4, o, n);
        }
    }
}

proof fn lemma_entry_deps_ids(
    members: Seq<(Seq<char>, JsonView)>,
    entries: Seq<EntryView>,
    st: ClassicState,
    k: int,
    out: Seq<(PackageID, DepView)>,
    n: nat,
)
    requires
        targets_below(members, entries, st, n),
        k <= entries.len(),
        deps_ok(out, n),
    ensures
        entry_deps(members, entries, st, k, out) matches Ok(o) ==> deps_ok(o, n),
    decreases k,
{
    if k > 0 {
        lemma_entry_deps_ids(members, entries, st, k - 1, out, n);
        if let Ok(o) = entry_deps(members, entries, st, k - 1, out) {
            lemma_classic_deps_ids(members, entries, st, st.entry_pid[k - 1], DependencyKind::Dependency, e_deps(entries[k - 1]), o, n);
        }
    }
}

/// Whatever a classic lockfile and the `package.json` files hold, every package id
/// in what is read names one of the packages read, and each entry is read to a
/// package equal to its own.
pub proof fn law_classic_ids_name_packages(
    root: JsonView,
    members: Seq<(Seq<char>, JsonView)>,
    entries: Seq<EntryView>,
)
    requires
        members.len() + entries.len() < usize::MAX,
    ensures
        classic_run(root, members, entries) matches Ok(out) ==> classic_ids_ok(out, entries),
{
    if let Some(s0) = members_run(root, members, members.len() as int) {
        lemma_members_run_shape(root, members, members.len() as int);
        let ne = entries.len() as int;
        lemma_entries_run_len(s0, entries, ne);
        lemma_entries_run_ids(s0, entries, ne);
        if let Ok(st) = classic_entries_run(s0, entries, ne) {
            let n = st.pkgs.len();
            lemma_pid_at(0);
            assert forall|t: int| 0 <= t < members.len() implies (#[trigger] st.members[t]).id() < n
                && st.insts[1 + t].0.id() < n by {
                lemma_pid_at((1 + t) as nat);
            }
            assert forall|t: int| 0 <= t < st.insts.len() implies (#[trigger] st.insts[t]).0.id() < n by {
                if t > 0 {
                    assert(st.members[t - 1] == pid_at(t as nat));
                    lemma_pid_at(t as nat);
                }
            }
            lemma_workspace_deps_ids(root, members, entries, st, members.len() as int, n);
            if let Ok(o) = workspace_deps(root, members, entries, st, members.len() as int) {
                lemma_entry_deps_ids(members, entries, st, ne, o, n);
            }
        }
    }
}


/// `pairs` writes a dependency with the specifier `svs`.
pub open spec fn lists_specifier(pairs: Seq<(String, String)>, svs: Seq<char>) -> bool {
    exists|q: int| 0 <= q < pairs.len() && #[trigger] pairs[q].1@ == svs
}

/// `x` is a dependency that one of the lists of `j` can give the root: a dependency
/// from `dependencies`, a dev dependency from `devDependencies`, a peer dependency
/// from `peerDependencies` or an optional dependency from `optionalDependencies`, with
/// a specifier the list writes.
pub open spec fn given_by_json_lists(j: PackageJson, x: (PackageID, DepView)) -> bool {
    &&& x.0 == pid_at(0)
    &&& {
        ||| x.1.kind == DependencyKind::Dependency && lists_specifier(j.dependencies@, x.1.svs)
        ||| x.1.kind == DependencyKind::DevDependency && lists_specifier(j.dev_dependencies@, x.1.svs)
        ||| x.1.kind == DependencyKind::PeerDependency && lists_specifier(j.peer_dependencies@, x.1.svs)
        ||| x.1.kind == DependencyKind::OptionalDependency && lists_specifier(j.optional_dependencies@, x.1.svs)
    }
}

/// Reading one list of requests keeps what was read, and each dependency it adds is
/// from `from`, of the list's kind, with the specifier of one of its requests.
proof fn lemma_classic_deps_kind(
    members: Seq<(Seq<char>, JsonView)>,
    entries: Seq<EntryView>,
    st: ClassicState,
    from: PackageID,
    kind: DependencyKind,
    ds: PairsView,
    out: Seq<(PackageID, DepView)>,
    o: Seq<(PackageID, DepView)>,
)
    requires
        classic_deps(members, entries, st, from, kind, ds, out) == Ok::<Seq<(PackageID, DepView)>, LockFail>(o),
    ensures
        out.len() <= o.len(),
        forall|j: int| 0 <= j < out.len() ==> o[j] == out[j],
        forall|j: int|
            out.len() <= j < o.len() ==> (#[trigger] o[j]).0 == from && o[j].1.kind == kind && exists|q: int|
                0 <= q < ds.len() && #[trigger] ds[q].1 == o[j].1.svs,
    decreases ds.len(),
{
    if ds.len() > 0 {
        let o1 = classic_deps(members, entries, st, from, kind, ds.drop_last(), out)->Ok_0;
        lemma_classic_deps_kind(members, entries, st, from, kind, ds.drop_last(), out, o1);
        assert forall|j: int| out.len() <= j < o.len() implies (#[trigger] o[j]).0 == from && o[j].1.kind == kind
            && exists|q: int| 0 <= q < ds.len() && #[trigger] ds[q].1 == o[j].1.svs by {
            if j < o1.len() {
                assert(o[j] == o1[j]);
                let q = choose|q: int| 0 <= q < ds.drop_last().len() && #[trigger] ds.drop_last()[q].1 == o1[j].1.svs;
                assert(ds[q] == ds.drop_last()[q]);
            } else {
                assert(ds[ds.len() - 1].1 == o[j].1.svs);
            }
        }
    }
}

/// Reading the dependencies of the lockfile's entries keeps what was read before, and
/// every dependency it adds is a plain `Dependency` of an entry's package, since a
/// classic lockfile lists no other kind for its entries.
pub proof fn law_classic_entry_deps_kind(
    members: Seq<(Seq<char>, JsonView)>,
    entries: Seq<EntryView>,
    st: ClassicState,
    n: int,
    out: Seq<(PackageID, DepView)>,
    o: Seq<(PackageID, DepView)>,
)
    requires
        entry_deps(members, entries, st, n, out) == Ok::<Seq<(PackageID, DepView)>, LockFail>(o),
    ensures
        out.len() <= o.len(),
        forall|j: int| 0 <= j < out.len() ==> o[j] == out[j],
        forall|j: int|
            #![trigger o[j]]
            out.len() <= j < o.len() ==> o[j].1.kind == DependencyKind::Dependency && exists|k: int|
                0 <= k < n && o[j].0 == #[trigger] st.entry_pid[k],
    decreases n,
{
    if n > 0 {
        let o1 = entry_deps(members, entries, st, n - 1, out)->Ok_0;
        law_classic_entry_deps_kind(members, entries, st, n - 1, out, o1);
        lemma_classic_deps_kind(members, entries, st, st.entry_pid[n - 1], DependencyKind::Dependency, e_deps(entries[n - 1]), o1, o);
        assert forall|j: int| #![trigger o[j]] out.len() <= j < o.len() implies o[j].1.kind == DependencyKind::Dependency
            && exists|k: int| 0 <= k < n && o[j].0 == #[trigger] st.entry_pid[k] by {
            if j < o1.len() {
                assert(o[j] == o1[j]);
            } else {
                assert(o[j].0 == st.entry_pid[n - 1]);
            }
        }
    }
}

/// Reading the lists of a `package.json` keeps what was read before, and every
/// dependency it adds is one of the root's that the lists give (see
/// [`given_by_json_lists`]): its kind is the kind of the list it is written in.
pub proof fn law_classic_json_kinds(
    members: Seq<(Seq<char>, JsonView)>,
    entries: Seq<EntryView>,
    st: ClassicState,
    j: PackageJson,
    out: Seq<(PackageID, DepView)>,
    o: Seq<(PackageID, DepView)>,
)
    requires
        json_deps(members, entries, st, j@, 4, out) == Ok::<Seq<(PackageID, DepView)>, LockFail>(o),
    ensures
        out.len() <= o.len(),
        forall|t: int| 0 <= t < out.len() ==> o[t] == out[t],
        forall|t: int| out.len() <= t < o.len() ==> #[trigger] given_by_json_lists(j, o[t]),
{
    let jv = j@;
    let o1 = json_deps(members, entries, st, jv, 1, out)->Ok_0;
    let o2 = json_deps(members, entries, st, jv, 2, out)->Ok_0;
    let o3 = json_deps(members, entries, st, jv, 3, out)->Ok_0;
    assert(json_deps(members, entries, st, jv, 0, out) == Ok::<Seq<(PackageID, DepView)>, LockFail>(out));
    lemma_classic_deps_kind(members, entries, st, pid_at(0), jv.2[0].1, jv.2[0].0, out, o1);
    lemma_classic_deps_kind(members, entries, st, pid_at(0), jv.2[1].1, jv.2[1].0, o1, o2);
    lemma_classic_deps_kind(members, entries, st, pid_at(0), jv.2[2].1, jv.2[2].0, o2, o3);
    lemma_classic_deps_kind(members, entries, st, pid_at(0), jv.2[3].1, jv.2[3].0, o3, o);
    assert forall|t: int| out.len() <= t < o.len() implies #[trigger] given_by_json_lists(j, o[t]) by {
        let (lst, pairs): (PairsView, Seq<(String, String)>) = if t < o1.len() {
            (jv.2[0].0, j.dependencies@)
        } else if t < o2.len() {
            (jv.2[1].0, j.dev_dependencies@)
        } else if t < o3.len() {
            (jv.2[2].0, j.peer_dependencies@)
        } else {
            (jv.2[3].0, j.optional_dependencies@)
        };
        if t < o1.len() {
            assert(o[t] == o1[t]);
        } else if t < o2.len() {
            assert(o[t] == o2[t]);
        } else if t < o3.len() {
            assert(o[t] == o3[t]);
        }
        let q = choose|q: int| 0 <= q < lst.len() && #[trigger] lst[q].1 == o[t].1.svs;
        assert(lst[q] == (pairs[q].0@, pairs[q].1@));
        assert(pairs[q].1@ == o[t].1.svs);
    }
}

} // verus!
