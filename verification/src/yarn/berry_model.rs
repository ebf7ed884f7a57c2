//! What reading a yarn berry lockfile gives, step by step, as plain values.
//!
//! Entries are read in order: each becomes a package, except those whose resolution
//! is a patch, which wait until every other entry has been read. Descriptors are
//! kept in a table ordered by (name, specifier). Dependencies are then resolved per
//! package, in the order of the package ids.

use vstd::prelude::*;

use crate::error::{chaste_fail_is, ChasteFail};

use crate::checksums::{hex_digest, is_hex_text, Checksums, HashAlgorithm};
use crate::derivation::PackageDerivation;
use crate::modpath::is_module_path;
use crate::package::{lemma_pid_at, pid_at, Package, PackageBuilder, PackageID};
use crate::semver::semver_version_parses;
use crate::source::SourceView;
use crate::text::{first_from, has_at, lemma_seq_lt_total, lemma_seq_lt_trans, seq_lt};
use crate::name::{is_package_name, package_name_at};
use crate::yarn::berry::{
    percent_decoded, spec_berry_source, spec_patch_descriptor, spec_resolution_from_state_key,
};
use crate::yarn_state::grammar::{state_file, PackageView as StatePackageView};
use crate::yarn::lockfile::{EntryView, MetasView, PairsView};
use crate::yarn::resolutions::{
    key_of, lookup, parsed_key, spec_is_same_svs, EntryView as ResEntry, SelView,
};
use crate::yarn::{Error, Meta};
use crate::chastefile::{records_dependency, Chastefile};
use crate::dependency::DependencyKind;
use crate::npm::parse::{dep_matches, lemma_out_has_extends, lemma_out_recorded, out_has, DepView};
use crate::semver::{semver_at_least, semver_range_parses, semver_satisfies};
use crate::svs::{npm_range_input, parse_svs, spec_aliased_name, SvsPos};

verus! {

/// Why reading the lockfile stopped.
pub enum LockFail {
    /// An error of the unified model (a name, version, path or specifier).
    Chaste(ChasteFail),
    /// An integrity digest that is not hex text.
    Ssri,
    /// A percent-encoded specifier that does not decode to UTF-8.
    Utf8,
    /// A descriptor claimed twice, as `name@specifier`.
    Duplicate(Seq<char>),
    /// A patch resolution that cannot be read or matched.
    InvalidResolved(Seq<char>),
    /// A patch resolution that matches more than one package.
    AmbiguousResolved(Seq<char>),
    /// A key of `"resolutions"` that cannot be read.
    InvalidResolution(Seq<char>),
    /// A state file that cannot be read.
    StateSyntax,
    /// A package of the state file that no entry resolves to.
    StateNotFound(Seq<char>),
    /// A dependency with no matching descriptor, as `name@specifier`.
    NotFound(Seq<char>),
    /// A dependency with more than one matching descriptor, as `name@specifier`.
    Ambiguous(Seq<char>),
    /// A key of the JSON lockfile that cannot be read.
    InvalidEntryKey(Seq<char>),
    /// A workspace path that no member has.
    UnrecognizedWorkspace(Seq<char>),
    /// A lockfile version that is not read.
    UnknownVersion(u8),
}

/// `e` is the error reported for `f`.
pub open spec fn fail_is(e: Error, f: LockFail) -> bool {
    match f {
        LockFail::Chaste(c) => e matches Error::ChasteError(x) && chaste_fail_is(x, c),
        LockFail::Ssri => e is SSRIError,
        LockFail::Utf8 => e is Utf8Error,
        LockFail::Duplicate(s) => e matches Error::DuplicateSpecifiers(t) && t@ == s,
        LockFail::InvalidResolved(s) => e matches Error::InvalidResolved(t) && t@ == s,
        LockFail::AmbiguousResolved(s) => e matches Error::AmbiguousResolved(t) && t@ == s,
        LockFail::InvalidResolution(s) => e matches Error::InvalidResolution(t) && t@ == s,
        LockFail::StateSyntax => e is YarnStateError,
        LockFail::StateNotFound(s) => e matches Error::StatePackageNotFound(t) && t@ == s,
        LockFail::NotFound(s) => e matches Error::DependencyNotFound(t) && t@ == s,
        LockFail::Ambiguous(s) => e matches Error::AmbiguousResolution(t) && t@ == s,
        LockFail::InvalidEntryKey(s) => e matches Error::InvalidEntryKey(t) && t@ == s,
        LockFail::UnrecognizedWorkspace(s) => e matches Error::UnrecognizedWorkspaceMember(t) && t@ == s,
        LockFail::UnknownVersion(v) => e == Error::UnknownLockfileVersion(v),
    }
}

pub open spec fn e_name(e: EntryView) -> Seq<char> {
    e.0.0
}

pub open spec fn e_version(e: EntryView) -> Seq<char> {
    e.0.1
}

pub open spec fn e_resolved(e: EntryView) -> Seq<char> {
    e.0.2
}

pub open spec fn e_integrity(e: EntryView) -> Seq<char> {
    e.0.3
}

pub open spec fn e_deps(e: EntryView) -> PairsView {
    e.1.0
}

pub open spec fn e_deps_meta(e: EntryView) -> MetasView {
    e.1.2
}

pub open spec fn e_peers(e: EntryView) -> PairsView {
    e.2.0
}

pub open spec fn e_peers_meta(e: EntryView) -> MetasView {
    e.2.1
}

pub open spec fn e_descriptors(e: EntryView) -> PairsView {
    e.3
}

/// A package of a berry lockfile as plain values: name, version, checksum digest,
/// source, and the patch path and unpatched package of a patched package.
pub struct BerryPkg {
    pub name: Seq<char>,
    pub version: Seq<char>,
    pub checksum: Option<Seq<char>>,
    pub source: Option<SourceView>,
    pub patch: Option<(Seq<char>, PackageID)>,
}

/// The hex digest of a `checksum` field: what follows the first `/` (newer lockfiles
/// put the cache key in front), or all of it.
pub open spec fn checksum_hex(s: Seq<char>) -> Seq<char> {
    match first_from(s, 0, "/"@) {
        Some(j) => s.subrange(j + 1, s.len() as int),
        None => s,
    }
}

/// The package an entry describes, or why it cannot be read: the name comes from
/// the resolution where it can be read there.
pub open spec fn entry_package(e: EntryView) -> Result<BerryPkg, LockFail> {
    let src = spec_berry_source(e_resolved(e));
    let name = match src {
        Some((n, _)) => n,
        None => e_name(e),
    };
    if !is_package_name(name) {
        Err(LockFail::Chaste(ChasteFail::Name(name)))
    } else if e_integrity(e).len() > 0 && !is_hex_text(checksum_hex(e_integrity(e))) {
        Err(LockFail::Ssri)
    } else {
        Ok(
            BerryPkg {
                name,
                version: e_version(e),
                checksum: if e_integrity(e).len() > 0 {
                    Some(hex_digest(checksum_hex(e_integrity(e))))
                } else {
                    None
                },
                source: match src {
                    Some((_, s)) => s,
                    None => None,
                },
                patch: None,
            },
        )
    }
}

/// The checksums that a digest gives: one SHA-512 hash of a repacked archive.
pub open spec fn checksums_are(c: Option<Checksums>, d: Option<Seq<char>>) -> bool {
    match d {
        Some(x) => c matches Some(Checksums::RepackZip(i)) && i@ == seq![(HashAlgorithm::Sha512, x)],
        None => c is None,
    }
}

/// The derivation of a patched package.
pub open spec fn patch_is(
    d: Option<crate::derivation::PackageDerivationMeta>,
    p: Option<(Seq<char>, PackageID)>,
) -> bool {
    match p {
        Some((path, from)) => d matches Some(m) && m.spec_from() == from && (
        m.spec_derivation() matches PackageDerivation::Patch(pt) && pt.spec_path() == path
            && pt.spec_integrity() is None),
        None => d is None,
    }
}

/// `b` is about to build the package `v`.
pub open spec fn builder_is(b: PackageBuilder, v: BerryPkg) -> bool {
    &&& b.spec_name() == Some(v.name)
    &&& b.spec_version() == Some(v.version)
    &&& checksums_are(b.spec_checksums(), v.checksum)
    &&& crate::source::opt_source_view(b.spec_source()) == v.source
    &&& patch_is(b.spec_derived(), v.patch)
}

/// `p` is the package `v`.
pub open spec fn package_is(p: Package, v: BerryPkg) -> bool {
    &&& p.spec_name() == Some(v.name)
    &&& p.spec_version() == Some(v.version)
    &&& checksums_are(p.spec_checksums(), v.checksum)
    &&& crate::source::opt_source_view(p.spec_source()) == v.source
    &&& patch_is(p.spec_derived(), v.patch)
}

/// The resolution of a patched package: a package name and `@patch:`.
pub open spec fn is_patch_resolution(r: Seq<char>) -> bool {
    package_name_at(r, 0) matches Some(p) && has_at(r, p.total_length as int, "@patch:"@)
}

/// A descriptor as text: name and specifier.
pub type Key = (Seq<char>, Seq<char>);

/// Descriptors with the ids of their packages, ordered by key.
pub type DescTable = Seq<(Key, PackageID)>;

/// The order of keys: by name, then by specifier.
pub open spec fn key_lt(a: Key, b: Key) -> bool {
    seq_lt(a.0, b.0) || (a.0 == b.0 && seq_lt(a.1, b.1))
}

/// The first position from `i` whose key is not below `k`.
pub open spec fn insert_pos(t: DescTable, k: Key, i: int) -> int
    decreases t.len() - i,
{
    if i < 0 || i >= t.len() {
        t.len() as int
    } else if !key_lt(t[i].0, k) {
        i
    } else {
        insert_pos(t, k, i + 1)
    }
}

/// The table with `k` added at its place, or `None` when `k` is there already.
pub open spec fn table_insert(t: DescTable, k: Key, pid: PackageID) -> Option<DescTable> {
    let i = insert_pos(t, k, 0);
    if i < t.len() && t[i].0 == k {
        None
    } else {
        Some(t.insert(i, (k, pid)))
    }
}

/// A descriptor as `name@specifier`.
pub open spec fn key_text(k: Key) -> Seq<char> {
    k.0 + "@"@ + k.1
}

/// The table with each descriptor added for `pid`, in order; the first that is
/// there already stops it.
pub open spec fn insert_all(t: DescTable, ds: PairsView, pid: PackageID) -> Result<DescTable, Seq<char>>
    decreases ds.len(),
{
    if ds.len() == 0 {
        Ok(t)
    } else {
        match insert_all(t, ds.drop_last(), pid) {
            Err(d) => Err(d),
            Ok(t2) => match table_insert(t2, ds.last(), pid) {
                Some(t3) => Ok(t3),
                None => Err(key_text(ds.last())),
            },
        }
    }
}

/// The first position from `i` whose name is not below `name`.
pub open spec fn name_lower_bound(t: DescTable, name: Seq<char>, i: int) -> int
    decreases t.len() - i,
{
    if i < 0 || i >= t.len() {
        t.len() as int
    } else if !seq_lt(t[i].0.0, name) {
        i
    } else {
        name_lower_bound(t, name, i + 1)
    }
}

/// The entries from `i` on, as long as their name is `name`.
pub open spec fn name_run(t: DescTable, name: Seq<char>, i: int) -> DescTable
    decreases t.len() - i,
{
    if 0 <= i < t.len() && t[i].0.0 == name {
        seq![t[i]] + name_run(t, name, i + 1)
    } else {
        seq![]
    }
}

/// The descriptors of a package name, in key order.
pub open spec fn candidates(t: DescTable, name: Seq<char>) -> DescTable {
    name_run(t, name, name_lower_bound(t, name, 0))
}

/// The path of a workspace package: what follows `workspace:` in the first
/// descriptor, from `i`, whose specifier starts so.
pub open spec fn workspace_path(ds: PairsView, i: int) -> Option<Seq<char>>
    decreases ds.len() - i,
{
    if i < 0 || i >= ds.len() {
        None
    } else if has_at(ds[i].1, 0, "workspace:"@) {
        Some(ds[i].1.subrange("workspace:"@.len() as int, ds[i].1.len() as int))
    } else {
        workspace_path(ds, i + 1)
    }
}

/// What has been read so far: the descriptor table; per package, in id order, its
/// entry, its recorded source and the package itself; the root, the other workspace
/// members and the installations; the patched entries that wait, with their packages.
pub struct BerryState {
    pub table: DescTable,
    pub entry_of: Seq<int>,
    pub sources: Seq<Option<SourceView>>,
    pub pkgs: Seq<BerryPkg>,
    pub root: Option<PackageID>,
    pub members: Seq<PackageID>,
    pub insts: Seq<(PackageID, Seq<char>)>,
    pub deferred: Seq<(int, BerryPkg)>,
}

pub open spec fn empty_state() -> BerryState {
    BerryState {
        table: seq![],
        entry_of: seq![],
        sources: seq![],
        pkgs: seq![],
        root: None,
        members: seq![],
        insts: seq![],
        deferred: seq![],
    }
}

/// Adds the package of entry `i` under the next id, with the entry's descriptors.
pub open spec fn add_package(
    st: BerryState,
    i: int,
    ds: PairsView,
    pkg: BerryPkg,
    source: Option<SourceView>,
) -> Result<(BerryState, PackageID), LockFail> {
    if !semver_version_parses(pkg.version) {
        Err(LockFail::Chaste(ChasteFail::Version))
    } else {
        let pid = pid_at(st.pkgs.len());
        match insert_all(st.table, ds, pid) {
            Err(d) => Err(LockFail::Duplicate(d)),
            Ok(t) => Ok(
                (
                    BerryState {
                        table: t,
                        entry_of: st.entry_of.push(i),
                        sources: st.sources.push(source),
                        pkgs: st.pkgs.push(pkg),
                        ..st
                    },
                    pid,
                ),
            ),
        }
    }
}

/// Reads entry `i`: a patched package waits; any other is added, and a workspace
/// package becomes the root (at `workspace:.`) or a member installed at its path.
pub open spec fn entry_step(st: BerryState, entries: Seq<EntryView>, i: int) -> Result<BerryState, LockFail> {
    let e = entries[i];
    match entry_package(e) {
        Err(f) => Err(f),
        Ok(pkg) => if is_patch_resolution(e_resolved(e)) {
            Ok(BerryState { deferred: st.deferred.push((i, pkg)), ..st })
        } else {
            match add_package(st, i, e_descriptors(e), pkg, pkg.source) {
                Err(f) => Err(f),
                Ok((s2, pid)) => match workspace_path(e_descriptors(e), 0) {
                    None => Ok(s2),
                    Some(p) => if p == "."@ {
                        Ok(BerryState { root: Some(pid), insts: s2.insts.push((pid, seq![])), ..s2 })
                    } else if is_module_path(p) {
                        Ok(
                            BerryState {
                                members: s2.members.push(pid),
                                insts: s2.insts.push((pid, p)),
                                ..s2
                            },
                        )
                    } else {
                        Err(LockFail::Chaste(ChasteFail::Path(p)))
                    },
                },
            }
        },
    }
}

/// The entries `0..n` read in order.
pub open spec fn entries_run(entries: Seq<EntryView>, n: int) -> Result<BerryState, LockFail>
    decreases n,
{
    if n <= 0 {
        Ok(empty_state())
    } else {
        match entries_run(entries, n - 1) {
            Err(f) => Err(f),
            Ok(st) => entry_step(st, entries, n - 1),
        }
    }
}

/// The resolution of the entry of a package.
pub open spec fn pid_resolved(st: BerryState, entries: Seq<EntryView>, p: PackageID) -> Seq<char> {
    e_resolved(entries[st.entry_of[p.id() as int]])
}

/// The ids of a table, each once, in order of first appearance.
pub open spec fn distinct_pids(c: DescTable) -> Seq<PackageID>
    decreases c.len(),
{
    if c.len() == 0 {
        seq![]
    } else {
        let r = distinct_pids(c.drop_last());
        if r.contains(c.last().1) {
            r
        } else {
            r.push(c.last().1)
        }
    }
}

/// The path of a patch, without a leading `./`.
pub open spec fn patch_path(p: Seq<char>) -> Seq<char> {
    if has_at(p, 0, "./"@) {
        p.subrange(2, p.len() as int)
    } else {
        p
    }
}

/// The packages whose resolution is `target`, among those with a descriptor named `name`.
pub open spec fn patch_sources(st: BerryState, entries: Seq<EntryView>, name: Seq<char>, target: Seq<char>) -> Seq<PackageID> {
    distinct_pids(candidates(st.table, name)).filter(
        |p: PackageID| pid_resolved(st, entries, p) == target,
    )
}

/// Reads a patched entry: the package it patches is the one package with a
/// descriptor of the patched name whose resolution is `name@specifier`.
pub open spec fn patch_step(st: BerryState, entries: Seq<EntryView>, d: (int, BerryPkg)) -> Result<BerryState, LockFail> {
    let r = e_resolved(entries[d.0]);
    match spec_patch_descriptor(r) {
        None => Err(LockFail::InvalidResolved(r)),
        Some((_, pname, penc, path, _)) => match percent_decoded(penc) {
            None => Err(LockFail::Utf8),
            Some(svd) => {
                let hits = patch_sources(st, entries, pname, pname + "@"@ + svd);
                if hits.len() == 0 {
                    Err(LockFail::InvalidResolved(r))
                } else if hits.len() > 1 {
                    Err(LockFail::AmbiguousResolved(r))
                } else {
                    let pkg = BerryPkg { patch: Some((patch_path(path), hits[0])), ..d.1 };
                    match add_package(st, d.0, e_descriptors(entries[d.0]), pkg, None) {
                        Err(f) => Err(f),
                        Ok((s2, _)) => Ok(s2),
                    }
                }
            },
        },
    }
}

/// The first `n` waiting entries read in order.
pub open spec fn patches_run(st: BerryState, entries: Seq<EntryView>, n: int) -> Result<BerryState, LockFail>
    decreases n,
{
    if n <= 0 {
        Ok(st)
    } else {
        match patches_run(st, entries, n - 1) {
            Err(f) => Err(f),
            Ok(s2) => patch_step(s2, entries, st.deferred[n - 1]),
        }
    }
}

/// The first package, in id order from index `k`, whose resolution is `r`.
pub open spec fn first_resolved(st: BerryState, entries: Seq<EntryView>, r: Seq<char>, k: int) -> Option<PackageID>
    decreases st.pkgs.len() - k,
{
    if k < 0 || k >= st.pkgs.len() {
        None
    } else if e_resolved(entries[st.entry_of[k]]) == r {
        Some(pid_at(k as nat))
    } else {
        first_resolved(st, entries, r, k + 1)
    }
}

/// Installations of a package at each location, while the locations are module paths.
pub open spec fn location_insts(pid: PackageID, locs: Seq<Seq<char>>) -> Option<Seq<(PackageID, Seq<char>)>>
    decreases locs.len(),
{
    if locs.len() == 0 {
        Some(seq![])
    } else {
        match location_insts(pid, locs.drop_last()) {
            None => None,
            Some(r) => if is_module_path(locs.last()) {
                Some(r.push((pid, locs.last())))
            } else {
                None
            },
        }
    }
}

/// Records where the state file says one package is installed.
pub open spec fn state_step(st: BerryState, entries: Seq<EntryView>, p: StatePackageView) -> Result<BerryState, LockFail> {
    let expected = spec_resolution_from_state_key(p.0);
    match first_resolved(st, entries, expected, 0) {
        None => Err(LockFail::StateNotFound(expected)),
        Some(pid) => match location_insts(pid, p.1) {
            None => Err(LockFail::Chaste(ChasteFail::FirstPath(p.1))),
            Some(l) => Ok(BerryState { insts: st.insts + l, ..st }),
        },
    }
}

/// The first `n` packages of the state file read in order.
pub open spec fn state_run(st: BerryState, entries: Seq<EntryView>, ps: Seq<StatePackageView>, n: int) -> Result<BerryState, LockFail>
    decreases n,
{
    if n <= 0 {
        Ok(st)
    } else {
        match state_run(st, entries, ps, n - 1) {
            Err(f) => Err(f),
            Ok(s2) => state_step(s2, entries, ps[n - 1]),
        }
    }
}

/// Installations from `.yarn-state.yml`, when there is one.
pub open spec fn state_phase(st: BerryState, entries: Seq<EntryView>, state: Option<Seq<char>>) -> Result<BerryState, LockFail> {
    match state {
        None => Ok(st),
        Some(text) => match state_file(text) {
            None => Err(LockFail::StateSyntax),
            Some((_, ps)) => state_run(st, entries, ps, ps.len() as int),
        },
    }
}

/// The resolution overrides after one more: the value of a present key is replaced,
/// a new key is appended.
pub open spec fn insert_res(es: Seq<ResEntry>, k: (SelView, Option<SelView>), v: Seq<char>) -> Seq<ResEntry> {
    if exists|i: int| 0 <= i < es.len() && key_of(es[i]) == k {
        let i = choose|i: int| 0 <= i < es.len() && key_of(es[i]) == k;
        es.update(i, (k.0, k.1, v))
    } else {
        es.push((k.0, k.1, v))
    }
}

/// The overrides of `"resolutions"`, added in order; the first key that cannot be
/// read stops it.
pub open spec fn res_run(ps: Seq<(Seq<char>, Seq<char>)>) -> Result<Seq<ResEntry>, Seq<char>>
    decreases ps.len(),
{
    if ps.len() == 0 {
        Ok(seq![])
    } else {
        match res_run(ps.drop_last()) {
            Err(k) => Err(k),
            Ok(es) => match parsed_key(ps.last().0) {
                None => Err(ps.last().0),
                Some(k) => Ok(insert_res(es, k, ps.last().1)),
            },
        }
    }
}

/// Whether the last metadata entry for `name` marks it optional.
pub open spec fn meta_optional(m: MetasView, name: Seq<char>) -> Option<bool>
    decreases m.len(),
{
    if m.len() == 0 {
        None
    } else if m.last().0 == name {
        m.last().1
    } else {
        meta_optional(m.drop_last(), name)
    }
}

/// The package a dependency resolves to: the one descriptor of its name whose
/// specifier matches the requested one, or its override.
pub open spec fn dep_target(st: BerryState, res: Seq<ResEntry>, e: EntryView, name: Seq<char>, svs: Seq<char>) -> Result<PackageID, LockFail> {
    let ev = match lookup(res, name, svs, e_descriptors(e)) {
        Some(v) => v,
        None => svs,
    };
    let hits = candidates(st.table, name).filter(|c: (Key, PackageID)| spec_is_same_svs(ev, c.0.1));
    if hits.len() == 1 {
        Ok(hits[0].1)
    } else if hits.len() == 0 {
        Err(LockFail::NotFound(key_text((name, svs))))
    } else {
        Err(LockFail::Ambiguous(key_text((name, svs))))
    }
}

/// The dependency on `on` for a request of `name` at `svs`: the specifier must be
/// readable, and the name too when the specifier aliases another package.
pub open spec fn dep_view(kind: DependencyKind, on: PackageID, name: Seq<char>, svs: Seq<char>) -> Result<DepView, LockFail> {
    match parse_svs(svs, None) {
        None => Err(LockFail::Chaste(ChasteFail::Svs(svs))),
        Some(pos) => if spec_aliased_name(svs, pos) is Some {
            if is_package_name(name) {
                Ok(DepView { kind, on, svs, alias: Some(name) })
            } else {
                Err(LockFail::Chaste(ChasteFail::Name(name)))
            }
        } else {
            Ok(DepView { kind, on, svs, alias: None })
        },
    }
}

/// Dependencies found so far: per package, the packages it depends on, and the
/// dependencies with the package they are from.
pub struct DepState {
    pub children: Seq<Seq<PackageID>>,
    pub out: Seq<(PackageID, DepView)>,
}

/// One dependency of package `k`.
pub open spec fn dep_step(st: BerryState, res: Seq<ResEntry>, entries: Seq<EntryView>, k: int, ds: DepState, d: (Seq<char>, Seq<char>)) -> Result<DepState, LockFail> {
    let e = entries[st.entry_of[k]];
    let kind = if meta_optional(e_deps_meta(e), d.0) == Some(true) {
        DependencyKind::OptionalDependency
    } else {
        DependencyKind::Dependency
    };
    match dep_target(st, res, e, d.0, d.1) {
        Err(f) => Err(f),
        Ok(p) => match dep_view(kind, p, d.0, d.1) {
            Err(f) => Err(f),
            Ok(v) => Ok(
                DepState {
                    children: ds.children.update(k, ds.children[k].push(p)),
                    out: ds.out.push((pid_at(k as nat), v)),
                },
            ),
        },
    }
}

/// The first `n` dependencies of package `k`.
pub open spec fn pkg_deps_run(st: BerryState, res: Seq<ResEntry>, entries: Seq<EntryView>, k: int, ds: DepState, n: int) -> Result<DepState, LockFail>
    decreases n,
{
    if n <= 0 {
        Ok(ds)
    } else {
        match pkg_deps_run(st, res, entries, k, ds, n - 1) {
            Err(f) => Err(f),
            Ok(d2) => dep_step(st, res, entries, k, d2, e_deps(entries[st.entry_of[k]])[n - 1]),
        }
    }
}

/// The dependencies of packages `0..n`.
pub open spec fn deps_run(st: BerryState, res: Seq<ResEntry>, entries: Seq<EntryView>, n: int) -> Result<DepState, LockFail>
    decreases n,
{
    if n <= 0 {
        Ok(DepState { children: Seq::new(st.pkgs.len(), |i: int| Seq::<PackageID>::empty()), out: seq![] })
    } else {
        match deps_run(st, res, entries, n - 1) {
            Err(f) => Err(f),
            Ok(ds) => pkg_deps_run(
                st,
                res,
                entries,
                n - 1,
                ds,
                e_deps(entries[st.entry_of[n - 1]]).len() as int,
            ),
        }
    }
}

/// The elements of a sequence, each once, in order of first appearance.
pub open spec fn distinct_seq(s: Seq<PackageID>) -> Seq<PackageID>
    decreases s.len(),
{
    if s.len() == 0 {
        seq![]
    } else {
        let r = distinct_seq(s.drop_last());
        if r.contains(s.last()) {
            r
        } else {
            r.push(s.last())
        }
    }
}

/// Some descriptor of the table is for `p`.
pub open spec fn has_pid(c: DescTable, p: PackageID) -> bool {
    exists|j: int| 0 <= j < c.len() && c[j].1 == p
}

/// The version of the entry of a package.
pub open spec fn pid_version(st: BerryState, entries: Seq<EntryView>, p: PackageID) -> Seq<char> {
    e_version(entries[st.entry_of[p.id() as int]])
}

/// The package was recorded as coming from an npm registry.
pub open spec fn npm_sourced(st: BerryState, p: PackageID) -> bool {
    st.sources[p.id() as int] == Some(SourceView::Npm)
}

/// The package of the highest version; the last of them where several are highest.
pub open spec fn last_max(st: BerryState, entries: Seq<EntryView>, s: DescTable) -> PackageID
    decreases s.len(),
{
    if s.len() <= 1 {
        s[0].1
    } else {
        let b = last_max(st, entries, s.drop_last());
        if semver_at_least(pid_version(st, entries, s.last().1), pid_version(st, entries, b)) {
            s.last().1
        } else {
            b
        }
    }
}

/// A descriptor with the specifier `svs`, or `npm:` and it.
pub open spec fn same_spec_pred(svs: Seq<char>) -> spec_fn((Key, PackageID)) -> bool {
    |x: (Key, PackageID)| x.0.1 == svs || x.0.1 == "npm:"@ + svs
}

/// The package a peer dependency of package `k` resolves to, if any: the only
/// descriptor of its name; else the only one that matches its override; else the
/// only candidate among the packages `k` already depends on; else the only one with
/// the same specifier; else `k` itself; else, for an npm range, the only candidate
/// from npm that satisfies it, or the highest of several.
pub open spec fn peer_target(st: BerryState, res: Seq<ResEntry>, entries: Seq<EntryView>, k: int, kids: Seq<PackageID>, name: Seq<char>, svs: Seq<char>) -> Result<Option<PackageID>, LockFail> {
    let e = entries[st.entry_of[k]];
    let c = candidates(st.table, name);
    let over = lookup(res, name, svs, e_descriptors(e));
    let over_hits = match over {
        Some(ev) => c.filter(|x: (Key, PackageID)| spec_is_same_svs(ev, x.0.1)),
        None => seq![],
    };
    let sib = distinct_seq(kids).filter(|p: PackageID| has_pid(c, p));
    let same = c.filter(same_spec_pred(svs));
    if c.len() == 1 {
        Ok(Some(c[0].1))
    } else if c.len() == 0 {
        Ok(None)
    } else if over is Some && over_hits.len() == 1 {
        Ok(Some(over_hits[0].1))
    } else if sib.len() == 1 {
        Ok(Some(sib[0]))
    } else if same.len() == 1 {
        Ok(Some(same[0].1))
    } else if has_pid(c, pid_at(k as nat)) {
        Ok(Some(pid_at(k as nat)))
    } else {
        match parse_svs(svs, None) {
            None => Err(LockFail::Chaste(ChasteFail::Svs(svs))),
            Some(pos) => if pos is Npm && semver_range_parses(npm_range_input(svs)) {
                let sat = c.filter(
                    |x: (Key, PackageID)|
                        npm_sourced(st, x.1) && semver_satisfies(
                            pid_version(st, entries, x.1),
                            npm_range_input(svs),
                        ),
                );
                if sat.len() == 1 {
                    Ok(Some(sat[0].1))
                } else if sat.len() > 1 {
                    Ok(Some(last_max(st, entries, sat)))
                } else {
                    Ok(None)
                }
            } else {
                Ok(None)
            },
        }
    }
}

/// One peer dependency of package `k`; one that resolves to nothing is left out.
pub open spec fn peer_step(st: BerryState, res: Seq<ResEntry>, entries: Seq<EntryView>, k: int, ds: DepState, d: (Seq<char>, Seq<char>)) -> Result<DepState, LockFail> {
    let e = entries[st.entry_of[k]];
    let kind = if meta_optional(e_peers_meta(e), d.0) == Some(true) {
        DependencyKind::OptionalPeerDependency
    } else {
        DependencyKind::PeerDependency
    };
    match peer_target(st, res, entries, k, ds.children[k], d.0, d.1) {
        Err(f) => Err(f),
        Ok(None) => Ok(ds),
        Ok(Some(p)) => match dep_view(kind, p, d.0, d.1) {
            Err(f) => Err(f),
            Ok(v) => Ok(
                DepState {
                    children: ds.children.update(k, ds.children[k].push(p)),
                    out: ds.out.push((pid_at(k as nat), v)),
                },
            ),
        },
    }
}

/// The first `n` peer dependencies of package `k`.
pub open spec fn pkg_peers_run(st: BerryState, res: Seq<ResEntry>, entries: Seq<EntryView>, k: int, ds: DepState, n: int) -> Result<DepState, LockFail>
    decreases n,
{
    if n <= 0 {
        Ok(ds)
    } else {
        match pkg_peers_run(st, res, entries, k, ds, n - 1) {
            Err(f) => Err(f),
            Ok(d2) => peer_step(st, res, entries, k, d2, e_peers(entries[st.entry_of[k]])[n - 1]),
        }
    }
}

/// The peer dependencies of packages `0..n`, after the dependencies in `ds`.
pub open spec fn peers_run(st: BerryState, res: Seq<ResEntry>, entries: Seq<EntryView>, ds: DepState, n: int) -> Result<DepState, LockFail>
    decreases n,
{
    if n <= 0 {
        Ok(ds)
    } else {
        match peers_run(st, res, entries, ds, n - 1) {
            Err(f) => Err(f),
            Ok(d2) => pkg_peers_run(
                st,
                res,
                entries,
                n - 1,
                d2,
                e_peers(entries[st.entry_of[n - 1]]).len() as int,
            ),
        }
    }
}

/// The packages and installations read, with the dependencies.
pub struct BerryOut {
    pub st: BerryState,
    pub deps: Seq<(PackageID, DepView)>,
}

/// Reading a lockfile with its entries, the `"resolutions"` of the root package and
/// the state file, if there is one.
pub open spec fn berry_run(entries: Seq<EntryView>, res_pairs: Seq<(Seq<char>, Seq<char>)>, state: Option<Seq<char>>) -> Result<BerryOut, LockFail> {
    match res_run(res_pairs) {
        Err(k) => Err(LockFail::InvalidResolution(k)),
        Ok(res) => match entries_run(entries, entries.len() as int) {
            Err(f) => Err(f),
            Ok(s1) => match patches_run(s1, entries, s1.deferred.len() as int) {
                Err(f) => Err(f),
                Ok(s2) => match state_phase(s2, entries, state) {
                    Err(f) => Err(f),
                    Ok(s3) => match deps_run(s3, res, entries, s3.pkgs.len() as int) {
                        Err(f) => Err(f),
                        Ok(ds) => match peers_run(s3, res, entries, ds, s3.pkgs.len() as int) {
                            Err(f) => Err(f),
                            Ok(ds2) => if s3.root is None {
                                Err(LockFail::Chaste(ChasteFail::Root))
                            } else {
                                Ok(BerryOut { st: s3, deps: ds2.out })
                            },
                        },
                    },
                },
            },
        },
    }
}

/// The chastefile holds what was read.
pub open spec fn berry_chastefile_is(c: Chastefile<Meta>, version: u8, out: BerryOut) -> bool {
    &&& c.spec_meta().lockfile_version == version
    &&& c.spec_packages().len() == out.st.pkgs.len()
    &&& forall|k: int|
        0 <= k < out.st.pkgs.len() ==> package_is(#[trigger] c.spec_packages()[k], out.st.pkgs[k])
    &&& c.spec_installations().len() == out.st.insts.len()
    &&& forall|k: int|
        0 <= k < out.st.insts.len() ==> (#[trigger] c.spec_installations()[k]).spec_package_id()
            == out.st.insts[k].0 && c.spec_installations()[k].spec_path()@ == out.st.insts[k].1
    &&& out.st.root == Some(c.spec_root())
    &&& c.spec_members() == out.st.members
    &&& c.deps().len() == out.deps.len()
    &&& forall|j: int|
        0 <= j < out.deps.len() ==> dep_matches(#[trigger] c.deps()[j], out.deps[j].1, out.deps[j].0)
}

pub proof fn lemma_insert_pos(t: DescTable, k: Key, i: int)
    requires
        0 <= i,
    ensures
        i <= insert_pos(t, k, i) <= t.len() || (i > t.len() && insert_pos(t, k, i) == t.len()),
        0 <= insert_pos(t, k, i) <= t.len(),
    decreases t.len() - i,
{
    if i < t.len() && key_lt(t[i].0, k) {
        lemma_insert_pos(t, k, i + 1);
    }
}

/// Tables that only name packages below a bound stay so.
pub proof fn lemma_insert_all_bound(t: DescTable, ds: PairsView, pid: PackageID, b: nat)
    requires
        pid.id() < b,
        forall|j: int| 0 <= j < t.len() ==> (#[trigger] t[j]).1.id() < b,
    ensures
        insert_all(t, ds, pid) matches Ok(t2) ==> forall|j: int| 0 <= j < t2.len() ==> (#[trigger] t2[j]).1.id() < b,
    decreases ds.len(),
{
    if ds.len() > 0 {
        lemma_insert_all_bound(t, ds.drop_last(), pid, b);
        if let Ok(t2) = insert_all(t, ds.drop_last(), pid) {
            let i = insert_pos(t2, ds.last(), 0);
            lemma_insert_pos(t2, ds.last(), 0);
            if let Some(t3) = table_insert(t2, ds.last(), pid) {
                assert forall|j: int| 0 <= j < t3.len() implies (#[trigger] t3[j]).1.id() < b by {
                    if j < i {
                        assert(t3[j] == t2[j]);
                    } else if j > i {
                        assert(t3[j] == t2[j - 1]);
                    }
                }
            }
        }
    }
}

/// The descriptors of one name form a run of the table.
pub proof fn lemma_name_run(t: DescTable, name: Seq<char>, i: int)
    requires
        0 <= i <= t.len(),
    ensures
        i + name_run(t, name, i).len() <= t.len(),
        forall|j: int| 0 <= j < name_run(t, name, i).len() ==> name_run(t, name, i)[j] == t[i + j],
    decreases t.len() - i,
{
    if i < t.len() && t[i].0.0 == name {
        lemma_name_run(t, name, i + 1);
        let r = name_run(t, name, i + 1);
        assert forall|j: int| 0 <= j < name_run(t, name, i).len() implies name_run(t, name, i)[j] == t[i + j] by {
            if j > 0 {
                assert(name_run(t, name, i)[j] == r[j - 1]);
            }
        }
    }
}

/// Every package id that the state holds names one of its packages.
pub open spec fn ids_ok(st: BerryState) -> bool {
    &&& forall|j: int| 0 <= j < st.table.len() ==> (#[trigger] st.table[j]).1.id() < st.pkgs.len()
    &&& (st.root matches Some(r) ==> r.id() < st.pkgs.len())
    &&& forall|j: int| 0 <= j < st.members.len() ==> (#[trigger] st.members[j]).id() < st.pkgs.len()
    &&& forall|j: int| 0 <= j < st.insts.len() ==> (#[trigger] st.insts[j]).0.id() < st.pkgs.len()
    &&& forall|k: int|
        0 <= k < st.pkgs.len() ==> ((#[trigger] st.pkgs[k]).patch matches Some((_, f)) ==> f.id()
            < st.pkgs.len())
}

/// Every dependency is from and on packages below `n`.
pub open spec fn deps_ok(out: Seq<(PackageID, DepView)>, n: nat) -> bool {
    forall|j: int| 0 <= j < out.len() ==> (#[trigger] out[j]).0.id() < n && out[j].1.on.id() < n
}

proof fn lemma_add_package_ids(st: BerryState, i: int, ds: PairsView, pkg: BerryPkg, source: Option<SourceView>)
    requires
        ids_ok(st),
        st.pkgs.len() < usize::MAX,
        pkg.patch matches Some((_, f)) ==> f.id() < st.pkgs.len(),
    ensures
        add_package(st, i, ds, pkg, source) matches Ok((s2, pid)) ==> ids_ok(s2) && pid.id()
            == st.pkgs.len() && s2.pkgs.len() == st.pkgs.len() + 1 && s2.deferred == st.deferred,
{
    lemma_pid_at(st.pkgs.len());
    let pid = pid_at(st.pkgs.len());
    lemma_insert_all_bound(st.table, ds, pid, st.pkgs.len() + 1);
    if let Ok((s2, p)) = add_package(st, i, ds, pkg, source) {
        assert forall|k: int| 0 <= k < s2.pkgs.len() implies ((#[trigger] s2.pkgs[k]).patch matches Some((
            _,
            f,
        )) ==> f.id() < s2.pkgs.len()) by {
            if k < st.pkgs.len() {
                assert(s2.pkgs[k] == st.pkgs[k]);
            }
        }
    }
}

proof fn lemma_entries_run_ids(entries: Seq<EntryView>, n: int)
    requires
        0 <= n <= entries.len(),
        entries.len() <= usize::MAX,
    ensures
        entries_run(entries, n) matches Ok(st) ==> ids_ok(st) && st.pkgs.len() + st.deferred.len() <= n,
    decreases n,
{
    if n > 0 {
        lemma_entries_run_ids(entries, n - 1);
        if let Ok(st) = entries_run(entries, n - 1) {
            let e = entries[n - 1];
            if let Ok(pkg) = entry_package(e) {
                if !is_patch_resolution(e_resolved(e)) {
                    lemma_add_package_ids(st, n - 1, e_descriptors(e), pkg, pkg.source);
                    if let Ok((s2, pid)) = add_package(st, n - 1, e_descriptors(e), pkg, pkg.source) {
                        if let Some(p) = workspace_path(e_descriptors(e), 0) {
                            let s3 = if p == "."@ {
                                BerryState { root: Some(pid), insts: s2.insts.push((pid, seq![])), ..s2 }
                            } else {
                                BerryState { members: s2.members.push(pid), insts: s2.insts.push((pid, p)), ..s2 }
                            };
                            assert(ids_ok(s3));
                        }
                    }
                }
            }
        }
    }
}

/// The ids that [`distinct_pids`] keeps are ids of the table.
proof fn lemma_distinct_pids(c: DescTable)
    ensures
        forall|j: int| 0 <= j < distinct_pids(c).len() ==> exists|m: int| 0 <= m < c.len() && c[m].1 == #[trigger] distinct_pids(c)[j],
    decreases c.len(),
{
    if c.len() > 0 {
        lemma_distinct_pids(c.drop_last());
        let r = distinct_pids(c.drop_last());
        assert forall|j: int| 0 <= j < distinct_pids(c).len() implies exists|m: int| 0 <= m < c.len() && c[m].1 == #[trigger] distinct_pids(c)[j] by {
            if j < r.len() {
                let m = choose|m: int| 0 <= m < c.drop_last().len() && c.drop_last()[m].1 == r[j];
                assert(c[m].1 == distinct_pids(c)[j]);
            } else {
                assert(c[c.len() - 1].1 == distinct_pids(c)[j]);
            }
        }
    }
}

/// The candidates of a name only name packages that the table names.
proof fn lemma_candidates_in_table(t: DescTable, name: Seq<char>, b: nat)
    requires
        forall|j: int| 0 <= j < t.len() ==> (#[trigger] t[j]).1.id() < b,
    ensures
        forall|j: int| 0 <= j < candidates(t, name).len() ==> (#[trigger] candidates(t, name)[j]).1.id() < b,
{
    let lb = name_lower_bound(t, name, 0);
    lemma_name_lower_bound(t, name, 0);
    lemma_name_run(t, name, lb);
    assert forall|j: int| 0 <= j < candidates(t, name).len() implies (#[trigger] candidates(t, name)[j]).1.id() < b by {
        assert(candidates(t, name)[j] == t[lb + j]);
    }
}

pub proof fn lemma_name_lower_bound(t: DescTable, name: Seq<char>, i: int)
    requires
        0 <= i,
    ensures
        0 <= name_lower_bound(t, name, i) <= t.len(),
    decreases t.len() - i,
{
    if 0 <= i < t.len() && seq_lt(t[i].0.0, name) {
        lemma_name_lower_bound(t, name, i + 1);
    }
}

/// What a filter keeps, the sequence had.
proof fn lemma_filter_from<A>(s: Seq<A>, p: spec_fn(A) -> bool, j: int)
    requires
        0 <= j < s.filter(p).len(),
    ensures
        exists|m: int| 0 <= m < s.len() && s[m] == s.filter(p)[j],
{
    assert(s.filter(p).contains(s.filter(p)[j]));
    s.lemma_filter_contains_rev(p, s.filter(p)[j]);
}

proof fn lemma_patches_run_ids(st: BerryState, entries: Seq<EntryView>, n: int)
    requires
        0 <= n <= st.deferred.len(),
        ids_ok(st),
        st.pkgs.len() + st.deferred.len() <= usize::MAX,
    ensures
        patches_run(st, entries, n) matches Ok(s) ==> ids_ok(s) && s.pkgs.len() == st.pkgs.len() + n
            && s.deferred == st.deferred,
    decreases n,
{
    if n > 0 {
        lemma_patches_run_ids(st, entries, n - 1);
        if let Ok(s2) = patches_run(st, entries, n - 1) {
            let d = st.deferred[n - 1];
            let r = e_resolved(entries[d.0]);
            if let Some((_, pname, penc, path, _)) = spec_patch_descriptor(r) {
                if let Some(svd) = percent_decoded(penc) {
                    let c = candidates(s2.table, pname);
                    let hits = patch_sources(s2, entries, pname, pname + "@"@ + svd);
                    if hits.len() == 1 {
                        lemma_candidates_in_table(s2.table, pname, s2.pkgs.len());
                        lemma_filter_from(distinct_pids(c), |p: PackageID| pid_resolved(s2, entries, p) == pname + "@"@ + svd, 0);
                        lemma_distinct_pids(c);
                        let pkg = BerryPkg { patch: Some((patch_path(path), hits[0])), ..d.1 };
                        lemma_add_package_ids(s2, d.0, e_descriptors(entries[d.0]), pkg, None);
                    }
                }
            }
        }
    }
}

proof fn lemma_location_insts(pid: PackageID, locs: Seq<Seq<char>>)
    ensures
        location_insts(pid, locs) matches Some(l) ==> forall|j: int| 0 <= j < l.len() ==> (#[trigger] l[j]).0 == pid,
    decreases locs.len(),
{
    if locs.len() > 0 {
        lemma_location_insts(pid, locs.drop_last());
    }
}

proof fn lemma_first_resolved(st: BerryState, entries: Seq<EntryView>, r: Seq<char>, k: int)
    requires
        0 <= k,
        st.pkgs.len() <= usize::MAX,
    ensures
        first_resolved(st, entries, r, k) matches Some(p) ==> p.id() < st.pkgs.len(),
    decreases st.pkgs.len() - k,
{
    if k < st.pkgs.len() {
        lemma_pid_at(k as nat);
        lemma_first_resolved(st, entries, r, k + 1);
    }
}

proof fn lemma_state_run_ids(st: BerryState, entries: Seq<EntryView>, ps: Seq<StatePackageView>, n: int)
    requires
        0 <= n,
        ids_ok(st),
        st.pkgs.len() <= usize::MAX,
    ensures
        state_run(st, entries, ps, n) matches Ok(s) ==> ids_ok(s) && s.pkgs == st.pkgs,
    decreases n,
{
    if n > 0 {
        lemma_state_run_ids(st, entries, ps, n - 1);
        if let Ok(s2) = state_run(st, entries, ps, n - 1) {
            let expected = spec_resolution_from_state_key(ps[n - 1].0);
            lemma_first_resolved(s2, entries, expected, 0);
            if let Some(pid) = first_resolved(s2, entries, expected, 0) {
                lemma_location_insts(pid, ps[n - 1].1);
                if let Some(l) = location_insts(pid, ps[n - 1].1) {
                    let s3 = BerryState { insts: s2.insts + l, ..s2 };
                    assert forall|j: int| 0 <= j < s3.insts.len() implies (#[trigger] s3.insts[j]).0.id() < s3.pkgs.len() by {
                        if j >= s2.insts.len() {
                            assert(s3.insts[j] == l[j - s2.insts.len()]);
                        }
                    }
                }
            }
        }
    }
}

proof fn lemma_last_max(st: BerryState, entries: Seq<EntryView>, s: DescTable)
    requires
        s.len() > 0,
    ensures
        exists|m: int| 0 <= m < s.len() && s[m].1 == last_max(st, entries, s),
    decreases s.len(),
{
    if s.len() > 1 {
        lemma_last_max(st, entries, s.drop_last());
        let m = choose|m: int| 0 <= m < s.drop_last().len() && s.drop_last()[m].1 == last_max(st, entries, s.drop_last());
        assert(s[m].1 == s.drop_last()[m].1);
        assert(s[s.len() - 1].1 == s.last().1);
    } else {
        assert(s[0].1 == last_max(st, entries, s));
    }
}

/// A filter of the candidates keeps ids below the bound.
proof fn lemma_filter_candidates(c: DescTable, p: spec_fn((Key, PackageID)) -> bool, b: nat)
    requires
        forall|j: int| 0 <= j < c.len() ==> (#[trigger] c[j]).1.id() < b,
    ensures
        forall|j: int| 0 <= j < c.filter(p).len() ==> (#[trigger] c.filter(p)[j]).1.id() < b,
{
    assert forall|j: int| 0 <= j < c.filter(p).len() implies (#[trigger] c.filter(p)[j]).1.id() < b by {
        lemma_filter_from(c, p, j);
    }
}

proof fn lemma_dep_step_ids(st: BerryState, res: Seq<ResEntry>, entries: Seq<EntryView>, k: int, ds: DepState, d: (Seq<char>, Seq<char>))
    requires
        ids_ok(st),
        0 <= k < st.pkgs.len(),
        st.pkgs.len() <= usize::MAX,
        deps_ok(ds.out, st.pkgs.len()),
    ensures
        dep_step(st, res, entries, k, ds, d) matches Ok(d2) ==> deps_ok(d2.out, st.pkgs.len()),
{
    lemma_pid_at(k as nat);
    let e = entries[st.entry_of[k]];
    let c = candidates(st.table, d.0);
    lemma_candidates_in_table(st.table, d.0, st.pkgs.len());
    let ev = match lookup(res, d.0, d.1, e_descriptors(e)) {
        Some(v) => v,
        None => d.1,
    };
    lemma_filter_candidates(c, |x: (Key, PackageID)| spec_is_same_svs(ev, x.0.1), st.pkgs.len());
}

proof fn lemma_peer_target_ids(st: BerryState, res: Seq<ResEntry>, entries: Seq<EntryView>, k: int, kids: Seq<PackageID>, name: Seq<char>, svs: Seq<char>)
    requires
        ids_ok(st),
        0 <= k < st.pkgs.len(),
        st.pkgs.len() <= usize::MAX,
    ensures
        peer_target(st, res, entries, k, kids, name, svs) matches Ok(Some(p)) ==> p.id() < st.pkgs.len(),
{
    lemma_pid_at(k as nat);
    let e = entries[st.entry_of[k]];
    let c = candidates(st.table, name);
    lemma_candidates_in_table(st.table, name, st.pkgs.len());
    let over = lookup(res, name, svs, e_descriptors(e));
    let over_hits = match over {
        Some(ev) => c.filter(|x: (Key, PackageID)| spec_is_same_svs(ev, x.0.1)),
        None => seq![],
    };
    if let Some(ev) = over {
        lemma_filter_candidates(c, |x: (Key, PackageID)| spec_is_same_svs(ev, x.0.1), st.pkgs.len());
    }
    let sib = distinct_seq(kids).filter(|p: PackageID| has_pid(c, p));
    let same = c.filter(same_spec_pred(svs));
    lemma_filter_candidates(c, same_spec_pred(svs), st.pkgs.len());
    if c.len() == 1 {
        assert(c[0].1.id() < st.pkgs.len());
    } else if c.len() == 0 {
    } else if over is Some && over_hits.len() == 1 {
        assert(over_hits[0].1.id() < st.pkgs.len());
    } else if sib.len() == 1 {
        assert(sib.contains(sib[0]));
        broadcast use vstd::seq_lib::group_filter_ensures;
        assert(has_pid(c, sib[0]));
        let j = choose|j: int| 0 <= j < c.len() && c[j].1 == sib[0];
        assert(c[j].1.id() < st.pkgs.len());
    } else if same.len() == 1 {
        assert(same[0].1.id() < st.pkgs.len());
    } else if has_pid(c, pid_at(k as nat)) {
    } else if let Some(pos) = parse_svs(svs, None) {
        if pos is Npm && semver_range_parses(npm_range_input(svs)) {
            let pred = |x: (Key, PackageID)|
                npm_sourced(st, x.1) && semver_satisfies(pid_version(st, entries, x.1), npm_range_input(svs));
            lemma_filter_candidates(c, pred, st.pkgs.len());
            let sat = c.filter(pred);
            if sat.len() == 1 {
                assert(sat[0].1.id() < st.pkgs.len());
            } else if sat.len() > 1 {
                lemma_last_max(st, entries, sat);
                let j = choose|j: int| 0 <= j < sat.len() && sat[j].1 == last_max(st, entries, sat);
                assert(sat[j].1.id() < st.pkgs.len());
            }
        }
    }
}

proof fn lemma_peer_step_ids(st: BerryState, res: Seq<ResEntry>, entries: Seq<EntryView>, k: int, ds: DepState, d: (Seq<char>, Seq<char>))
    requires
        ids_ok(st),
        0 <= k < st.pkgs.len(),
        st.pkgs.len() <= usize::MAX,
        deps_ok(ds.out, st.pkgs.len()),
        ds.children.len() == st.pkgs.len(),
    ensures
        peer_step(st, res, entries, k, ds, d) matches Ok(d2) ==> deps_ok(d2.out, st.pkgs.len()),
{
    lemma_pid_at(k as nat);
    lemma_peer_target_ids(st, res, entries, k, ds.children[k], d.0, d.1);
}

proof fn lemma_pkg_deps_run_ids(st: BerryState, res: Seq<ResEntry>, entries: Seq<EntryView>, k: int, ds: DepState, n: int)
    requires
        ids_ok(st),
        0 <= k < st.pkgs.len(),
        st.pkgs.len() <= usize::MAX,
        deps_ok(ds.out, st.pkgs.len()),
        ds.children.len() == st.pkgs.len(),
        0 <= n,
    ensures
        pkg_deps_run(st, res, entries, k, ds, n) matches Ok(d2) ==> deps_ok(d2.out, st.pkgs.len())
            && d2.children.len() == st.pkgs.len(),
    decreases n,
{
    if n > 0 {
        lemma_pkg_deps_run_ids(st, res, entries, k, ds, n - 1);
        if let Ok(d2) = pkg_deps_run(st, res, entries, k, ds, n - 1) {
            lemma_dep_step_ids(st, res, entries, k, d2, e_deps(entries[st.entry_of[k]])[n - 1]);
        }
    }
}

proof fn lemma_deps_run_ids(st: BerryState, res: Seq<ResEntry>, entries: Seq<EntryView>, n: int)
    requires
        ids_ok(st),
        0 <= n <= st.pkgs.len(),
        st.pkgs.len() <= usize::MAX,
    ensures
        deps_run(st, res, entries, n) matches Ok(ds) ==> deps_ok(ds.out, st.pkgs.len())
            && ds.children.len() == st.pkgs.len(),
    decreases n,
{
    if n > 0 {
        lemma_deps_run_ids(st, res, entries, n - 1);
        if let Ok(ds) = deps_run(st, res, entries, n - 1) {
            lemma_pkg_deps_run_ids(st, res, entries, n - 1, ds, e_deps(entries[st.entry_of[n - 1]]).len() as int);
        }
    }
}

proof fn lemma_pkg_peers_run_ids(st: BerryState, res: Seq<ResEntry>, entries: Seq<EntryView>, k: int, ds: DepState, n: int)
    requires
        ids_ok(st),
        0 <= k < st.pkgs.len(),
        st.pkgs.len() <= usize::MAX,
        deps_ok(ds.out, st.pkgs.len()),
        ds.children.len() == st.pkgs.len(),
        0 <= n,
    ensures
        pkg_peers_run(st, res, entries, k, ds, n) matches Ok(d2) ==> deps_ok(d2.out, st.pkgs.len())
            && d2.children.len() == st.pkgs.len(),
    decreases n,
{
    if n > 0 {
        lemma_pkg_peers_run_ids(st, res, entries, k, ds, n - 1);
        if let Ok(d2) = pkg_peers_run(st, res, entries, k, ds, n - 1) {
            lemma_peer_step_ids(st, res, entries, k, d2, e_peers(entries[st.entry_of[k]])[n - 1]);
        }
    }
}

proof fn lemma_peers_run_ids(st: BerryState, res: Seq<ResEntry>, entries: Seq<EntryView>, ds: DepState, n: int)
    requires
        ids_ok(st),
        0 <= n <= st.pkgs.len(),
        st.pkgs.len() <= usize::MAX,
        deps_ok(ds.out, st.pkgs.len()),
        ds.children.len() == st.pkgs.len(),
    ensures
        peers_run(st, res, entries, ds, n) matches Ok(d2) ==> deps_ok(d2.out, st.pkgs.len())
            && d2.children.len() == st.pkgs.len(),
    decreases n,
{
    if n > 0 {
        lemma_peers_run_ids(st, res, entries, ds, n - 1);
        if let Ok(d2) = peers_run(st, res, entries, ds, n - 1) {
            lemma_pkg_peers_run_ids(st, res, entries, n - 1, d2, e_peers(entries[st.entry_of[n - 1]]).len() as int);
        }
    }
}

/// Whatever a berry lockfile holds, every package id in what is read names one of
/// the packages read: the root, the workspace members, each installation, each
/// unpatched package of a patched one, and both ends of each dependency.
pub proof fn law_berry_ids_name_packages(
    entries: Seq<EntryView>,
    res_pairs: Seq<(Seq<char>, Seq<char>)>,
    state: Option<Seq<char>>,
)
    requires
        entries.len() <= usize::MAX,
    ensures
        berry_run(entries, res_pairs, state) matches Ok(out) ==> ids_ok(out.st) && deps_ok(
            out.deps,
            out.st.pkgs.len(),
        ),
{
    lemma_entries_run_ids(entries, entries.len() as int);
    if let Ok(res) = res_run(res_pairs) {
        if let Ok(s1) = entries_run(entries, entries.len() as int) {
            lemma_patches_run_ids(s1, entries, s1.deferred.len() as int);
            if let Ok(s2) = patches_run(s1, entries, s1.deferred.len() as int) {
                if let Some(text) = state {
                    if let Some((_, ps)) = state_file(text) {
                        lemma_state_run_ids(s2, entries, ps, ps.len() as int);
                    }
                }
                if let Ok(s3) = state_phase(s2, entries, state) {
                    lemma_deps_run_ids(s3, res, entries, s3.pkgs.len() as int);
                    if let Ok(ds) = deps_run(s3, res, entries, s3.pkgs.len() as int) {
                        lemma_peers_run_ids(s3, res, entries, ds, s3.pkgs.len() as int);
                    }
                }
            }
        }
    }
}


proof fn lemma_name_lower_bound_props(t: DescTable, name: Seq<char>, i: int)
    requires
        0 <= i <= t.len(),
    ensures
        i <= name_lower_bound(t, name, i) <= t.len(),
        forall|k: int| i <= k < name_lower_bound(t, name, i) ==> seq_lt(#[trigger] t[k].0.0, name),
        name_lower_bound(t, name, i) < t.len() ==> !seq_lt(t[name_lower_bound(t, name, i)].0.0, name),
    decreases t.len() - i,
{
    if i < t.len() && seq_lt(t[i].0.0, name) {
        lemma_name_lower_bound_props(t, name, i + 1);
    }
}

proof fn lemma_name_run_props(t: DescTable, name: Seq<char>, i: int)
    requires
        0 <= i <= t.len(),
    ensures
        forall|k: int| i <= k < i + name_run(t, name, i).len() ==> (#[trigger] t[k]).0.0 == name,
        i + name_run(t, name, i).len() < t.len() ==> t[i + name_run(t, name, i).len()].0.0 != name,
    decreases t.len() - i,
{
    if i < t.len() && t[i].0.0 == name {
        lemma_name_run_props(t, name, i + 1);
    }
}

/// In a table ordered by key with no key twice, the packages of a name are exactly
/// the entries of that name, one after the other, in key order: what walking a map
/// ordered by key from the name's first key gives.
pub proof fn law_candidates_are_the_name(t: DescTable, name: Seq<char>)
    requires
        keys_increasing(t),
    ensures
        exists|lb: int| {
            &&& 0 <= lb <= lb + candidates(t, name).len() <= t.len()
            &&& candidates(t, name) == #[trigger] t.subrange(lb, lb + candidates(t, name).len())
            &&& forall|k: int| 0 <= k < t.len() ==> ((#[trigger] t[k]).0.0 == name <==> lb <= k < lb + candidates(t, name).len())
        },
{
    let lb = name_lower_bound(t, name, 0);
    lemma_name_lower_bound_props(t, name, 0);
    lemma_name_run(t, name, lb);
    lemma_name_run_props(t, name, lb);
    let c = candidates(t, name);
    let e = lb + c.len();
    assert(c =~= t.subrange(lb, e));
    assert forall|k: int| 0 <= k < t.len() implies ((#[trigger] t[k]).0.0 == name <==> lb <= k < e) by {
        if k < lb {
            lemma_seq_lt_total(name, name);
        } else if k >= e {
            // the first name at `e` is above `name`, and names do not go down
            let m = t[e].0.0;
            if c.len() == 0 {
                lemma_seq_lt_total(m, name);
            } else {
                assert(key_lt(t[e - 1].0, t[e].0));
            }
            assert(seq_lt(name, m));
            if k > e {
                assert(key_lt(t[e].0, t[k].0));
                if seq_lt(m, t[k].0.0) {
                    lemma_seq_lt_trans(name, m, t[k].0.0);
                }
            }
            lemma_seq_lt_total(name, name);
        }
    }
}


/// The keys of the table increase strictly: the table is ordered by key and holds
/// each key once, as a map ordered by key does.
pub open spec fn keys_increasing(t: DescTable) -> bool {
    forall|i: int, j: int| 0 <= i < j < t.len() ==> key_lt(#[trigger] t[i].0, #[trigger] t[j].0)
}

pub proof fn lemma_key_lt_trans(a: Key, b: Key, c: Key)
    requires
        key_lt(a, b),
        key_lt(b, c),
    ensures
        key_lt(a, c),
{
    if seq_lt(a.0, b.0) && seq_lt(b.0, c.0) {
        lemma_seq_lt_trans(a.0, b.0, c.0);
    } else if a.0 == b.0 && b.0 == c.0 {
        lemma_seq_lt_trans(a.1, b.1, c.1);
    }
}

pub proof fn lemma_key_lt_total(a: Key, b: Key)
    ensures
        a == b || key_lt(a, b) || key_lt(b, a),
        !key_lt(a, a),
{
    lemma_seq_lt_total(a.0, b.0);
    lemma_seq_lt_total(a.1, b.1);
    lemma_seq_lt_total(a.0, a.0);
    lemma_seq_lt_total(a.1, a.1);
}

proof fn lemma_insert_pos_props(t: DescTable, k: Key, i: int)
    requires
        0 <= i <= t.len(),
    ensures
        forall|j: int| i <= j < insert_pos(t, k, i) ==> key_lt(#[trigger] t[j].0, k),
        insert_pos(t, k, i) < t.len() ==> !key_lt(t[insert_pos(t, k, i)].0, k),
    decreases t.len() - i,
{
    if i < t.len() && key_lt(t[i].0, k) {
        lemma_insert_pos_props(t, k, i + 1);
    }
}

/// Inserting a key at its place, or setting the key that is there, keeps the keys
/// increasing.
pub proof fn law_table_insert_keeps_order(t: DescTable, k: Key, pid: PackageID)
    requires
        keys_increasing(t),
    ensures
        table_insert(t, k, pid) matches Some(t2) ==> keys_increasing(t2),
        keys_increasing(crate::yarn::zpm_model::table_set(t, k, pid)),
{
    let i = insert_pos(t, k, 0);
    lemma_insert_pos(t, k, 0);
    lemma_insert_pos_props(t, k, 0);
    if i < t.len() && t[i].0 == k {
        let t2 = t.update(i, (k, pid));
        assert forall|a: int, b: int| 0 <= a < b < t2.len() implies key_lt(#[trigger] t2[a].0, #[trigger] t2[b].0) by {
            assert(key_lt(t[a].0, t[b].0));
        }
    } else {
        let t2 = t.insert(i, (k, pid));
        if i < t.len() {
            lemma_key_lt_total(t[i].0, k);
        }
        assert forall|a: int, b: int| 0 <= a < b < t2.len() implies key_lt(#[trigger] t2[a].0, #[trigger] t2[b].0) by {
            if b < i {
                assert(key_lt(t[a].0, t[b].0));
            } else if b == i {
                assert(key_lt(t[a].0, k));
            } else if a == i {
                // k is below the key at i, which is below every later one
                if b - 1 > i {
                    assert(key_lt(t[i].0, t[b - 1].0));
                    lemma_key_lt_trans(k, t[i].0, t[b - 1].0);
                }
            } else if a < i {
                assert(key_lt(t[a].0, t[b - 1].0));
            } else {
                assert(key_lt(t[a - 1].0, t[b - 1].0));
            }
        }
    }
}


/// The kind a berry entry gives the dependency `name`: optional when its
/// `dependenciesMeta` says so.
spec fn listed_dep_kind(e: EntryView, name: Seq<char>) -> DependencyKind {
    if meta_optional(e_deps_meta(e), name) == Some(true) {
        DependencyKind::OptionalDependency
    } else {
        DependencyKind::Dependency
    }
}

/// Dependency `i` of package `k` resolves and `out` holds it, with its kind.
spec fn dep_in(st: BerryState, res: Seq<ResEntry>, entries: Seq<EntryView>, k: int, i: int, out: Seq<(PackageID, DepView)>) -> bool {
    let e = entries[st.entry_of[k]];
    let d = e_deps(e)[i];
    dep_target(st, res, e, d.0, d.1) is Ok && out_has(
        out,
        pid_at(k as nat),
        dep_target(st, res, e, d.0, d.1)->Ok_0,
        listed_dep_kind(e, d.0),
        d.1,
    )
}

proof fn lemma_dep_in_extends(st: BerryState, res: Seq<ResEntry>, entries: Seq<EntryView>, k: int, i: int, a: Seq<(PackageID, DepView)>, b: Seq<(PackageID, DepView)>)
    requires
        dep_in(st, res, entries, k, i, a),
        a.len() <= b.len(),
        forall|j: int| 0 <= j < a.len() ==> b[j] == a[j],
    ensures
        dep_in(st, res, entries, k, i, b),
{
    let e = entries[st.entry_of[k]];
    let d = e_deps(e)[i];
    lemma_out_has_extends(a, b, pid_at(k as nat), dep_target(st, res, e, d.0, d.1)->Ok_0, listed_dep_kind(e, d.0), d.1);
}

/// Each of the first `n` dependencies of package `k` resolves and is added with its
/// kind; what was there stays.
proof fn lemma_pkg_deps_run_has(st: BerryState, res: Seq<ResEntry>, entries: Seq<EntryView>, k: int, ds: DepState, n: int, d2: DepState)
    requires
        pkg_deps_run(st, res, entries, k, ds, n) == Ok::<DepState, LockFail>(d2),
        0 <= n <= e_deps(entries[st.entry_of[k]]).len(),
    ensures
        ds.out.len() <= d2.out.len(),
        forall|j: int| 0 <= j < ds.out.len() ==> d2.out[j] == ds.out[j],
        forall|i: int| 0 <= i < n ==> #[trigger] dep_in(st, res, entries, k, i, d2.out),
    decreases n,
{
    if n > 0 {
        let d1 = pkg_deps_run(st, res, entries, k, ds, n - 1)->Ok_0;
        lemma_pkg_deps_run_has(st, res, entries, k, ds, n - 1, d1);
        let e = entries[st.entry_of[k]];
        let d = e_deps(e)[n - 1];
        let p = dep_target(st, res, e, d.0, d.1)->Ok_0;
        let kind = listed_dep_kind(e, d.0);
        let v = dep_view(kind, p, d.0, d.1)->Ok_0;
        assert(d2.out == d1.out.push((pid_at(k as nat), v)));
        assert(d2.out[d1.out.len() as int] == (pid_at(k as nat), v));
        assert(v.kind == kind && v.on == p && v.svs == d.1);
        assert(d2.out[d1.out.len() as int].0 == pid_at(k as nat));
        assert(out_has(d2.out, pid_at(k as nat), p, kind, d.1));
        assert(dep_in(st, res, entries, k, n - 1, d2.out));
        assert forall|i: int| 0 <= i < n implies #[trigger] dep_in(st, res, entries, k, i, d2.out) by {
            if i < n - 1 {
                lemma_dep_in_extends(st, res, entries, k, i, d1.out, d2.out);
            }
        }
    }
}

/// The dependencies of packages `0..n` all resolve and are added with their kinds.
proof fn lemma_deps_run_has(st: BerryState, res: Seq<ResEntry>, entries: Seq<EntryView>, n: int, ds: DepState)
    requires
        deps_run(st, res, entries, n) == Ok::<DepState, LockFail>(ds),
    ensures
        forall|k: int, i: int|
            0 <= k < n && 0 <= i < e_deps(entries[st.entry_of[k]]).len() ==> #[trigger] dep_in(st, res, entries, k, i, ds.out),
    decreases n,
{
    if n > 0 {
        let d1 = deps_run(st, res, entries, n - 1)->Ok_0;
        lemma_deps_run_has(st, res, entries, n - 1, d1);
        let len = e_deps(entries[st.entry_of[n - 1]]).len() as int;
        lemma_pkg_deps_run_has(st, res, entries, n - 1, d1, len, ds);
        assert forall|k: int, i: int|
            0 <= k < n && 0 <= i < e_deps(entries[st.entry_of[k]]).len() implies #[trigger] dep_in(st, res, entries, k, i, ds.out) by {
            if k < n - 1 {
                lemma_dep_in_extends(st, res, entries, k, i, d1.out, ds.out);
            }
        }
    }
}

/// Reading the peer dependencies of one package keeps what was there.
proof fn lemma_pkg_peers_run_prefix(st: BerryState, res: Seq<ResEntry>, entries: Seq<EntryView>, k: int, ds: DepState, n: int, d2: DepState)
    requires
        pkg_peers_run(st, res, entries, k, ds, n) == Ok::<DepState, LockFail>(d2),
    ensures
        ds.out.len() <= d2.out.len(),
        forall|j: int| 0 <= j < ds.out.len() ==> d2.out[j] == ds.out[j],
    decreases n,
{
    if n > 0 {
        let d1 = pkg_peers_run(st, res, entries, k, ds, n - 1)->Ok_0;
        lemma_pkg_peers_run_prefix(st, res, entries, k, ds, n - 1, d1);
    }
}

/// Reading the peer dependencies keeps the dependencies read before.
proof fn lemma_peers_run_prefix(st: BerryState, res: Seq<ResEntry>, entries: Seq<EntryView>, ds: DepState, n: int, d2: DepState)
    requires
        peers_run(st, res, entries, ds, n) == Ok::<DepState, LockFail>(d2),
    ensures
        ds.out.len() <= d2.out.len(),
        forall|j: int| 0 <= j < ds.out.len() ==> d2.out[j] == ds.out[j],
    decreases n,
{
    if n > 0 {
        let d1 = peers_run(st, res, entries, ds, n - 1)->Ok_0;
        lemma_peers_run_prefix(st, res, entries, ds, n - 1, d1);
        lemma_pkg_peers_run_prefix(
            st,
            res,
            entries,
            n - 1,
            d1,
            e_peers(entries[st.entry_of[n - 1]]).len() as int,
            d2,
        );
    }
}

/// Reading a berry lockfile keeps what `dependenciesMeta` says of each dependency:
/// for every package and every dependency its entry lists, the dependency resolves
/// and the chastefile records a dependency of the package on it, with the specifier
/// written, of kind `OptionalDependency` when the entry's `dependenciesMeta` marks
/// the name `optional: true`, and `Dependency` otherwise.
pub proof fn law_berry_dependency_kinds(
    entries: Seq<EntryView>,
    res_pairs: Seq<(Seq<char>, Seq<char>)>,
    state: Option<Seq<char>>,
    out: BerryOut,
    c: Chastefile<Meta>,
    version: u8,
    k: int,
    i: int,
)
    requires
        berry_run(entries, res_pairs, state) == Ok::<BerryOut, LockFail>(out),
        berry_chastefile_is(c, version, out),
        0 <= k < out.st.pkgs.len(),
        0 <= i < e_deps(entries[out.st.entry_of[k]]).len(),
    ensures
        ({
            let e = entries[out.st.entry_of[k]];
            let d = e_deps(e)[i];
            let res = res_run(res_pairs)->Ok_0;
            &&& dep_target(out.st, res, e, d.0, d.1) is Ok
            &&& records_dependency(
                c,
                pid_at(k as nat),
                dep_target(out.st, res, e, d.0, d.1)->Ok_0,
                if meta_optional(e_deps_meta(e), d.0) == Some(true) {
                    DependencyKind::OptionalDependency
                } else {
                    DependencyKind::Dependency
                },
                d.1,
            )
        }),
{
    let res = res_run(res_pairs)->Ok_0;
    let s1 = entries_run(entries, entries.len() as int)->Ok_0;
    let s2 = patches_run(s1, entries, s1.deferred.len() as int)->Ok_0;
    let s3 = state_phase(s2, entries, state)->Ok_0;
    let ds = deps_run(s3, res, entries, s3.pkgs.len() as int)->Ok_0;
    let ds2 = peers_run(s3, res, entries, ds, s3.pkgs.len() as int)->Ok_0;
    assert(out.st == s3 && out.deps == ds2.out);
    lemma_deps_run_has(s3, res, entries, s3.pkgs.len() as int, ds);
    lemma_peers_run_prefix(s3, res, entries, ds, s3.pkgs.len() as int, ds2);
    assert(dep_in(s3, res, entries, k, i, ds.out));
    let e = entries[s3.entry_of[k]];
    let d = e_deps(entries[s3.entry_of[k]])[i];
    let p = dep_target(s3, res, e, d.0, d.1)->Ok_0;
    lemma_out_has_extends(ds.out, ds2.out, pid_at(k as nat), p, listed_dep_kind(e, d.0), d.1);
    lemma_out_recorded(c, ds2.out, pid_at(k as nat), p, listed_dep_kind(e, d.0), d.1);
}


/// `x` is a dependency that peer request `q` of package `k` can give: from the
/// package, with the request's specifier, a peer dependency, optional exactly when
/// the entry's `peerDependenciesMeta` marks the name `optional: true`.
pub open spec fn given_by_peer_request(st: BerryState, entries: Seq<EntryView>, k: int, q: int, x: (PackageID, DepView)) -> bool {
    let e = entries[st.entry_of[k]];
    &&& x.0 == pid_at(k as nat)
    &&& x.1.svs == e_peers(e)[q].1
    &&& x.1.kind.spec_is_peer()
    &&& x.1.kind.spec_is_optional() == (meta_optional(e_peers_meta(e), e_peers(e)[q].0) == Some(true))
}

/// A peer request that adds a dependency gives it its kind and specifier.
proof fn lemma_peer_step_kind(st: BerryState, res: Seq<ResEntry>, entries: Seq<EntryView>, k: int, ds: DepState, d: (Seq<char>, Seq<char>), d2: DepState)
    requires
        peer_step(st, res, entries, k, ds, d) == Ok::<DepState, LockFail>(d2),
    ensures
        d2.out.len() == ds.out.len() || d2.out.len() == ds.out.len() + 1,
        forall|j: int| 0 <= j < ds.out.len() ==> d2.out[j] == ds.out[j],
        d2.out.len() == ds.out.len() + 1 ==> {
            let e = entries[st.entry_of[k]];
            &&& d2.out[ds.out.len() as int].0 == pid_at(k as nat)
            &&& d2.out[ds.out.len() as int].1.svs == d.1
            &&& d2.out[ds.out.len() as int].1.kind == if meta_optional(e_peers_meta(e), d.0) == Some(true) {
                DependencyKind::OptionalPeerDependency
            } else {
                DependencyKind::PeerDependency
            }
        },
{
}

/// `x` comes from one of the first `n` peer requests of package `k` (see
/// [`given_by_peer_request`]).
pub open spec fn from_peer_request(st: BerryState, entries: Seq<EntryView>, k: int, n: int, x: (PackageID, DepView)) -> bool {
    exists|q: int| 0 <= q < n && #[trigger] given_by_peer_request(st, entries, k, q, x)
}

/// Reading the peer dependencies of a package keeps what was read before, and every
/// dependency it records comes from one of its peer requests, as
/// [`given_by_peer_request`] says.
pub proof fn law_berry_peer_kinds(st: BerryState, res: Seq<ResEntry>, entries: Seq<EntryView>, k: int, ds: DepState, n: int, d2: DepState)
    requires
        pkg_peers_run(st, res, entries, k, ds, n) == Ok::<DepState, LockFail>(d2),
        0 <= n <= e_peers(entries[st.entry_of[k]]).len(),
    ensures
        ds.out.len() <= d2.out.len(),
        forall|j: int| 0 <= j < ds.out.len() ==> d2.out[j] == ds.out[j],
        forall|j: int| ds.out.len() <= j < d2.out.len() ==> #[trigger] from_peer_request(st, entries, k, n, d2.out[j]),
    decreases n,
{
    if n > 0 {
        let d1 = pkg_peers_run(st, res, entries, k, ds, n - 1)->Ok_0;
        law_berry_peer_kinds(st, res, entries, k, ds, n - 1, d1);
        let e = entries[st.entry_of[k]];
        lemma_peer_step_kind(st, res, entries, k, d1, e_peers(e)[n - 1], d2);
        assert forall|j: int| ds.out.len() <= j < d2.out.len() implies #[trigger] from_peer_request(st, entries, k, n, d2.out[j]) by {
            if j < d1.out.len() {
                assert(d2.out[j] == d1.out[j]);
                assert(from_peer_request(st, entries, k, n - 1, d1.out[j]));
                let q = choose|q: int| 0 <= q < n - 1 && #[trigger] given_by_peer_request(st, entries, k, q, d1.out[j]);
                assert(given_by_peer_request(st, entries, k, q, d2.out[j]));
            } else {
                assert(given_by_peer_request(st, entries, k, n - 1, d2.out[j]));
            }
        }
    }
}

} // verus!
