//! What reading pnpm's lockfile gives, step by step, as plain values.
//!
//! Each importer becomes a package, from its `package.json`; the one at `.` is the
//! root, the others are workspace members. Each entry of `packages` becomes a
//! package, known by its name and specifier. The snapshots are then matched to
//! packages: directly by name and specifier, or by a specifier that a list of peer
//! snapshots in brackets follows (a patch hash first, for a patched package). A
//! snapshot that matches nothing yet waits at the end of the queue until a whole
//! round of the queue matches nothing. Last come the dependencies of the importers
//! and of the snapshots.

use vstd::prelude::*;

use crate::error::{chaste_fail_is, ChasteFail};

use crate::chastefile::{records_kind, Chastefile};
use crate::checksums::{hex_digest, is_hex_text, sri_hashes, Checksums, HashAlgorithm};
use crate::dependency::{Dependency, DependencyKind};
use crate::derivation::PackageDerivation;
use crate::modpath::is_module_path;
use crate::name::{is_package_name, package_name_at};
use crate::package::{pid_at, Package, PackageID};
use crate::pnpm::{Error, ImpDepView, Importer, ImporterDependency, LockView, Meta, PkgView, importer_view};
use crate::semver::semver_version_parses;
use crate::source::SourceView;
use crate::svs::parse_svs;
use crate::text::{has_at, seq_lt};
use crate::yarn::berry_model::{candidates, DescTable};
use crate::yarn::lockfile::PairsView;
use crate::yarn::zpm_model::table_set;

verus! {

/// Why reading stopped.
pub enum PFail {
    Version(Seq<char>),
    Chaste(ChasteFail),
    Ssri,
    ManifestNotFound(Seq<char>),
    DepNotFound(Seq<char>),
    PackageDescriptor(Seq<char>),
    SnapshotDescriptor(Seq<char>),
    PatchedSpecifier(Seq<char>),
    PatchHash(Seq<char>),
}

/// `e` is the error reported for `f`.
pub open spec fn fail_is(e: Error, f: PFail) -> bool {
    match f {
        PFail::Version(v) => e matches Error::UnknownLockfileVersion(t) && t@ == v,
        PFail::Chaste(c) => e matches Error::ChasteError(x) && chaste_fail_is(x, c),
        PFail::Ssri => e is SSRIError,
        PFail::ManifestNotFound(s) => e matches Error::ManifestNotFound(t) && t@ == s,
        PFail::DepNotFound(s) => e matches Error::DependencyPackageNotFound(t) && t@ == s,
        PFail::PackageDescriptor(s) => e matches Error::InvalidPackageDescriptor(t) && t@ == s,
        PFail::SnapshotDescriptor(s) => e matches Error::InvalidSnapshotDescriptor(t) && t@ == s,
        PFail::PatchedSpecifier(s) => e matches Error::InvalidPatchedPackageSpecifier(t) && t@ == s,
        PFail::PatchHash(s) => e matches Error::InvalidPatchHash(t) && t@ == s,
    }
}

/// A package as plain values: name, version, the hashes of its tarball, its source,
/// and for a patched package the patch's path and hashes and the package it is made from.
pub struct PPkg {
    pub name: Option<Seq<char>>,
    pub version: Option<Seq<char>>,
    pub hashes: Seq<(HashAlgorithm, Seq<char>)>,
    pub source: Option<SourceView>,
    pub patch: Option<(Seq<char>, Seq<(HashAlgorithm, Seq<char>)>, PackageID)>,
}

/// `p` is the package `v`.
pub open spec fn pnpm_package_is(p: Package, v: PPkg) -> bool {
    &&& p.spec_name() == v.name
    &&& p.spec_version() == v.version
    &&& if v.hashes.len() > 0 {
        p.spec_checksums() matches Some(Checksums::Tarball(i)) && i@ == v.hashes
    } else {
        p.spec_checksums() is None
    }
    &&& crate::source::opt_source_view(p.spec_source()) == v.source
    &&& match v.patch {
        Some((path, ih, from)) => p.spec_derived() matches Some(m) && m.spec_from() == from && (
        m.spec_derivation() matches PackageDerivation::Patch(pt) && pt.spec_path() == path
            && (pt.spec_integrity() matches Some(i) && i@ == ih)),
        None => p.spec_derived() is None,
    }
}

/// A dependency as plain values; `svs` is the specifier recorded, if any.
pub struct PDep {
    pub kind: DependencyKind,
    pub on: PackageID,
    pub svs: Option<Seq<char>>,
    pub alias: Option<Seq<char>>,
}

/// `d` is the dependency `v` from `from`.
pub open spec fn pdep_matches(d: Dependency, v: PDep, from: PackageID) -> bool {
    &&& d.spec_kind() == v.kind
    &&& d.spec_from() == from
    &&& d.spec_on() == v.on
    &&& d.spec_alias_name() == v.alias
    &&& match v.svs {
        Some(s) => d.spec_svs() matches Some(x) && x@ == s,
        None => d.spec_svs() is None,
    }
}

/// Patches by package name and hash: the path and the hashes of the patch.
pub type PatchStore = Seq<((Seq<char>, Seq<char>), (Seq<char>, Seq<(HashAlgorithm, Seq<char>)>))>;

/// Snapshot keys with the ids of their packages, ordered by key.
pub type SnapTable = Seq<(Seq<char>, PackageID)>;

/// What has been read: the packages; the root, the members and the installations;
/// the id of each importer; the table of packages by name and specifier; per package
/// the entry of `packages` it comes from (or none) and the entry whose peer
/// dependencies it was given (or none); the patches; the snapshots matched.
pub struct PState {
    pub pkgs: Seq<PPkg>,
    pub root: Option<PackageID>,
    pub members: Seq<PackageID>,
    pub insts: Seq<(PackageID, Seq<char>)>,
    pub imp_pid: Seq<PackageID>,
    pub desc: DescTable,
    pub pkg_entry: Seq<int>,
    pub peer_of: Seq<Option<int>>,
    pub patches: PatchStore,
    pub snaps: SnapTable,
}

pub open spec fn empty_state() -> PState {
    PState {
        pkgs: seq![],
        root: None,
        members: seq![],
        insts: seq![],
        imp_pid: seq![],
        desc: seq![],
        pkg_entry: seq![],
        peer_of: seq![],
        patches: seq![],
        snaps: seq![],
    }
}

/// The first `package.json` from `m` given for the path `path`.
pub open spec fn manifest_at(ms: Seq<(Seq<char>, (Option<Seq<char>>, Option<Seq<char>>))>, path: Seq<char>, m: int) -> Option<int>
    decreases ms.len() - m,
{
    if m < 0 || m >= ms.len() {
        None
    } else if ms[m].0 == path {
        Some(m)
    } else {
        manifest_at(ms, path, m + 1)
    }
}

/// Adds an importer: the root at `.`, a member elsewhere, installed at its path.
pub open spec fn importer_step(
    st: PState,
    ms: Seq<(Seq<char>, (Option<Seq<char>>, Option<Seq<char>>))>,
    path: Seq<char>,
) -> Result<PState, PFail> {
    match manifest_at(ms, path, 0) {
        None => Err(PFail::ManifestNotFound(path)),
        Some(m) => {
            let (name, version) = ms[m].1;
            let at = if path == "."@ {
                Seq::<char>::empty()
            } else {
                path
            };
            if (name matches Some(n) && !is_package_name(n)) || (version matches Some(v) && !semver_version_parses(v))
                || !is_module_path(at) {
                Err(PFail::Chaste(if name matches Some(n) && !is_package_name(n) {
                    ChasteFail::Name(name->Some_0)
                } else if version matches Some(v) && !semver_version_parses(v) {
                    ChasteFail::Version
                } else {
                    ChasteFail::Path(at)
                }))
            } else {
                let pid = pid_at(st.pkgs.len());
                Ok(
                    PState {
                        pkgs: st.pkgs.push(PPkg { name, version, hashes: seq![], source: None, patch: None }),
                        root: if path == "."@ {
                            Some(pid)
                        } else {
                            st.root
                        },
                        members: if path == "."@ {
                            st.members
                        } else {
                            st.members.push(pid)
                        },
                        insts: st.insts.push((pid, at)),
                        imp_pid: st.imp_pid.push(pid),
                        pkg_entry: st.pkg_entry.push(-1),
                        peer_of: st.peer_of.push(None),
                        ..st
                    },
                )
            }
        },
    }
}

/// The first `n` importers.
pub open spec fn importers_run(lock: LockView, ms: Seq<(Seq<char>, (Option<Seq<char>>, Option<Seq<char>>))>, n: int) -> Result<PState, PFail>
    decreases n,
{
    if n <= 0 {
        Ok(empty_state())
    } else {
        match importers_run(lock, ms, n - 1) {
            Err(f) => Err(f),
            Ok(st) => importer_step(st, ms, lock.importers[n - 1].0),
        }
    }
}

/// A key such as `name@specifier`: the name and the specifier.
pub open spec fn split_desc(s: Seq<char>) -> Option<(Seq<char>, Seq<char>)> {
    match package_name_at(s, 0) {
        None => None,
        Some(p) => if p.total_length < s.len() && s[p.total_length as int] == '@' {
            Some((s.subrange(0, p.total_length as int), s.subrange(p.total_length + 1 as int, s.len() as int)))
        } else {
            None
        },
    }
}

/// Where a package of `packages` comes from: a tarball with an integrity is from a
/// registry; one without, from its URL; `git+` specifiers from git; npm specifiers
/// from a registry.
pub open spec fn pkg_source(p: PkgView, svd: Seq<char>) -> Option<SourceView> {
    match p.tarball {
        Some(u) => if p.integrity is Some {
            Some(SourceView::Npm)
        } else {
            Some(SourceView::TarballURL(u))
        },
        None => if has_at(svd, 0, "git+"@) {
            Some(SourceView::Git(svd.subrange(4, svd.len() as int)))
        } else if parse_svs(svd, None) matches Some(pos) && pos is Npm {
            Some(SourceView::Npm)
        } else {
            None
        },
    }
}

/// Adds entry `i` of `packages`.
pub open spec fn package_step(st: PState, i: int, key: Seq<char>, p: PkgView) -> Result<PState, PFail> {
    match split_desc(key) {
        None => Err(PFail::PackageDescriptor(key)),
        Some((name, svd)) => {
            let version = match p.version {
                Some(v) => v,
                None => svd,
            };
            if !is_package_name(name) {
                Err(PFail::Chaste(ChasteFail::Name(name)))
            } else if p.integrity matches Some(t) && sri_hashes(t) is None {
                Err(PFail::Ssri)
            } else if !semver_version_parses(version) {
                Err(PFail::Chaste(ChasteFail::Version))
            } else {
                let hashes = match p.integrity {
                    Some(t) => sri_hashes(t)->Some_0,
                    None => seq![],
                };
                let pid = pid_at(st.pkgs.len());
                Ok(
                    PState {
                        pkgs: st.pkgs.push(
                            PPkg {
                                name: Some(name),
                                version: Some(version),
                                hashes,
                                source: pkg_source(p, svd),
                                patch: None,
                            },
                        ),
                        desc: table_set(st.desc, (name, svd), pid),
                        pkg_entry: st.pkg_entry.push(i),
                        peer_of: st.peer_of.push(None),
                        ..st
                    },
                )
            }
        },
    }
}

/// The first `n` entries of `packages`, after `st`.
pub open spec fn packages_run(st: PState, lock: LockView, n: int) -> Result<PState, PFail>
    decreases n,
{
    if n <= 0 {
        Ok(st)
    } else {
        match packages_run(st, lock, n - 1) {
            Err(f) => Err(f),
            Ok(s) => package_step(s, n - 1, lock.packages[n - 1].0, lock.packages[n - 1].1),
        }
    }
}

/// The number of bytes of the UTF-8 encoding of `s`.
pub open spec fn utf8_len(s: Seq<char>) -> nat
    decreases s.len(),
{
    if s.len() == 0 {
        0
    } else {
        let c = s.last() as u32;
        utf8_len(s.drop_last()) + if c < 0x80 {
            1nat
        } else if c < 0x800 {
            2nat
        } else if c < 0x10000 {
            3nat
        } else {
            4nat
        }
    }
}

/// The first position from `i` whose key is `k`.
pub open spec fn patch_index(ps: PatchStore, k: (Seq<char>, Seq<char>), i: int) -> Option<int>
    decreases ps.len() - i,
{
    if i < 0 || i >= ps.len() {
        None
    } else if ps[i].0 == k {
        Some(i)
    } else {
        patch_index(ps, k, i + 1)
    }
}

/// Adds an entry of `patchedDependencies`: a later one of the same name and hash
/// replaces an earlier one in its place.
pub open spec fn patched_step(st: PState, key: Seq<char>, path: Seq<char>, hash: Seq<char>) -> Result<PState, PFail> {
    match package_name_at(key, 0) {
        None => Err(PFail::PatchedSpecifier(key)),
        Some(p) => if !(p.total_length == key.len() || (p.total_length < key.len() && key[p.total_length as int] == '@')) {
            Err(PFail::PatchedSpecifier(key))
        } else if utf8_len(hash) != 64 {
            Err(PFail::PatchHash(hash))
        } else if !is_hex_text(hash) {
            Err(PFail::Ssri)
        } else {
            let k = (key.subrange(0, p.total_length as int), hash);
            let v = (path, seq![(HashAlgorithm::Sha256, hex_digest(hash))]);
            Ok(
                PState {
                    patches: match patch_index(st.patches, k, 0) {
                        Some(j) => st.patches.update(j, (k, v)),
                        None => st.patches.push((k, v)),
                    },
                    ..st
                },
            )
        },
    }
}

/// The first `n` entries of `patchedDependencies`, after `st`.
pub open spec fn patched_run(st: PState, lock: LockView, n: int) -> Result<PState, PFail>
    decreases n,
{
    if n <= 0 {
        Ok(st)
    } else {
        match patched_run(st, lock, n - 1) {
            Err(f) => Err(f),
            Ok(s) => patched_step(s, lock.patched[n - 1].0, lock.patched[n - 1].1.0, lock.patched[n - 1].1.1),
        }
    }
}

/// The first position from `i` whose key is not below `k`.
pub open spec fn snap_pos(t: SnapTable, k: Seq<char>, i: int) -> int
    decreases t.len() - i,
{
    if i < 0 || i >= t.len() {
        t.len() as int
    } else if !seq_lt(t[i].0, k) {
        i
    } else {
        snap_pos(t, k, i + 1)
    }
}

/// The table with `k` set to `pid`, at its place.
pub open spec fn snap_set(t: SnapTable, k: Seq<char>, pid: PackageID) -> SnapTable {
    let i = snap_pos(t, k, 0);
    if i < t.len() && t[i].0 == k {
        t.update(i, (k, pid))
    } else {
        t.insert(i, (k, pid))
    }
}

/// The package of the key `k`, the first from `i` that has it.
pub open spec fn snap_get(t: SnapTable, k: Seq<char>, i: int) -> Option<PackageID>
    decreases t.len() - i,
{
    if i < 0 || i >= t.len() {
        None
    } else if t[i].0 == k {
        Some(t[i].1)
    } else {
        snap_get(t, k, i + 1)
    }
}

/// The package of the key `k` in the table of names and specifiers.
pub open spec fn desc_get(t: DescTable, k: (Seq<char>, Seq<char>), i: int) -> Option<PackageID>
    decreases t.len() - i,
{
    if i < 0 || i >= t.len() {
        None
    } else if t[i].0 == k {
        Some(t[i].1)
    } else {
        desc_get(t, k, i + 1)
    }
}

/// `(`, a snapshot key or a name, `@` and a specifier, then `)`, at the start of `rest`;
/// the rest after it.
pub open spec fn bracketed(rest: Seq<char>, inner: Seq<char>) -> Option<Seq<char>> {
    if has_at(rest, 0, "("@) && has_at(rest, 1, inner) && has_at(rest, 1 + inner.len() as int, ")"@) {
        Some(rest.subrange(inner.len() + 2 as int, rest.len() as int))
    } else {
        None
    }
}

/// The name of the first bracketed peer of `rest`: `(`, a package name, `@`.
pub open spec fn peer_name(rest: Seq<char>) -> Option<Seq<char>> {
    if !has_at(rest, 0, "("@) {
        None
    } else {
        match package_name_at(rest, 1) {
            None => None,
            Some(p) => if 1 + p.total_length < rest.len() && rest[1 + p.total_length as int] == '@' {
                Some(rest.subrange(1, 1 + p.total_length as int))
            } else {
                None
            },
        }
    }
}

/// Whether `rest` is a list of bracketed peers, each a snapshot key already matched
/// or a name and specifier of `packages` (tried in key order, the first that lets
/// the rest be read deciding).
pub open spec fn key_rest(snaps: SnapTable, desc: DescTable, rest: Seq<char>) -> bool
    decreases rest.len(), 2int, 0int,
{
    match peer_name(rest) {
        None => false,
        Some(name) => snap_try(snaps, desc, rest, name, snap_pos(snaps, name, 0)) || desc_try(
            snaps,
            desc,
            rest,
            candidates(desc, name),
            0,
        ),
    }
}

/// The snapshot keys from `i` that start with `name`, tried in order.
pub open spec fn snap_try(snaps: SnapTable, desc: DescTable, rest: Seq<char>, name: Seq<char>, i: int) -> bool
    decreases rest.len(), 1int, snaps.len() - i,
{
    if 0 <= i < snaps.len() && has_at(snaps[i].0, 0, name) {
        match bracketed(rest, snaps[i].0) {
            Some(more) => if more.len() == 0 {
                true
            } else if more.len() < rest.len() && key_rest(snaps, desc, more) {
                true
            } else {
                snap_try(snaps, desc, rest, name, i + 1)
            },
            None => snap_try(snaps, desc, rest, name, i + 1),
        }
    } else {
        false
    }
}

/// The names and specifiers of one name from `j`, tried in order.
pub open spec fn desc_try(snaps: SnapTable, desc: DescTable, rest: Seq<char>, c: DescTable, j: int) -> bool
    decreases rest.len(), 1int, c.len() - j,
{
    if 0 <= j < c.len() {
        match bracketed(rest, c[j].0.0 + "@"@ + c[j].0.1) {
            Some(more) => if more.len() == 0 {
                true
            } else if more.len() < rest.len() && key_rest(snaps, desc, more) {
                true
            } else {
                desc_try(snaps, desc, rest, c, j + 1)
            },
            None => desc_try(snaps, desc, rest, c, j + 1),
        }
    } else {
        false
    }
}

/// The snapshot `key` is matched to `pid`, which is given the peer dependencies of
/// entry `e` of `packages`.
pub open spec fn record(st: PState, key: Seq<char>, pid: PackageID, e: int) -> PState {
    PState { snaps: snap_set(st.snaps, key, pid), peer_of: st.peer_of.update(pid.id() as int, Some(e)), ..st }
}

/// The patch hash at the start of `s`: `(patch_hash=`, 64 characters, `)`.
pub open spec fn patch_hash_at(s: Seq<char>) -> Option<Seq<char>> {
    if has_at(s, 0, "(patch_hash="@) && s.len() >= 77 && s[76] == ')' {
        Some(s.subrange(12, 76))
    } else {
        None
    }
}

/// Tries the packages `c` of a snapshot's name, from `j`, for the snapshot `key`
/// whose text after the name is `srest`: whether one matched, with the state after
/// (a patched package is added as soon as its hash is read).
pub open spec fn try_descs(st: PState, lock: LockView, name: Seq<char>, srest: Seq<char>, key: Seq<char>, c: DescTable, j: int) -> Result<(PState, bool), PFail>
    decreases c.len() - j,
{
    if !(0 <= j < c.len()) {
        Ok((st, false))
    } else {
        let svd = c[j].0.1;
        let pid = c[j].1;
        let e = st.pkg_entry[pid.id() as int];
        if !has_at(srest, 0, svd) {
            try_descs(st, lock, name, srest, key, c, j + 1)
        } else {
            let suffix = srest.subrange(svd.len() as int, srest.len() as int);
            match patch_hash_at(suffix) {
                Some(h) => match patch_index(st.patches, (name, h), 0) {
                    None => Err(PFail::PatchHash(h)),
                    Some(q) => if !semver_version_parses(svd) {
                        Err(PFail::Chaste(ChasteFail::Version))
                    } else {
                        let ppid = pid_at(st.pkgs.len());
                        let s2 = PState {
                            pkgs: st.pkgs.push(
                                PPkg {
                                    name: Some(name),
                                    version: Some(svd),
                                    hashes: seq![],
                                    source: None,
                                    patch: Some((st.patches[q].1.0, st.patches[q].1.1, pid)),
                                },
                            ),
                            pkg_entry: st.pkg_entry.push(-1),
                            peer_of: st.peer_of.push(None),
                            ..st
                        };
                        let suff = suffix.subrange(77, suffix.len() as int);
                        if suff.len() == 0 {
                            Ok((PState { snaps: snap_set(s2.snaps, key, ppid), ..s2 }, true))
                        } else if key_rest(s2.snaps, s2.desc, suff) {
                            Ok((record(s2, key, ppid, e), true))
                        } else {
                            try_descs(s2, lock, name, srest, key, c, j + 1)
                        }
                    },
                },
                None => if key_rest(st.snaps, st.desc, suffix) {
                    Ok((record(st, key, pid, e), true))
                } else {
                    try_descs(st, lock, name, srest, key, c, j + 1)
                },
            }
        }
    }
}

/// The queue of snapshots (indices of `snapshots`) run to its end: each is matched,
/// or goes back to the end of the queue; `lap` counts the snapshots put back since
/// the last match, and more than the queue holds stops it.
pub open spec fn queue_run(st: PState, lock: LockView, q: Seq<int>, lap: int) -> Result<PState, PFail>
    decreases q.len(), q.len() + 1 - lap,
{
    if q.len() == 0 || lap < 0 {
        Ok(st)
    } else {
        let i = q[0];
        let key = lock.snapshots[i].0;
        let rq = q.drop_first();
        match split_desc(key) {
            None => Err(PFail::PackageDescriptor(key)),
            Some((name, srest)) => match desc_get(st.desc, (name, srest), 0) {
                Some(pid) => queue_run(record(st, key, pid, st.pkg_entry[pid.id() as int]), lock, rq, 0),
                None => match try_descs(st, lock, name, srest, key, candidates(st.desc, name), 0) {
                    Err(f) => Err(f),
                    Ok((s2, true)) => queue_run(s2, lock, rq, 0),
                    Ok((s2, false)) => if lap > rq.len() {
                        Err(PFail::SnapshotDescriptor(key))
                    } else {
                        queue_run(s2, lock, rq.push(i), lap + 1)
                    },
                },
            },
        }
    }
}

/// The package of a dependency `name` at `version`: the first snapshot key, from the
/// first not below `name`, that is `name@version` (the keys that start with `name`
/// are looked at); else the snapshot keyed `version` itself, which makes it an alias.
pub open spec fn find_dep(t: SnapTable, name: Seq<char>, version: Seq<char>) -> Option<(PackageID, bool)> {
    match scan_dep(t, name, version, snap_pos(t, name, 0)) {
        Some(p) => Some((p, false)),
        None => match snap_get(t, version, 0) {
            Some(p) => Some((p, true)),
            None => None,
        },
    }
}

/// The keys from `i` that start with `name`, looked at for `name@version`.
pub open spec fn scan_dep(t: SnapTable, name: Seq<char>, version: Seq<char>, i: int) -> Option<PackageID>
    decreases t.len() - i,
{
    if 0 <= i < t.len() && has_at(t[i].0, 0, name) {
        if t[i].0 == name + "@"@ + version {
            Some(t[i].1)
        } else {
            scan_dep(t, name, version, i + 1)
        }
    } else {
        None
    }
}

/// The dependencies of an importer, after `out`: a `link:` version is left out.
pub open spec fn imp_list_run(st: PState, from: PackageID, kind: DependencyKind, ds: Seq<ImpDepView>, out: Seq<(PackageID, PDep)>, n: int) -> Result<Seq<(PackageID, PDep)>, PFail>
    decreases n,
{
    if n <= 0 {
        Ok(out)
    } else {
        match imp_list_run(st, from, kind, ds, out, n - 1) {
            Err(f) => Err(f),
            Ok(o) => {
                let (name, (spec, version)) = ds[n - 1];
                if has_at(version, 0, "link:"@) {
                    Ok(o)
                } else {
                    match find_dep(st.snaps, name, version) {
                        None => Err(PFail::DepNotFound(name + "@"@ + version)),
                        Some((p, aliased)) => if aliased && !is_package_name(name) {
                            Err(PFail::Chaste(ChasteFail::Name(name)))
                        } else if parse_svs(spec, None) is None {
                            Err(PFail::Chaste(ChasteFail::Svs(spec)))
                        } else {
                            Ok(
                                o.push(
                                    (
                                        from,
                                        PDep {
                                            kind,
                                            on: p,
                                            svs: Some(spec),
                                            alias: if aliased {
                                                Some(name)
                                            } else {
                                                None
                                            },
                                        },
                                    ),
                                ),
                            )
                        },
                    }
                }
            },
        }
    }
}

/// The first `n` lists of importer `i`.
pub open spec fn imp_lists_run(st: PState, lock: LockView, i: int, out: Seq<(PackageID, PDep)>, n: int) -> Result<Seq<(PackageID, PDep)>, PFail>
    decreases n,
{
    if n <= 0 {
        Ok(out)
    } else {
        match imp_lists_run(st, lock, i, out, n - 1) {
            Err(f) => Err(f),
            Ok(o) => {
                let l = lock.importers[i].1[n - 1];
                imp_list_run(st, st.imp_pid[i], l.1, l.0, o, l.0.len() as int)
            },
        }
    }
}

/// The dependencies of the first `n` importers.
pub open spec fn imps_deps_run(st: PState, lock: LockView, n: int) -> Result<Seq<(PackageID, PDep)>, PFail>
    decreases n,
{
    if n <= 0 {
        Ok(seq![])
    } else {
        match imps_deps_run(st, lock, n - 1) {
            Err(f) => Err(f),
            Ok(o) => imp_lists_run(st, lock, n - 1, o, lock.importers[n - 1].1.len() as int),
        }
    }
}

/// The first pair of `ps` named `name`.
pub open spec fn pair_get(ps: PairsView, name: Seq<char>, i: int) -> Option<Seq<char>>
    decreases ps.len() - i,
{
    if i < 0 || i >= ps.len() {
        None
    } else if ps[i].0 == name {
        Some(ps[i].1)
    } else {
        pair_get(ps, name, i + 1)
    }
}

/// A dependency of a snapshot of package `from`: a peer one (optional or not) with
/// the package's own specifier where the package lists it as a peer dependency.
pub open spec fn snap_dep(st: PState, lock: LockView, from: PackageID, optional: bool, d: (Seq<char>, Seq<char>)) -> Result<PDep, PFail> {
    let peer = match st.peer_of[from.id() as int] {
        Some(e) => pair_get(lock.packages[e].1.peers, d.0, 0),
        None => None,
    };
    let kind = match (peer is Some, optional) {
        (true, false) => DependencyKind::PeerDependency,
        (true, true) => DependencyKind::OptionalPeerDependency,
        (false, false) => DependencyKind::Dependency,
        (false, true) => DependencyKind::OptionalDependency,
    };
    match find_dep(st.snaps, d.0, d.1) {
        None => Err(PFail::DepNotFound(d.0 + "@"@ + d.1)),
        Some((p, _)) => if peer matches Some(s) && parse_svs(s, None) is None {
            Err(PFail::Chaste(ChasteFail::Svs(peer->Some_0)))
        } else {
            Ok(PDep { kind, on: p, svs: peer, alias: None })
        },
    }
}

/// The first `n` dependencies of one list of a snapshot.
pub open spec fn snap_list_run(st: PState, lock: LockView, from: PackageID, optional: bool, ds: PairsView, out: Seq<(PackageID, PDep)>, n: int) -> Result<Seq<(PackageID, PDep)>, PFail>
    decreases n,
{
    if n <= 0 {
        Ok(out)
    } else {
        match snap_list_run(st, lock, from, optional, ds, out, n - 1) {
            Err(f) => Err(f),
            Ok(o) => match snap_dep(st, lock, from, optional, ds[n - 1]) {
                Err(f) => Err(f),
                Ok(v) => Ok(o.push((from, v))),
            },
        }
    }
}

/// The dependencies of the first `n` snapshots, after `out`.
pub open spec fn snaps_deps_run(st: PState, lock: LockView, out: Seq<(PackageID, PDep)>, n: int) -> Result<Seq<(PackageID, PDep)>, PFail>
    decreases n,
{
    if n <= 0 {
        Ok(out)
    } else {
        match snaps_deps_run(st, lock, out, n - 1) {
            Err(f) => Err(f),
            Ok(o) => {
                let (key, (deps, opts)) = lock.snapshots[n - 1];
                match snap_get(st.snaps, key, 0) {
                    None => Err(PFail::SnapshotDescriptor(key)),
                    Some(from) => match snap_list_run(st, lock, from, false, deps, o, deps.len() as int) {
                        Err(f) => Err(f),
                        Ok(o2) => snap_list_run(st, lock, from, true, opts, o2, opts.len() as int),
                    },
                }
            },
        }
    }
}

/// What the reading gives.
pub struct POut {
    pub st: PState,
    pub deps: Seq<(PackageID, PDep)>,
}

/// The snapshots in their order, as the queue starts.
pub open spec fn all_snaps(n: nat) -> Seq<int> {
    Seq::new(n, |i: int| i)
}

/// Reading a lockfile with the `package.json` of each importer, by its path.
pub open spec fn pnpm_run(lock: LockView, ms: Seq<(Seq<char>, (Option<Seq<char>>, Option<Seq<char>>))>) -> Result<POut, PFail> {
    if lock.version != "9.0"@ {
        Err(PFail::Version(lock.version))
    } else {
        match importers_run(lock, ms, lock.importers.len() as int) {
            Err(f) => Err(f),
            Ok(s1) => match packages_run(s1, lock, lock.packages.len() as int) {
                Err(f) => Err(f),
                Ok(s2) => match patched_run(s2, lock, lock.patched.len() as int) {
                    Err(f) => Err(f),
                    Ok(s3) => match queue_run(s3, lock, all_snaps(lock.snapshots.len()), 0) {
                        Err(f) => Err(f),
                        Ok(st) => match imps_deps_run(st, lock, lock.importers.len() as int) {
                            Err(f) => Err(f),
                            Ok(o) => match snaps_deps_run(st, lock, o, lock.snapshots.len() as int) {
                                Err(f) => Err(f),
                                Ok(deps) => if st.root is None {
                                    Err(PFail::Chaste(ChasteFail::Root))
                                } else {
                                    Ok(POut { st, deps })
                                },
                            },
                        },
                    },
                },
            },
        }
    }
}

/// The chastefile holds what was read.
pub open spec fn pnpm_chastefile_is(c: Chastefile<Meta>, version: Seq<char>, out: POut) -> bool {
    &&& c.spec_meta().lockfile_version@ == version
    &&& c.spec_packages().len() == out.st.pkgs.len()
    &&& forall|k: int|
        0 <= k < out.st.pkgs.len() ==> pnpm_package_is(#[trigger] c.spec_packages()[k], out.st.pkgs[k])
    &&& c.spec_installations().len() == out.st.insts.len()
    &&& forall|k: int|
        0 <= k < out.st.insts.len() ==> (#[trigger] c.spec_installations()[k]).spec_package_id()
            == out.st.insts[k].0 && c.spec_installations()[k].spec_path()@ == out.st.insts[k].1
    &&& Some(c.spec_root()) == out.st.root
    &&& c.spec_members() == out.st.members
    &&& c.deps().len() == out.deps.len()
    &&& forall|j: int|
        0 <= j < out.deps.len() ==> pdep_matches(#[trigger] c.deps()[j], out.deps[j].1, out.deps[j].0)
}


/// `out` holds the dependency `v` from `from`.
spec fn pout_has(out: Seq<(PackageID, PDep)>, from: PackageID, v: PDep) -> bool {
    exists|j: int| 0 <= j < out.len() && #[trigger] out[j] == (from, v)
}

proof fn lemma_pout_extends(a: Seq<(PackageID, PDep)>, b: Seq<(PackageID, PDep)>, from: PackageID, v: PDep)
    requires
        pout_has(a, from, v),
        a.len() <= b.len(),
        forall|j: int| 0 <= j < a.len() ==> b[j] == a[j],
    ensures
        pout_has(b, from, v),
{
    let j = choose|j: int| 0 <= j < a.len() && #[trigger] a[j] == (from, v);
    assert(b[j] == a[j]);
}

/// Dependency `i` of a list of a snapshot is read and `out` holds it.
spec fn snap_dep_in(st: PState, lock: LockView, from: PackageID, optional: bool, ds: PairsView, i: int, out: Seq<(PackageID, PDep)>) -> bool {
    snap_dep(st, lock, from, optional, ds[i]) is Ok && pout_has(out, from, snap_dep(st, lock, from, optional, ds[i])->Ok_0)
}

/// Each of the first `n` dependencies of a list is read and kept, after `out`.
proof fn lemma_snap_list_run_has(st: PState, lock: LockView, from: PackageID, optional: bool, ds: PairsView, out: Seq<(PackageID, PDep)>, n: int, o: Seq<(PackageID, PDep)>)
    requires
        snap_list_run(st, lock, from, optional, ds, out, n) == Ok::<Seq<(PackageID, PDep)>, PFail>(o),
        0 <= n <= ds.len(),
    ensures
        out.len() <= o.len(),
        forall|j: int| 0 <= j < out.len() ==> o[j] == out[j],
        forall|i: int| 0 <= i < n ==> #[trigger] snap_dep_in(st, lock, from, optional, ds, i, o),
    decreases n,
{
    if n > 0 {
        let o1 = snap_list_run(st, lock, from, optional, ds, out, n - 1)->Ok_0;
        lemma_snap_list_run_has(st, lock, from, optional, ds, out, n - 1, o1);
        let v = snap_dep(st, lock, from, optional, ds[n - 1])->Ok_0;
        assert(o == o1.push((from, v)));
        assert(o[o1.len() as int] == (from, v));
        assert(pout_has(o, from, v));
        assert forall|i: int| 0 <= i < n implies #[trigger] snap_dep_in(st, lock, from, optional, ds, i, o) by {
            if i < n - 1 {
                assert(snap_dep_in(st, lock, from, optional, ds, i, o1));
                lemma_pout_extends(o1, o, from, snap_dep(st, lock, from, optional, ds[i])->Ok_0);
            }
        }
    }
}

/// The dependencies of snapshot `m`, of both lists, are read and kept.
spec fn snap_read(st: PState, lock: LockView, m: int, o: Seq<(PackageID, PDep)>) -> bool {
    let (key, (deps, opts)) = lock.snapshots[m];
    snap_get(st.snaps, key, 0) matches Some(from) && (forall|i: int|
        0 <= i < deps.len() ==> #[trigger] snap_dep_in(st, lock, from, false, deps, i, o)) && (forall|i: int|
        0 <= i < opts.len() ==> #[trigger] snap_dep_in(st, lock, from, true, opts, i, o))
}

proof fn lemma_snap_read_extends(st: PState, lock: LockView, m: int, a: Seq<(PackageID, PDep)>, b: Seq<(PackageID, PDep)>)
    requires
        snap_read(st, lock, m, a),
        a.len() <= b.len(),
        forall|j: int| 0 <= j < a.len() ==> b[j] == a[j],
    ensures
        snap_read(st, lock, m, b),
{
    let (key, (deps, opts)) = lock.snapshots[m];
    let from = snap_get(st.snaps, key, 0)->Some_0;
    assert forall|i: int| 0 <= i < deps.len() implies #[trigger] snap_dep_in(st, lock, from, false, deps, i, b) by {
        assert(snap_dep_in(st, lock, from, false, deps, i, a));
        lemma_pout_extends(a, b, from, snap_dep(st, lock, from, false, deps[i])->Ok_0);
    }
    assert forall|i: int| 0 <= i < opts.len() implies #[trigger] snap_dep_in(st, lock, from, true, opts, i, b) by {
        assert(snap_dep_in(st, lock, from, true, opts, i, a));
        lemma_pout_extends(a, b, from, snap_dep(st, lock, from, true, opts[i])->Ok_0);
    }
}

/// The dependencies of the first `n` snapshots are read and kept.
proof fn lemma_snaps_deps_run_has(st: PState, lock: LockView, out: Seq<(PackageID, PDep)>, n: int, o: Seq<(PackageID, PDep)>)
    requires
        snaps_deps_run(st, lock, out, n) == Ok::<Seq<(PackageID, PDep)>, PFail>(o),
        n <= lock.snapshots.len(),
    ensures
        forall|m: int| 0 <= m < n ==> #[trigger] snap_read(st, lock, m, o),
    decreases n,
{
    if n > 0 {
        let o1 = snaps_deps_run(st, lock, out, n - 1)->Ok_0;
        lemma_snaps_deps_run_has(st, lock, out, n - 1, o1);
        let (key, (deps, opts)) = lock.snapshots[n - 1];
        let from = snap_get(st.snaps, key, 0)->Some_0;
        let o2 = snap_list_run(st, lock, from, false, deps, o1, deps.len() as int)->Ok_0;
        lemma_snap_list_run_has(st, lock, from, false, deps, o1, deps.len() as int, o2);
        lemma_snap_list_run_has(st, lock, from, true, opts, o2, opts.len() as int, o);
        assert forall|i: int| 0 <= i < deps.len() implies #[trigger] snap_dep_in(st, lock, from, false, deps, i, o) by {
            assert(snap_dep_in(st, lock, from, false, deps, i, o2));
            lemma_pout_extends(o2, o, from, snap_dep(st, lock, from, false, deps[i])->Ok_0);
        }
        assert(snap_read(st, lock, n - 1, o));
        assert forall|m: int| 0 <= m < n implies #[trigger] snap_read(st, lock, m, o) by {
            if m < n - 1 {
                assert(snap_read(st, lock, m, o1));
                lemma_snap_read_extends(st, lock, m, o1, o2);
                lemma_snap_read_extends(st, lock, m, o2, o);
            }
        }
    }
}

/// The dependencies a snapshot lists: under `optionalDependencies`, or under
/// `dependencies`.
pub open spec fn snapshot_list(lock: LockView, m: int, optional: bool) -> PairsView {
    if optional {
        lock.snapshots[m].1.1
    } else {
        lock.snapshots[m].1.0
    }
}

/// The package `from` lists `name` among its `peerDependencies`.
pub open spec fn lists_peer(lock: LockView, st: PState, from: PackageID, name: Seq<char>) -> bool {
    st.peer_of[from.id() as int] matches Some(e) && pair_get(lock.packages[e].1.peers, name, 0) is Some
}

/// Reading a pnpm lockfile keeps, for each dependency a snapshot lists, which list it
/// is in and whether the package names it as a peer: the chastefile records a
/// dependency of the snapshot's package on the package the dependency names, which is
/// optional exactly when it is listed under `optionalDependencies`, and a peer
/// dependency exactly when the snapshot's package lists the name among its
/// `peerDependencies`.
pub proof fn law_pnpm_snapshot_kinds(
    lock: LockView,
    ms: Seq<(Seq<char>, (Option<Seq<char>>, Option<Seq<char>>))>,
    out: POut,
    c: Chastefile<Meta>,
    version: Seq<char>,
    m: int,
    optional: bool,
    i: int,
)
    requires
        pnpm_run(lock, ms) == Ok::<POut, PFail>(out),
        pnpm_chastefile_is(c, version, out),
        0 <= m < lock.snapshots.len(),
        0 <= i < snapshot_list(lock, m, optional).len(),
    ensures
        snap_get(out.st.snaps, lock.snapshots[m].0, 0) is Some,
        find_dep(out.st.snaps, snapshot_list(lock, m, optional)[i].0, snapshot_list(lock, m, optional)[i].1) is Some,
        exists|kind: DependencyKind|
            #[trigger] records_kind(
                c,
                snap_get(out.st.snaps, lock.snapshots[m].0, 0)->Some_0,
                find_dep(out.st.snaps, snapshot_list(lock, m, optional)[i].0, snapshot_list(lock, m, optional)[i].1)->Some_0.0,
                kind,
            ) && kind.spec_is_optional() == optional && kind.spec_is_peer() == lists_peer(
                lock,
                out.st,
                snap_get(out.st.snaps, lock.snapshots[m].0, 0)->Some_0,
                snapshot_list(lock, m, optional)[i].0,
            ),
{
    let s1 = importers_run(lock, ms, lock.importers.len() as int)->Ok_0;
    let s2 = packages_run(s1, lock, lock.packages.len() as int)->Ok_0;
    let s3 = patched_run(s2, lock, lock.patched.len() as int)->Ok_0;
    let st = queue_run(s3, lock, all_snaps(lock.snapshots.len()), 0)->Ok_0;
    let o = imps_deps_run(st, lock, lock.importers.len() as int)->Ok_0;
    let deps = snaps_deps_run(st, lock, o, lock.snapshots.len() as int)->Ok_0;
    assert(out.st == st && out.deps == deps);
    lemma_snaps_deps_run_has(st, lock, o, lock.snapshots.len() as int, deps);
    assert(snap_read(st, lock, m, deps));
    let (key, (dl, ol)) = lock.snapshots[m];
    let from = snap_get(st.snaps, key, 0)->Some_0;
    let list = if optional { ol } else { dl };
    assert(snap_dep_in(st, lock, from, optional, list, i, deps));
    let v = snap_dep(st, lock, from, optional, list[i])->Ok_0;
    let j = choose|j: int| 0 <= j < deps.len() && #[trigger] deps[j] == (from, v);
    assert(pdep_matches(c.deps()[j], deps[j].1, deps[j].0));
    let d = list[i];
    assert(find_dep(st.snaps, d.0, d.1) is Some);
    assert(v.on == find_dep(st.snaps, d.0, d.1)->Some_0.0);
    let peer = lists_peer(lock, st, from, d.0);
    assert(v.kind.spec_is_optional() == optional);
    assert(v.kind.spec_is_peer() == peer);
    assert(records_kind(c, from, v.on, v.kind));
}


/// `deps` writes a dependency with the specifier `spec`.
pub open spec fn writes_specifier(deps: Seq<(String, ImporterDependency)>, spec: Seq<char>) -> bool {
    exists|q: int| 0 <= q < deps.len() && #[trigger] deps[q].1.specifier@ == spec
}

/// `x` is a dependency that one of the lists of importer `imp` can give `from`: a
/// dependency from `dependencies`, a dev dependency from `devDependencies`, a peer
/// dependency from `peerDependencies` or an optional dependency from
/// `optionalDependencies`, with a specifier the list writes.
pub open spec fn given_by_importer(imp: Importer, from: PackageID, x: (PackageID, PDep)) -> bool {
    &&& x.0 == from
    &&& x.1.svs matches Some(spec) && {
        ||| x.1.kind == DependencyKind::Dependency && writes_specifier(imp.dependencies@, spec)
        ||| x.1.kind == DependencyKind::DevDependency && writes_specifier(imp.dev_dependencies@, spec)
        ||| x.1.kind == DependencyKind::PeerDependency && writes_specifier(imp.peer_dependencies@, spec)
        ||| x.1.kind == DependencyKind::OptionalDependency && writes_specifier(imp.optional_dependencies@, spec)
    }
}

/// Reading one list of an importer keeps what was read, and each dependency it adds
/// is from `from`, of the list's kind, with the specifier of one of its requests.
proof fn lemma_imp_list_kind(st: PState, from: PackageID, kind: DependencyKind, ds: Seq<ImpDepView>, out: Seq<(PackageID, PDep)>, n: int, o: Seq<(PackageID, PDep)>)
    requires
        imp_list_run(st, from, kind, ds, out, n) == Ok::<Seq<(PackageID, PDep)>, PFail>(o),
        0 <= n <= ds.len(),
    ensures
        out.len() <= o.len(),
        forall|j: int| 0 <= j < out.len() ==> o[j] == out[j],
        forall|j: int|
            out.len() <= j < o.len() ==> (#[trigger] o[j]).0 == from && o[j].1.kind == kind && exists|q: int|
                0 <= q < ds.len() && o[j].1.svs == Some(#[trigger] ds[q].1.0),
    decreases n,
{
    if n > 0 {
        let o1 = imp_list_run(st, from, kind, ds, out, n - 1)->Ok_0;
        lemma_imp_list_kind(st, from, kind, ds, out, n - 1, o1);
        assert forall|j: int| out.len() <= j < o.len() implies (#[trigger] o[j]).0 == from && o[j].1.kind == kind
            && exists|q: int| 0 <= q < ds.len() && o[j].1.svs == Some(#[trigger] ds[q].1.0) by {
            if j < o1.len() {
                assert(o[j] == o1[j]);
            } else {
                assert(o[j].1.svs == Some(ds[n - 1].1.0));
            }
        }
    }
}

/// Reading the lists of an importer keeps what was read before, and every dependency
/// it adds is one that the importer's lists give (see [`given_by_importer`]): its kind
/// is the kind of the list it is written in.
pub proof fn law_pnpm_importer_kinds(st: PState, lock: LockView, i: int, imp: Importer, out: Seq<(PackageID, PDep)>, o: Seq<(PackageID, PDep)>)
    requires
        0 <= i < lock.importers.len(),
        lock.importers[i].1 == importer_view(imp),
        imp_lists_run(st, lock, i, out, 4) == Ok::<Seq<(PackageID, PDep)>, PFail>(o),
    ensures
        out.len() <= o.len(),
        forall|t: int| 0 <= t < out.len() ==> o[t] == out[t],
        forall|t: int| out.len() <= t < o.len() ==> #[trigger] given_by_importer(imp, st.imp_pid[i], o[t]),
{
    let ls = lock.importers[i].1;
    let from = st.imp_pid[i];
    let o1 = imp_lists_run(st, lock, i, out, 1)->Ok_0;
    let o2 = imp_lists_run(st, lock, i, out, 2)->Ok_0;
    let o3 = imp_lists_run(st, lock, i, out, 3)->Ok_0;
    assert(imp_lists_run(st, lock, i, out, 0) == Ok::<Seq<(PackageID, PDep)>, PFail>(out));
    lemma_imp_list_kind(st, from, ls[0].1, ls[0].0, out, ls[0].0.len() as int, o1);
    lemma_imp_list_kind(st, from, ls[1].1, ls[1].0, o1, ls[1].0.len() as int, o2);
    lemma_imp_list_kind(st, from, ls[2].1, ls[2].0, o2, ls[2].0.len() as int, o3);
    lemma_imp_list_kind(st, from, ls[3].1, ls[3].0, o3, ls[3].0.len() as int, o);
    assert forall|t: int| out.len() <= t < o.len() implies #[trigger] given_by_importer(imp, from, o[t]) by {
        let (lst, deps): (Seq<ImpDepView>, Seq<(String, ImporterDependency)>) = if t < o1.len() {
            (ls[0].0, imp.dependencies@)
        } else if t < o2.len() {
            (ls[1].0, imp.dev_dependencies@)
        } else if t < o3.len() {
            (ls[2].0, imp.peer_dependencies@)
        } else {
            (ls[3].0, imp.optional_dependencies@)
        };
        if t < o1.len() {
            assert(o[t] == o1[t]);
        } else if t < o2.len() {
            assert(o[t] == o2[t]);
        } else if t < o3.len() {
            assert(o[t] == o3[t]);
        }
        let q = choose|q: int| 0 <= q < lst.len() && o[t].1.svs == Some(#[trigger] lst[q].1.0);
        assert(lst[q].1.0 == deps[q].1.specifier@);
    }
}

} // verus!
