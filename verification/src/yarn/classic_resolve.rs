//! Reading a yarn classic (v1) lockfile into a chastefile (see
//! [`crate::yarn::classic_model`]).

use vstd::prelude::*;

use crate::error::{chaste_fail_is, ChasteFail};
use vstd::string::{StrSliceExecFns, StringExecFns};

use crate::chastefile::{Chastefile, ChastefileBuilder};
use crate::checksums::{
    integrity_concat, integrity_from_hex_sha1, parse_integrity, Checksums, HashAlgorithm, Integrity,
    IntegrityHash,
};
use crate::dependency::DependencyKind;
use crate::installation::InstallationBuilder;
use crate::modpath::{is_module_path, ModulePath};
use crate::name::PackageName;
use crate::npm::parse::{dep_matches, DepView};
use crate::package::{lemma_pid_at, pid_at, PackageBuilder, PackageID};
use crate::semver::{parse_version, semver_version_parses, version_eq};
use crate::source::{opt_source_view, source_view, PackageSource};
use crate::svs::SourceVersionSpecifier;
use crate::text::{chars_of, ends_with_exec, has_at, has_at_exec, lemma_last_index_of, last_index_of_exec, starts_with_exec, str_eq};
use crate::yarn::berry_model::{e_deps, e_descriptors, e_version, fail_is, LockFail};
use crate::yarn::berry_resolve::{dep_build, key_string};
use crate::yarn::classic::{is_github_svs, is_registry_url};
use crate::yarn::classic_model::{
    all_tarball_svs, all_versions, classic_entry_package, classic_name, classic_name_fail, classic_package_is,
    json_package, source_of_url, split_resolved, ClassicPkg, ClassicState, PackageJson, JsonView,
    json_fail, members_fail, members_run, root_state, classic_entries_run, classic_entry_step, duplicate_of, classic_target,
    classic_deps, entry_with, member_named, opt_view, json_deps, workspace_deps, entry_deps,
    classic_run, classic_chastefile_is, ClassicOut,
};
use crate::yarn::lockfile::{entries_view, pairs_view, EntryView, LockEntry, Lockfile, PairsView};
use crate::yarn::{Error, Meta};

verus! {

/// The package of a `package.json`.
pub fn pkg_json_to_package(j: &PackageJson) -> (r: Result<crate::package::Package, Error>)
    ensures
        match json_package(j@) {
            Some(v) => r matches Ok(p) && classic_package_is(p, v),
            None => r matches Err(Error::ChasteError(x)) && chaste_fail_is(x, json_fail(j@)),
        },
{
    let name = match &j.name {
        Some(n) => match PackageName::new(n.clone()) {
            Ok(x) => Some(x),
            Err(e) => return Err(Error::ChasteError(e)),
        },
        None => None,
    };
    let version = match &j.version {
        Some(v) => Some(v.clone()),
        None => None,
    };
    match PackageBuilder::new(name, version).build() {
        Ok(p) => Ok(p),
        Err(e) => Err(Error::ChasteError(e)),
    }
}

/// The name of the package of an entry (see [`classic_name`]).
fn entry_name(e: &LockEntry) -> (r: Result<PackageName, Error>)
    requires
        e.descriptors@.len() > 0,
    ensures
        match classic_name(e@) {
            Some(n) => r matches Ok(x) && x@ == n,
            None => r matches Err(Error::ChasteError(x)) && chaste_fail_is(x, classic_name_fail(e@)),
        },
{
    let (dn, ds) = &e.descriptors[0];
    assert(e_descriptors(e@)[0] == (dn@, ds@));
    if starts_with_exec(ds.as_str(), "npm:") {
        let svs = match SourceVersionSpecifier::new(ds.clone()) {
            Ok(s) => s,
            Err(x) => return Err(Error::ChasteError(x)),
        };
        if let Some(aliased) = svs.aliased_package_name() {
            return Ok(aliased.to_owned());
        }
    }
    match PackageName::new(dn.clone()) {
        Ok(x) => Ok(x),
        Err(x) => Err(Error::ChasteError(x)),
    }
}

/// Where a package was fetched from (see [`source_of_url`]).
fn parse_source_url(e: &LockEntry, name: &PackageName, url: &str) -> (r: Option<PackageSource>)
    ensures
        opt_source_view(r) == source_of_url(e@, name@, url@),
{
    if is_registry_url(name.as_borrowed(), e.version.as_str(), url) {
        return Some(PackageSource::Npm);
    }
    let v = chars_of(url);
    if ends_with_exec(&v, 0, v.len(), ".git") {
        assert(v@.subrange(0, v@.len() as int) =~= v@);
        return Some(PackageSource::Git { url: String::from_str(url) });
    }
    assert(v@.subrange(0, v@.len() as int) =~= v@);
    let ghost ds = e_descriptors(e@);
    let mut all_tar = true;
    let mut all_ver = true;
    let mut i: usize = 0;
    while i < e.descriptors.len()
        invariant
            i <= e.descriptors@.len(),
            ds == e_descriptors(e@),
            ds.len() == e.descriptors@.len(),
            all_tar == forall|k: int|
                0 <= k < i ==> has_at(#[trigger] ds[k].1, 0, "https://"@) || has_at(ds[k].1, 0, "http://"@)
                    || crate::yarn::classic::spec_is_github_svs(ds[k].1),
            all_ver == forall|k: int| 0 <= k < i ==> semver_version_parses(#[trigger] ds[k].1),
        decreases e.descriptors.len() - i,
    {
        let s = e.descriptors[i].1.as_str();
        assert(ds[i as int].1 == s@);
        let vs = chars_of(s);
        let tar = has_at_exec(&vs, 0, "https://") || has_at_exec(&vs, 0, "http://") || is_github_svs(s);
        all_tar = all_tar && tar;
        all_ver = all_ver && parse_version(s).is_ok();
        i = i + 1;
    }
    if all_tar {
        Some(PackageSource::TarballURL { url: String::from_str(url) })
    } else if all_ver {
        Some(PackageSource::Npm)
    } else {
        None
    }
}

/// The parts of the package of an entry.
pub struct Parts {
    name: PackageName,
    version: String,
    integrity: Integrity,
    source: Option<PackageSource>,
}

impl Parts {
    pub closed spec fn is(self, v: ClassicPkg) -> bool {
        &&& v.name == Some(self.name@)
        &&& v.version == Some(self.version@)
        &&& v.hashes == self.integrity@
        &&& v.source == opt_source_view(self.source)
    }
}

/// Reads the package of an entry (see [`classic_entry_package`]).
fn parse_package(e: &LockEntry) -> (r: Result<Parts, Error>)
    requires
        e.descriptors@.len() > 0,
    ensures
        match classic_entry_package(e@) {
            Ok(v) => r matches Ok(p) && p.is(v),
            Err(f) => r matches Err(x) && fail_is(x, f),
        },
{
    let name = match entry_name(e) {
        Ok(n) => n,
        Err(x) => return Err(x),
    };
    let integrity = match parse_integrity(e.integrity.as_str()) {
        Ok(i) => i,
        Err(m) => return Err(Error::SSRIError(m)),
    };
    let r = e.resolved.as_str();
    let rv = chars_of(r);
    proof {
        lemma_last_index_of(rv@, '#');
    }
    let (url, hash) = match last_index_of_exec(&rv, '#') {
        Some(i) => (r.substring_char(0, i), Some(r.substring_char(i + 1, rv.len()))),
        None => (r, None),
    };
    assert(split_resolved(e@.0.2) == (url@, match hash {
        Some(h) => Some(h@),
        None => None::<Seq<char>>,
    }));
    let source = match parse_source_url(e, &name, url) {
        None => return Ok(Parts { name, version: e.version.clone(), integrity, source: None }),
        Some(s) => s,
    };
    let hh = match &source {
        PackageSource::Git { .. } => None,
        _ => hash,
    };
    let integrity = match hh {
        None => integrity,
        Some(x) => match integrity_from_hex_sha1(x) {
            Ok(h) => integrity_concat(&integrity, &h),
            Err(m) => return Err(Error::SSRIError(m)),
        },
    };
    Ok(Parts { name, version: e.version.clone(), integrity, source: Some(source) })
}

/// A copy of an integrity.
fn copy_integrity(i: &Integrity) -> (r: Integrity)
    ensures
        r@ == i@,
{
    let mut hashes: Vec<IntegrityHash> = Vec::new();
    let mut k: usize = 0;
    while k < i.hashes.len()
        invariant
            k <= i.hashes.len(),
            hashes@.map_values(|h: IntegrityHash| (h.algorithm, h.digest@)) == i@.take(k as int),
        decreases i.hashes.len() - k,
    {
        let h = &i.hashes[k];
        let ghost prev = hashes@;
        hashes.push(IntegrityHash { algorithm: h.algorithm, digest: h.digest.clone() });
        assert(hashes@.map_values(|h: IntegrityHash| (h.algorithm, h.digest@)) =~= prev.map_values(
            |h: IntegrityHash| (h.algorithm, h.digest@),
        ).push((h.algorithm, h.digest@)));
        assert(i@.take(k + 1) =~= i@.take(k as int).push(i@[k as int]));
        k = k + 1;
    }
    assert(i@.take(k as int) =~= i@);
    Integrity { hashes }
}

/// Whether two integrities hold the same hashes in the same order.
fn integrity_eq(a: &Integrity, b: &Integrity) -> (r: bool)
    ensures
        r == (a@ == b@),
{
    if a.hashes.len() != b.hashes.len() {
        return false;
    }
    let mut k: usize = 0;
    while k < a.hashes.len()
        invariant
            k <= a.hashes.len(),
            a.hashes.len() == b.hashes.len(),
            a@.len() == b@.len(),
            forall|m: int| 0 <= m < k ==> a@[m] == b@[m],
        decreases a.hashes.len() - k,
    {
        assert(a@[k as int] == (a.hashes@[k as int].algorithm, a.hashes@[k as int].digest@));
        assert(b@[k as int] == (b.hashes@[k as int].algorithm, b.hashes@[k as int].digest@));
        if a.hashes[k].algorithm != b.hashes[k].algorithm || !str_eq(a.hashes[k].digest.as_str(), b.hashes[k].digest.as_str()) {
            return false;
        }
        k = k + 1;
    }
    assert(a@ =~= b@);
    true
}

/// Whether two sources are the same.
fn source_eq(a: &PackageSource, b: &PackageSource) -> (r: bool)
    ensures
        r == (source_view(*a) == source_view(*b)),
{
    match (a, b) {
        (PackageSource::Npm, PackageSource::Npm) => true,
        (PackageSource::TarballURL { url: x }, PackageSource::TarballURL { url: y }) => str_eq(x.as_str(), y.as_str()),
        (PackageSource::Git { url: x }, PackageSource::Git { url: y }) => str_eq(x.as_str(), y.as_str()),
        _ => false,
    }
}

/// A package with a known source, kept to find later copies of it.
struct Record {
    name: String,
    version: String,
    integrity: Integrity,
    source: PackageSource,
}

/// The record describes `v`, or `v` has no known source and there is no record.
spec fn record_is(r: Option<Record>, v: ClassicPkg) -> bool {
    match r {
        Some(x) => v.source == Some(source_view(x.source)) && v.name == Some(x.name@) && v.version
            == Some(x.version@) && v.hashes == x.integrity@ && semver_version_parses(x.version@),
        None => v.source is None,
    }
}

/// What has been read so far, as the chastefile builder and the tables beside it.
pub struct ClassicReader {
    builder: ChastefileBuilder<Meta>,
    records: Vec<Option<Record>>,
    entry_pid: Vec<PackageID>,
}

impl ClassicReader {
    /// The reader holds the state `st`, read from a lockfile of version `version`,
    /// whatever dependencies were added.
    pub closed spec fn holds(self, st: ClassicState, version: u8) -> bool {
        &&& self.builder.spec_packages().len() == st.pkgs.len()
        &&& forall|k: int|
            0 <= k < st.pkgs.len() ==> classic_package_is(self.builder.spec_packages()[k], st.pkgs[k])
        &&& self.records@.len() == st.pkgs.len()
        &&& forall|k: int| 0 <= k < st.pkgs.len() ==> record_is(self.records@[k], st.pkgs[k])
        &&& self.entry_pid@ == st.entry_pid
        &&& self.builder.spec_root() == Some(pid_at(0))
        &&& self.builder.spec_members() == st.members
        &&& self.builder.spec_installations().len() == st.insts.len()
        &&& forall|k: int|
            0 <= k < st.insts.len() ==> (#[trigger] self.builder.spec_installations()[k]).spec_package_id()
                == st.insts[k].0 && self.builder.spec_installations()[k].spec_path()@ == st.insts[k].1
        &&& self.builder.spec_meta().lockfile_version == version
        &&& st.pkgs.len() >= 1
    }

    /// The dependencies added are `out`, in order.
    pub closed spec fn deps_are(self, out: Seq<(PackageID, DepView)>) -> bool {
        &&& self.builder.deps().len() == out.len()
        &&& forall|j: int|
            0 <= j < out.len() ==> dep_matches(#[trigger] self.builder.deps()[j], out[j].1, out[j].0)
    }
}

/// The workspace members as text: path and `package.json`.
pub open spec fn members_view(m: Seq<(String, PackageJson)>) -> Seq<(Seq<char>, JsonView)> {
    m.map_values(|x: (String, PackageJson)| (x.0@, x.1@))
}

proof fn lemma_members_run_none(root: JsonView, members: Seq<(Seq<char>, JsonView)>, j: int, n: int)
    requires
        0 <= j <= n,
        members_run(root, members, j) is None,
    ensures
        members_run(root, members, n) is None,
    decreases n - j,
{
    if j < n {
        lemma_members_run_none(root, members, j, n - 1);
    }
}

/// Members that fail on a prefix fail for the same reason on all of them.
proof fn lemma_members_fail_prefix(root: JsonView, members: Seq<(Seq<char>, JsonView)>, j: int, n: int)
    requires
        0 <= j <= n,
        members_run(root, members, j) is None,
    ensures
        members_fail(root, members, n) == members_fail(root, members, j),
    decreases n - j,
{
    if j < n {
        lemma_members_fail_prefix(root, members, j, n - 1);
        lemma_members_run_none(root, members, j, n - 1);
    }
}

proof fn lemma_entries_run_err(st0: ClassicState, entries: Seq<EntryView>, j: int, n: int)
    requires
        0 <= j <= n,
        classic_entries_run(st0, entries, j) is Err,
    ensures
        classic_entries_run(st0, entries, n) == classic_entries_run(st0, entries, j),
    decreases n - j,
{
    if j < n {
        lemma_entries_run_err(st0, entries, j, n - 1);
    }
}

/// A package of no known source is no copy of one.
proof fn lemma_no_duplicate(pkgs: Seq<ClassicPkg>, v: ClassicPkg, k: int)
    requires
        v.source is None,
    ensures
        duplicate_of(pkgs, v, k) is None,
    decreases pkgs.len() - k,
{
    if 0 <= k < pkgs.len() {
        lemma_no_duplicate(pkgs, v, k + 1);
    }
}

impl ClassicReader {
    /// Starts with the root package, installed at the root.
    fn start(root: &PackageJson, version: u8) -> (r: Result<ClassicReader, Error>)
        ensures
            match root_state(root@) {
                Some(st) => r matches Ok(x) && x.holds(st, version) && x.deps_are(seq![]),
                None => r matches Err(Error::ChasteError(x)) && chaste_fail_is(x, json_fail(root@)),
            },
    {
        let p = match pkg_json_to_package(root) {
            Ok(p) => p,
            Err(e) => return Err(e),
        };
        let mut builder = ChastefileBuilder::new(Meta { lockfile_version: version });
        let pid = builder.add_package(p);
        proof {
            lemma_pid_at(0);
        }
        match builder.set_root_package_id(pid) {
            Ok(()) => {},
            Err(e) => return Err(Error::ChasteError(e)),
        }
        let inst = match InstallationBuilder::new(pid, ModulePath::root()).build() {
            Ok(i) => i,
            Err(e) => return Err(Error::ChasteError(e)),
        };
        builder.add_package_installation(inst);
        let mut records: Vec<Option<Record>> = Vec::new();
        records.push(None);
        let r = ClassicReader { builder, records, entry_pid: Vec::new() };
        assert(r.entry_pid@ =~= Seq::<PackageID>::empty());
        Ok(r)
    }

    /// Adds a workspace member at `path`.
    fn add_member(&mut self, path: &String, j: &PackageJson, Ghost(st): Ghost<ClassicState>, Ghost(version): Ghost<u8>) -> (r: Result<(), Error>)
        requires
            old(self).holds(st, version),
            old(self).deps_are(seq![]),
            st.pkgs.len() < usize::MAX,
        ensures
            match json_package(j@) {
                None => r matches Err(Error::ChasteError(x)) && chaste_fail_is(x, json_fail(j@)),
                Some(p) => if is_module_path(path@) {
                    let pid = pid_at(st.pkgs.len());
                    r is Ok && final(self).holds(
                        ClassicState {
                            pkgs: st.pkgs.push(p),
                            members: st.members.push(pid),
                            insts: st.insts.push((pid, path@)),
                            ..st
                        },
                        version,
                    ) && final(self).deps_are(seq![])
                } else {
                    r matches Err(Error::ChasteError(x)) && chaste_fail_is(x, ChasteFail::Path(path@))
                },
            },
    {
        let p = match pkg_json_to_package(j) {
            Ok(p) => p,
            Err(e) => return Err(e),
        };
        let ghost b0 = self.builder;
        let pid = self.builder.add_package(p);
        proof {
            lemma_pid_at(st.pkgs.len());
        }
        match self.builder.set_as_workspace_member(pid) {
            Ok(()) => {},
            Err(e) => return Err(Error::ChasteError(e)),
        }
        let mp = match ModulePath::new(path.clone()) {
            Ok(m) => m,
            Err(e) => return Err(Error::ChasteError(e)),
        };
        let inst = match InstallationBuilder::new(pid, mp).build() {
            Ok(i) => i,
            Err(e) => return Err(Error::ChasteError(e)),
        };
        self.builder.add_package_installation(inst);
        self.records.push(None);
        proof {
            let v = json_package(j@)->Some_0;
            let s2 = ClassicState {
                pkgs: st.pkgs.push(v),
                members: st.members.push(pid),
                insts: st.insts.push((pid, path@)),
                ..st
            };
            assert forall|k: int| 0 <= k < s2.pkgs.len() implies classic_package_is(
                self.builder.spec_packages()[k],
                s2.pkgs[k],
            ) by {
                if k < st.pkgs.len() {
                    assert(self.builder.spec_packages()[k] == b0.spec_packages()[k]);
                }
            }
            assert forall|k: int| 0 <= k < s2.pkgs.len() implies record_is(self.records@[k], s2.pkgs[k]) by {
                if k < st.pkgs.len() {
                    assert(self.records@[k] == old(self).records@[k]);
                }
            }
        }
        Ok(())
    }

    /// The first package that equals the one `rec` describes.
    fn find_duplicate(&self, rec: &Record, Ghost(st): Ghost<ClassicState>, Ghost(v): Ghost<ClassicPkg>, Ghost(version): Ghost<u8>) -> (r: Option<usize>)
        requires
            self.holds(st, version),
            record_is(Some(*rec), v),
        ensures
            match r {
                Some(k) => duplicate_of(st.pkgs, v, 0) == Some(k as int),
                None => duplicate_of(st.pkgs, v, 0) is None,
            },
    {
        let mut k: usize = 0;
        while k < self.records.len()
            invariant
                self.holds(st, version),
                record_is(Some(*rec), v),
                k <= self.records@.len(),
                duplicate_of(st.pkgs, v, 0) == duplicate_of(st.pkgs, v, k as int),
            decreases self.records.len() - k,
        {
            assert(record_is(self.records@[k as int], st.pkgs[k as int]));
            match &self.records[k] {
                Some(x) => {
                    if str_eq(x.name.as_str(), rec.name.as_str()) && version_eq(x.version.as_str(), rec.version.as_str())
                        && integrity_eq(&x.integrity, &rec.integrity) && source_eq(&x.source, &rec.source) {
                        return Some(k);
                    }
                },
                None => {},
            }
            k = k + 1;
        }
        None
    }

    /// Reads an entry: its package, unless an equal one is there already.
    fn read_entry(&mut self, e: &LockEntry, Ghost(st): Ghost<ClassicState>, Ghost(version): Ghost<u8>) -> (r: Result<(), Error>)
        requires
            old(self).holds(st, version),
            old(self).deps_are(seq![]),
            e.descriptors@.len() > 0,
            st.pkgs.len() < usize::MAX,
        ensures
            match classic_entry_step(st, e@) {
                Ok(s2) => r is Ok && final(self).holds(s2, version) && final(self).deps_are(seq![])
                    && s2.pkgs.len() <= st.pkgs.len() + 1,
                Err(f) => r matches Err(x) && fail_is(x, f),
            },
    {
        let parts = match parse_package(e) {
            Ok(p) => p,
            Err(x) => return Err(x),
        };
        let ghost v = classic_entry_package(e@)->Ok_0;
        let rec = match &parts.source {
            Some(s) => Some(
                Record {
                    name: String::from_str(parts.name.as_str()),
                    version: parts.version.clone(),
                    integrity: copy_integrity(&parts.integrity),
                    source: s.duplicate(),
                },
            ),
            None => None,
        };
        let mut b = PackageBuilder::new(Some(parts.name), Some(parts.version));
        if let Some(s) = parts.source {
            b.source(s);
        }
        if parts.integrity.hashes.len() > 0 {
            b.checksums(Checksums::Tarball(parts.integrity));
        }
        let p = match b.build() {
            Ok(p) => p,
            Err(x) => return Err(Error::ChasteError(x)),
        };
        let dup = match &rec {
            Some(x) => self.find_duplicate(x, Ghost(st), Ghost(v), Ghost(version)),
            None => {
                proof {
                    lemma_no_duplicate(st.pkgs, v, 0);
                }
                None
            },
        };
        match dup {
            Some(k) => {
                self.entry_pid.push(PackageID::from_index(k));
                Ok(())
            },
            None => {
                let ghost b0 = self.builder;
                let pid = self.builder.add_package(p);
                self.records.push(rec);
                self.entry_pid.push(pid);
                proof {
                    let s2 = ClassicState {
                        pkgs: st.pkgs.push(v),
                        entry_pid: st.entry_pid.push(pid_at(st.pkgs.len())),
                        ..st
                    };
                    assert forall|k: int| 0 <= k < s2.pkgs.len() implies classic_package_is(
                        self.builder.spec_packages()[k],
                        s2.pkgs[k],
                    ) by {
                        if k < st.pkgs.len() {
                            assert(self.builder.spec_packages()[k] == b0.spec_packages()[k]);
                        }
                    }
                    assert forall|k: int| 0 <= k < s2.pkgs.len() implies record_is(self.records@[k], s2.pkgs[k]) by {
                        if k < st.pkgs.len() {
                            assert(self.records@[k] == old(self).records@[k]);
                        }
                    }
                }
                Ok(())
            },
        }
    }
}

/// The package a dependency resolves to (see [`classic_target`]).
fn find_dep_pid(
    members: &Vec<(String, PackageJson)>,
    lock: &Lockfile,
    entry_pid: &Vec<PackageID>,
    name: &str,
    svs: &str,
    Ghost(st): Ghost<ClassicState>,
) -> (r: Result<PackageID, Error>)
    requires
        entry_pid@ == st.entry_pid,
        st.entry_pid.len() == lock.entries@.len(),
        members@.len() < usize::MAX,
    ensures
        match classic_target(members_view(members@), entries_view(lock.entries@), st, (name@, svs@)) {
            Ok(p) => r == Ok::<PackageID, Error>(p),
            Err(f) => r matches Err(x) && fail_is(x, f),
        },
{
    let ghost mv = members_view(members@);
    let ghost entries = entries_view(lock.entries@);
    let mut m: usize = 0;
    while m < members.len()
        invariant
            m <= members@.len(),
            mv == members_view(members@),
            members@.len() < usize::MAX,
            member_named(mv, name@, 0) == member_named(mv, name@, m as int),
        decreases members.len() - m,
    {
        assert(mv[m as int].1.0 == opt_view(members@[m as int].1.name));
        if let Some(n) = &members[m].1.name {
            if str_eq(n.as_str(), name) {
                return Ok(PackageID::from_index(1 + m));
            }
        }
        m = m + 1;
    }
    let mut i: usize = 0;
    while i < lock.entries.len()
        invariant
            i <= lock.entries@.len(),
            entries == entries_view(lock.entries@),
            entry_pid@ == st.entry_pid,
            st.entry_pid.len() == lock.entries@.len(),
            entry_with(entries, (name@, svs@), 0) == entry_with(entries, (name@, svs@), i as int),
            mv == members_view(members@),
            member_named(mv, name@, 0) is None,
        decreases lock.entries.len() - i,
    {
        let ds = &lock.entries[i].descriptors;
        let ghost pv = pairs_view(ds@);
        assert(e_descriptors(entries[i as int]) == pv);
        let mut j: usize = 0;
        while j < ds.len()
            invariant
                j <= ds@.len(),
                pv == pairs_view(ds@),
                forall|k: int| 0 <= k < j ==> pv[k] != (name@, svs@),
                i < lock.entries@.len(),
                entries == entries_view(lock.entries@),
                entry_pid@ == st.entry_pid,
                st.entry_pid.len() == lock.entries@.len(),
                entry_with(entries, (name@, svs@), 0) == entry_with(entries, (name@, svs@), i as int),
                e_descriptors(entries[i as int]) == pv,
                mv == members_view(members@),
                member_named(mv, name@, 0) is None,
            decreases ds.len() - j,
        {
            assert(pv[j as int] == (ds@[j as int].0@, ds@[j as int].1@));
            if str_eq(ds[j].0.as_str(), name) && str_eq(ds[j].1.as_str(), svs) {
                assert(pv.contains((name@, svs@)));
                return Ok(entry_pid[i]);
            }
            j = j + 1;
        }
        assert(!pv.contains((name@, svs@)));
        i = i + 1;
    }
    Err(Error::DependencyNotFound(key_string(name, svs)))
}

proof fn lemma_classic_deps_err(
    members: Seq<(Seq<char>, JsonView)>,
    entries: Seq<EntryView>,
    st: ClassicState,
    from: PackageID,
    kind: DependencyKind,
    ds: PairsView,
    out: Seq<(PackageID, DepView)>,
    j: int,
)
    requires
        0 <= j <= ds.len(),
        classic_deps(members, entries, st, from, kind, ds.take(j), out) is Err,
    ensures
        classic_deps(members, entries, st, from, kind, ds, out) == classic_deps(members, entries, st, from, kind, ds.take(j), out),
    decreases ds.len(),
{
    if j == ds.len() {
        assert(ds.take(j) =~= ds);
    } else {
        assert(ds.drop_last().take(j) =~= ds.take(j));
        lemma_classic_deps_err(members, entries, st, from, kind, ds.drop_last(), out, j);
    }
}

impl ClassicReader {
    /// Records the dependencies `ds` of kind `kind` from `from`, in order.
    fn read_deps_list(
        &mut self,
        members: &Vec<(String, PackageJson)>,
        lock: &Lockfile,
        from: PackageID,
        kind: DependencyKind,
        ds: &Vec<(String, String)>,
        Ghost(st): Ghost<ClassicState>,
        Ghost(out): Ghost<Seq<(PackageID, DepView)>>,
        Ghost(version): Ghost<u8>,
    ) -> (r: Result<(), Error>)
        requires
            old(self).holds(st, version),
            old(self).deps_are(out),
            st.entry_pid.len() == lock.entries@.len(),
            members@.len() < usize::MAX,
        ensures
            match classic_deps(members_view(members@), entries_view(lock.entries@), st, from, kind, pairs_view(ds@), out) {
                Ok(o) => r is Ok && final(self).holds(st, version) && final(self).deps_are(o),
                Err(f) => r matches Err(x) && fail_is(x, f),
            },
    {
        let ghost mv = members_view(members@);
        let ghost entries = entries_view(lock.entries@);
        let ghost pv = pairs_view(ds@);
        let mut m: usize = 0;
        assert(pv.take(0) =~= Seq::<(Seq<char>, Seq<char>)>::empty());
        while m < ds.len()
            invariant
                m <= ds@.len(),
                mv == members_view(members@),
                entries == entries_view(lock.entries@),
                pv == pairs_view(ds@),
                st.entry_pid.len() == lock.entries@.len(),
                members@.len() < usize::MAX,
                classic_deps(mv, entries, st, from, kind, pv.take(m as int), out) matches Ok(o)
                    && self.holds(st, version) && self.deps_are(o),
            decreases ds.len() - m,
        {
            let (name, svs) = &ds[m];
            assert(pv.take(m + 1).drop_last() =~= pv.take(m as int));
            assert(pv.take(m + 1).last() == (name@, svs@));
            let target = match find_dep_pid(members, lock, &self.entry_pid, name.as_str(), svs.as_str(), Ghost(st)) {
                Ok(p) => p,
                Err(x) => {
                    proof {
                        lemma_classic_deps_err(mv, entries, st, from, kind, pv, out, m + 1);
                    }
                    return Err(x);
                },
            };
            let dep = match dep_build(kind, from, target, name.as_str(), svs.as_str()) {
                Ok(d) => d,
                Err(x) => {
                    proof {
                        lemma_classic_deps_err(mv, entries, st, from, kind, pv, out, m + 1);
                    }
                    return Err(x);
                },
            };
            self.builder.add_dependency(dep);
            m = m + 1;
        }
        assert(pv.take(m as int) =~= pv);
        Ok(())
    }
}

proof fn lemma_json_deps_err(
    members: Seq<(Seq<char>, JsonView)>,
    entries: Seq<EntryView>,
    st: ClassicState,
    j: JsonView,
    a: int,
    n: int,
    out: Seq<(PackageID, DepView)>,
)
    requires
        0 <= a <= n,
        json_deps(members, entries, st, j, a, out) is Err,
    ensures
        json_deps(members, entries, st, j, n, out) == json_deps(members, entries, st, j, a, out),
    decreases n - a,
{
    if a < n {
        lemma_json_deps_err(members, entries, st, j, a, n - 1, out);
    }
}

proof fn lemma_workspace_deps_err(
    root: JsonView,
    members: Seq<(Seq<char>, JsonView)>,
    entries: Seq<EntryView>,
    st: ClassicState,
    a: int,
    n: int,
)
    requires
        0 <= a <= n,
        workspace_deps(root, members, entries, st, a) is Err,
    ensures
        workspace_deps(root, members, entries, st, n) == workspace_deps(root, members, entries, st, a),
    decreases n - a,
{
    if a < n {
        lemma_workspace_deps_err(root, members, entries, st, a, n - 1);
    }
}

proof fn lemma_entry_deps_err(
    members: Seq<(Seq<char>, JsonView)>,
    entries: Seq<EntryView>,
    st: ClassicState,
    a: int,
    n: int,
    out: Seq<(PackageID, DepView)>,
)
    requires
        0 <= a <= n,
        entry_deps(members, entries, st, a, out) is Err,
    ensures
        entry_deps(members, entries, st, n, out) == entry_deps(members, entries, st, a, out),
    decreases n - a,
{
    if a < n {
        lemma_entry_deps_err(members, entries, st, a, n - 1, out);
    }
}

impl ClassicReader {
    /// Records the dependencies of a `package.json`, as the root's: dependencies, dev
    /// dependencies, peer dependencies, optional dependencies.
    fn read_json_deps(
        &mut self,
        members: &Vec<(String, PackageJson)>,
        lock: &Lockfile,
        j: &PackageJson,
        Ghost(st): Ghost<ClassicState>,
        Ghost(out): Ghost<Seq<(PackageID, DepView)>>,
        Ghost(version): Ghost<u8>,
    ) -> (r: Result<(), Error>)
        requires
            old(self).holds(st, version),
            old(self).deps_are(out),
            st.entry_pid.len() == lock.entries@.len(),
            members@.len() < usize::MAX,
        ensures
            match json_deps(members_view(members@), entries_view(lock.entries@), st, j@, 4, out) {
                Ok(o) => r is Ok && final(self).holds(st, version) && final(self).deps_are(o),
                Err(f) => r matches Err(x) && fail_is(x, f),
            },
    {
        let ghost mv = members_view(members@);
        let ghost entries = entries_view(lock.entries@);
        let root = PackageID::from_index(0);
        let ghost jv = j@;
        assert(jv.2[0] == (pairs_view(j.dependencies@), DependencyKind::Dependency));
        assert(jv.2[1] == (pairs_view(j.dev_dependencies@), DependencyKind::DevDependency));
        assert(jv.2[2] == (pairs_view(j.peer_dependencies@), DependencyKind::PeerDependency));
        assert(jv.2[3] == (pairs_view(j.optional_dependencies@), DependencyKind::OptionalDependency));
        assert(json_deps(mv, entries, st, jv, 0, out) == Ok::<Seq<(PackageID, DepView)>, LockFail>(out));
        proof {
            lemma_pid_at(0);
        }
        match self.read_deps_list(members, lock, root, DependencyKind::Dependency, &j.dependencies, Ghost(st), Ghost(out), Ghost(version)) {
            Ok(()) => {},
            Err(x) => {
                proof {
                    lemma_json_deps_err(mv, entries, st, jv, 1, 4, out);
                }
                return Err(x);
            },
        }
        let ghost o1 = json_deps(mv, entries, st, jv, 1, out)->Ok_0;
        match self.read_deps_list(members, lock, root, DependencyKind::DevDependency, &j.dev_dependencies, Ghost(st), Ghost(o1), Ghost(version)) {
            Ok(()) => {},
            Err(x) => {
                proof {
                    lemma_json_deps_err(mv, entries, st, jv, 2, 4, out);
                }
                return Err(x);
            },
        }
        let ghost o2 = json_deps(mv, entries, st, jv, 2, out)->Ok_0;
        match self.read_deps_list(members, lock, root, DependencyKind::PeerDependency, &j.peer_dependencies, Ghost(st), Ghost(o2), Ghost(version)) {
            Ok(()) => {},
            Err(x) => {
                proof {
                    lemma_json_deps_err(mv, entries, st, jv, 3, 4, out);
                }
                return Err(x);
            },
        }
        let ghost o3 = json_deps(mv, entries, st, jv, 3, out)->Ok_0;
        self.read_deps_list(members, lock, root, DependencyKind::OptionalDependency, &j.optional_dependencies, Ghost(st), Ghost(o3), Ghost(version))
    }
}

/// Reads a yarn classic lockfile into a chastefile, with the `package.json` of the
/// root and of each workspace member, with its path. See [`classic_run`] for what
/// is read, in which order, and each way it can fail.
pub fn resolve(
    lock: &Lockfile,
    root: &PackageJson,
    members: &Vec<(String, PackageJson)>,
) -> (r: Result<Chastefile<Meta>, Error>)
    requires
        members@.len() + lock.entries@.len() < usize::MAX,
        forall|i: int| 0 <= i < lock.entries@.len() ==> (#[trigger] lock.entries@[i]).descriptors@.len() > 0,
    ensures
        match classic_run(root@, members_view(members@), entries_view(lock.entries@)) {
            Ok(out) => r matches Ok(c) && classic_chastefile_is(c, lock.version, out),
            Err(f) => r matches Err(x) && fail_is(x, f),
        },
{
    let ghost mv = members_view(members@);
    let ghost entries = entries_view(lock.entries@);
    let mut reader = match ClassicReader::start(root, lock.version) {
        Ok(x) => x,
        Err(e) => {
            proof {
                lemma_members_run_none(root@, mv, 0, mv.len() as int);
                lemma_members_fail_prefix(root@, mv, 0, mv.len() as int);
            }
            return Err(e);
        },
    };
    let mut m: usize = 0;
    while m < members.len()
        invariant
            m <= members@.len(),
            mv == members_view(members@),
            members@.len() + lock.entries@.len() < usize::MAX,
            members_run(root@, mv, m as int) matches Some(st) && reader.holds(st, lock.version)
                && reader.deps_are(seq![]) && st.pkgs.len() == 1 + m && st.entry_pid.len() == 0,
        decreases members.len() - m,
    {
        let ghost st = members_run(root@, mv, m as int)->Some_0;
        assert(mv[m as int] == (members@[m as int].0@, members@[m as int].1@));
        match reader.add_member(&members[m].0, &members[m].1, Ghost(st), Ghost(lock.version)) {
            Ok(()) => {},
            Err(e) => {
                proof {
                    lemma_members_run_none(root@, mv, m + 1, mv.len() as int);
                    lemma_members_fail_prefix(root@, mv, m + 1, mv.len() as int);
                }
                return Err(e);
            },
        }
        m = m + 1;
    }
    let ghost s0 = members_run(root@, mv, mv.len() as int)->Some_0;
    let mut i: usize = 0;
    while i < lock.entries.len()
        invariant
            i <= lock.entries@.len(),
            entries == entries_view(lock.entries@),
            members@.len() + lock.entries@.len() < usize::MAX,
            forall|k: int| 0 <= k < lock.entries@.len() ==> (#[trigger] lock.entries@[k]).descriptors@.len() > 0,
            s0.pkgs.len() == 1 + members@.len(),
            s0.entry_pid.len() == 0,
            mv == members_view(members@),
            members_run(root@, mv, mv.len() as int) == Some(s0),
            classic_entries_run(s0, entries, i as int) matches Ok(st) && reader.holds(st, lock.version)
                && reader.deps_are(seq![]) && st.pkgs.len() <= 1 + members@.len() + i
                && st.entry_pid.len() == i,
        decreases lock.entries.len() - i,
    {
        let ghost st = classic_entries_run(s0, entries, i as int)->Ok_0;
        assert(entries[i as int] == lock.entries@[i as int]@);
        match reader.read_entry(&lock.entries[i], Ghost(st), Ghost(lock.version)) {
            Ok(()) => {},
            Err(e) => {
                proof {
                    lemma_entries_run_err(s0, entries, i + 1, entries.len() as int);
                }
                return Err(e);
            },
        }
        i = i + 1;
    }
    let ghost st = classic_entries_run(s0, entries, entries.len() as int)->Ok_0;
    match reader.read_json_deps(members, lock, root, Ghost(st), Ghost(Seq::empty()), Ghost(lock.version)) {
        Ok(()) => {},
        Err(e) => {
            proof {
                lemma_workspace_deps_err(root@, mv, entries, st, 0, mv.len() as int);
            }
            return Err(e);
        },
    }
    let mut m: usize = 0;
    while m < members.len()
        invariant
            m <= members@.len(),
            mv == members_view(members@),
            entries == entries_view(lock.entries@),
            members@.len() + lock.entries@.len() < usize::MAX,
            st.entry_pid.len() == lock.entries@.len(),
            members_run(root@, mv, mv.len() as int) == Some(s0),
            classic_entries_run(s0, entries, entries.len() as int) == Ok::<ClassicState, LockFail>(st),
            workspace_deps(root@, mv, entries, st, m as int) matches Ok(o) && reader.holds(st, lock.version)
                && reader.deps_are(o),
        decreases members.len() - m,
    {
        let ghost o = workspace_deps(root@, mv, entries, st, m as int)->Ok_0;
        assert(mv[m as int] == (members@[m as int].0@, members@[m as int].1@));
        match reader.read_json_deps(members, lock, &members[m].1, Ghost(st), Ghost(o), Ghost(lock.version)) {
            Ok(()) => {},
            Err(e) => {
                proof {
                    lemma_workspace_deps_err(root@, mv, entries, st, m + 1, mv.len() as int);
                }
                return Err(e);
            },
        }
        m = m + 1;
    }
    let ghost o = workspace_deps(root@, mv, entries, st, mv.len() as int)->Ok_0;
    let mut i: usize = 0;
    while i < lock.entries.len()
        invariant
            i <= lock.entries@.len(),
            mv == members_view(members@),
            entries == entries_view(lock.entries@),
            members@.len() + lock.entries@.len() < usize::MAX,
            st.entry_pid.len() == lock.entries@.len(),
            reader.entry_pid@ == st.entry_pid,
            members_run(root@, mv, mv.len() as int) == Some(s0),
            classic_entries_run(s0, entries, entries.len() as int) == Ok::<ClassicState, LockFail>(st),
            workspace_deps(root@, mv, entries, st, mv.len() as int) == Ok::<Seq<(PackageID, DepView)>, LockFail>(o),
            entry_deps(mv, entries, st, i as int, o) matches Ok(o2) && reader.holds(st, lock.version)
                && reader.deps_are(o2),
        decreases lock.entries.len() - i,
    {
        let ghost o2 = entry_deps(mv, entries, st, i as int, o)->Ok_0;
        assert(entries[i as int] == lock.entries@[i as int]@);
        let from = reader.entry_pid[i];
        match reader.read_deps_list(members, lock, from, DependencyKind::Dependency, &lock.entries[i].dependencies, Ghost(st), Ghost(o2), Ghost(lock.version)) {
            Ok(()) => {},
            Err(e) => {
                proof {
                    lemma_entry_deps_err(mv, entries, st, i + 1, entries.len() as int, o);
                }
                return Err(e);
            },
        }
        i = i + 1;
    }
    let ghost deps = entry_deps(mv, entries, st, entries.len() as int, o)->Ok_0;
    let ghost b = reader.builder;
    match reader.builder.build() {
        Ok(c) => {
            proof {
                let out = ClassicOut { st, deps };
                assert forall|j: int| 0 <= j < out.deps.len() implies dep_matches(
                    #[trigger] c.deps()[j],
                    out.deps[j].1,
                    out.deps[j].0,
                ) by {
                    assert(c.deps()[j] == b.deps()[j]);
                }
                assert forall|k: int| 0 <= k < st.pkgs.len() implies classic_package_is(
                    #[trigger] c.spec_packages()[k],
                    st.pkgs[k],
                ) by {
                    assert(c.spec_packages()[k] == b.spec_packages()[k]);
                }
            }
            Ok(c)
        },
        Err(e) => Err(Error::ChasteError(e)),
    }
}

} // verus!
