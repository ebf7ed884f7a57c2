//! Reading pnpm's lockfile into a chastefile (see [`crate::pnpm::model`]).

use vstd::prelude::*;
use vstd::string::{StrSliceExecFns, StringExecFns};

use crate::chastefile::{Chastefile, ChastefileBuilder};
use crate::checksums::{
    hex_digest, integrity_from_hex_sha256, is_hex_text, parse_integrity, Checksums, HashAlgorithm,
};
use crate::dependency::{Dependency, DependencyBuilder, DependencyKind};
use crate::derivation::{PackageDerivation, PackageDerivationMetaBuilder, PackagePatchBuilder};
use crate::installation::InstallationBuilder;
use crate::modpath::ModulePath;
use crate::name::{is_package_name, law_name_prefix_is_name, package_name_at_exec, PackageName};
use crate::package::{lemma_pid_at, pid_at, PackageBuilder, PackageID};
use crate::pnpm::model::{
    fail_is, importer_step, importers_run, manifest_at, package_step, packages_run, patch_index, patched_run,
    patched_step, pkg_source, split_desc, utf8_len, empty_state, pdep_matches, PDep, PFail, PPkg, PState, PatchStore,
    SnapTable, pnpm_package_is, snap_pos, snap_set, snap_get, desc_get, peer_name, bracketed, key_rest, snap_try,
    desc_try, patch_hash_at, record, try_descs, queue_run, all_snaps, find_dep, scan_dep, imp_list_run, imp_lists_run,
    imps_deps_run, pair_get, snap_dep, snap_list_run, snaps_deps_run, pnpm_run, pnpm_chastefile_is, POut,
};
use crate::pnpm::{
    manifests_view, pkg_view, imp_deps_view, Error, LockView, ImporterDependency, Meta, PackageEntry, PackageJson, PnpmLockfile,
};
use crate::semver::semver_version_parses;
use crate::source::{opt_source_view, PackageSource};
use crate::svs::SourceVersionSpecifier;
use crate::text::{chars_of, has_at, has_at_exec, seq_lt, str_eq, str_lt};
use crate::yarn::berry_model::{candidates, DescTable, Key};
use crate::yarn::berry_resolve::{candidates_of, table_view};
use crate::yarn::lockfile::pairs_view;
use crate::yarn::zpm_model::table_set;

verus! {


/// The key of an entry of `packages` split into its name and specifier.
fn split_desc_exec(s: &str) -> (r: Option<(&str, &str)>)
    ensures
        match r {
            Some((n, v)) => split_desc(s@) == Some((n@, v@)),
            None => split_desc(s@) is None,
        },
{
    let v = chars_of(s);
    match package_name_at_exec(&v, 0) {
        None => None,
        Some(p) => {
            let l = p.total_length;
            if l < v.len() && v[l] == '@' {
                Some((s.substring_char(0, l), s.substring_char(l + 1, v.len())))
            } else {
                None
            }
        },
    }
}

/// Where a package of `packages` comes from (see [`pkg_source`]).
fn pkg_source_exec(p: &PackageEntry, svd: &str) -> (r: Option<PackageSource>)
    ensures
        opt_source_view(r) == pkg_source(pkg_view(*p), svd@),
{
    match &p.resolution.tarball {
        Some(u) => if p.resolution.integrity.is_some() {
            Some(PackageSource::Npm)
        } else {
            Some(PackageSource::TarballURL { url: u.clone() })
        },
        None => {
            let v = chars_of(svd);
            proof {
                reveal_strlit("git+");
            }
            if has_at_exec(&v, 0, "git+") {
                Some(PackageSource::Git { url: svd.substring_char(4, v.len()).to_owned() })
            } else {
                match SourceVersionSpecifier::new(String::from_str(svd)) {
                    Ok(x) => if x.is_npm() {
                        Some(PackageSource::Npm)
                    } else {
                        None
                    },
                    Err(_) => None,
                }
            }
        },
    }
}

/// The width of a character in UTF-8.
spec fn char_width(c: char) -> nat {
    let u = c as u32;
    if u < 0x80 {
        1
    } else if u < 0x800 {
        2
    } else if u < 0x10000 {
        3
    } else {
        4
    }
}

proof fn lemma_utf8_len_step(s: Seq<char>, i: int)
    requires
        0 <= i < s.len(),
    ensures
        utf8_len(s.take(i + 1)) == utf8_len(s.take(i)) + char_width(s[i]),
{
    assert(s.take(i + 1).drop_last() =~= s.take(i));
}

proof fn lemma_utf8_len_mono(s: Seq<char>, i: int)
    requires
        0 <= i <= s.len(),
    ensures
        utf8_len(s.take(i)) <= utf8_len(s),
    decreases s.len() - i,
{
    if i < s.len() {
        lemma_utf8_len_step(s, i);
        lemma_utf8_len_mono(s, i + 1);
    } else {
        assert(s.take(i) =~= s);
    }
}

/// Whether `s` takes 64 bytes in UTF-8.
fn utf8_len_is_64(s: &str) -> (b: bool)
    ensures
        b == (utf8_len(s@) == 64),
{
    let v = chars_of(s);
    let mut n: usize = 0;
    let mut i: usize = 0;
    assert(v@.take(0) =~= Seq::<char>::empty());
    while i < v.len()
        invariant
            i <= v.len(),
            v@ == s@,
            n == utf8_len(v@.take(i as int)),
            n <= 64,
        decreases v.len() - i,
    {
        proof {
            lemma_utf8_len_step(v@, i as int);
        }
        let u = v[i] as u32;
        let w: usize = if u < 0x80 {
            1
        } else if u < 0x800 {
            2
        } else if u < 0x10000 {
            3
        } else {
            4
        };
        if n + w > 64 {
            proof {
                lemma_utf8_len_mono(v@, i + 1);
            }
            return false;
        }
        n = n + w;
        i = i + 1;
    }
    assert(v@.take(i as int) =~= v@);
    n == 64
}

/// What has been read so far, as the chastefile builder and the tables beside it.
pub struct PnpmReader<'a> {
    builder: ChastefileBuilder<Meta>,
    imp_pid: Vec<PackageID>,
    desc: Vec<((&'a str, &'a str), PackageID)>,
    pkg_entry: Vec<Option<usize>>,
    peer_of: Vec<Option<usize>>,
    patches: Vec<((&'a str, &'a str), &'a str)>,
    snaps: Vec<(&'a str, PackageID)>,
}

spec fn opt_index(o: Option<usize>) -> int {
    match o {
        Some(e) => e as int,
        None => -1,
    }
}

spec fn opt_entry(o: Option<usize>) -> Option<int> {
    match o {
        Some(e) => Some(e as int),
        None => None,
    }
}

/// The patches as text.
pub open spec fn patches_view(p: Seq<((&str, &str), &str)>) -> PatchStore {
    p.map_values(|x: ((&str, &str), &str)| ((x.0.0@, x.0.1@), (x.1@, seq![(HashAlgorithm::Sha256, hex_digest(x.0.1@))])))
}

/// The snapshot table as text.
pub open spec fn snaps_view(t: Seq<(&str, PackageID)>) -> SnapTable {
    t.map_values(|x: (&str, PackageID)| (x.0@, x.1))
}

impl<'a> PnpmReader<'a> {
    /// The reader holds the state `st` for a lockfile with `n_pkgs` entries of
    /// `packages`, whatever dependencies were added.
    pub closed spec fn holds_core(self, st: PState, version: Seq<char>, n_pkgs: nat) -> bool {
        &&& self.builder.spec_packages().len() == st.pkgs.len()
        &&& forall|k: int|
            0 <= k < st.pkgs.len() ==> pnpm_package_is(self.builder.spec_packages()[k], st.pkgs[k])
        &&& self.builder.spec_root() == st.root
        &&& self.builder.spec_members() == st.members
        &&& self.builder.spec_installations().len() == st.insts.len()
        &&& forall|k: int|
            0 <= k < st.insts.len() ==> (#[trigger] self.builder.spec_installations()[k]).spec_package_id()
                == st.insts[k].0 && self.builder.spec_installations()[k].spec_path()@ == st.insts[k].1
        &&& self.builder.spec_meta().lockfile_version@ == version
        &&& self.imp_pid@ == st.imp_pid
        &&& table_view(self.desc@) == st.desc
        &&& self.pkg_entry@.len() == st.pkg_entry.len()
        &&& forall|k: int| 0 <= k < st.pkg_entry.len() ==> opt_index(self.pkg_entry@[k]) == st.pkg_entry[k]
        &&& self.peer_of@.len() == st.peer_of.len()
        &&& forall|k: int| 0 <= k < st.peer_of.len() ==> opt_entry(self.peer_of@[k]) == st.peer_of[k]
        &&& patches_view(self.patches@) == st.patches
        &&& forall|j: int| 0 <= j < self.patches@.len() ==> is_hex_text((#[trigger] self.patches@[j]).0.1@)
        &&& snaps_view(self.snaps@) == st.snaps
        &&& pstate_wf(st, n_pkgs)
    }

    /// The reader holds `st` and no dependency was added yet.
    pub closed spec fn holds(self, st: PState, version: Seq<char>, n_pkgs: nat) -> bool {
        &&& self.holds_core(st, version, n_pkgs)
        &&& self.builder.deps().len() == 0
    }

    /// The dependencies added are `out`, in order.
    pub closed spec fn deps_are(self, out: Seq<(PackageID, PDep)>) -> bool {
        &&& self.builder.deps().len() == out.len()
        &&& forall|j: int|
            0 <= j < out.len() ==> pdep_matches(#[trigger] self.builder.deps()[j], out[j].1, out[j].0)
    }
}

/// The state is consistent: one entry and peer slot per package; every id it holds
/// names a package; the entries it points to are entries of `packages`.
pub open spec fn pstate_wf(st: PState, n_pkgs: nat) -> bool {
    &&& st.pkg_entry.len() == st.pkgs.len()
    &&& st.peer_of.len() == st.pkgs.len()
    &&& forall|j: int| 0 <= j < st.desc.len() ==> (#[trigger] st.desc[j]).1.id() < st.pkgs.len()
        && 0 <= st.pkg_entry[st.desc[j].1.id() as int] < n_pkgs
    &&& forall|j: int| 0 <= j < st.snaps.len() ==> (#[trigger] st.snaps[j]).1.id() < st.pkgs.len()
    &&& forall|j: int| 0 <= j < st.imp_pid.len() ==> (#[trigger] st.imp_pid[j]).id() < st.pkgs.len()
    &&& (st.root matches Some(r) ==> r.id() < st.pkgs.len())
    &&& forall|k: int| 0 <= k < st.peer_of.len() ==> (#[trigger] st.peer_of[k] matches Some(e) ==> 0 <= e < n_pkgs)
}

proof fn lemma_importers_run_err(lock: LockView, ms: Seq<(Seq<char>, (Option<Seq<char>>, Option<Seq<char>>))>, j: int, n: int)
    requires
        0 <= j <= n,
        importers_run(lock, ms, j) is Err,
    ensures
        importers_run(lock, ms, n) == importers_run(lock, ms, j),
    decreases n - j,
{
    if j < n {
        lemma_importers_run_err(lock, ms, j, n - 1);
    }
}

proof fn lemma_packages_run_err(st: PState, lock: LockView, j: int, n: int)
    requires
        0 <= j <= n,
        packages_run(st, lock, j) is Err,
    ensures
        packages_run(st, lock, n) == packages_run(st, lock, j),
    decreases n - j,
{
    if j < n {
        lemma_packages_run_err(st, lock, j, n - 1);
    }
}

proof fn lemma_patched_run_err(st: PState, lock: LockView, j: int, n: int)
    requires
        0 <= j <= n,
        patched_run(st, lock, j) is Err,
    ensures
        patched_run(st, lock, n) == patched_run(st, lock, j),
    decreases n - j,
{
    if j < n {
        lemma_patched_run_err(st, lock, j, n - 1);
    }
}

/// The first `package.json` given for `path`.
fn manifest_at_exec(ms: &Vec<(String, PackageJson)>, path: &str) -> (r: Option<usize>)
    ensures
        match r {
            Some(m) => manifest_at(manifests_view(ms@), path@, 0) == Some(m as int) && m < ms@.len(),
            None => manifest_at(manifests_view(ms@), path@, 0) is None,
        },
{
    let ghost mv = manifests_view(ms@);
    let mut m: usize = 0;
    while m < ms.len()
        invariant
            m <= ms.len(),
            mv == manifests_view(ms@),
            manifest_at(mv, path@, 0) == manifest_at(mv, path@, m as int),
        decreases ms.len() - m,
    {
        assert(mv[m as int].0 == ms@[m as int].0@);
        if str_eq(ms[m].0.as_str(), path) {
            return Some(m);
        }
        m = m + 1;
    }
    None
}

impl<'a> PnpmReader<'a> {
    fn new(version: &String, Ghost(n_pkgs): Ghost<nat>) -> (r: PnpmReader<'a>)
        ensures
            r.holds(empty_state(), version@, n_pkgs),
    {
        let r = PnpmReader {
            builder: ChastefileBuilder::new(Meta { lockfile_version: version.clone() }),
            imp_pid: Vec::new(),
            desc: Vec::new(),
            pkg_entry: Vec::new(),
            peer_of: Vec::new(),
            patches: Vec::new(),
            snaps: Vec::new(),
        };
        proof {
            assert(r.imp_pid@ =~= empty_state().imp_pid);
            assert(table_view(r.desc@) =~= empty_state().desc);
            assert(patches_view(r.patches@) =~= empty_state().patches);
            assert(snaps_view(r.snaps@) =~= empty_state().snaps);
        }
        r
    }

    /// Adds an importer (see [`importer_step`]).
    fn read_importer(&mut self, ms: &Vec<(String, PackageJson)>, path: &'a str, Ghost(st): Ghost<PState>, Ghost(version): Ghost<Seq<char>>, Ghost(n_pkgs): Ghost<nat>) -> (r: Result<(), Error>)
        requires
            old(self).holds(st, version, n_pkgs),
        ensures
            match importer_step(st, manifests_view(ms@), path@) {
                Ok(s2) => r is Ok && final(self).holds(s2, version, n_pkgs),
                Err(f) => r matches Err(e) && fail_is(e, f),
            },
            r matches Err(e) ==> !(e is UnknownLockfileVersion),
    {
        let m = match manifest_at_exec(ms, path) {
            Some(m) => m,
            None => return Err(Error::ManifestNotFound(path.to_owned())),
        };
        let j = &ms[m].1;
        let name = match &j.name {
            Some(n) => match PackageName::new(n.clone()) {
                Ok(x) => Some(x),
                Err(e) => return Err(Error::ChasteError(e)),
            },
            None => None,
        };
        let version_text = match &j.version {
            Some(v) => Some(v.clone()),
            None => None,
        };
        let p = match PackageBuilder::new(name, version_text).build() {
            Ok(p) => p,
            Err(e) => return Err(Error::ChasteError(e)),
        };
        proof {
            reveal_strlit(".");
            reveal_strlit("");
        }
        let is_root = str_eq(path, ".");
        let at = if is_root {
            String::new()
        } else {
            path.to_owned()
        };
        assert(at@ == (if path@ == "."@ { Seq::<char>::empty() } else { path@ }));
        let mp = match ModulePath::new(at) {
            Ok(x) => x,
            Err(e) => return Err(Error::ChasteError(e)),
        };
        let ghost b0 = self.builder;
        let pid = self.builder.add_package(p);
        proof {
            lemma_pid_at(st.pkgs.len());
        }
        if is_root {
            match self.builder.set_root_package_id(pid) {
                Ok(()) => {},
                Err(e) => return Err(Error::ChasteError(e)),
            }
        } else {
            match self.builder.set_as_workspace_member(pid) {
                Ok(()) => {},
                Err(e) => return Err(Error::ChasteError(e)),
            }
        }
        let inst = match InstallationBuilder::new(pid, mp).build() {
            Ok(i) => i,
            Err(e) => return Err(Error::ChasteError(e)),
        };
        self.builder.add_package_installation(inst);
        self.imp_pid.push(pid);
        self.pkg_entry.push(None);
        self.peer_of.push(None);
        proof {
            let s2 = importer_step(st, manifests_view(ms@), path@)->Ok_0;
            assert(manifests_view(ms@)[m as int].1 == (crate::yarn::classic_model::opt_view(j.name), crate::yarn::classic_model::opt_view(j.version)));
            assert forall|k: int| 0 <= k < s2.pkgs.len() implies pnpm_package_is(self.builder.spec_packages()[k], s2.pkgs[k]) by {
                if k < st.pkgs.len() {
                    assert(self.builder.spec_packages()[k] == b0.spec_packages()[k]);
                }
            }
            assert forall|k: int| 0 <= k < s2.pkg_entry.len() implies opt_index(self.pkg_entry@[k]) == s2.pkg_entry[k] by {
                if k < st.pkg_entry.len() {
                    assert(self.pkg_entry@[k] == old(self).pkg_entry@[k]);
                }
            }
            assert forall|k: int| 0 <= k < s2.peer_of.len() implies opt_entry(self.peer_of@[k]) == s2.peer_of[k] by {
                if k < st.peer_of.len() {
                    assert(self.peer_of@[k] == old(self).peer_of@[k]);
                }
            }
        }
        Ok(())
    }
}


/// Setting a key of the table keeps the ids and entries it names.
proof fn lemma_desc_set_wf(st: PState, k: Key, pid: PackageID, n_pkgs: nat)
    requires
        forall|j: int| 0 <= j < st.desc.len() ==> (#[trigger] st.desc[j]).1.id() < st.pkgs.len()
            && 0 <= st.pkg_entry[st.desc[j].1.id() as int] < n_pkgs,
        pid.id() < st.pkgs.len(),
        0 <= st.pkg_entry[pid.id() as int] < n_pkgs,
    ensures
        forall|j: int| 0 <= j < table_set(st.desc, k, pid).len() ==> (#[trigger] table_set(st.desc, k, pid)[j]).1.id() < st.pkgs.len()
            && 0 <= st.pkg_entry[table_set(st.desc, k, pid)[j].1.id() as int] < n_pkgs,
{
    let i = crate::yarn::berry_model::insert_pos(st.desc, k, 0);
    crate::yarn::berry_model::lemma_insert_pos(st.desc, k, 0);
    let t2 = table_set(st.desc, k, pid);
    assert forall|j: int| 0 <= j < t2.len() implies (#[trigger] t2[j]).1.id() < st.pkgs.len()
        && 0 <= st.pkg_entry[t2[j].1.id() as int] < n_pkgs by {
        if !(i < st.desc.len() && st.desc[i].0 == k) {
            if j > i {
                assert(t2[j] == st.desc[j - 1]);
            } else if j < i {
                assert(t2[j] == st.desc[j]);
            }
        } else if j != i {
            assert(t2[j] == st.desc[j]);
        }
    }
}

impl<'a> PnpmReader<'a> {
    /// Adds entry `i` of `packages` (see [`package_step`]).
    fn read_package(&mut self, i: usize, key: &'a str, p: &'a PackageEntry, Ghost(st): Ghost<PState>, Ghost(version): Ghost<Seq<char>>, Ghost(n_pkgs): Ghost<nat>) -> (r: Result<(), Error>)
        requires
            old(self).holds(st, version, n_pkgs),
            i < n_pkgs,
        ensures
            match package_step(st, i as int, key@, pkg_view(*p)) {
                Ok(s2) => r is Ok && final(self).holds(s2, version, n_pkgs),
                Err(f) => r matches Err(e) && fail_is(e, f),
            },
            r matches Err(e) ==> !(e is UnknownLockfileVersion),
    {
        let (name, svd) = match split_desc_exec(key) {
            Some(x) => x,
            None => return Err(Error::InvalidPackageDescriptor(key.to_owned())),
        };
        let pn = match PackageName::new(name.to_owned()) {
            Ok(n) => n,
            Err(e) => return Err(Error::ChasteError(e)),
        };
        let version_text: String = match &p.version {
            Some(v) => v.clone(),
            None => svd.to_owned(),
        };
        let mut b = PackageBuilder::new(Some(pn), Some(version_text));
        match &p.resolution.integrity {
            Some(t) => match parse_integrity(t.as_str()) {
                Ok(integrity) => if integrity.hashes.len() > 0 {
                    b.checksums(Checksums::Tarball(integrity));
                },
                Err(m) => return Err(Error::SSRIError(m)),
            },
            None => {},
        }
        match pkg_source_exec(p, svd) {
            Some(src) => b.source(src),
            None => {},
        }
        let built = match b.build() {
            Ok(x) => x,
            Err(e) => return Err(Error::ChasteError(e)),
        };
        let ghost b0 = self.builder;
        let pid = self.builder.add_package(built);
        proof {
            lemma_pid_at(st.pkgs.len());
        }
        self.pkg_entry.push(Some(i));
        self.peer_of.push(None);
        let ghost st1 = PState {
            pkgs: st.pkgs.push(package_step(st, i as int, key@, pkg_view(*p))->Ok_0.pkgs.last()),
            pkg_entry: st.pkg_entry.push(i as int),
            peer_of: st.peer_of.push(None),
            ..st
        };
        proof {
            lemma_desc_set_wf(st1, (name@, svd@), pid, n_pkgs);
        }
        crate::yarn::zpm_resolve::table_set_exec(&mut self.desc, (name, svd), pid);
        proof {
            let s2 = package_step(st, i as int, key@, pkg_view(*p))->Ok_0;
            assert(s2.pkgs == st1.pkgs);
            assert(pnpm_package_is(self.builder.spec_packages()[st.pkgs.len() as int], s2.pkgs.last()));
            assert(table_view(self.desc@) == s2.desc);
            assert forall|k: int| 0 <= k < s2.peer_of.len() implies (#[trigger] s2.peer_of[k] matches Some(e) ==> 0 <= e < n_pkgs) by {
                if k < st.peer_of.len() {
                    assert(s2.peer_of[k] == st.peer_of[k]);
                }
            }
            assert forall|j: int| 0 <= j < s2.snaps.len() implies (#[trigger] s2.snaps[j]).1.id() < s2.pkgs.len() by {
                assert(s2.snaps[j] == st.snaps[j]);
            }
            assert forall|j: int| 0 <= j < s2.imp_pid.len() implies (#[trigger] s2.imp_pid[j]).id() < s2.pkgs.len() by {
                assert(s2.imp_pid[j] == st.imp_pid[j]);
            }
            assert(s2.desc == table_set(st1.desc, (name@, svd@), pid));
            assert(s2.pkg_entry == st1.pkg_entry);
            assert(s2.pkgs.len() == st1.pkgs.len());
            assert(s2.pkg_entry.len() == s2.pkgs.len());
            assert(s2.peer_of.len() == s2.pkgs.len());
            assert(pstate_wf(s2, n_pkgs));
            assert(snaps_view(self.snaps@) == s2.snaps);
            assert(patches_view(self.patches@) == s2.patches);
            assert forall|k: int| 0 <= k < s2.pkgs.len() implies pnpm_package_is(self.builder.spec_packages()[k], s2.pkgs[k]) by {
                if k < st.pkgs.len() {
                    assert(self.builder.spec_packages()[k] == b0.spec_packages()[k]);
                }
            }
            assert forall|k: int| 0 <= k < s2.pkg_entry.len() implies opt_index(self.pkg_entry@[k]) == s2.pkg_entry[k] by {
                if k < st.pkg_entry.len() {
                    assert(self.pkg_entry@[k] == old(self).pkg_entry@[k]);
                }
            }
            assert forall|k: int| 0 <= k < s2.peer_of.len() implies opt_entry(self.peer_of@[k]) == s2.peer_of[k] by {
                if k < st.peer_of.len() {
                    assert(self.peer_of@[k] == old(self).peer_of@[k]);
                }
            }
        }
        Ok(())
    }
}


impl<'a> PnpmReader<'a> {
    /// The first patch stored for the name and hash `k`.
    fn patch_index_exec(&self, k: (&str, &str)) -> (r: Option<usize>)
        ensures
            match r {
                Some(j) => patch_index(patches_view(self.patches@), (k.0@, k.1@), 0) == Some(j as int) && j < self.patches@.len(),
                None => patch_index(patches_view(self.patches@), (k.0@, k.1@), 0) is None,
            },
    {
        let ghost pv = patches_view(self.patches@);
        let mut j: usize = 0;
        while j < self.patches.len()
            invariant
                j <= self.patches@.len(),
                pv == patches_view(self.patches@),
                patch_index(pv, (k.0@, k.1@), 0) == patch_index(pv, (k.0@, k.1@), j as int),
            decreases self.patches@.len() - j,
        {
            assert(pv[j as int].0 == (self.patches@[j as int].0.0@, self.patches@[j as int].0.1@));
            if str_eq(self.patches[j].0.0, k.0) && str_eq(self.patches[j].0.1, k.1) {
                return Some(j);
            }
            j = j + 1;
        }
        None
    }

    /// Adds an entry of `patchedDependencies` (see [`patched_step`]).
    fn read_patched(&mut self, key: &'a str, path: &'a str, hash: &'a str, Ghost(st): Ghost<PState>, Ghost(version): Ghost<Seq<char>>, Ghost(n_pkgs): Ghost<nat>) -> (r: Result<(), Error>)
        requires
            old(self).holds(st, version, n_pkgs),
        ensures
            match patched_step(st, key@, path@, hash@) {
                Ok(s2) => r is Ok && final(self).holds(s2, version, n_pkgs),
                Err(f) => r matches Err(e) && fail_is(e, f),
            },
            r matches Err(e) ==> !(e is UnknownLockfileVersion),
    {
        let v = chars_of(key);
        let l = match package_name_at_exec(&v, 0) {
            Some(p) => p.total_length,
            None => return Err(Error::InvalidPatchedPackageSpecifier(key.to_owned())),
        };
        if !(l == v.len() || (l < v.len() && v[l] == '@')) {
            return Err(Error::InvalidPatchedPackageSpecifier(key.to_owned()));
        }
        if !utf8_len_is_64(hash) {
            return Err(Error::InvalidPatchHash(hash.to_owned()));
        }
        match integrity_from_hex_sha256(hash) {
            Ok(_) => {},
            Err(m) => return Err(Error::SSRIError(m)),
        }
        let pn = key.substring_char(0, l);
        let ghost before = patches_view(self.patches@);
        let item = ((pn, hash), path);
        match self.patch_index_exec((pn, hash)) {
            Some(j) => {
                self.patches.set(j, item);
                assert(patches_view(self.patches@) =~= before.update(j as int, ((pn@, hash@), (path@, seq![(HashAlgorithm::Sha256, hex_digest(hash@))]))));
            },
            None => {
                self.patches.push(item);
                assert(patches_view(self.patches@) =~= before.push(((pn@, hash@), (path@, seq![(HashAlgorithm::Sha256, hex_digest(hash@))]))));
            },
        }
        proof {
            assert forall|j: int| 0 <= j < self.patches@.len() implies is_hex_text((#[trigger] self.patches@[j]).0.1@) by {
                if self.patches@[j] != item {
                    assert(old(self).patches@.contains(self.patches@[j]));
                }
            }
        }
        Ok(())
    }
}


/// The first position of the snapshot table whose key is not below `k`.
fn snap_pos_exec(t: &Vec<(&str, PackageID)>, k: &str) -> (r: usize)
    ensures
        r as int == snap_pos(snaps_view(t@), k@, 0),
        r <= t@.len(),
{
    let ghost tv = snaps_view(t@);
    let mut i: usize = 0;
    while i < t.len() && str_lt(t[i].0, k)
        invariant
            i <= t.len(),
            tv == snaps_view(t@),
            snap_pos(tv, k@, 0) == snap_pos(tv, k@, i as int),
        decreases t.len() - i,
    {
        assert(tv[i as int].0 == t@[i as int].0@);
        i = i + 1;
    }
    if i < t.len() {
        assert(tv[i as int].0 == t@[i as int].0@);
    }
    i
}

/// Sets the key `k` of the snapshot table to `pid`, at its place.
fn snap_set_exec<'b>(t: &mut Vec<(&'b str, PackageID)>, k: &'b str, pid: PackageID)
    ensures
        snaps_view(final(t)@) == snap_set(snaps_view(old(t)@), k@, pid),
{
    let ghost tv = snaps_view(t@);
    let i = snap_pos_exec(t, k);
    if i < t.len() && str_eq(t[i].0, k) {
        assert(tv[i as int].0 == t@[i as int].0@);
        t.set(i, (k, pid));
        assert(snaps_view(t@) =~= tv.update(i as int, (k@, pid)));
    } else {
        if i < t.len() {
            assert(tv[i as int].0 == t@[i as int].0@);
        }
        t.insert(i, (k, pid));
        assert(snaps_view(t@) =~= tv.insert(i as int, (k@, pid)));
    }
}

/// The package of the snapshot key `k`.
fn snap_get_exec(t: &Vec<(&str, PackageID)>, k: &str) -> (r: Option<PackageID>)
    ensures
        r == snap_get(snaps_view(t@), k@, 0),
{
    let ghost tv = snaps_view(t@);
    let mut i: usize = 0;
    while i < t.len()
        invariant
            i <= t.len(),
            tv == snaps_view(t@),
            snap_get(tv, k@, 0) == snap_get(tv, k@, i as int),
        decreases t.len() - i,
    {
        assert(tv[i as int] == (t@[i as int].0@, t@[i as int].1));
        if str_eq(t[i].0, k) {
            return Some(t[i].1);
        }
        i = i + 1;
    }
    None
}

/// The package of the name and specifier `k`.
fn desc_get_exec(t: &Vec<((&str, &str), PackageID)>, k: (&str, &str)) -> (r: Option<PackageID>)
    ensures
        r == desc_get(table_view(t@), (k.0@, k.1@), 0),
{
    let ghost tv = table_view(t@);
    let mut i: usize = 0;
    while i < t.len()
        invariant
            i <= t.len(),
            tv == table_view(t@),
            desc_get(tv, (k.0@, k.1@), 0) == desc_get(tv, (k.0@, k.1@), i as int),
        decreases t.len() - i,
    {
        assert(tv[i as int] == ((t@[i as int].0.0@, t@[i as int].0.1@), t@[i as int].1));
        if str_eq(t[i].0.0, k.0) && str_eq(t[i].0.1, k.1) {
            return Some(t[i].1);
        }
        i = i + 1;
    }
    None
}

/// The name of the first bracketed peer (see [`peer_name`]).
fn peer_name_exec(rest: &str) -> (r: Option<&str>)
    ensures
        match r {
            Some(n) => peer_name(rest@) == Some(n@),
            None => peer_name(rest@) is None,
        },
{
    let v = chars_of(rest);
    proof {
        reveal_strlit("(");
    }
    if !has_at_exec(&v, 0, "(") {
        return None;
    }
    match package_name_at_exec(&v, 1) {
        None => None,
        Some(p) => {
            let e = 1 + p.total_length;
            if e < v.len() && v[e] == '@' {
                Some(rest.substring_char(1, e))
            } else {
                None
            }
        },
    }
}

/// What follows `(inner)` at the start of `rest` (see [`bracketed`]).
fn bracketed_exec<'b>(rest: &'b str, inner: &str) -> (r: Option<&'b str>)
    ensures
        match r {
            Some(m) => bracketed(rest@, inner@) == Some(m@),
            None => bracketed(rest@, inner@) is None,
        },
{
    let v = chars_of(rest);
    proof {
        reveal_strlit("(");
        reveal_strlit(")");
    }
    let n = inner.unicode_len();
    if v.len() >= 1 && has_at_exec(&v, 0, "(") && has_at_exec(&v, 1, inner) && n + 1 <= v.len() && has_at_exec(&v, 1 + n, ")") {
        Some(rest.substring_char(n + 2, v.len()))
    } else {
        None
    }
}

/// `name@specifier`.
fn desc_text(name: &str, svd: &str) -> (r: String)
    ensures
        r@ == name@ + "@"@ + svd@,
{
    let mut s = String::from_str(name);
    s.append("@");
    s.append(svd);
    s
}

/// Whether `rest` is a list of bracketed peers (see [`key_rest`]).
fn key_rest_exec(snaps: &Vec<(&str, PackageID)>, desc: &Vec<((&str, &str), PackageID)>, rest: &str) -> (b: bool)
    ensures
        b == key_rest(snaps_view(snaps@), table_view(desc@), rest@),
    decreases rest@.len(), 2int, 0int,
{
    match peer_name_exec(rest) {
        None => false,
        Some(name) => {
            let i = snap_pos_exec(snaps, name);
            if snap_try_exec(snaps, desc, rest, name, i) {
                return true;
            }
            let c = candidates_of(desc.as_slice(), name);
            desc_try_exec(snaps, desc, rest, &c, 0)
        },
    }
}

/// The snapshot keys from `i` that start with `name` (see [`snap_try`]).
fn snap_try_exec(snaps: &Vec<(&str, PackageID)>, desc: &Vec<((&str, &str), PackageID)>, rest: &str, name: &str, i: usize) -> (b: bool)
    requires
        i <= snaps@.len(),
    ensures
        b == snap_try(snaps_view(snaps@), table_view(desc@), rest@, name@, i as int),
    decreases rest@.len(), 1int, snaps@.len() - i,
{
    let ghost sv = snaps_view(snaps@);
    if i < snaps.len() {
        assert(sv[i as int].0 == snaps@[i as int].0@);
        let kv = chars_of(snaps[i].0);
        if !has_at_exec(&kv, 0, name) {
            return false;
        }
        match bracketed_exec(rest, snaps[i].0) {
            Some(more) => {
                if more.unicode_len() == 0 {
                    return true;
                }
                if more.unicode_len() < rest.unicode_len() && key_rest_exec(snaps, desc, more) {
                    return true;
                }
                snap_try_exec(snaps, desc, rest, name, i + 1)
            },
            None => snap_try_exec(snaps, desc, rest, name, i + 1),
        }
    } else {
        false
    }
}

/// The names and specifiers of `c` from `j` (see [`desc_try`]).
fn desc_try_exec(snaps: &Vec<(&str, PackageID)>, desc: &Vec<((&str, &str), PackageID)>, rest: &str, c: &Vec<((&str, &str), PackageID)>, j: usize) -> (b: bool)
    requires
        j <= c@.len(),
    ensures
        b == desc_try(snaps_view(snaps@), table_view(desc@), rest@, table_view(c@), j as int),
    decreases rest@.len(), 1int, c@.len() - j,
{
    let ghost cv = table_view(c@);
    if j < c.len() {
        assert(cv[j as int].0 == (c@[j as int].0.0@, c@[j as int].0.1@));
        let inner = desc_text(c[j].0.0, c[j].0.1);
        match bracketed_exec(rest, inner.as_str()) {
            Some(more) => {
                if more.unicode_len() == 0 {
                    return true;
                }
                if more.unicode_len() < rest.unicode_len() && key_rest_exec(snaps, desc, more) {
                    return true;
                }
                desc_try_exec(snaps, desc, rest, c, j + 1)
            },
            None => desc_try_exec(snaps, desc, rest, c, j + 1),
        }
    } else {
        false
    }
}

/// The patch hash at the start of `s` (see [`patch_hash_at`]).
fn patch_hash_at_exec(s: &str) -> (r: Option<&str>)
    ensures
        match r {
            Some(h) => patch_hash_at(s@) == Some(h@),
            None => patch_hash_at(s@) is None,
        },
{
    let v = chars_of(s);
    proof {
        reveal_strlit("(patch_hash=");
    }
    if has_at_exec(&v, 0, "(patch_hash=") && v.len() >= 77 && v[76] == ')' {
        Some(s.substring_char(12, 76))
    } else {
        None
    }
}


proof fn lemma_snap_pos_bound(t: SnapTable, k: Seq<char>, i: int)
    requires
        0 <= i,
    ensures
        0 <= snap_pos(t, k, i) <= t.len(),
    decreases t.len() - i,
{
    if i < t.len() && seq_lt(t[i].0, k) {
        lemma_snap_pos_bound(t, k, i + 1);
    }
}

/// Setting a key of the snapshot table keeps every id it holds below `b`.
proof fn lemma_snap_set_ids(t: SnapTable, k: Seq<char>, pid: PackageID, b: nat)
    requires
        forall|j: int| 0 <= j < t.len() ==> (#[trigger] t[j]).1.id() < b,
        pid.id() < b,
    ensures
        forall|j: int| 0 <= j < snap_set(t, k, pid).len() ==> (#[trigger] snap_set(t, k, pid)[j]).1.id() < b,
{
    let i = snap_pos(t, k, 0);
    lemma_snap_pos_bound(t, k, 0);
    let t2 = snap_set(t, k, pid);
    assert forall|j: int| 0 <= j < t2.len() implies (#[trigger] t2[j]).1.id() < b by {
        if i < t.len() && t[i].0 == k {
            if j != i {
                assert(t2[j] == t[j]);
            }
        } else if j < i {
            assert(t2[j] == t[j]);
        } else if j > i {
            assert(t2[j] == t[j - 1]);
        }
    }
}

/// A package found by name and specifier is one of the table's.
proof fn lemma_desc_get_in(t: DescTable, k: Key, i: int)
    requires
        0 <= i,
    ensures
        desc_get(t, k, i) matches Some(p) ==> exists|j: int| 0 <= j < t.len() && (#[trigger] t[j]).1 == p,
    decreases t.len() - i,
{
    if i < t.len() && t[i].0 != k {
        lemma_desc_get_in(t, k, i + 1);
    }
}

proof fn lemma_name_lower_bound(t: DescTable, name: Seq<char>, i: int)
    requires
        0 <= i,
    ensures
        0 <= crate::yarn::berry_model::name_lower_bound(t, name, i) <= t.len(),
    decreases t.len() - i,
{
    if i < t.len() && seq_lt(t[i].0.0, name) {
        lemma_name_lower_bound(t, name, i + 1);
    }
}

/// The packages of one name are packages of the table.
proof fn lemma_candidates_in(t: DescTable, name: Seq<char>)
    ensures
        forall|j: int| 0 <= j < candidates(t, name).len() ==> exists|k: int| 0 <= k < t.len() && (#[trigger] candidates(t, name)[j]) == t[k],
{
    let lb = crate::yarn::berry_model::name_lower_bound(t, name, 0);
    lemma_name_lower_bound(t, name, 0);
    crate::yarn::berry_model::lemma_name_run(t, name, lb);
    assert forall|j: int| 0 <= j < candidates(t, name).len() implies exists|k: int| 0 <= k < t.len() && (#[trigger] candidates(t, name)[j]) == t[k] by {
        assert(candidates(t, name)[j] == t[lb + j]);
    }
}

impl<'a> PnpmReader<'a> {
    /// Sets the snapshot `key` to `pid`.
    fn set_snap(&mut self, key: &'a str, pid: PackageID, Ghost(st): Ghost<PState>, Ghost(version): Ghost<Seq<char>>, Ghost(n_pkgs): Ghost<nat>)
        requires
            old(self).holds(st, version, n_pkgs),
            pid.id() < st.pkgs.len(),
        ensures
            final(self).holds((PState { snaps: snap_set(st.snaps, key@, pid), ..st }), version, n_pkgs),
            final(self).imp_pid@ == old(self).imp_pid@,
    {
        snap_set_exec(&mut self.snaps, key, pid);
        proof {
            lemma_snap_set_ids(st.snaps, key@, pid, st.pkgs.len());
        }
    }

    /// Matches the snapshot `key` to `pid`, which gets the peer dependencies of entry
    /// `e` of `packages` (see [`record`]).
    fn record_exec(&mut self, key: &'a str, pid: PackageID, e: usize, Ghost(st): Ghost<PState>, Ghost(version): Ghost<Seq<char>>, Ghost(n_pkgs): Ghost<nat>)
        requires
            old(self).holds(st, version, n_pkgs),
            pid.id() < st.pkgs.len(),
            e < n_pkgs,
        ensures
            final(self).holds(record(st, key@, pid, e as int), version, n_pkgs),
            final(self).imp_pid@ == old(self).imp_pid@,
    {
        self.set_snap(key, pid, Ghost(st), Ghost(version), Ghost(n_pkgs));
        let ghost s1 = PState { snaps: snap_set(st.snaps, key@, pid), ..st };
        let ghost before = self.peer_of@;
        self.peer_of.set(pid.index(), Some(e));
        proof {
            let s2 = record(st, key@, pid, e as int);
            assert forall|k: int| 0 <= k < s2.peer_of.len() implies opt_entry(self.peer_of@[k]) == s2.peer_of[k] by {
                if k != pid.id() {
                    assert(self.peer_of@[k] == before[k]);
                }
            }
            assert forall|k: int| 0 <= k < s2.peer_of.len() implies (#[trigger] s2.peer_of[k] matches Some(x) ==> 0 <= x < n_pkgs) by {
                if k != pid.id() {
                    assert(s2.peer_of[k] == st.peer_of[k]);
                }
            }
        }
    }
}


/// The state after a patched package of `name` at `svd` is added, with the patch at
/// `q` and derived from `from`.
spec fn with_patched(st: PState, name: Seq<char>, svd: Seq<char>, q: int, from: PackageID) -> PState {
    PState {
        pkgs: st.pkgs.push(
            PPkg {
                name: Some(name),
                version: Some(svd),
                hashes: seq![],
                source: None,
                patch: Some((st.patches[q].1.0, st.patches[q].1.1, from)),
            },
        ),
        pkg_entry: st.pkg_entry.push(-1),
        peer_of: st.peer_of.push(None),
        ..st
    }
}

impl<'a> PnpmReader<'a> {
    /// Adds the package that the patch at `q` makes of `from`.
    fn add_patched(&mut self, name: &str, svd: &str, q: usize, from: PackageID, Ghost(st): Ghost<PState>, Ghost(version): Ghost<Seq<char>>, Ghost(n_pkgs): Ghost<nat>) -> (r: Result<PackageID, Error>)
        requires
            old(self).holds(st, version, n_pkgs),
            q < st.patches.len(),
            is_package_name(name@),
            from.id() < st.pkgs.len(),
        ensures
            semver_version_parses(svd@) ==> r == Ok::<PackageID, Error>(pid_at(st.pkgs.len()))
                && final(self).holds(with_patched(st, name@, svd@, q as int, from), version, n_pkgs),
            !semver_version_parses(svd@) ==> (r matches Err(e) && e matches Error::ChasteError(x) && x is SemverError),
            r matches Ok(p) ==> p.id() == st.pkgs.len(),
            r matches Err(e) ==> !(e is UnknownLockfileVersion),
            final(self).imp_pid@ == old(self).imp_pid@,
    {
        let path = self.patches[q].1;
        let hash = self.patches[q].0.1;
        assert(patches_view(self.patches@)[q as int] == ((self.patches@[q as int].0.0@, hash@), (path@, seq![(HashAlgorithm::Sha256, hex_digest(hash@))])));
        let integrity = match integrity_from_hex_sha256(hash) {
            Ok(i) => i,
            Err(m) => return Err(Error::SSRIError(m)),
        };
        let mut pb = PackagePatchBuilder::new(path.to_owned());
        pb.integrity(integrity);
        let patch = match pb.build() {
            Ok(x) => x,
            Err(e) => return Err(Error::ChasteError(e)),
        };
        let meta = match PackageDerivationMetaBuilder::new(PackageDerivation::Patch(patch), from).build() {
            Ok(x) => x,
            Err(e) => return Err(Error::ChasteError(e)),
        };
        let pn = match PackageName::new(name.to_owned()) {
            Ok(n) => n,
            Err(e) => return Err(Error::ChasteError(e)),
        };
        let mut b = PackageBuilder::new(Some(pn), Some(svd.to_owned()));
        b.derived(meta);
        let built = match b.build() {
            Ok(x) => x,
            Err(e) => return Err(Error::ChasteError(e)),
        };
        let ghost b0 = self.builder;
        let pid = self.builder.add_package(built);
        proof {
            lemma_pid_at(st.pkgs.len());
        }
        self.pkg_entry.push(None);
        self.peer_of.push(None);
        proof {
            let s2 = with_patched(st, name@, svd@, q as int, from);
            assert(pnpm_package_is(self.builder.spec_packages()[st.pkgs.len() as int], s2.pkgs.last()));
            assert forall|k: int| 0 <= k < s2.pkgs.len() implies pnpm_package_is(self.builder.spec_packages()[k], s2.pkgs[k]) by {
                if k < st.pkgs.len() {
                    assert(self.builder.spec_packages()[k] == b0.spec_packages()[k]);
                }
            }
            assert forall|k: int| 0 <= k < s2.pkg_entry.len() implies opt_index(self.pkg_entry@[k]) == s2.pkg_entry[k] by {
                if k < st.pkg_entry.len() {
                    assert(self.pkg_entry@[k] == old(self).pkg_entry@[k]);
                }
            }
            assert forall|k: int| 0 <= k < s2.peer_of.len() implies opt_entry(self.peer_of@[k]) == s2.peer_of[k] by {
                if k < st.peer_of.len() {
                    assert(self.peer_of@[k] == old(self).peer_of@[k]);
                }
            }
            assert forall|k: int| 0 <= k < s2.peer_of.len() implies (#[trigger] s2.peer_of[k] matches Some(x) ==> 0 <= x < n_pkgs) by {
                if k < st.peer_of.len() {
                    assert(s2.peer_of[k] == st.peer_of[k]);
                }
            }
            assert forall|j: int| 0 <= j < s2.desc.len() implies (#[trigger] s2.desc[j]).1.id() < s2.pkgs.len()
                && 0 <= s2.pkg_entry[s2.desc[j].1.id() as int] < n_pkgs by {
                assert(s2.desc[j] == st.desc[j]);
            }
            assert forall|j: int| 0 <= j < s2.snaps.len() implies (#[trigger] s2.snaps[j]).1.id() < s2.pkgs.len() by {
                assert(s2.snaps[j] == st.snaps[j]);
            }
            assert forall|j: int| 0 <= j < s2.imp_pid.len() implies (#[trigger] s2.imp_pid[j]).id() < s2.pkgs.len() by {
                assert(s2.imp_pid[j] == st.imp_pid[j]);
            }
        }
        Ok(pid)
    }
}


impl<'a> PnpmReader<'a> {
    /// Tries the packages `c` of the name of the snapshot `key` (see [`try_descs`]):
    /// whether one matched.
    fn try_descs_exec(&mut self, name: &'a str, srest: &'a str, key: &'a str, c: &Vec<((&str, &str), PackageID)>, Ghost(st): Ghost<PState>, Ghost(lock): Ghost<LockView>, Ghost(version): Ghost<Seq<char>>, Ghost(n_pkgs): Ghost<nat>) -> (r: Result<bool, Error>)
        requires
            old(self).holds(st, version, n_pkgs),
            split_desc(key@) == Some((name@, srest@)),
            forall|j: int| 0 <= j < c@.len() ==> (#[trigger] c@[j]).1.id() < st.pkgs.len()
                && 0 <= st.pkg_entry[c@[j].1.id() as int] < n_pkgs,
        ensures
            match try_descs(st, lock, name@, srest@, key@, table_view(c@), 0) {
                Ok((s2, b)) => r == Ok::<bool, Error>(b) && final(self).holds(s2, version, n_pkgs),
                Err(f) => r matches Err(e) && fail_is(e, f),
            },
            r matches Err(e) ==> !(e is UnknownLockfileVersion),
            final(self).imp_pid@ == old(self).imp_pid@,
    {
        let ghost imp0 = self.imp_pid@;
        let ghost cv = table_view(c@);
        let ghost mut gs = st;
        proof {
            law_name_prefix_is_name(key@);
        }
        let sv = chars_of(srest);
        let mut j: usize = 0;
        while j < c.len()
            invariant
                j <= c@.len(),
                cv == table_view(c@),
                sv@ == srest@,
                is_package_name(name@),
                self.holds(gs, version, n_pkgs),
                self.imp_pid@ == imp0,
                imp0 == old(self).imp_pid@,
                try_descs(st, lock, name@, srest@, key@, cv, 0) == try_descs(gs, lock, name@, srest@, key@, cv, j as int),
                forall|k: int| 0 <= k < c@.len() ==> (#[trigger] c@[k]).1.id() < gs.pkgs.len()
                    && 0 <= gs.pkg_entry[c@[k].1.id() as int] < n_pkgs,
            decreases c@.len() - j,
        {
            let svd = c[j].0.1;
            let pid = c[j].1;
            assert(cv[j as int] == ((c@[j as int].0.0@, svd@), pid));
            if !has_at_exec(&sv, 0, svd) {
                j = j + 1;
                continue;
            }
            let e: usize = match self.pkg_entry[pid.index()] {
                Some(e) => e,
                None => {
                    assert(opt_index(self.pkg_entry@[pid.id() as int]) == gs.pkg_entry[pid.id() as int]);
                    return Err(Error::InvalidSnapshotDescriptor(key.to_owned()));
                },
            };
            assert(opt_index(self.pkg_entry@[pid.id() as int]) == gs.pkg_entry[pid.id() as int]);
            let suffix = srest.substring_char(svd.unicode_len(), sv.len());
            match patch_hash_at_exec(suffix) {
                Some(h) => {
                    let q = match self.patch_index_exec((name, h)) {
                        Some(q) => q,
                        None => return Err(Error::InvalidPatchHash(h.to_owned())),
                    };
                    let ppid = match self.add_patched(name, svd, q, pid, Ghost(gs), Ghost(version), Ghost(n_pkgs)) {
                        Ok(p) => p,
                        Err(e) => return Err(e),
                    };
                    let ghost s2 = with_patched(gs, name@, svd@, q as int, pid);
                    let suff = suffix.substring_char(77, suffix.unicode_len());
                    if suff.unicode_len() == 0 {
                        self.set_snap(key, ppid, Ghost(s2), Ghost(version), Ghost(n_pkgs));
                        return Ok(true);
                    }
                    if key_rest_exec(&self.snaps, &self.desc, suff) {
                        self.record_exec(key, ppid, e, Ghost(s2), Ghost(version), Ghost(n_pkgs));
                        return Ok(true);
                    }
                    proof {
                        assert forall|k: int| 0 <= k < c@.len() implies (#[trigger] c@[k]).1.id() < s2.pkgs.len()
                            && 0 <= s2.pkg_entry[c@[k].1.id() as int] < n_pkgs by {
                            assert(s2.pkg_entry[c@[k].1.id() as int] == gs.pkg_entry[c@[k].1.id() as int]);
                        }
                        gs = s2;
                    }
                },
                None => {
                    if key_rest_exec(&self.snaps, &self.desc, suffix) {
                        self.record_exec(key, pid, e, Ghost(gs), Ghost(version), Ghost(n_pkgs));
                        return Ok(true);
                    }
                },
            }
            j = j + 1;
        }
        Ok(false)
    }
}


/// A copy of the table of names and specifiers.
fn copy_table<'b>(t: &Vec<((&'b str, &'b str), PackageID)>) -> (r: Vec<((&'b str, &'b str), PackageID)>)
    ensures
        r@ == t@,
{
    let mut r: Vec<((&'b str, &'b str), PackageID)> = Vec::new();
    let mut i: usize = 0;
    while i < t.len()
        invariant
            i <= t@.len(),
            r@ == t@.subrange(0, i as int),
        decreases t@.len() - i,
    {
        r.push(t[i]);
        i = i + 1;
        assert(r@ =~= t@.subrange(0, i as int));
    }
    assert(t@.subrange(0, i as int) =~= t@);
    r
}

/// The queue from position `h`, as indices of `snapshots`.
spec fn live(q: Seq<usize>, h: int) -> Seq<int> {
    q.subrange(h, q.len() as int).map_values(|x: usize| x as int)
}

impl<'a> PnpmReader<'a> {
    /// Matches the snapshots to packages (see [`queue_run`]).
    fn read_snapshots(&mut self, lock: &'a PnpmLockfile, Ghost(st): Ghost<PState>) -> (r: Result<(), Error>)
        requires
            old(self).holds(st, lock@.version, lock@.packages.len()),
        ensures
            match queue_run(st, lock@, all_snaps(lock@.snapshots.len()), 0) {
                Ok(s2) => r is Ok && final(self).holds(s2, lock@.version, lock@.packages.len()),
                Err(f) => r matches Err(e) && fail_is(e, f),
            },
            r matches Err(e) ==> !(e is UnknownLockfileVersion),
            final(self).imp_pid@ == old(self).imp_pid@,
    {
        let ghost imp0 = self.imp_pid@;
        let ghost lv = lock@;
        let ghost version = lock@.version;
        let ghost n_pkgs = lock@.packages.len();
        let n = lock.snapshots.len();
        let mut q: Vec<usize> = Vec::new();
        let mut k: usize = 0;
        while k < n
            invariant
                k <= n,
                n == lv.snapshots.len(),
                q@.len() == k,
                forall|x: int| 0 <= x < k ==> q@[x] == x,
            decreases n - k,
        {
            q.push(k);
            k = k + 1;
        }
        assert(live(q@, 0) =~= all_snaps(lv.snapshots.len()));
        let ghost mut gs = st;
        let mut h: usize = 0;
        let mut lap: usize = 0;
        while h < q.len()
            invariant
                h <= q@.len(),
                n == lv.snapshots.len(),
                lv == lock@,
                version == lock@.version,
                n_pkgs == lock@.packages.len(),
                forall|x: int| 0 <= x < q@.len() ==> (#[trigger] q@[x]) < n,
                self.holds(gs, version, n_pkgs),
                self.imp_pid@ == imp0,
                imp0 == old(self).imp_pid@,
                lap <= q@.len() - h,
                queue_run(st, lv, all_snaps(lv.snapshots.len()), 0) == queue_run(gs, lv, live(q@, h as int), lap as int),
            decreases q@.len() - h, q@.len() - h + 1 - lap,
        {
            let i = q[h];
            let key = lock.snapshots[i].0.as_str();
            let ghost lq = live(q@, h as int);
            proof {
                assert(lq[0] == i as int);
                assert(live(q@, h + 1) =~= lq.drop_first());
                assert(lv.snapshots[i as int].0 == key@);
            }
            let (name, srest) = match split_desc_exec(key) {
                Some(x) => x,
                None => return Err(Error::InvalidPackageDescriptor(key.to_owned())),
            };
            match desc_get_exec(&self.desc, (name, srest)) {
                Some(pid) => {
                    proof {
                        lemma_desc_get_in(gs.desc, (name@, srest@), 0);
                        let j = choose|j: int| 0 <= j < gs.desc.len() && (#[trigger] gs.desc[j]).1 == pid;
                        assert(gs.desc[j].1 == pid);
                    }
                    assert(opt_index(self.pkg_entry@[pid.id() as int]) == gs.pkg_entry[pid.id() as int]);
                    let e: usize = match self.pkg_entry[pid.index()] {
                        Some(e) => e,
                        None => return Err(Error::InvalidSnapshotDescriptor(key.to_owned())),
                    };
                    self.record_exec(key, pid, e, Ghost(gs), Ghost(version), Ghost(n_pkgs));
                    proof {
                        gs = record(gs, key@, pid, e as int);
                    }
                    h = h + 1;
                    lap = 0;
                },
                None => {
                    let dcopy = copy_table(&self.desc);
                    let c = candidates_of(dcopy.as_slice(), name);
                    proof {
                        lemma_candidates_in(gs.desc, name@);
                        assert forall|x: int| 0 <= x < c@.len() implies (#[trigger] c@[x]).1.id() < gs.pkgs.len()
                            && 0 <= gs.pkg_entry[c@[x].1.id() as int] < n_pkgs by {
                            assert(table_view(c@)[x].1 == c@[x].1);
                            let y = choose|y: int| 0 <= y < gs.desc.len() && candidates(gs.desc, name@)[x] == gs.desc[y];
                            assert(gs.desc[y].1 == c@[x].1);
                        }
                    }
                    let ghost g0 = gs;
                    let found = self.try_descs_exec(name, srest, key, &c, Ghost(gs), Ghost(lv), Ghost(version), Ghost(n_pkgs));
                    proof {
                        gs = try_descs(g0, lv, name@, srest@, key@, candidates(g0.desc, name@), 0)->Ok_0.0;
                    }
                    match found {
                        Err(e) => return Err(e),
                        Ok(true) => {
                            h = h + 1;
                            lap = 0;
                        },
                        Ok(false) => {
                            if lap > q.len() - h - 1 {
                                return Err(Error::InvalidSnapshotDescriptor(key.to_owned()));
                            }
                            q.push(i);
                            proof {
                                assert(live(q@, h + 1) =~= lq.drop_first().push(i as int));
                            }
                            h = h + 1;
                            lap = lap + 1;
                        },
                    }
                },
            }
        }
        proof {
            assert(live(q@, h as int).len() == 0);
        }
        Ok(())
    }
}


/// The package of a dependency `name` at `version` (see [`find_dep`]).
fn find_dep_exec(t: &Vec<(&str, PackageID)>, name: &str, version: &str) -> (r: Option<(PackageID, bool)>)
    ensures
        r == find_dep(snaps_view(t@), name@, version@),
{
    let ghost tv = snaps_view(t@);
    let full = desc_text(name, version);
    let mut i = snap_pos_exec(t, name);
    let mut scanning = true;
    while scanning && i < t.len()
        invariant
            i <= t@.len(),
            tv == snaps_view(t@),
            full@ == name@ + "@"@ + version@,
            scanning ==> scan_dep(tv, name@, version@, snap_pos(tv, name@, 0)) == scan_dep(tv, name@, version@, i as int),
            !scanning ==> scan_dep(tv, name@, version@, snap_pos(tv, name@, 0)) is None,
        decreases t@.len() - i + if scanning { 1int } else { 0int },
    {
        assert(tv[i as int] == (t@[i as int].0@, t@[i as int].1));
        let kv = chars_of(t[i].0);
        if !has_at_exec(&kv, 0, name) {
            scanning = false;
        } else if str_eq(t[i].0, full.as_str()) {
            return Some((t[i].1, false));
        } else {
            i = i + 1;
        }
    }
    match snap_get_exec(t, version) {
        Some(p) => Some((p, true)),
        None => None,
    }
}

proof fn lemma_imp_list_run_err(st: PState, from: PackageID, kind: DependencyKind, ds: Seq<crate::pnpm::ImpDepView>, out: Seq<(PackageID, PDep)>, j: int, n: int)
    requires
        0 <= j <= n,
        imp_list_run(st, from, kind, ds, out, j) is Err,
    ensures
        imp_list_run(st, from, kind, ds, out, n) == imp_list_run(st, from, kind, ds, out, j),
    decreases n - j,
{
    if j < n {
        lemma_imp_list_run_err(st, from, kind, ds, out, j, n - 1);
    }
}

/// Every dependency of `out` leaves and points to one of the first `n` packages.
pub open spec fn deps_in(out: Seq<(PackageID, PDep)>, n: nat) -> bool {
    forall|j: int| 0 <= j < out.len() ==> (#[trigger] out[j]).0.id() < n && out[j].1.on.id() < n
}

proof fn lemma_scan_dep_in(t: SnapTable, name: Seq<char>, version: Seq<char>, i: int)
    requires
        0 <= i,
    ensures
        scan_dep(t, name, version, i) matches Some(p) ==> exists|j: int| 0 <= j < t.len() && (#[trigger] t[j]).1 == p,
    decreases t.len() - i,
{
    if 0 <= i < t.len() && has_at(t[i].0, 0, name) && t[i].0 != name + "@"@ + version {
        lemma_scan_dep_in(t, name, version, i + 1);
    }
}

/// A package found for a dependency is one of the snapshot table's.
proof fn lemma_find_dep_in(t: SnapTable, name: Seq<char>, version: Seq<char>, b: nat)
    requires
        forall|j: int| 0 <= j < t.len() ==> (#[trigger] t[j]).1.id() < b,
    ensures
        find_dep(t, name, version) matches Some((p, _)) ==> p.id() < b,
{
    lemma_snap_pos_bound(t, name, 0);
    lemma_scan_dep_in(t, name, version, snap_pos(t, name, 0));
    lemma_snap_get_in(t, version, 0);
}

impl<'a> PnpmReader<'a> {
    /// Adds the dependencies of one list of an importer (see [`imp_list_run`]).
    fn read_imp_list(&mut self, from: PackageID, kind: DependencyKind, ds: &Vec<(String, ImporterDependency)>, Ghost(st): Ghost<PState>, Ghost(version): Ghost<Seq<char>>, Ghost(n_pkgs): Ghost<nat>, Ghost(out): Ghost<Seq<(PackageID, PDep)>>) -> (r: Result<(), Error>)
        requires
            old(self).holds_core(st, version, n_pkgs),
            old(self).deps_are(out),
            deps_in(out, st.pkgs.len()),
            from.id() < st.pkgs.len(),
        ensures
            final(self).holds_core(st, version, n_pkgs),
            match imp_list_run(st, from, kind, imp_deps_view(ds@), out, ds@.len() as int) {
                Ok(o) => r is Ok && final(self).deps_are(o) && deps_in(o, st.pkgs.len()),
                Err(f) => r matches Err(e) && fail_is(e, f),
            },
            r matches Err(e) ==> !(e is UnknownLockfileVersion),
    {
        let ghost dv = imp_deps_view(ds@);
        let ghost mut go = out;
        proof {
            reveal_strlit("link:");
        }
        let mut k: usize = 0;
        while k < ds.len()
            invariant
                k <= ds@.len(),
                dv == imp_deps_view(ds@),
                self.holds_core(st, version, n_pkgs),
                self.deps_are(go),
                deps_in(go, st.pkgs.len()),
                from.id() < st.pkgs.len(),
                imp_list_run(st, from, kind, dv, out, k as int) == Ok::<Seq<(PackageID, PDep)>, PFail>(go),
                snaps_view(self.snaps@) == st.snaps,
            decreases ds@.len() - k,
        {
            let name = ds[k].0.as_str();
            let spec = ds[k].1.specifier.as_str();
            let ver = ds[k].1.version.as_str();
            assert(dv[k as int] == (name@, (spec@, ver@)));
            let vv = chars_of(ver);
            if !has_at_exec(&vv, 0, "link:") {
                match find_dep_exec(&self.snaps, name, ver) {
                    None => {
                        proof {
                            lemma_imp_list_run_err(st, from, kind, dv, out, k + 1, ds@.len() as int);
                        }
                        return Err(Error::DependencyPackageNotFound(desc_text(name, ver)));
                    },
                    Some((p, aliased)) => {
                        proof {
                            lemma_find_dep_in(st.snaps, name@, ver@, st.pkgs.len());
                            if imp_list_run(st, from, kind, dv, out, k + 1) is Err {
                                lemma_imp_list_run_err(st, from, kind, dv, out, k + 1, ds@.len() as int);
                            }
                        }
                        let mut db = DependencyBuilder::new(kind, from, p);
                        if aliased {
                            match PackageName::new(name.to_owned()) {
                                Ok(n) => db.alias_name(n),
                                Err(e) => return Err(Error::ChasteError(e)),
                            }
                        }
                        match SourceVersionSpecifier::new(spec.to_owned()) {
                            Ok(x) => db.svs(x),
                            Err(e) => return Err(Error::ChasteError(e)),
                        }
                        let ghost b0 = self.builder;
                        self.builder.add_dependency(db.build());
                        let ghost v = PDep {
                            kind,
                            on: p,
                            svs: Some(spec@),
                            alias: if aliased {
                                Some(name@)
                            } else {
                                None
                            },
                        };
                        proof {
                            assert forall|j: int| 0 <= j < go.push((from, v)).len() implies pdep_matches(
                                #[trigger] self.builder.deps()[j],
                                go.push((from, v))[j].1,
                                go.push((from, v))[j].0,
                            ) by {
                                if j < go.len() {
                                    assert(self.builder.deps()[j] == b0.deps()[j]);
                                }
                            }
                            go = go.push((from, v));
                        }
                    },
                }
            }
            k = k + 1;
        }
        Ok(())
    }
}


/// The first pair of `ps` named `name` (see [`pair_get`]).
fn pair_get_exec<'b>(ps: &'b Vec<(String, String)>, name: &str) -> (r: Option<&'b str>)
    ensures
        match r {
            Some(x) => pair_get(pairs_view(ps@), name@, 0) == Some(x@),
            None => pair_get(pairs_view(ps@), name@, 0) is None,
        },
{
    let ghost pv = pairs_view(ps@);
    let mut i: usize = 0;
    while i < ps.len()
        invariant
            i <= ps@.len(),
            pv == pairs_view(ps@),
            pair_get(pv, name@, 0) == pair_get(pv, name@, i as int),
        decreases ps@.len() - i,
    {
        assert(pv[i as int] == (ps@[i as int].0@, ps@[i as int].1@));
        if str_eq(ps[i].0.as_str(), name) {
            return Some(ps[i].1.as_str());
        }
        i = i + 1;
    }
    None
}

/// A package found by snapshot key is one of the table's.
proof fn lemma_snap_get_in(t: SnapTable, k: Seq<char>, i: int)
    requires
        0 <= i,
    ensures
        snap_get(t, k, i) matches Some(p) ==> exists|j: int| 0 <= j < t.len() && (#[trigger] t[j]).1 == p,
    decreases t.len() - i,
{
    if i < t.len() && t[i].0 != k {
        lemma_snap_get_in(t, k, i + 1);
    }
}

proof fn lemma_snap_list_run_err(st: PState, lock: LockView, from: PackageID, optional: bool, ds: crate::yarn::lockfile::PairsView, out: Seq<(PackageID, PDep)>, j: int, n: int)
    requires
        0 <= j <= n,
        snap_list_run(st, lock, from, optional, ds, out, j) is Err,
    ensures
        snap_list_run(st, lock, from, optional, ds, out, n) == snap_list_run(st, lock, from, optional, ds, out, j),
    decreases n - j,
{
    if j < n {
        lemma_snap_list_run_err(st, lock, from, optional, ds, out, j, n - 1);
    }
}

impl<'a> PnpmReader<'a> {
    /// Adds the dependencies of one list of a snapshot of `from` (see [`snap_list_run`]).
    fn read_snap_list(&mut self, lock: &PnpmLockfile, from: PackageID, optional: bool, ds: &Vec<(String, String)>, Ghost(st): Ghost<PState>, Ghost(out): Ghost<Seq<(PackageID, PDep)>>) -> (r: Result<(), Error>)
        requires
            old(self).holds_core(st, lock@.version, lock@.packages.len()),
            old(self).deps_are(out),
            from.id() < st.pkgs.len(),
            deps_in(out, st.pkgs.len()),
        ensures
            final(self).holds_core(st, lock@.version, lock@.packages.len()),
            match snap_list_run(st, lock@, from, optional, pairs_view(ds@), out, ds@.len() as int) {
                Ok(o) => r is Ok && final(self).deps_are(o) && deps_in(o, st.pkgs.len()),
                Err(f) => r matches Err(e) && fail_is(e, f),
            },
            r matches Err(e) ==> !(e is UnknownLockfileVersion),
    {
        let ghost dv = pairs_view(ds@);
        let ghost lv = lock@;
        let ghost n_pkgs = lock@.packages.len();
        let ghost mut go = out;
        let mut k: usize = 0;
        assert(opt_entry(self.peer_of@[from.id() as int]) == st.peer_of[from.id() as int]);
        let pe: Option<usize> = self.peer_of[from.index()];
        while k < ds.len()
            invariant
                k <= ds@.len(),
                dv == pairs_view(ds@),
                lv == lock@,
                n_pkgs == lock@.packages.len(),
                from.id() < st.pkgs.len(),
                opt_entry(pe) == st.peer_of[from.id() as int],
                self.holds_core(st, lv.version, n_pkgs),
                self.deps_are(go),
                deps_in(go, st.pkgs.len()),
                snap_list_run(st, lv, from, optional, dv, out, k as int) == Ok::<Seq<(PackageID, PDep)>, PFail>(go),
            decreases ds@.len() - k,
        {
            let name = ds[k].0.as_str();
            let svd = ds[k].1.as_str();
            assert(dv[k as int] == (name@, svd@));
            let peer: Option<&str> = match pe {
                Some(e) => {
                    assert(pstate_wf(st, n_pkgs));
                    assert(st.peer_of[from.id() as int] matches Some(x) ==> 0 <= x < n_pkgs);
                    assert(lv.packages[e as int].1.peers == pairs_view(lock.packages@[e as int].1.peer_dependencies@));
                    pair_get_exec(&lock.packages[e].1.peer_dependencies, name)
                },
                None => None,
            };
            let kind = match (peer.is_some(), optional) {
                (true, false) => DependencyKind::PeerDependency,
                (true, true) => DependencyKind::OptionalPeerDependency,
                (false, false) => DependencyKind::Dependency,
                (false, true) => DependencyKind::OptionalDependency,
            };
            proof {
                if snap_list_run(st, lv, from, optional, dv, out, k + 1) is Err {
                    lemma_snap_list_run_err(st, lv, from, optional, dv, out, k + 1, ds@.len() as int);
                }
            }
            proof {
                lemma_find_dep_in(st.snaps, name@, svd@, st.pkgs.len());
            }
            let p = match find_dep_exec(&self.snaps, name, svd) {
                None => return Err(Error::DependencyPackageNotFound(desc_text(name, svd))),
                Some((p, _)) => p,
            };
            let mut db = DependencyBuilder::new(kind, from, p);
            match peer {
                Some(x) => match SourceVersionSpecifier::new(x.to_owned()) {
                    Ok(v) => db.svs(v),
                    Err(e) => return Err(Error::ChasteError(e)),
                },
                None => {},
            }
            let ghost b0 = self.builder;
            self.builder.add_dependency(db.build());
            let ghost v = snap_dep(st, lv, from, optional, (name@, svd@))->Ok_0;
            proof {
                assert forall|j: int| 0 <= j < go.push((from, v)).len() implies pdep_matches(
                    #[trigger] self.builder.deps()[j],
                    go.push((from, v))[j].1,
                    go.push((from, v))[j].0,
                ) by {
                    if j < go.len() {
                        assert(self.builder.deps()[j] == b0.deps()[j]);
                    }
                }
                go = go.push((from, v));
            }
            k = k + 1;
        }
        Ok(())
    }
}


proof fn lemma_snaps_deps_run_err(st: PState, lock: LockView, out: Seq<(PackageID, PDep)>, j: int, n: int)
    requires
        0 <= j <= n,
        snaps_deps_run(st, lock, out, j) is Err,
    ensures
        snaps_deps_run(st, lock, out, n) == snaps_deps_run(st, lock, out, j),
    decreases n - j,
{
    if j < n {
        lemma_snaps_deps_run_err(st, lock, out, j, n - 1);
    }
}

proof fn lemma_imps_deps_run_err(st: PState, lock: LockView, j: int, n: int)
    requires
        0 <= j <= n,
        imps_deps_run(st, lock, j) is Err,
    ensures
        imps_deps_run(st, lock, n) == imps_deps_run(st, lock, j),
    decreases n - j,
{
    if j < n {
        lemma_imps_deps_run_err(st, lock, j, n - 1);
    }
}

impl<'a> PnpmReader<'a> {
    /// Adds the dependencies of every snapshot (see [`snaps_deps_run`]).
    fn read_snap_deps(&mut self, lock: &PnpmLockfile, Ghost(st): Ghost<PState>, Ghost(out): Ghost<Seq<(PackageID, PDep)>>) -> (r: Result<(), Error>)
        requires
            old(self).holds_core(st, lock@.version, lock@.packages.len()),
            old(self).deps_are(out),
            deps_in(out, st.pkgs.len()),
        ensures
            final(self).holds_core(st, lock@.version, lock@.packages.len()),
            match snaps_deps_run(st, lock@, out, lock@.snapshots.len() as int) {
                Ok(o) => r is Ok && final(self).deps_are(o) && deps_in(o, st.pkgs.len()),
                Err(f) => r matches Err(e) && fail_is(e, f),
            },
            r matches Err(e) ==> !(e is UnknownLockfileVersion),
    {
        let ghost lv = lock@;
        let ghost n_pkgs = lock@.packages.len();
        let ghost mut go = out;
        let mut k: usize = 0;
        while k < lock.snapshots.len()
            invariant
                k <= lv.snapshots.len(),
                lv == lock@,
                n_pkgs == lock@.packages.len(),
                self.holds_core(st, lv.version, n_pkgs),
                self.deps_are(go),
                deps_in(go, st.pkgs.len()),
                snaps_deps_run(st, lv, out, k as int) == Ok::<Seq<(PackageID, PDep)>, PFail>(go),
            decreases lv.snapshots.len() - k,
        {
            let key = lock.snapshots[k].0.as_str();
            let snap = &lock.snapshots[k].1;
            assert(lv.snapshots[k as int] == (key@, (pairs_view(snap.dependencies@), pairs_view(snap.optional_dependencies@))));
            proof {
                if snaps_deps_run(st, lv, out, k + 1) is Err {
                    lemma_snaps_deps_run_err(st, lv, out, k + 1, lv.snapshots.len() as int);
                }
            }
            let from = match snap_get_exec(&self.snaps, key) {
                Some(p) => p,
                None => return Err(Error::InvalidSnapshotDescriptor(key.to_owned())),
            };
            proof {
                lemma_snap_get_in(st.snaps, key@, 0);
                let j = choose|j: int| 0 <= j < st.snaps.len() && (#[trigger] st.snaps[j]).1 == from;
                assert(st.snaps[j].1 == from);
            }
            let ghost o1 = snap_list_run(st, lv, from, false, pairs_view(snap.dependencies@), go, snap.dependencies@.len() as int);
            match self.read_snap_list(lock, from, false, &snap.dependencies, Ghost(st), Ghost(go)) {
                Ok(()) => {},
                Err(e) => return Err(e),
            }
            match self.read_snap_list(lock, from, true, &snap.optional_dependencies, Ghost(st), Ghost(o1->Ok_0)) {
                Ok(()) => {},
                Err(e) => return Err(e),
            }
            proof {
                go = snaps_deps_run(st, lv, out, k + 1)->Ok_0;
            }
            k = k + 1;
        }
        Ok(())
    }

    /// Adds the dependencies of importer `i`, list by list (see [`imp_lists_run`]).
    fn read_imp_lists(&mut self, lock: &PnpmLockfile, i: usize, Ghost(st): Ghost<PState>, Ghost(out): Ghost<Seq<(PackageID, PDep)>>) -> (r: Result<(), Error>)
        requires
            old(self).holds_core(st, lock@.version, lock@.packages.len()),
            old(self).deps_are(out),
            deps_in(out, st.pkgs.len()),
            i < lock@.importers.len(),
            st.imp_pid.len() == lock@.importers.len(),
        ensures
            final(self).holds_core(st, lock@.version, lock@.packages.len()),
            match imp_lists_run(st, lock@, i as int, out, 4) {
                Ok(o) => r is Ok && final(self).deps_are(o) && deps_in(o, st.pkgs.len()),
                Err(f) => r matches Err(e) && fail_is(e, f),
            },
            r matches Err(e) ==> !(e is UnknownLockfileVersion),
    {
        let ghost lv = lock@;
        let ghost n_pkgs = lock@.packages.len();
        let imp = &lock.importers[i].1;
        let from = self.imp_pid[i];
        let ghost ls = lv.importers[i as int].1;
        assert(ls == crate::pnpm::importer_view(*imp));
        assert(from == st.imp_pid[i as int]);
        let ghost o1 = imp_list_run(st, from, DependencyKind::Dependency, ls[0].0, out, ls[0].0.len() as int);
        assert(imp_lists_run(st, lv, i as int, out, 0) == Ok::<Seq<(PackageID, PDep)>, PFail>(out));
        assert(ls[0] == (imp_deps_view(imp.dependencies@), DependencyKind::Dependency));
        assert(imp_lists_run(st, lv, i as int, out, 1) == o1);
        match self.read_imp_list(from, DependencyKind::Dependency, &imp.dependencies, Ghost(st), Ghost(lv.version), Ghost(n_pkgs), Ghost(out)) {
            Ok(()) => {},
            Err(e) => return Err(e),
        }
        let ghost o2 = imp_list_run(st, from, DependencyKind::DevDependency, ls[1].0, o1->Ok_0, ls[1].0.len() as int);
        assert(imp_lists_run(st, lv, i as int, out, 2) == o2);
        match self.read_imp_list(from, DependencyKind::DevDependency, &imp.dev_dependencies, Ghost(st), Ghost(lv.version), Ghost(n_pkgs), Ghost(o1->Ok_0)) {
            Ok(()) => {},
            Err(e) => return Err(e),
        }
        let ghost o3 = imp_list_run(st, from, DependencyKind::PeerDependency, ls[2].0, o2->Ok_0, ls[2].0.len() as int);
        assert(imp_lists_run(st, lv, i as int, out, 3) == o3);
        match self.read_imp_list(from, DependencyKind::PeerDependency, &imp.peer_dependencies, Ghost(st), Ghost(lv.version), Ghost(n_pkgs), Ghost(o2->Ok_0)) {
            Ok(()) => {},
            Err(e) => return Err(e),
        }
        assert(imp_lists_run(st, lv, i as int, out, 4) == imp_list_run(st, from, DependencyKind::OptionalDependency, ls[3].0, o3->Ok_0, ls[3].0.len() as int));
        self.read_imp_list(from, DependencyKind::OptionalDependency, &imp.optional_dependencies, Ghost(st), Ghost(lv.version), Ghost(n_pkgs), Ghost(o3->Ok_0))
    }

    /// Adds the dependencies of every importer (see [`imps_deps_run`]).
    fn read_imp_deps(&mut self, lock: &PnpmLockfile, Ghost(st): Ghost<PState>) -> (r: Result<(), Error>)
        requires
            old(self).holds(st, lock@.version, lock@.packages.len()),
            st.imp_pid.len() == lock@.importers.len(),
        ensures
            final(self).holds_core(st, lock@.version, lock@.packages.len()),
            match imps_deps_run(st, lock@, lock@.importers.len() as int) {
                Ok(o) => r is Ok && final(self).deps_are(o) && deps_in(o, st.pkgs.len()),
                Err(f) => r matches Err(e) && fail_is(e, f),
            },
            r matches Err(e) ==> !(e is UnknownLockfileVersion),
    {
        let ghost lv = lock@;
        let ghost n_pkgs = lock@.packages.len();
        let ghost mut go: Seq<(PackageID, PDep)> = seq![];
        let mut i: usize = 0;
        while i < lock.importers.len()
            invariant
                i <= lv.importers.len(),
                lv == lock@,
                n_pkgs == lock@.packages.len(),
                st.imp_pid.len() == lv.importers.len(),
                self.holds_core(st, lv.version, n_pkgs),
                self.deps_are(go),
                deps_in(go, st.pkgs.len()),
                imps_deps_run(st, lv, i as int) == Ok::<Seq<(PackageID, PDep)>, PFail>(go),
            decreases lv.importers.len() - i,
        {
            assert(lv.importers[i as int].1.len() == 4);
            assert(imps_deps_run(st, lv, i + 1) == imp_lists_run(st, lv, i as int, go, 4));
            proof {
                if imps_deps_run(st, lv, i + 1) is Err {
                    lemma_imps_deps_run_err(st, lv, i + 1, lv.importers.len() as int);
                }
            }
            match self.read_imp_lists(lock, i, Ghost(st), Ghost(go)) {
                Ok(()) => {},
                Err(e) => return Err(e),
            }
            proof {
                go = imps_deps_run(st, lv, i + 1)->Ok_0;
            }
            i = i + 1;
        }
        Ok(())
    }
}


impl<'a> PnpmReader<'a> {
    /// Adds every importer (see [`importers_run`]).
    fn read_importers(&mut self, lock: &'a PnpmLockfile, manifests: &Vec<(String, PackageJson)>, Ghost(n_pkgs): Ghost<nat>) -> (r: Result<(), Error>)
        requires
            old(self).holds(empty_state(), lock@.version, n_pkgs),
        ensures
            match importers_run(lock@, manifests_view(manifests@), lock@.importers.len() as int) {
                Ok(s) => r is Ok && final(self).holds(s, lock@.version, n_pkgs) && s.imp_pid.len() == lock@.importers.len(),
                Err(f) => r matches Err(e) && fail_is(e, f),
            },
            r matches Err(e) ==> !(e is UnknownLockfileVersion),
    {
        let ghost lv = lock@;
        let ghost mv = manifests_view(manifests@);
        let ghost mut gs = empty_state();
        let mut i: usize = 0;
        while i < lock.importers.len()
            invariant
                i <= lv.importers.len(),
                lv == lock@,
                mv == manifests_view(manifests@),
                self.holds(gs, lv.version, n_pkgs),
                importers_run(lv, mv, i as int) == Ok::<PState, PFail>(gs),
                gs.imp_pid.len() == i,
            decreases lv.importers.len() - i,
        {
            assert(lv.importers[i as int].0 == lock.importers@[i as int].0@);
            proof {
                if importers_run(lv, mv, i + 1) is Err {
                    lemma_importers_run_err(lv, mv, i + 1, lv.importers.len() as int);
                }
            }
            match self.read_importer(manifests, lock.importers[i].0.as_str(), Ghost(gs), Ghost(lv.version), Ghost(n_pkgs)) {
                Ok(()) => {},
                Err(e) => return Err(e),
            }
            proof {
                gs = importers_run(lv, mv, i + 1)->Ok_0;
            }
            i = i + 1;
        }
        Ok(())
    }

    /// Adds every entry of `packages` (see [`packages_run`]).
    fn read_packages(&mut self, lock: &'a PnpmLockfile, Ghost(s1): Ghost<PState>) -> (r: Result<(), Error>)
        requires
            old(self).holds(s1, lock@.version, lock@.packages.len()),
        ensures
            match packages_run(s1, lock@, lock@.packages.len() as int) {
                Ok(s) => r is Ok && final(self).holds(s, lock@.version, lock@.packages.len()) && s.imp_pid == s1.imp_pid,
                Err(f) => r matches Err(e) && fail_is(e, f),
            },
            r matches Err(e) ==> !(e is UnknownLockfileVersion),
    {
        let ghost lv = lock@;
        let ghost n_pkgs = lv.packages.len();
        let ghost mut gs = s1;
        let mut k: usize = 0;
        while k < lock.packages.len()
            invariant
                k <= lv.packages.len(),
                lv == lock@,
                n_pkgs == lv.packages.len(),
                self.holds(gs, lv.version, n_pkgs),
                packages_run(s1, lv, k as int) == Ok::<PState, PFail>(gs),
                gs.imp_pid == s1.imp_pid,
            decreases lv.packages.len() - k,
        {
            let key = lock.packages[k].0.as_str();
            let p = &lock.packages[k].1;
            assert(lv.packages[k as int] == (key@, pkg_view(*p)));
            proof {
                if packages_run(s1, lv, k + 1) is Err {
                    lemma_packages_run_err(s1, lv, k + 1, lv.packages.len() as int);
                }
            }
            match self.read_package(k, key, p, Ghost(gs), Ghost(lv.version), Ghost(n_pkgs)) {
                Ok(()) => {},
                Err(e) => return Err(e),
            }
            proof {
                gs = packages_run(s1, lv, k + 1)->Ok_0;
            }
            k = k + 1;
        }
        Ok(())
    }

    /// Adds every entry of `patchedDependencies` (see [`patched_run`]).
    fn read_patches(&mut self, lock: &'a PnpmLockfile, Ghost(s2): Ghost<PState>) -> (r: Result<(), Error>)
        requires
            old(self).holds(s2, lock@.version, lock@.packages.len()),
        ensures
            match patched_run(s2, lock@, lock@.patched.len() as int) {
                Ok(s) => r is Ok && final(self).holds(s, lock@.version, lock@.packages.len()) && s.imp_pid == s2.imp_pid,
                Err(f) => r matches Err(e) && fail_is(e, f),
            },
            r matches Err(e) ==> !(e is UnknownLockfileVersion),
    {
        let ghost lv = lock@;
        let ghost n_pkgs = lv.packages.len();
        let ghost mut gs = s2;
        let mut k: usize = 0;
        while k < lock.patched_dependencies.len()
            invariant
                k <= lv.patched.len(),
                lv == lock@,
                n_pkgs == lv.packages.len(),
                self.holds(gs, lv.version, n_pkgs),
                patched_run(s2, lv, k as int) == Ok::<PState, PFail>(gs),
                gs.imp_pid == s2.imp_pid,
            decreases lv.patched.len() - k,
        {
            let pd = &lock.patched_dependencies[k];
            assert(lv.patched[k as int] == (pd.0@, (pd.1.path@, pd.1.hash@)));
            proof {
                if patched_run(s2, lv, k + 1) is Err {
                    lemma_patched_run_err(s2, lv, k + 1, lv.patched.len() as int);
                }
            }
            match self.read_patched(pd.0.as_str(), pd.1.path.as_str(), pd.1.hash.as_str(), Ghost(gs), Ghost(lv.version), Ghost(n_pkgs)) {
                Ok(()) => {},
                Err(e) => return Err(e),
            }
            proof {
                gs = patched_run(s2, lv, k + 1)->Ok_0;
            }
            k = k + 1;
        }
        Ok(())
    }
}

/// Whether the lockfile's version is one that [`resolve`] reads: `9.0`.
pub fn is_known_version(lock: &PnpmLockfile) -> (b: bool)
    ensures
        b == (lock@.version == "9.0"@),
{
    proof {
        reveal_strlit("9.0");
    }
    str_eq(lock.lockfile_version.as_str(), "9.0")
}

/// Reads a pnpm lockfile into a chastefile, given the `package.json` of each importer
/// by its path: the lockfile's version must be `9.0`; then the importers, the
/// packages, the patches and the snapshots are read, and last the dependencies of
/// the importers and of the snapshots (see [`pnpm_run`]).
pub fn resolve(lock: &PnpmLockfile, manifests: &Vec<(String, PackageJson)>) -> (r: Result<Chastefile<Meta>, Error>)
    ensures
        match pnpm_run(lock@, manifests_view(manifests@)) {
            Ok(out) => r matches Ok(c) && pnpm_chastefile_is(c, lock@.version, out),
            Err(f) => r matches Err(e) && fail_is(e, f),
        },
        (r matches Err(Error::UnknownLockfileVersion(_))) <==> lock@.version != "9.0"@,
        lock@.version != "9.0"@ ==> (r matches Err(Error::UnknownLockfileVersion(v)) && v@ == lock@.version),
        r matches Ok(c) ==> c.spec_root().id() < c.spec_packages().len() && forall|j: int|
            0 <= j < c.deps().len() ==> (#[trigger] c.deps()[j]).spec_from().id() < c.spec_packages().len()
                && c.deps()[j].spec_on().id() < c.spec_packages().len(),
{
    let ghost lv = lock@;
    let ghost mv = manifests_view(manifests@);
    let ghost n_pkgs = lv.packages.len();
    proof {
        reveal_strlit("9.0");
    }
    if !str_eq(lock.lockfile_version.as_str(), "9.0") {
        return Err(Error::UnknownLockfileVersion(lock.lockfile_version.clone()));
    }
    let mut rd = PnpmReader::new(&lock.lockfile_version, Ghost(n_pkgs));
    match rd.read_importers(lock, manifests, Ghost(n_pkgs)) {
        Ok(()) => {},
        Err(e) => return Err(e),
    }
    let ghost s1 = importers_run(lv, mv, lv.importers.len() as int)->Ok_0;
    match rd.read_packages(lock, Ghost(s1)) {
        Ok(()) => {},
        Err(e) => return Err(e),
    }
    let ghost s2 = packages_run(s1, lv, lv.packages.len() as int)->Ok_0;
    match rd.read_patches(lock, Ghost(s2)) {
        Ok(()) => {},
        Err(e) => return Err(e),
    }
    let ghost s3 = patched_run(s2, lv, lv.patched.len() as int)->Ok_0;
    match rd.read_snapshots(lock, Ghost(s3)) {
        Ok(()) => {},
        Err(e) => return Err(e),
    }
    let ghost st = queue_run(s3, lv, all_snaps(lv.snapshots.len()), 0)->Ok_0;
    assert(st.imp_pid == rd.imp_pid@);
    match rd.read_imp_deps(lock, Ghost(st)) {
        Ok(()) => {},
        Err(e) => return Err(e),
    }
    let ghost o = imps_deps_run(st, lv, lv.importers.len() as int)->Ok_0;
    match rd.read_snap_deps(lock, Ghost(st), Ghost(o)) {
        Ok(()) => {},
        Err(e) => return Err(e),
    }
    let ghost deps = snaps_deps_run(st, lv, o, lv.snapshots.len() as int)->Ok_0;
    match rd.builder.build() {
        Ok(c) => {
            assert(pnpm_chastefile_is(c, lv.version, POut { st, deps }));
            assert forall|j: int| 0 <= j < c.deps().len() implies (#[trigger] c.deps()[j]).spec_from().id() < c.spec_packages().len()
                && c.deps()[j].spec_on().id() < c.spec_packages().len() by {
                assert(pdep_matches(c.deps()[j], deps[j].1, deps[j].0));
            }
            Ok(c)
        },
        Err(e) => Err(Error::ChasteError(e)),
    }
}

} // verus!
