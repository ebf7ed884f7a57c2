//! Reading a yarn berry lockfile into a chastefile (see [`crate::yarn::berry_model`]).

use vstd::prelude::*;

use crate::error::{chaste_fail_is, modpath_refusal, ChasteFail};
use vstd::string::{StrSliceExecFns, StringExecFns};

use crate::checksums::{hex_digest, integrity_from_hex_sha512, is_hex_text, Checksums, HashAlgorithm};
use crate::name::{package_name_at_exec, PackageName};
use crate::package::{PackageBuilder, PackageID};
use crate::source::{opt_source_view, PackageSource};
use crate::text::{chars_of, first_from, first_from_exec, has_at, has_at_exec, lemma_seq_lt_total, seq_lt, str_eq, str_lt};
use crate::yarn::berry::{
    parse_source, patch_descriptor, percent_decode, resolution_from_state_key,
    spec_resolution_from_state_key,
};
use crate::yarn_state::grammar::state_file;
use crate::yarn_state::grammar::PackageView as StatePackageView;
use crate::yarn_state::{packages_view, strs_view, Package as StatePackage};
use crate::name::opt_str_view;
use crate::derivation::{PackageDerivation, PackageDerivationMetaBuilder, PackagePatchBuilder};
use crate::yarn::candidates::{lower_bound, Candidates};
use crate::yarn::berry_model::{
    builder_is, checksum_hex, e_version, entry_package, fail_is, insert_pos, is_patch_resolution,
    add_package, candidates, lemma_insert_all_bound, lemma_insert_pos, lemma_name_run, distinct_pids, empty_state, entries_run, entry_step, insert_all,
    first_resolved, location_insts, name_lower_bound, name_run, patch_path, patch_step,
    patches_run, pid_resolved, state_phase, state_run, state_step, insert_res, res_run, dep_view,
    dep_step, dep_target, deps_run, e_deps, e_descriptors, meta_optional, pkg_deps_run, DepState,
    distinct_seq, has_pid, last_max, npm_sourced, pid_version, e_peers, peer_step, peer_target,
    peers_run, pkg_peers_run, same_spec_pred, berry_run, berry_chastefile_is, BerryOut, key_lt, key_text, package_is, table_insert,
    workspace_path, LockFail, BerryPkg, BerryState, DescTable, Key,
};
use crate::package::{lemma_pid_at, pid_at};
use crate::yarn::lockfile::pairs_view;
use crate::chastefile::{Chastefile, ChastefileBuilder};
use crate::semver::{
    semver_at_least, semver_range_parses, semver_satisfies, semver_version_parses, version_at_least, version_satisfies,
};
use crate::yarn::lockfile::{EntryView, PairsView};
use crate::yarn::Meta;
use crate::npm::parse::{dep_matches, DepView};
use crate::yarn::resolutions::{
    is_same_svs, key_of, keys_unique, inserted, lemma_found_is_lookup, parsed_key, spec_is_same_svs,
    pairs_view as res_pairs_view, EntryView as ResEntry, Resolutions, SelView,
};
use crate::dependency::{Dependency, DependencyBuilder, DependencyKind};
use crate::svs::{npm_range_input, SourceVersionSpecifier};
use crate::yarn::lockfile::{entries_view, metas_view, DepMeta, LockEntry, Lockfile};
use crate::installation::InstallationBuilder;
use crate::modpath::{is_module_path, parse_module_path, ModulePath};
use crate::yarn::Error;

verus! {

proof fn lemma_slash()
    ensures
        "/"@ =~= seq!['/'],
        "@patch:"@.len() == 7,
{
    reveal_strlit("/");
    reveal_strlit("@patch:");
}

/// Reads a `checksum` field: a SHA-512 hex digest of the repacked archive, after the
/// cache key and `/` that newer lockfiles put in front.
pub fn parse_checksum(integrity: &str) -> (r: Result<Checksums, Error>)
    ensures
        match r {
            Ok(c) => is_hex_text(checksum_hex(integrity@)) && (c matches Checksums::RepackZip(i)
                && i@ == seq![(HashAlgorithm::Sha512, hex_digest(checksum_hex(integrity@)))]),
            Err(e) => !is_hex_text(checksum_hex(integrity@)) && e is SSRIError,
        },
{
    proof {
        lemma_slash();
    }
    let v = chars_of(integrity);
    let hex = match first_from_exec(&v, 0, "/") {
        Some(j) => integrity.substring_char(j + 1, v.len()),
        None => integrity,
    };
    match integrity_from_hex_sha512(hex) {
        Ok(i) => Ok(Checksums::RepackZip(i)),
        Err(msg) => Err(Error::SSRIError(msg)),
    }
}

/// Reads the package of an entry, and its source.
pub fn parse_package(entry: &LockEntry) -> (r: Result<(PackageBuilder, Option<PackageSource>), Error>)
    ensures
        match entry_package(entry@) {
            Ok(v) => r matches Ok((b, s)) && builder_is(b, v) && opt_source_view(s) == v.source,
            Err(f) => r matches Err(e) && fail_is(e, f),
        },
{
    let source = parse_source(entry.resolved.as_str());
    let name = match &source {
        Some((n, _)) => *n,
        None => entry.name.as_str(),
    };
    let name = match PackageName::new(String::from_str(name)) {
        Ok(n) => n,
        Err(e) => return Err(Error::ChasteError(e)),
    };
    let mut pkg = PackageBuilder::new(Some(name), Some(entry.version.clone()));
    if entry.integrity.as_str().unicode_len() > 0 {
        match parse_checksum(entry.integrity.as_str()) {
            Ok(c) => pkg.checksums(c),
            Err(e) => return Err(e),
        }
    }
    let source = match source {
        Some((_, Some(s))) => {
            pkg.source(s.duplicate());
            Some(s)
        },
        _ => None,
    };
    Ok((pkg, source))
}

/// The descriptor table as text.
pub open spec fn table_view(t: Seq<((&str, &str), PackageID)>) -> DescTable {
    t.map_values(|x: ((&str, &str), PackageID)| ((x.0.0@, x.0.1@), x.1))
}

fn key_lt_exec(a: (&str, &str), b: (&str, &str)) -> (r: bool)
    ensures
        r == key_lt((a.0@, a.1@), (b.0@, b.1@)),
{
    str_lt(a.0, b.0) || (str_eq(a.0, b.0) && str_lt(a.1, b.1))
}

/// Adds a descriptor at its place in the table; `false`, with the table unchanged,
/// when it is there already.
pub(crate) fn table_insert_exec<'y>(table: &mut Vec<((&'y str, &'y str), PackageID)>, k: (&'y str, &'y str), pid: PackageID) -> (ok: bool)
    ensures
        match table_insert(table_view(old(table)@), (k.0@, k.1@), pid) {
            Some(t) => ok && table_view(final(table)@) == t,
            None => !ok && final(table)@ == old(table)@,
        },
{
    let ghost tv = table_view(table@);
    let ghost kv = (k.0@, k.1@);
    let mut i: usize = 0;
    while i < table.len() && key_lt_exec(table[i].0, k)
        invariant
            i <= table.len(),
            tv == table_view(table@),
            tv.len() == table@.len(),
            kv == (k.0@, k.1@),
            insert_pos(tv, kv, 0) == insert_pos(tv, kv, i as int),
        decreases table.len() - i,
    {
        assert(tv[i as int].0 == (table@[i as int].0.0@, table@[i as int].0.1@));
        i = i + 1;
    }
    if i < table.len() {
        assert(tv[i as int].0 == (table@[i as int].0.0@, table@[i as int].0.1@));
    }
    assert(insert_pos(tv, kv, i as int) == i);
    if i < table.len() && str_eq(table[i].0.0, k.0) && str_eq(table[i].0.1, k.1) {
        return false;
    }
    table.insert(i, (k, pid));
    assert(table_view(table@) =~= tv.insert(i as int, (kv, pid)));
    true
}

/// What has been read so far, as the chastefile builder and the tables beside it.
pub struct BerryReader<'y> {
    table: Vec<((&'y str, &'y str), PackageID)>,
    entry_of: Vec<usize>,
    sources: Vec<Option<PackageSource>>,
    builder: ChastefileBuilder<Meta>,
    deferred: Vec<usize>,
}

impl<'y> BerryReader<'y> {
    /// The reader holds the state `st`, read from a lockfile of version `version`,
    /// whatever dependencies were added.
    pub closed spec fn holds_core(self, st: BerryState, version: u8) -> bool {
        &&& table_view(self.table@) == st.table
        &&& self.entry_of@.len() == st.entry_of.len()
        &&& forall|k: int| 0 <= k < st.entry_of.len() ==> self.entry_of@[k] as int == st.entry_of[k]
        &&& self.sources@.len() == st.sources.len()
        &&& forall|k: int|
            0 <= k < st.sources.len() ==> opt_source_view(self.sources@[k]) == st.sources[k]
        &&& self.builder.spec_packages().len() == st.pkgs.len()
        &&& forall|k: int|
            0 <= k < st.pkgs.len() ==> package_is(self.builder.spec_packages()[k], st.pkgs[k])
        &&& self.builder.spec_root() == st.root
        &&& self.builder.spec_members() == st.members
        &&& self.builder.spec_installations().len() == st.insts.len()
        &&& forall|k: int|
            0 <= k < st.insts.len() ==> (#[trigger] self.builder.spec_installations()[k]).spec_package_id()
                == st.insts[k].0 && self.builder.spec_installations()[k].spec_path()@ == st.insts[k].1
        &&& self.builder.spec_meta().lockfile_version == version
        &&& self.deferred@.len() == st.deferred.len()
        &&& forall|j: int| 0 <= j < st.deferred.len() ==> self.deferred@[j] as int == st.deferred[j].0
    }

    /// The reader holds the state `st`, and no dependency was added yet.
    pub closed spec fn holds(self, st: BerryState, version: u8) -> bool {
        &&& self.holds_core(st, version)
        &&& self.builder.deps().len() == 0
    }

    /// The dependencies added are `out`, in order.
    pub closed spec fn deps_are(self, out: Seq<(PackageID, DepView)>) -> bool {
        &&& self.builder.deps().len() == out.len()
        &&& forall|j: int|
            0 <= j < out.len() ==> dep_matches(#[trigger] self.builder.deps()[j], out[j].1, out[j].0)
    }
}

/// The state is consistent with the entries: each package knows its entry and has
/// that entry's version, which parses; the table only names known packages; there
/// are at most as many packages as entries.
pub open spec fn state_wf(st: BerryState, entries: Seq<EntryView>) -> bool {
    &&& st.entry_of.len() == st.pkgs.len()
    &&& st.sources.len() == st.pkgs.len()
    &&& st.pkgs.len() <= entries.len()
    &&& forall|k: int|
        0 <= k < st.pkgs.len() ==> 0 <= #[trigger] st.entry_of[k] < entries.len() && st.pkgs[k].version
            == e_version(entries[st.entry_of[k]]) && semver_version_parses(st.pkgs[k].version)
    &&& forall|j: int|
        0 <= j < st.table.len() ==> (#[trigger] st.table[j]).1.id() < st.pkgs.len()
    &&& forall|j: int|
        0 <= j < st.deferred.len() ==> 0 <= (#[trigger] st.deferred[j]).0 < entries.len()
            && entry_package(entries[st.deferred[j].0]) == Ok::<BerryPkg, LockFail>(st.deferred[j].1)
}

/// A failed insertion stays failed as more descriptors follow.
pub(crate) proof fn lemma_insert_all_err(t: DescTable, ds: PairsView, j: int, pid: PackageID)
    requires
        0 <= j <= ds.len(),
        insert_all(t, ds.take(j), pid) is Err,
    ensures
        insert_all(t, ds, pid) == insert_all(t, ds.take(j), pid),
    decreases ds.len(),
{
    if j == ds.len() {
        assert(ds.take(j) =~= ds);
    } else {
        assert(ds.drop_last().take(j) =~= ds.take(j));
        lemma_insert_all_err(t, ds.drop_last(), j, pid);
    }
}

/// `name@specifier`.
pub(crate) fn key_string(name: &str, svs: &str) -> (r: String)
    ensures
        r@ == key_text((name@, svs@)),
{
    let mut s = String::from_str(name);
    s.append("@");
    s.append(svs);
    s
}

/// Adds the descriptors of an entry for `pid`, in order; the first one that is there
/// already stops it.
fn insert_descriptors<'y>(table: &mut Vec<((&'y str, &'y str), PackageID)>, ds: &'y Vec<(String, String)>, pid: PackageID) -> (r: Result<(), Error>)
    ensures
        match insert_all(table_view(old(table)@), pairs_view(ds@), pid) {
            Ok(t) => r is Ok && table_view(final(table)@) == t,
            Err(d) => r matches Err(e) && fail_is(e, LockFail::Duplicate(d)),
        },
{
    let ghost t0 = table_view(table@);
    let ghost pv = pairs_view(ds@);
    let mut j: usize = 0;
    assert(pv.take(0) =~= Seq::<Key>::empty());
    while j < ds.len()
        invariant
            j <= ds.len(),
            t0 == table_view(old(table)@),
            pv == pairs_view(ds@),
            insert_all(t0, pv.take(j as int), pid) == Ok::<DescTable, Seq<char>>(table_view(table@)),
        decreases ds.len() - j,
    {
        let (n, s) = &ds[j];
        assert(pv.take(j + 1).drop_last() =~= pv.take(j as int));
        assert(pv.take(j + 1).last() == (n@, s@));
        if !table_insert_exec(table, (n.as_str(), s.as_str()), pid) {
            proof {
                lemma_insert_all_err(t0, pv, j + 1, pid);
            }
            return Err(Error::DuplicateSpecifiers(key_string(n.as_str(), s.as_str())));
        }
        j = j + 1;
    }
    assert(pv.take(j as int) =~= pv);
    Ok(())
}

/// Whether the resolution is that of a patched package.
fn is_patch_exec(r: &str) -> (b: bool)
    ensures
        b == is_patch_resolution(r@),
{
    let v = chars_of(r);
    match package_name_at_exec(&v, 0) {
        Some(p) => has_at_exec(&v, p.total_length, "@patch:"),
        None => false,
    }
}

/// The path of a workspace package, if it is one.
fn workspace_path_exec(ds: &Vec<(String, String)>) -> (r: Option<&str>)
    ensures
        match r {
            Some(p) => workspace_path(pairs_view(ds@), 0) == Some(p@),
            None => workspace_path(pairs_view(ds@), 0) is None,
        },
{
    let ghost pv = pairs_view(ds@);
    proof {
        reveal_strlit("workspace:");
    }
    let mut j: usize = 0;
    while j < ds.len()
        invariant
            j <= ds.len(),
            pv == pairs_view(ds@),
            "workspace:"@.len() == 10,
            workspace_path(pv, 0) == workspace_path(pv, j as int),
        decreases ds.len() - j,
    {
        let s = ds[j].1.as_str();
        assert(pv[j as int].1 == s@);
        let v = chars_of(s);
        if has_at_exec(&v, 0, "workspace:") {
            return Some(s.substring_char(10, v.len()));
        }
        j = j + 1;
    }
    None
}

impl<'y> BerryReader<'y> {
    /// An empty reader for a lockfile of version `version`.
    fn new(version: u8) -> (r: BerryReader<'y>)
        ensures
            r.holds(empty_state(), version),
    {
        let r = BerryReader {
            table: Vec::new(),
            entry_of: Vec::new(),
            sources: Vec::new(),
            builder: ChastefileBuilder::new(Meta { lockfile_version: version }),
            deferred: Vec::new(),
        };
        assert(table_view(r.table@) =~= Seq::<(Key, PackageID)>::empty());
        r
    }

    /// Builds the package and adds it under the next id, for entry `i` with the
    /// descriptors `ds`.
    fn add_built(
        &mut self,
        pkg: PackageBuilder,
        i: usize,
        ds: &'y Vec<(String, String)>,
        source: Option<PackageSource>,
        Ghost(st): Ghost<BerryState>,
        Ghost(v): Ghost<BerryPkg>,
        Ghost(entries): Ghost<Seq<EntryView>>,
        Ghost(version): Ghost<u8>,
    ) -> (r: Result<PackageID, Error>)
        requires
            old(self).holds(st, version),
            state_wf(st, entries),
            st.pkgs.len() < entries.len(),
            builder_is(pkg, v),
            i < entries.len(),
            v.version == e_version(entries[i as int]),
        ensures
            match add_package(st, i as int, pairs_view(ds@), v, opt_source_view(source)) {
                Ok((s2, pid)) => r == Ok::<PackageID, Error>(pid) && final(self).holds(s2, version)
                    && s2.pkgs.len() == st.pkgs.len() + 1 && s2.deferred == st.deferred
                    && state_wf(s2, entries) && pid == pid_at(st.pkgs.len())
                    && s2.root == st.root && s2.members == st.members && s2.insts == st.insts,
                Err(f) => r matches Err(e) && fail_is(e, f),
            },
    {
        let p = match pkg.build() {
            Ok(p) => p,
            Err(e) => return Err(Error::ChasteError(e)),
        };
        let ghost b0 = self.builder;
        let pid = self.builder.add_package(p);
        proof {
            lemma_pid_at(st.pkgs.len());
        }
        let ghost t0 = self.table@;
        match insert_descriptors(&mut self.table, ds, pid) {
            Ok(()) => {},
            Err(e) => return Err(e),
        }
        self.entry_of.push(i);
        self.sources.push(source);
        proof {
            let s2 = add_package(st, i as int, pairs_view(ds@), v, opt_source_view(source))->Ok_0.0;
            lemma_insert_all_bound(st.table, pairs_view(ds@), pid, st.pkgs.len() + 1);
            assert forall|k: int| 0 <= k < s2.pkgs.len() implies package_is(
                self.builder.spec_packages()[k],
                s2.pkgs[k],
            ) by {
                if k < st.pkgs.len() {
                    assert(self.builder.spec_packages()[k] == b0.spec_packages()[k]);
                }
            }
        }
        Ok(pid)
    }
}

impl<'y> BerryReader<'y> {
    /// Adds an installation of `pid` at `path`.
    fn install(&mut self, pid: PackageID, path: ModulePath, Ghost(st): Ghost<BerryState>, Ghost(version): Ghost<u8>)
        requires
            old(self).holds(st, version),
        ensures
            final(self).holds(BerryState { insts: st.insts.push((pid, path@)), ..st }, version),
    {
        let inst = match InstallationBuilder::new(pid, path).build() {
            Ok(x) => x,
            Err(_) => {
                assert(false);
                return;
            },
        };
        self.builder.add_package_installation(inst);
        let ghost s2 = BerryState { insts: st.insts.push((pid, path@)), ..st };
        assert forall|k: int| 0 <= k < s2.pkgs.len() implies package_is(
            self.builder.spec_packages()[k],
            s2.pkgs[k],
        ) by {}
    }

    /// Reads entry `i` of the lockfile.
    fn read_entry(&mut self, lock: &'y Lockfile, i: usize, Ghost(st): Ghost<BerryState>) -> (r: Result<(), Error>)
        requires
            old(self).holds(st, lock.version),
            i < lock.entries.len(),
            state_wf(st, entries_view(lock.entries@)),
            st.pkgs.len() + st.deferred.len() <= i,
        ensures
            match entry_step(st, entries_view(lock.entries@), i as int) {
                Ok(s2) => r is Ok && final(self).holds(s2, lock.version) && state_wf(
                    s2,
                    entries_view(lock.entries@),
                ) && s2.pkgs.len() + s2.deferred.len() <= i + 1,
                Err(f) => r matches Err(e) && fail_is(e, f),
            },
    {
        let ghost entries = entries_view(lock.entries@);
        let entry = &lock.entries[i];
        assert(entries[i as int] == entry@);
        let (pkg, source) = match parse_package(entry) {
            Ok(x) => x,
            Err(e) => return Err(e),
        };
        let ghost v = entry_package(entry@)->Ok_0;
        if is_patch_exec(entry.resolved.as_str()) {
            self.deferred.push(i);
            return Ok(());
        }
        let pid = match self.add_built(
            pkg,
            i,
            &entry.descriptors,
            source,
            Ghost(st),
            Ghost(v),
            Ghost(entries),
            Ghost(lock.version),
        ) {
            Ok(p) => p,
            Err(e) => return Err(e),
        };
        let ghost s2 = add_package(st, i as int, pairs_view(entry.descriptors@), v, v.source)->Ok_0.0;
        match workspace_path_exec(&entry.descriptors) {
            None => Ok(()),
            Some(p) => {
                proof {
                    reveal_strlit(".");
                }
                if str_eq(p, ".") {
                    match self.builder.set_root_package_id(pid) {
                        Ok(()) => {},
                        Err(e) => return Err(Error::ChasteError(e)),
                    }
                    let ghost s3 = BerryState { root: Some(pid), ..s2 };
                    self.install(pid, ModulePath::root(), Ghost(s3), Ghost(lock.version));
                    assert(BerryState { insts: s3.insts.push((pid, Seq::<char>::empty())), ..s3 } == BerryState {
                        root: Some(pid),
                        insts: s2.insts.push((pid, seq![])),
                        ..s2
                    });
                    Ok(())
                } else {
                    match self.builder.set_as_workspace_member(pid) {
                        Ok(()) => {},
                        Err(e) => return Err(Error::ChasteError(e)),
                    }
                    let mp = match ModulePath::new(String::from_str(p)) {
                        Ok(m) => m,
                        Err(e) => return Err(Error::ChasteError(e)),
                    };
                    let ghost s3 = BerryState { members: s2.members.push(pid), ..s2 };
                    self.install(pid, mp, Ghost(s3), Ghost(lock.version));
                    Ok(())
                }
            },
        }
    }
}

/// The bound where the names of the table reach `name` is the same, read on the text.
proof fn lemma_lower_bound_view(t: Seq<((&str, &str), PackageID)>, name: Seq<char>, i: int)
    ensures
        lower_bound(t, name, i) == name_lower_bound(table_view(t), name, i),
        i >= 0 ==> (i <= lower_bound(t, name, i) <= t.len() || lower_bound(t, name, i) == t.len()),
        0 <= lower_bound(t, name, i) <= t.len(),
    decreases t.len() - i,
{
    if 0 <= i < t.len() {
        assert(table_view(t)[i].0.0 == t[i].0.0@);
        lemma_lower_bound_view(t, name, i + 1);
    }
}

/// The descriptors of a package name, in key order, read with [`Candidates`].
pub(crate) fn candidates_of<'a>(table: &'a [((&'a str, &'a str), PackageID)], name: &'a str) -> (r: Vec<((&'a str, &'a str), PackageID)>)
    ensures
        table_view(r@) == candidates(table_view(table@), name@),
{
    let ghost tv = table_view(table@);
    let mut c = Candidates::new(name, table);
    proof {
        lemma_lower_bound_view(table@, name@, 0);
    }
    let ghost start = c.spec_index();
    let mut out: Vec<((&'a str, &'a str), PackageID)> = Vec::new();
    assert(table_view(out@) =~= Seq::<(Key, PackageID)>::empty());
    loop
        invariant
            c.spec_first() == name@,
            c.spec_entries() == table@,
            tv == table_view(table@),
            0 <= c.spec_index() <= table@.len(),
            name_run(tv, name@, start) == table_view(out@) + name_run(tv, name@, c.spec_index()),
            start == name_lower_bound(tv, name@, 0),
        decreases table@.len() - c.spec_index(),
    {
        let ghost i = c.spec_index();
        match c.next() {
            Some((k, pid)) => {
                assert(tv[i].0.0 == table@[i].0.0@);
                let ghost prev = out@;
                out.push((*k, *pid));
                assert(table_view(out@) =~= table_view(prev).push(tv[i]));
                assert(name_run(tv, name@, i) == seq![tv[i]] + name_run(tv, name@, i + 1));
                assert(table_view(prev) + name_run(tv, name@, i) =~= table_view(out@) + name_run(tv, name@, i + 1));
            },
            None => {
                assert(i < table@.len() ==> tv[i].0.0 == table@[i].0.0@);
                assert(name_run(tv, name@, i) =~= Seq::<(Key, PackageID)>::empty());
                assert(table_view(out@) + Seq::<(Key, PackageID)>::empty() =~= table_view(out@));
                return out;
            },
        }
    }
}

proof fn lemma_entries_run_err(entries: Seq<EntryView>, j: int, n: int)
    requires
        0 <= j <= n,
        entries_run(entries, j) is Err,
    ensures
        entries_run(entries, n) == entries_run(entries, j),
    decreases n - j,
{
    if j < n {
        lemma_entries_run_err(entries, j, n - 1);
    }
}

proof fn lemma_patches_run_err(st: BerryState, entries: Seq<EntryView>, j: int, n: int)
    requires
        0 <= j <= n,
        patches_run(st, entries, j) is Err,
    ensures
        patches_run(st, entries, n) == patches_run(st, entries, j),
    decreases n - j,
{
    if j < n {
        lemma_patches_run_err(st, entries, j, n - 1);
    }
}

/// Whether `p` is among `seen`.
pub(crate) fn contains_pid(seen: &Vec<PackageID>, p: PackageID) -> (b: bool)
    ensures
        b == seen@.contains(p),
{
    let mut i: usize = 0;
    while i < seen.len()
        invariant
            i <= seen.len(),
            forall|j: int| 0 <= j < i ==> seen@[j] != p,
        decreases seen.len() - i,
    {
        if seen[i] == p {
            return true;
        }
        i = i + 1;
    }
    false
}

impl<'y> BerryReader<'y> {
    /// Reads every entry in order.
    fn read_entries(&mut self, lock: &'y Lockfile)
        -> (r: Result<(), Error>)
        requires
            old(self).holds(empty_state(), lock.version),
        ensures
            match entries_run(entries_view(lock.entries@), lock.entries@.len() as int) {
                Ok(s) => r is Ok && final(self).holds(s, lock.version) && state_wf(s, entries_view(lock.entries@))
                    && s.pkgs.len() + s.deferred.len() <= lock.entries@.len(),
                Err(f) => r matches Err(e) && fail_is(e, f),
            },
    {
        let ghost entries = entries_view(lock.entries@);
        let mut i: usize = 0;
        while i < lock.entries.len()
            invariant
                i <= lock.entries.len(),
                entries == entries_view(lock.entries@),
                entries_run(entries, i as int) matches Ok(st) && self.holds(st, lock.version)
                    && state_wf(st, entries) && st.pkgs.len() + st.deferred.len() <= i,
            decreases lock.entries.len() - i,
        {
            let ghost st = entries_run(entries, i as int)->Ok_0;
            match self.read_entry(lock, i, Ghost(st)) {
                Ok(()) => {},
                Err(e) => {
                    proof {
                        lemma_entries_run_err(entries, i + 1, lock.entries@.len() as int);
                    }
                    return Err(e);
                },
            }
            i = i + 1;
        }
        Ok(())
    }
}

/// The packages, each once, with a descriptor in `cands` and whose entry's resolution
/// is `target`.
fn patch_hits(
    cands: &Vec<((&str, &str), PackageID)>,
    entry_of: &Vec<usize>,
    lock: &Lockfile,
    target: &str,
    Ghost(st): Ghost<BerryState>,
) -> (r: Vec<PackageID>)
    requires
        state_wf(st, entries_view(lock.entries@)),
        entry_of@.len() == st.entry_of.len(),
        forall|k: int| 0 <= k < st.entry_of.len() ==> entry_of@[k] as int == st.entry_of[k],
        forall|j: int| 0 <= j < cands@.len() ==> (#[trigger] cands@[j]).1.id() < st.pkgs.len(),
    ensures
        r@ == distinct_pids(table_view(cands@)).filter(
            |p: PackageID| pid_resolved(st, entries_view(lock.entries@), p) == target@,
        ),
{
    let ghost entries = entries_view(lock.entries@);
    let ghost c = table_view(cands@);
    let ghost pred = |p: PackageID| pid_resolved(st, entries, p) == target@;
    let mut seen: Vec<PackageID> = Vec::new();
    let mut hits: Vec<PackageID> = Vec::new();
    let mut m: usize = 0;
    proof {
        assert(c.take(0) =~= Seq::<(Key, PackageID)>::empty());
        reveal(Seq::filter);
    }
    while m < cands.len()
        invariant
            m <= cands.len(),
            c == table_view(cands@),
            entries == entries_view(lock.entries@),
            pred == (|p: PackageID| pid_resolved(st, entries, p) == target@),
            state_wf(st, entries),
            entry_of@.len() == st.entry_of.len(),
            forall|k: int| 0 <= k < st.entry_of.len() ==> entry_of@[k] as int == st.entry_of[k],
            forall|j: int| 0 <= j < cands@.len() ==> (#[trigger] cands@[j]).1.id() < st.pkgs.len(),
            seen@ == distinct_pids(c.take(m as int)),
            hits@ == seen@.filter(pred),
        decreases cands.len() - m,
    {
        let p = cands[m].1;
        assert(c.take(m + 1).drop_last() =~= c.take(m as int));
        assert(c.take(m + 1).last() == c[m as int]);
        assert(c[m as int].1 == p);
        if !contains_pid(&seen, p) {
            let ghost prev = seen@;
            seen.push(p);
            let k = entry_of[p.index()];
            assert(k as int == st.entry_of[p.id() as int]);
            assert(entries[k as int] == lock.entries@[k as int]@);
            if str_eq(lock.entries[k].resolved.as_str(), target) {
                hits.push(p);
            }
            proof {
                reveal(Seq::filter);
                assert(seen@.drop_last() =~= prev);
            }
        }
        m = m + 1;
    }
    assert(c.take(m as int) =~= c);
    hits
}

/// The candidates of a name only name packages that the table names.
pub(crate) proof fn lemma_candidates_bound(t: Seq<((&str, &str), PackageID)>, c: Seq<((&str, &str), PackageID)>, name: Seq<char>, b: nat)
    requires
        forall|j: int| 0 <= j < t.len() ==> (#[trigger] t[j]).1.id() < b,
        table_view(c) == candidates(table_view(t), name),
    ensures
        forall|j: int| 0 <= j < c.len() ==> (#[trigger] c[j]).1.id() < b,
{
    let tv = table_view(t);
    let lb = name_lower_bound(tv, name, 0);
    lemma_lower_bound_view(t, name, 0);
    lemma_name_run(tv, name, lb);
    assert forall|j: int| 0 <= j < c.len() implies (#[trigger] c[j]).1.id() < b by {
        assert(table_view(c)[j].1 == c[j].1);
        assert(tv[lb + j].1 == t[lb + j].1);
    }
}

impl<'y> BerryReader<'y> {
    /// Reads the waiting patched entry `j`.
    fn read_patch(&mut self, lock: &'y Lockfile, j: usize, Ghost(st): Ghost<BerryState>) -> (r: Result<(), Error>)
        requires
            old(self).holds(st, lock.version),
            state_wf(st, entries_view(lock.entries@)),
            j < st.deferred.len(),
            st.pkgs.len() < lock.entries@.len(),
        ensures
            match patch_step(st, entries_view(lock.entries@), st.deferred[j as int]) {
                Ok(s2) => r is Ok && final(self).holds(s2, lock.version) && state_wf(
                    s2,
                    entries_view(lock.entries@),
                ) && s2.pkgs.len() == st.pkgs.len() + 1 && s2.deferred == st.deferred,
                Err(f) => r matches Err(e) && fail_is(e, f),
            },
    {
        let ghost entries = entries_view(lock.entries@);
        let ghost d = st.deferred[j as int];
        let i = self.deferred[j];
        let entry = &lock.entries[i];
        assert(entries[i as int] == entry@);
        let (mut pkg, _) = match parse_package(entry) {
            Ok(x) => x,
            Err(e) => return Err(e),
        };
        let r = entry.resolved.as_str();
        let (_, pname, penc, path, _) = match patch_descriptor(r) {
            Some(t) => t,
            None => return Err(Error::InvalidResolved(String::from_str(r))),
        };
        let svd = match percent_decode(penc) {
            Ok(s) => s,
            Err(m) => return Err(Error::Utf8Error(m)),
        };
        let target = key_string(pname, svd.as_str());
        let cands = candidates_of(self.table.as_slice(), pname);
        proof {
            assert forall|k: int| 0 <= k < self.table@.len() implies (#[trigger] self.table@[k]).1.id()
                < st.pkgs.len() by {
                assert(table_view(self.table@)[k].1 == self.table@[k].1);
            }
            lemma_candidates_bound(self.table@, cands@, pname@, st.pkgs.len());
        }
        let hits = patch_hits(&cands, &self.entry_of, lock, target.as_str(), Ghost(st));
        if hits.len() == 0 {
            return Err(Error::InvalidResolved(String::from_str(r)));
        }
        if hits.len() > 1 {
            return Err(Error::AmbiguousResolved(String::from_str(r)));
        }
        let from = hits[0];
        proof {
            reveal_strlit("./");
        }
        let pv = chars_of(path);
        let ppath = if has_at_exec(&pv, 0, "./") {
            path.substring_char(2, pv.len())
        } else {
            path
        };
        let patch = match PackagePatchBuilder::new(String::from_str(ppath)).build() {
            Ok(p) => p,
            Err(e) => return Err(Error::ChasteError(e)),
        };
        let meta = match PackageDerivationMetaBuilder::new(PackageDerivation::Patch(patch), from).build() {
            Ok(m) => m,
            Err(e) => return Err(Error::ChasteError(e)),
        };
        pkg.derived(meta);
        let ghost v = BerryPkg { patch: Some((patch_path(path@), from)), ..d.1 };
        match self.add_built(
            pkg,
            i,
            &entry.descriptors,
            None,
            Ghost(st),
            Ghost(v),
            Ghost(entries),
            Ghost(lock.version),
        ) {
            Ok(_) => Ok(()),
            Err(e) => Err(e),
        }
    }

    /// Reads the waiting patched entries in order.
    fn read_patches(&mut self, lock: &'y Lockfile, Ghost(s1): Ghost<BerryState>) -> (r: Result<(), Error>)
        requires
            old(self).holds(s1, lock.version),
            state_wf(s1, entries_view(lock.entries@)),
            s1.pkgs.len() + s1.deferred.len() <= lock.entries@.len(),
        ensures
            match patches_run(s1, entries_view(lock.entries@), s1.deferred.len() as int) {
                Ok(s) => r is Ok && final(self).holds(s, lock.version) && state_wf(s, entries_view(lock.entries@)),
                Err(f) => r matches Err(e) && fail_is(e, f),
            },
    {
        let ghost entries = entries_view(lock.entries@);
        let n = self.deferred.len();
        let mut j: usize = 0;
        while j < n
            invariant
                j <= n,
                n == s1.deferred.len(),
                entries == entries_view(lock.entries@),
                s1.pkgs.len() + s1.deferred.len() <= lock.entries@.len(),
                patches_run(s1, entries, j as int) matches Ok(st) && self.holds(st, lock.version)
                    && state_wf(st, entries) && st.deferred == s1.deferred && st.pkgs.len()
                    == s1.pkgs.len() + j,
            decreases n - j,
        {
            let ghost st = patches_run(s1, entries, j as int)->Ok_0;
            match self.read_patch(lock, j, Ghost(st)) {
                Ok(()) => {},
                Err(e) => {
                    proof {
                        lemma_patches_run_err(s1, entries, j + 1, n as int);
                    }
                    return Err(e);
                },
            }
            j = j + 1;
        }
        Ok(())
    }
}

proof fn lemma_location_insts_none(pid: PackageID, locs: Seq<Seq<char>>, m: int)
    requires
        0 <= m <= locs.len(),
        location_insts(pid, locs.take(m)) is None,
    ensures
        location_insts(pid, locs) is None,
    decreases locs.len(),
{
    if m == locs.len() {
        assert(locs.take(m) =~= locs);
    } else {
        assert(locs.drop_last().take(m) =~= locs.take(m));
        lemma_location_insts_none(pid, locs.drop_last(), m);
    }
}

proof fn lemma_state_run_err(st: BerryState, entries: Seq<EntryView>, ps: Seq<StatePackageView>, j: int, n: int)
    requires
        0 <= j <= n,
        state_run(st, entries, ps, j) is Err,
    ensures
        state_run(st, entries, ps, n) == state_run(st, entries, ps, j),
    decreases n - j,
{
    if j < n {
        lemma_state_run_err(st, entries, ps, j, n - 1);
    }
}

impl<'y> BerryReader<'y> {
    /// The first package, in id order, whose entry's resolution is `r`.
    fn first_resolved_exec(&self, lock: &'y Lockfile, r: &str, Ghost(st): Ghost<BerryState>) -> (p: Option<PackageID>)
        requires
            self.holds(st, lock.version),
            state_wf(st, entries_view(lock.entries@)),
        ensures
            p == first_resolved(st, entries_view(lock.entries@), r@, 0),
    {
        let ghost entries = entries_view(lock.entries@);
        let mut k: usize = 0;
        while k < self.entry_of.len()
            invariant
                self.holds(st, lock.version),
                state_wf(st, entries),
                entries == entries_view(lock.entries@),
                k <= self.entry_of@.len(),
                first_resolved(st, entries, r@, 0) == first_resolved(st, entries, r@, k as int),
            decreases self.entry_of.len() - k,
        {
            let i = self.entry_of[k];
            assert(i as int == st.entry_of[k as int]);
            assert(entries[i as int] == lock.entries@[i as int]@);
            if str_eq(lock.entries[i].resolved.as_str(), r) {
                return Some(PackageID::from_index(k));
            }
            k = k + 1;
        }
        None
    }

    /// Records where the state file says one package is installed.
    fn read_state_package(&mut self, lock: &'y Lockfile, p: &StatePackage, Ghost(st): Ghost<BerryState>) -> (r: Result<(), Error>)
        requires
            old(self).holds(st, lock.version),
            state_wf(st, entries_view(lock.entries@)),
        ensures
            match state_step(st, entries_view(lock.entries@), p@) {
                Ok(s2) => r is Ok && final(self).holds(s2, lock.version) && state_wf(s2, entries_view(lock.entries@))
                    && s2.pkgs == st.pkgs,
                Err(f) => r matches Err(e) && fail_is(e, f),
            },
    {
        let ghost entries = entries_view(lock.entries@);
        let expected = resolution_from_state_key(p.resolution);
        let pid = match self.first_resolved_exec(lock, expected.as_str(), Ghost(st)) {
            Some(pid) => pid,
            None => return Err(Error::StatePackageNotFound(expected)),
        };
        let ghost locs = strs_view(p.locations@);
        let mut m: usize = 0;
        assert(locs.take(0) =~= Seq::<Seq<char>>::empty());
        while m < p.locations.len()
            invariant
                m <= p.locations.len(),
                locs == strs_view(p.locations@),
                entries == entries_view(lock.entries@),
                first_resolved(st, entries, spec_resolution_from_state_key(p@.0), 0) == Some(pid),
                location_insts(pid, locs.take(m as int)) matches Some(l) && self.holds(
                    BerryState { insts: st.insts + l, ..st },
                    lock.version,
                ),
                forall|j: int| 0 <= j < m ==> parse_module_path(#[trigger] locs[j]) is Ok,
            decreases p.locations.len() - m,
        {
            let ghost l = location_insts(pid, locs.take(m as int))->Some_0;
            let loc = p.locations[m];
            assert(locs.take(m + 1).drop_last() =~= locs.take(m as int));
            assert(locs.take(m + 1).last() == loc@);
            let mp = match ModulePath::new(String::from_str(loc)) {
                Ok(x) => x,
                Err(e) => {
                    proof {
                        assert(!is_module_path(loc@));
                        assert(location_insts(pid, locs.take(m + 1)) is None);
                        lemma_location_insts_none(pid, locs, m + 1);
                        assert(p@.1 == locs);
                        assert(first_resolved(st, entries, spec_resolution_from_state_key(p@.0), 0) == Some(pid));
                        assert(locs[m as int] == loc@);
                        assert(modpath_refusal(locs[m as int], e));
                        assert(chaste_fail_is(e, ChasteFail::FirstPath(locs)));
                    }
                    return Err(Error::ChasteError(e));
                },
            };
            assert(parse_module_path(locs[m as int]) is Ok);
            self.install(pid, mp, Ghost(BerryState { insts: st.insts + l, ..st }), Ghost(lock.version));
            assert(st.insts + l.push((pid, loc@)) =~= (st.insts + l).push((pid, loc@)));
            m = m + 1;
        }
        assert(locs.take(m as int) =~= locs);
        Ok(())
    }

    /// Reads the state file, if there is one.
    fn read_state(&mut self, lock: &'y Lockfile, state: Option<&str>, Ghost(st): Ghost<BerryState>) -> (r: Result<(), Error>)
        requires
            old(self).holds(st, lock.version),
            state_wf(st, entries_view(lock.entries@)),
        ensures
            match state_phase(st, entries_view(lock.entries@), opt_str_view(state)) {
                Ok(s) => r is Ok && final(self).holds(s, lock.version) && state_wf(s, entries_view(lock.entries@))
                    && s.pkgs == st.pkgs,
                Err(f) => r matches Err(e) && fail_is(e, f),
            },
    {
        let ghost entries = entries_view(lock.entries@);
        let text = match state {
            Some(t) => t,
            None => return Ok(()),
        };
        let ys = match crate::yarn_state::parse(text) {
            Ok(y) => y,
            Err(e) => return Err(Error::YarnStateError(e)),
        };
        let ghost ps = packages_view(ys.packages@);
        let mut j: usize = 0;
        while j < ys.packages.len()
            invariant
                j <= ys.packages.len(),
                ps == packages_view(ys.packages@),
                entries == entries_view(lock.entries@),
                state_file(text@) == Some((ys.version, ps)),
                opt_str_view(state) == Some(text@),
                state_run(st, entries, ps, j as int) matches Ok(s) && self.holds(s, lock.version)
                    && state_wf(s, entries) && s.pkgs == st.pkgs,
            decreases ys.packages.len() - j,
        {
            let ghost s = state_run(st, entries, ps, j as int)->Ok_0;
            assert(ps[j as int] == ys.packages@[j as int]@);
            match self.read_state_package(lock, &ys.packages[j], Ghost(s)) {
                Ok(()) => {},
                Err(e) => {
                    proof {
                        assert(state_run(st, entries, ps, j + 1) is Err);
                        lemma_state_run_err(st, entries, ps, j + 1, ps.len() as int);
                        assert(state_file(text@) == Some((ys.version, ps)));
                    }
                    return Err(e);
                },
            }
            j = j + 1;
        }
        Ok(())
    }
}

/// Adding a key that parses gives [`insert_res`].
proof fn lemma_inserted_is(old: Seq<ResEntry>, new: Seq<ResEntry>, k: (SelView, Option<SelView>), v: Seq<char>)
    requires
        keys_unique(old),
        inserted(old, new, k, v),
    ensures
        new == insert_res(old, k, v),
{
    if exists|i: int| 0 <= i < old.len() && key_of(old[i]) == k {
        let i = choose|i: int| 0 <= i < old.len() && key_of(old[i]) == k;
        assert(new == old.update(i, (k.0, k.1, v)));
    }
}

proof fn lemma_res_run_err(ps: Seq<(Seq<char>, Seq<char>)>, j: int)
    requires
        0 <= j <= ps.len(),
        res_run(ps.take(j)) is Err,
    ensures
        res_run(ps) == res_run(ps.take(j)),
    decreases ps.len(),
{
    if j == ps.len() {
        assert(ps.take(j) =~= ps);
    } else {
        assert(ps.drop_last().take(j) =~= ps.take(j));
        lemma_res_run_err(ps.drop_last(), j);
    }
}

/// The overrides of `"resolutions"`, added in order.
pub(crate) fn read_resolutions<'a>(pairs: &'a Vec<(String, String)>) -> (r: Result<Resolutions<'a>, Error>)
    ensures
        match res_run(pairs_view(pairs@)) {
            Ok(es) => r matches Ok(res) && res.entries() == es && keys_unique(res.entries()),
            Err(k) => r matches Err(e) && fail_is(e, LockFail::InvalidResolution(k)),
        },
{
    let ghost pv = pairs_view(pairs@);
    let mut res = Resolutions::new();
    let mut j: usize = 0;
    assert(pv.take(0) =~= Seq::<(Seq<char>, Seq<char>)>::empty());
    while j < pairs.len()
        invariant
            j <= pairs.len(),
            pv == pairs_view(pairs@),
            keys_unique(res.entries()),
            res_run(pv.take(j as int)) == Ok::<Seq<ResEntry>, Seq<char>>(res.entries()),
        decreases pairs.len() - j,
    {
        let (k, v) = &pairs[j];
        assert(pv.take(j + 1).drop_last() =~= pv.take(j as int));
        assert(pv.take(j + 1).last() == (k@, v@));
        let ghost before = res.entries();
        match res.insert(k.as_str(), v.as_str()) {
            Ok(()) => {
                proof {
                    let kk = parsed_key(k@)->Some_0;
                    lemma_inserted_is(before, res.entries(), kk, v@);
                }
            },
            Err(e) => {
                proof {
                    lemma_res_run_err(pv, j + 1);
                }
                return Err(e);
            },
        }
        j = j + 1;
    }
    assert(pv.take(j as int) =~= pv);
    Ok(res)
}

/// Borrows pairs of strings.
pub(crate) fn borrow_pairs(v: &Vec<(String, String)>) -> (r: Vec<(&str, &str)>)
    ensures
        res_pairs_view(r@) == pairs_view(v@),
{
    let mut out: Vec<(&str, &str)> = Vec::new();
    let mut i: usize = 0;
    while i < v.len()
        invariant
            i <= v.len(),
            res_pairs_view(out@) == pairs_view(v@).take(i as int),
        decreases v.len() - i,
    {
        let ghost prev = out@;
        out.push((v[i].0.as_str(), v[i].1.as_str()));
        assert(res_pairs_view(out@) =~= res_pairs_view(prev).push((v@[i as int].0@, v@[i as int].1@)));
        assert(pairs_view(v@).take(i + 1) =~= pairs_view(v@).take(i as int).push((v@[i as int].0@, v@[i as int].1@)));
        i = i + 1;
    }
    assert(pairs_view(v@).take(i as int) =~= pairs_view(v@));
    out
}

/// The descriptors of `cands` whose specifier names the same thing as `ev`.
fn same_svs_hits<'a>(cands: &Vec<((&'a str, &'a str), PackageID)>, ev: &str) -> (r: Vec<((&'a str, &'a str), PackageID)>)
    ensures
        table_view(r@) == table_view(cands@).filter(|c: (Key, PackageID)| spec_is_same_svs(ev@, c.0.1)),
{
    let ghost c = table_view(cands@);
    let ghost pred = |c: (Key, PackageID)| spec_is_same_svs(ev@, c.0.1);
    let mut out: Vec<((&'a str, &'a str), PackageID)> = Vec::new();
    let mut m: usize = 0;
    proof {
        reveal(Seq::filter);
        assert(c.take(0) =~= Seq::<(Key, PackageID)>::empty());
    }
    while m < cands.len()
        invariant
            m <= cands.len(),
            c == table_view(cands@),
            pred == (|c: (Key, PackageID)| spec_is_same_svs(ev@, c.0.1)),
            table_view(out@) == c.take(m as int).filter(pred),
        decreases cands.len() - m,
    {
        proof {
            reveal(Seq::filter);
            assert(c.take(m + 1).drop_last() =~= c.take(m as int));
        }
        assert(c[m as int].0.1 == cands@[m as int].0.1@);
        if is_same_svs(ev, cands[m].0.1) {
            let ghost prev = out@;
            out.push(cands[m]);
            assert(table_view(out@) =~= table_view(prev).push(c[m as int]));
        }
        m = m + 1;
    }
    assert(c.take(m as int) =~= c);
    out
}

/// A dependency on `on` for a request of `name` at `svs`.
pub(crate) fn dep_build(kind: DependencyKind, from: PackageID, on: PackageID, name: &str, svs: &str) -> (r: Result<Dependency, Error>)
    ensures
        match dep_view(kind, on, name@, svs@) {
            Ok(v) => r matches Ok(d) && dep_matches(d, v, from),
            Err(f) => r matches Err(e) && fail_is(e, f),
        },
{
    let mut dep = DependencyBuilder::new(kind, from, on);
    let parsed = match SourceVersionSpecifier::new(String::from_str(svs)) {
        Ok(s) => s,
        Err(e) => return Err(Error::ChasteError(e)),
    };
    if parsed.aliased_package_name().is_some() {
        match PackageName::new(String::from_str(name)) {
            Ok(n) => dep.alias_name(n),
            Err(e) => return Err(Error::ChasteError(e)),
        }
    }
    dep.svs(parsed);
    Ok(dep.build())
}

/// A copy of a list of ids.
pub(crate) fn copy_pids(v: &Vec<PackageID>) -> (r: Vec<PackageID>)
    ensures
        r@ == v@,
{
    let mut out: Vec<PackageID> = Vec::new();
    let mut i: usize = 0;
    while i < v.len()
        invariant
            i <= v.len(),
            out@ == v@.take(i as int),
        decreases v.len() - i,
    {
        out.push(v[i]);
        assert(v@.take(i + 1) =~= v@.take(i as int).push(v@[i as int]));
        i = i + 1;
    }
    assert(v@.take(i as int) =~= v@);
    out
}

/// Whether the last metadata entry for `name` marks it optional.
fn meta_optional_exec(m: &Vec<(String, DepMeta)>, name: &str) -> (r: Option<bool>)
    ensures
        r == meta_optional(metas_view(m@), name@),
{
    let ghost mv = metas_view(m@);
    let mut i = m.len();
    assert(mv.take(i as int) =~= mv);
    while i > 0
        invariant
            i <= m.len(),
            mv == metas_view(m@),
            meta_optional(mv, name@) == meta_optional(mv.take(i as int), name@),
        decreases i,
    {
        assert(mv.take(i as int).drop_last() =~= mv.take(i - 1));
        assert(mv.take(i as int).last() == (m@[i - 1].0@, m@[i - 1].1.optional));
        if str_eq(m[i - 1].0.as_str(), name) {
            return m[i - 1].1.optional;
        }
        i = i - 1;
    }
    None
}

/// The ids that depend on each package so far, as text.
pub open spec fn kids_view(c: Seq<Vec<PackageID>>) -> Seq<Seq<PackageID>> {
    c.map_values(|v: Vec<PackageID>| v@)
}

proof fn lemma_pkg_deps_run_err(st: BerryState, res: Seq<ResEntry>, entries: Seq<EntryView>, k: int, ds: DepState, j: int, n: int)
    requires
        0 <= j <= n,
        pkg_deps_run(st, res, entries, k, ds, j) is Err,
    ensures
        pkg_deps_run(st, res, entries, k, ds, n) == pkg_deps_run(st, res, entries, k, ds, j),
    decreases n - j,
{
    if j < n {
        lemma_pkg_deps_run_err(st, res, entries, k, ds, j, n - 1);
    }
}

proof fn lemma_deps_run_err(st: BerryState, res: Seq<ResEntry>, entries: Seq<EntryView>, j: int, n: int)
    requires
        0 <= j <= n,
        deps_run(st, res, entries, j) is Err,
    ensures
        deps_run(st, res, entries, n) == deps_run(st, res, entries, j),
    decreases n - j,
{
    if j < n {
        lemma_deps_run_err(st, res, entries, j, n - 1);
    }
}

impl<'y> BerryReader<'y> {
    /// The package a dependency of the entry `e` resolves to.
    fn find_dep_pid(
        &self,
        res: &Resolutions,
        parents: &Vec<(&str, &str)>,
        name: &str,
        svs: &str,
        Ghost(st): Ghost<BerryState>,
        Ghost(e): Ghost<EntryView>,
        Ghost(version): Ghost<u8>,
    ) -> (r: Result<PackageID, Error>)
        requires
            self.holds_core(st, version),
            keys_unique(res.entries()),
            res_pairs_view(parents@) == e_descriptors(e),
        ensures
            match dep_target(st, res.entries(), e, name@, svs@) {
                Ok(p) => r == Ok::<PackageID, Error>(p),
                Err(f) => r matches Err(x) && fail_is(x, f),
            },
    {
        let found = res.find((name, svs), parents.as_slice());
        proof {
            lemma_found_is_lookup(
                res.entries(),
                name@,
                svs@,
                e_descriptors(e),
                match found {
                    Some(v) => Some(v@),
                    None => None,
                },
            );
        }
        let ev = match found {
            Some(v) => v,
            None => svs,
        };
        let cands = candidates_of(self.table.as_slice(), name);
        let hits = same_svs_hits(&cands, ev);
        if hits.len() == 1 {
            assert(table_view(hits@)[0].1 == hits@[0].1);
            Ok(hits[0].1)
        } else if hits.len() == 0 {
            Err(Error::DependencyNotFound(key_string(name, svs)))
        } else {
            Err(Error::AmbiguousResolution(key_string(name, svs)))
        }
    }

    /// Dependency `m` of package `k`.
    fn read_dep(
        &mut self,
        lock: &'y Lockfile,
        res: &Resolutions,
        parents: &Vec<(&str, &str)>,
        k: usize,
        m: usize,
        children: &mut Vec<Vec<PackageID>>,
        Ghost(st): Ghost<BerryState>,
        Ghost(ds): Ghost<DepState>,
    ) -> (r: Result<(), Error>)
        requires
            old(self).holds_core(st, lock.version),
            old(self).deps_are(ds.out),
            state_wf(st, entries_view(lock.entries@)),
            keys_unique(res.entries()),
            k < st.pkgs.len(),
            res_pairs_view(parents@) == e_descriptors(entries_view(lock.entries@)[st.entry_of[k as int]]),
            m < e_deps(entries_view(lock.entries@)[st.entry_of[k as int]]).len(),
            kids_view(old(children)@) == ds.children,
            ds.children.len() == st.pkgs.len(),
        ensures
            match dep_step(st, res.entries(), entries_view(lock.entries@), k as int, ds,
                e_deps(entries_view(lock.entries@)[st.entry_of[k as int]])[m as int]) {
                Ok(d2) => r is Ok && final(self).holds_core(st, lock.version) && final(self).deps_are(d2.out)
                    && kids_view(final(children)@) == d2.children && d2.children.len() == st.pkgs.len(),
                Err(f) => r matches Err(x) && fail_is(x, f),
            },
    {
        let ghost entries = entries_view(lock.entries@);
        let i = self.entry_of[k];
        let e = &lock.entries[i];
        assert(entries[i as int] == e@);
        let (name, svs) = &e.dependencies[m];
        assert(e_deps(e@)[m as int] == (name@, svs@));
        let kind = if meta_optional_exec(&e.dependencies_meta, name.as_str()) == Some(true) {
            DependencyKind::OptionalDependency
        } else {
            DependencyKind::Dependency
        };
        let p = match self.find_dep_pid(res, parents, name.as_str(), svs.as_str(), Ghost(st), Ghost(e@), Ghost(lock.version)) {
            Ok(p) => p,
            Err(x) => return Err(x),
        };
        let mut kids = copy_pids(&children[k]);
        kids.push(p);
        let ghost c0 = children@;
        children.set(k, kids);
        assert(kids_view(children@) =~= ds.children.update(k as int, ds.children[k as int].push(p)));
        let from = PackageID::from_index(k);
        let dep = match dep_build(kind, from, p, name.as_str(), svs.as_str()) {
            Ok(d) => d,
            Err(x) => return Err(x),
        };
        self.builder.add_dependency(dep);
        Ok(())
    }
}

impl<'y> BerryReader<'y> {
    /// The dependencies of package `k`, in order.
    fn read_pkg_deps(
        &mut self,
        lock: &'y Lockfile,
        res: &Resolutions,
        k: usize,
        children: &mut Vec<Vec<PackageID>>,
        Ghost(st): Ghost<BerryState>,
        Ghost(ds): Ghost<DepState>,
    ) -> (r: Result<(), Error>)
        requires
            old(self).holds_core(st, lock.version),
            old(self).deps_are(ds.out),
            state_wf(st, entries_view(lock.entries@)),
            keys_unique(res.entries()),
            k < st.pkgs.len(),
            kids_view(old(children)@) == ds.children,
            ds.children.len() == st.pkgs.len(),
        ensures
            match pkg_deps_run(st, res.entries(), entries_view(lock.entries@), k as int, ds,
                e_deps(entries_view(lock.entries@)[st.entry_of[k as int]]).len() as int) {
                Ok(d2) => r is Ok && final(self).holds_core(st, lock.version) && final(self).deps_are(d2.out)
                    && kids_view(final(children)@) == d2.children && d2.children.len() == st.pkgs.len(),
                Err(f) => r matches Err(x) && fail_is(x, f),
            },
    {
        let ghost entries = entries_view(lock.entries@);
        let i = self.entry_of[k];
        let e = &lock.entries[i];
        assert(entries[i as int] == e@);
        let parents = borrow_pairs(&e.descriptors);
        let n = e.dependencies.len();
        let mut m: usize = 0;
        while m < n
            invariant
                m <= n,
                n == e_deps(entries[st.entry_of[k as int]]).len(),
                entries == entries_view(lock.entries@),
                i as int == st.entry_of[k as int],
                entries[i as int] == e@,
                state_wf(st, entries),
                keys_unique(res.entries()),
                k < st.pkgs.len(),
                res_pairs_view(parents@) == e_descriptors(entries[st.entry_of[k as int]]),
                pkg_deps_run(st, res.entries(), entries, k as int, ds, m as int) matches Ok(d2)
                    && self.holds_core(st, lock.version) && self.deps_are(d2.out)
                    && kids_view(children@) == d2.children && d2.children.len() == st.pkgs.len(),
            decreases n - m,
        {
            let ghost d2 = pkg_deps_run(st, res.entries(), entries, k as int, ds, m as int)->Ok_0;
            match self.read_dep(lock, res, &parents, k, m, children, Ghost(st), Ghost(d2)) {
                Ok(()) => {},
                Err(x) => {
                    proof {
                        lemma_pkg_deps_run_err(st, res.entries(), entries, k as int, ds, m + 1, n as int);
                    }
                    return Err(x);
                },
            }
            m = m + 1;
        }
        Ok(())
    }

    /// The dependencies of every package, in id order.
    fn read_deps(
        &mut self,
        lock: &'y Lockfile,
        res: &Resolutions,
        children: &mut Vec<Vec<PackageID>>,
        Ghost(st): Ghost<BerryState>,
    ) -> (r: Result<(), Error>)
        requires
            old(self).holds(st, lock.version),
            state_wf(st, entries_view(lock.entries@)),
            keys_unique(res.entries()),
            kids_view(old(children)@) == Seq::new(st.pkgs.len(), |i: int| Seq::<PackageID>::empty()),
        ensures
            match deps_run(st, res.entries(), entries_view(lock.entries@), st.pkgs.len() as int) {
                Ok(ds) => r is Ok && final(self).holds_core(st, lock.version) && final(self).deps_are(ds.out)
                    && kids_view(final(children)@) == ds.children && ds.children.len() == st.pkgs.len(),
                Err(f) => r matches Err(x) && fail_is(x, f),
            },
    {
        let ghost entries = entries_view(lock.entries@);
        let n = self.entry_of.len();
        assert(self.deps_are(Seq::<(PackageID, DepView)>::empty()));
        let mut k: usize = 0;
        while k < n
            invariant
                k <= n,
                n == st.pkgs.len(),
                entries == entries_view(lock.entries@),
                state_wf(st, entries),
                keys_unique(res.entries()),
                deps_run(st, res.entries(), entries, k as int) matches Ok(ds)
                    && self.holds_core(st, lock.version) && self.deps_are(ds.out)
                    && kids_view(children@) == ds.children && ds.children.len() == st.pkgs.len(),
            decreases n - k,
        {
            let ghost ds = deps_run(st, res.entries(), entries, k as int)->Ok_0;
            match self.read_pkg_deps(lock, res, k, children, Ghost(st), Ghost(ds)) {
                Ok(()) => {},
                Err(x) => {
                    proof {
                        lemma_deps_run_err(st, res.entries(), entries, k + 1, n as int);
                    }
                    return Err(x);
                },
            }
            k = k + 1;
        }
        Ok(())
    }
}

/// Whether some descriptor of `cands` is for `p`.
pub(crate) fn has_pid_exec(cands: &Vec<((&str, &str), PackageID)>, p: PackageID) -> (b: bool)
    ensures
        b == has_pid(table_view(cands@), p),
{
    let ghost c = table_view(cands@);
    let mut j: usize = 0;
    while j < cands.len()
        invariant
            j <= cands.len(),
            c == table_view(cands@),
            forall|m: int| 0 <= m < j ==> c[m].1 != p,
        decreases cands.len() - j,
    {
        assert(c[j as int].1 == cands@[j as int].1);
        if cands[j].1 == p {
            return true;
        }
        j = j + 1;
    }
    false
}

/// The packages, each once, among `kids` that have a descriptor in `cands`.
pub(crate) fn sibling_hits(kids: &Vec<PackageID>, cands: &Vec<((&str, &str), PackageID)>) -> (r: Vec<PackageID>)
    ensures
        r@ == distinct_seq(kids@).filter(|p: PackageID| has_pid(table_view(cands@), p)),
{
    let ghost c = table_view(cands@);
    let ghost pred = |p: PackageID| has_pid(c, p);
    let mut seen: Vec<PackageID> = Vec::new();
    let mut hits: Vec<PackageID> = Vec::new();
    let mut m: usize = 0;
    proof {
        reveal(Seq::filter);
        assert(kids@.take(0) =~= Seq::<PackageID>::empty());
    }
    while m < kids.len()
        invariant
            m <= kids.len(),
            c == table_view(cands@),
            pred == (|p: PackageID| has_pid(c, p)),
            seen@ == distinct_seq(kids@.take(m as int)),
            hits@ == seen@.filter(pred),
        decreases kids.len() - m,
    {
        let p = kids[m];
        assert(kids@.take(m + 1).drop_last() =~= kids@.take(m as int));
        assert(kids@.take(m + 1).last() == p);
        if !contains_pid(&seen, p) {
            let ghost prev = seen@;
            seen.push(p);
            if has_pid_exec(cands, p) {
                hits.push(p);
            }
            proof {
                reveal(Seq::filter);
                assert(seen@.drop_last() =~= prev);
            }
        }
        m = m + 1;
    }
    assert(kids@.take(m as int) =~= kids@);
    hits
}

/// The descriptors of `cands` with the specifier `svs`, or `npm:` and it.
fn same_spec_hits<'a>(cands: &Vec<((&'a str, &'a str), PackageID)>, svs: &str) -> (r: Vec<((&'a str, &'a str), PackageID)>)
    ensures
        table_view(r@) == table_view(cands@).filter(same_spec_pred(svs@)),
{
    let ghost c = table_view(cands@);
    let ghost pred = same_spec_pred(svs@);
    let mut prefixed = String::from_str("npm:");
    prefixed.append(svs);
    let mut out: Vec<((&'a str, &'a str), PackageID)> = Vec::new();
    let mut m: usize = 0;
    proof {
        reveal(Seq::filter);
        assert(c.take(0) =~= Seq::<(Key, PackageID)>::empty());
    }
    while m < cands.len()
        invariant
            m <= cands.len(),
            c == table_view(cands@),
            prefixed@ == "npm:"@ + svs@,
            pred == same_spec_pred(svs@),
            table_view(out@) == c.take(m as int).filter(pred),
        decreases cands.len() - m,
    {
        proof {
            reveal(Seq::filter);
            assert(c.take(m + 1).drop_last() =~= c.take(m as int));
        }
        assert(c[m as int].0.1 == cands@[m as int].0.1@);
        if str_eq(cands[m].0.1, svs) || str_eq(cands[m].0.1, prefixed.as_str()) {
            let ghost prev = out@;
            out.push(cands[m]);
            assert(table_view(out@) =~= table_view(prev).push(c[m as int]));
        }
        m = m + 1;
    }
    assert(c.take(m as int) =~= c);
    out
}

impl<'y> BerryReader<'y> {
    /// The descriptors of `cands` for packages from npm whose version satisfies `range`.
    fn satisfying<'a>(
        &self,
        lock: &'y Lockfile,
        cands: &Vec<((&'a str, &'a str), PackageID)>,
        range: &str,
        Ghost(st): Ghost<BerryState>,
    ) -> (r: Vec<((&'a str, &'a str), PackageID)>)
        requires
            self.holds_core(st, lock.version),
            state_wf(st, entries_view(lock.entries@)),
            semver_range_parses(range@),
            forall|j: int| 0 <= j < cands@.len() ==> (#[trigger] cands@[j]).1.id() < st.pkgs.len(),
        ensures
            table_view(r@) == table_view(cands@).filter(
                |x: (Key, PackageID)|
                    npm_sourced(st, x.1) && semver_satisfies(
                        pid_version(st, entries_view(lock.entries@), x.1),
                        range@,
                    ),
            ),
    {
        let ghost entries = entries_view(lock.entries@);
        let ghost c = table_view(cands@);
        let ghost pred = |x: (Key, PackageID)|
            npm_sourced(st, x.1) && semver_satisfies(pid_version(st, entries, x.1), range@);
        let mut out: Vec<((&'a str, &'a str), PackageID)> = Vec::new();
        let mut m: usize = 0;
        proof {
            reveal(Seq::filter);
            assert(c.take(0) =~= Seq::<(Key, PackageID)>::empty());
        }
        while m < cands.len()
            invariant
                m <= cands.len(),
                c == table_view(cands@),
                entries == entries_view(lock.entries@),
                self.holds_core(st, lock.version),
                state_wf(st, entries),
                semver_range_parses(range@),
                forall|j: int| 0 <= j < cands@.len() ==> (#[trigger] cands@[j]).1.id() < st.pkgs.len(),
                pred == (|x: (Key, PackageID)|
                    npm_sourced(st, x.1) && semver_satisfies(pid_version(st, entries, x.1), range@)),
                table_view(out@) == c.take(m as int).filter(pred),
            decreases cands.len() - m,
        {
            proof {
                reveal(Seq::filter);
                assert(c.take(m + 1).drop_last() =~= c.take(m as int));
            }
            let p = cands[m].1;
            assert(c[m as int].1 == p);
            let npm = match &self.sources[p.index()] {
                Some(PackageSource::Npm) => true,
                _ => false,
            };
            assert(npm == npm_sourced(st, p));
            let keep = if npm {
                let i = self.entry_of[p.index()];
                assert(i as int == st.entry_of[p.id() as int]);
                assert(entries[i as int] == lock.entries@[i as int]@);
                version_satisfies(lock.entries[i].version.as_str(), range)
            } else {
                false
            };
            if keep {
                let ghost prev = out@;
                out.push(cands[m]);
                assert(table_view(out@) =~= table_view(prev).push(c[m as int]));
            }
            m = m + 1;
        }
        assert(c.take(m as int) =~= c);
        out
    }

    /// The package of the highest version among `sat`; the last of the highest.
    fn last_max_exec(
        &self,
        lock: &'y Lockfile,
        sat: &Vec<((&str, &str), PackageID)>,
        Ghost(st): Ghost<BerryState>,
    ) -> (r: PackageID)
        requires
            self.holds_core(st, lock.version),
            state_wf(st, entries_view(lock.entries@)),
            sat@.len() > 0,
            forall|j: int| 0 <= j < sat@.len() ==> (#[trigger] sat@[j]).1.id() < st.pkgs.len(),
        ensures
            r == last_max(st, entries_view(lock.entries@), table_view(sat@)),
            forall|m: int|
                0 <= m < sat@.len() ==> #[trigger] sat@[m].1 == r || semver_at_least(
                    pid_version(st, entries_view(lock.entries@), r),
                    pid_version(st, entries_view(lock.entries@), sat@[m].1),
                ),
    {
        let ghost entries = entries_view(lock.entries@);
        let ghost s = table_view(sat@);
        let mut best = sat[0].1;
        assert(s.take(1).len() == 1 && s.take(1)[0].1 == best);
        let mut j: usize = 1;
        while j < sat.len()
            invariant
                1 <= j <= sat.len(),
                s == table_view(sat@),
                entries == entries_view(lock.entries@),
                self.holds_core(st, lock.version),
                state_wf(st, entries),
                forall|m: int| 0 <= m < sat@.len() ==> (#[trigger] sat@[m]).1.id() < st.pkgs.len(),
                best == last_max(st, entries, s.take(j as int)),
                best.id() < st.pkgs.len(),
                forall|m: int|
                    0 <= m < j ==> #[trigger] sat@[m].1 == best || semver_at_least(
                        pid_version(st, entries, best),
                        pid_version(st, entries, sat@[m].1),
                    ),
            decreases sat.len() - j,
        {
            let p = sat[j].1;
            assert(s.take(j + 1).drop_last() =~= s.take(j as int));
            assert(s.take(j + 1).last().1 == p);
            let ip = self.entry_of[p.index()];
            let ib = self.entry_of[best.index()];
            assert(ip as int == st.entry_of[p.id() as int]);
            assert(ib as int == st.entry_of[best.id() as int]);
            assert(entries[ip as int] == lock.entries@[ip as int]@);
            assert(entries[ib as int] == lock.entries@[ib as int]@);
            if version_at_least(lock.entries[ip].version.as_str(), lock.entries[ib].version.as_str()) {
                best = p;
            }
            j = j + 1;
        }
        assert(s.take(j as int) =~= s);
        best
    }
}

proof fn lemma_pkg_peers_run_err(st: BerryState, res: Seq<ResEntry>, entries: Seq<EntryView>, k: int, ds: DepState, j: int, n: int)
    requires
        0 <= j <= n,
        pkg_peers_run(st, res, entries, k, ds, j) is Err,
    ensures
        pkg_peers_run(st, res, entries, k, ds, n) == pkg_peers_run(st, res, entries, k, ds, j),
    decreases n - j,
{
    if j < n {
        lemma_pkg_peers_run_err(st, res, entries, k, ds, j, n - 1);
    }
}

proof fn lemma_peers_run_err(st: BerryState, res: Seq<ResEntry>, entries: Seq<EntryView>, ds: DepState, j: int, n: int)
    requires
        0 <= j <= n,
        peers_run(st, res, entries, ds, j) is Err,
    ensures
        peers_run(st, res, entries, ds, n) == peers_run(st, res, entries, ds, j),
    decreases n - j,
{
    if j < n {
        lemma_peers_run_err(st, res, entries, ds, j, n - 1);
    }
}

impl<'y> BerryReader<'y> {
    /// The package a peer dependency of package `k` resolves to, if any.
    fn find_peer_pid(
        &self,
        lock: &'y Lockfile,
        res: &Resolutions,
        parents: &Vec<(&str, &str)>,
        k: usize,
        kids: &Vec<PackageID>,
        name: &str,
        svs: &str,
        Ghost(st): Ghost<BerryState>,
    ) -> (r: Result<Option<PackageID>, Error>)
        requires
            self.holds_core(st, lock.version),
            state_wf(st, entries_view(lock.entries@)),
            keys_unique(res.entries()),
            k < st.pkgs.len(),
            res_pairs_view(parents@) == e_descriptors(entries_view(lock.entries@)[st.entry_of[k as int]]),
        ensures
            match peer_target(st, res.entries(), entries_view(lock.entries@), k as int, kids@, name@, svs@) {
                Ok(o) => r == Ok::<Option<PackageID>, Error>(o),
                Err(f) => r matches Err(x) && fail_is(x, f),
            },
    {
        let ghost entries = entries_view(lock.entries@);
        let cands = candidates_of(self.table.as_slice(), name);
        proof {
            assert forall|j: int| 0 <= j < self.table@.len() implies (#[trigger] self.table@[j]).1.id()
                < st.pkgs.len() by {
                assert(table_view(self.table@)[j].1 == self.table@[j].1);
            }
            lemma_candidates_bound(self.table@, cands@, name@, st.pkgs.len());
        }
        let ghost c = table_view(cands@);
        if cands.len() == 1 {
            assert(c[0].1 == cands@[0].1);
            return Ok(Some(cands[0].1));
        }
        if cands.len() == 0 {
            return Ok(None);
        }
        let found = res.find((name, svs), parents.as_slice());
        proof {
            lemma_found_is_lookup(
                res.entries(),
                name@,
                svs@,
                e_descriptors(entries[st.entry_of[k as int]]),
                match found {
                    Some(v) => Some(v@),
                    None => None,
                },
            );
        }
        if let Some(ev) = found {
            let oh = same_svs_hits(&cands, ev);
            if oh.len() == 1 {
                assert(table_view(oh@)[0].1 == oh@[0].1);
                return Ok(Some(oh[0].1));
            }
        }
        let sib = sibling_hits(kids, &cands);
        if sib.len() == 1 {
            return Ok(Some(sib[0]));
        }
        let same = same_spec_hits(&cands, svs);
        if same.len() == 1 {
            assert(table_view(same@)[0].1 == same@[0].1);
            return Ok(Some(same[0].1));
        }
        let me = PackageID::from_index(k);
        if has_pid_exec(&cands, me) {
            return Ok(Some(me));
        }
        let parsed = match SourceVersionSpecifier::new(String::from_str(svs)) {
            Ok(s) => s,
            Err(e) => return Err(Error::ChasteError(e)),
        };
        if parsed.npm_range().is_some() {
            let rt = match parsed.npm_range_str() {
                Some(x) => x,
                None => return Ok(None),
            };
            proof {
                reveal_strlit("*");
            }
            let range = if rt.unicode_len() == 0 {
                "*"
            } else {
                rt
            };
            assert(range@ == npm_range_input(svs@));
            let sat = self.satisfying(lock, &cands, range, Ghost(st));
            proof {
                let pred = |x: (Key, PackageID)|
                    npm_sourced(st, x.1) && semver_satisfies(pid_version(st, entries, x.1), range@);
                assert forall|j: int| 0 <= j < sat@.len() implies (#[trigger] sat@[j]).1.id() < st.pkgs.len() by {
                    assert(table_view(sat@)[j].1 == sat@[j].1);
                    assert(c.filter(pred).contains(table_view(sat@)[j]));
                    c.lemma_filter_contains_rev(pred, table_view(sat@)[j]);
                    let m = choose|m: int| 0 <= m < c.len() && c[m] == table_view(sat@)[j];
                    assert(c[m].1 == cands@[m].1);
                }
            }
            if sat.len() == 1 {
                assert(table_view(sat@)[0].1 == sat@[0].1);
                return Ok(Some(sat[0].1));
            }
            if sat.len() > 1 {
                return Ok(Some(self.last_max_exec(lock, &sat, Ghost(st))));
            }
        }
        Ok(None)
    }

    /// Peer dependency `m` of package `k`.
    fn read_peer(
        &mut self,
        lock: &'y Lockfile,
        res: &Resolutions,
        parents: &Vec<(&str, &str)>,
        k: usize,
        m: usize,
        children: &mut Vec<Vec<PackageID>>,
        Ghost(st): Ghost<BerryState>,
        Ghost(ds): Ghost<DepState>,
    ) -> (r: Result<(), Error>)
        requires
            old(self).holds_core(st, lock.version),
            old(self).deps_are(ds.out),
            state_wf(st, entries_view(lock.entries@)),
            keys_unique(res.entries()),
            k < st.pkgs.len(),
            res_pairs_view(parents@) == e_descriptors(entries_view(lock.entries@)[st.entry_of[k as int]]),
            m < e_peers(entries_view(lock.entries@)[st.entry_of[k as int]]).len(),
            kids_view(old(children)@) == ds.children,
            ds.children.len() == st.pkgs.len(),
        ensures
            match peer_step(st, res.entries(), entries_view(lock.entries@), k as int, ds,
                e_peers(entries_view(lock.entries@)[st.entry_of[k as int]])[m as int]) {
                Ok(d2) => r is Ok && final(self).holds_core(st, lock.version) && final(self).deps_are(d2.out)
                    && kids_view(final(children)@) == d2.children && d2.children.len() == st.pkgs.len(),
                Err(f) => r matches Err(x) && fail_is(x, f),
            },
    {
        let ghost entries = entries_view(lock.entries@);
        let i = self.entry_of[k];
        let e = &lock.entries[i];
        assert(entries[i as int] == e@);
        let (name, svs) = &e.peer_dependencies[m];
        assert(e_peers(e@)[m as int] == (name@, svs@));
        let kind = if meta_optional_exec(&e.peer_dependencies_meta, name.as_str()) == Some(true) {
            DependencyKind::OptionalPeerDependency
        } else {
            DependencyKind::PeerDependency
        };
        assert(kids_view(children@)[k as int] == children@[k as int]@);
        let target = match self.find_peer_pid(lock, res, parents, k, &children[k], name.as_str(), svs.as_str(), Ghost(st)) {
            Ok(t) => t,
            Err(x) => return Err(x),
        };
        let p = match target {
            Some(p) => p,
            None => return Ok(()),
        };
        let mut kids = copy_pids(&children[k]);
        kids.push(p);
        children.set(k, kids);
        assert(kids_view(children@) =~= ds.children.update(k as int, ds.children[k as int].push(p)));
        let from = PackageID::from_index(k);
        let dep = match dep_build(kind, from, p, name.as_str(), svs.as_str()) {
            Ok(d) => d,
            Err(x) => return Err(x),
        };
        self.builder.add_dependency(dep);
        Ok(())
    }

    /// The peer dependencies of package `k`, in order.
    fn read_pkg_peers(
        &mut self,
        lock: &'y Lockfile,
        res: &Resolutions,
        k: usize,
        children: &mut Vec<Vec<PackageID>>,
        Ghost(st): Ghost<BerryState>,
        Ghost(ds): Ghost<DepState>,
    ) -> (r: Result<(), Error>)
        requires
            old(self).holds_core(st, lock.version),
            old(self).deps_are(ds.out),
            state_wf(st, entries_view(lock.entries@)),
            keys_unique(res.entries()),
            k < st.pkgs.len(),
            kids_view(old(children)@) == ds.children,
            ds.children.len() == st.pkgs.len(),
        ensures
            match pkg_peers_run(st, res.entries(), entries_view(lock.entries@), k as int, ds,
                e_peers(entries_view(lock.entries@)[st.entry_of[k as int]]).len() as int) {
                Ok(d2) => r is Ok && final(self).holds_core(st, lock.version) && final(self).deps_are(d2.out)
                    && kids_view(final(children)@) == d2.children && d2.children.len() == st.pkgs.len(),
                Err(f) => r matches Err(x) && fail_is(x, f),
            },
    {
        let ghost entries = entries_view(lock.entries@);
        let i = self.entry_of[k];
        let e = &lock.entries[i];
        assert(entries[i as int] == e@);
        let parents = borrow_pairs(&e.descriptors);
        let n = e.peer_dependencies.len();
        let mut m: usize = 0;
        while m < n
            invariant
                m <= n,
                n == e_peers(entries[st.entry_of[k as int]]).len(),
                entries == entries_view(lock.entries@),
                i as int == st.entry_of[k as int],
                entries[i as int] == e@,
                state_wf(st, entries),
                keys_unique(res.entries()),
                k < st.pkgs.len(),
                res_pairs_view(parents@) == e_descriptors(entries[st.entry_of[k as int]]),
                pkg_peers_run(st, res.entries(), entries, k as int, ds, m as int) matches Ok(d2)
                    && self.holds_core(st, lock.version) && self.deps_are(d2.out)
                    && kids_view(children@) == d2.children && d2.children.len() == st.pkgs.len(),
            decreases n - m,
        {
            let ghost d2 = pkg_peers_run(st, res.entries(), entries, k as int, ds, m as int)->Ok_0;
            match self.read_peer(lock, res, &parents, k, m, children, Ghost(st), Ghost(d2)) {
                Ok(()) => {},
                Err(x) => {
                    proof {
                        lemma_pkg_peers_run_err(st, res.entries(), entries, k as int, ds, m + 1, n as int);
                    }
                    return Err(x);
                },
            }
            m = m + 1;
        }
        Ok(())
    }

    /// The peer dependencies of every package, in id order.
    fn read_peers(
        &mut self,
        lock: &'y Lockfile,
        res: &Resolutions,
        children: &mut Vec<Vec<PackageID>>,
        Ghost(st): Ghost<BerryState>,
        Ghost(ds): Ghost<DepState>,
    ) -> (r: Result<(), Error>)
        requires
            old(self).holds_core(st, lock.version),
            old(self).deps_are(ds.out),
            state_wf(st, entries_view(lock.entries@)),
            keys_unique(res.entries()),
            kids_view(old(children)@) == ds.children,
            ds.children.len() == st.pkgs.len(),
        ensures
            match peers_run(st, res.entries(), entries_view(lock.entries@), ds, st.pkgs.len() as int) {
                Ok(d2) => r is Ok && final(self).holds_core(st, lock.version) && final(self).deps_are(d2.out),
                Err(f) => r matches Err(x) && fail_is(x, f),
            },
    {
        let ghost entries = entries_view(lock.entries@);
        let n = self.entry_of.len();
        let mut k: usize = 0;
        while k < n
            invariant
                k <= n,
                n == st.pkgs.len(),
                entries == entries_view(lock.entries@),
                state_wf(st, entries),
                keys_unique(res.entries()),
                peers_run(st, res.entries(), entries, ds, k as int) matches Ok(d2)
                    && self.holds_core(st, lock.version) && self.deps_are(d2.out)
                    && kids_view(children@) == d2.children && d2.children.len() == st.pkgs.len(),
            decreases n - k,
        {
            let ghost d2 = peers_run(st, res.entries(), entries, ds, k as int)->Ok_0;
            match self.read_pkg_peers(lock, res, k, children, Ghost(st), Ghost(d2)) {
                Ok(()) => {},
                Err(x) => {
                    proof {
                        lemma_peers_run_err(st, res.entries(), entries, ds, k + 1, n as int);
                    }
                    return Err(x);
                },
            }
            k = k + 1;
        }
        Ok(())
    }
}

/// Reads a yarn berry lockfile into a chastefile, with the `"resolutions"` of the
/// root `package.json` and the text of `node_modules/.yarn-state.yml`, when there is
/// one. See [`berry_run`] for what is read, in which order, and each way it can fail.
pub fn resolve(
    lock: &Lockfile,
    resolutions: &Vec<(String, String)>,
    state: Option<&str>,
) -> (r: Result<Chastefile<Meta>, Error>)
    ensures
        match berry_run(entries_view(lock.entries@), pairs_view(resolutions@), opt_str_view(state)) {
            Ok(out) => r matches Ok(c) && berry_chastefile_is(c, lock.version, out),
            Err(f) => r matches Err(e) && fail_is(e, f),
        },
{
    let ghost entries = entries_view(lock.entries@);
    let res = match read_resolutions(resolutions) {
        Ok(x) => x,
        Err(e) => return Err(e),
    };
    let mut reader = BerryReader::new(lock.version);
    match reader.read_entries(lock) {
        Ok(()) => {},
        Err(e) => return Err(e),
    }
    let ghost s1 = entries_run(entries, entries.len() as int)->Ok_0;
    match reader.read_patches(lock, Ghost(s1)) {
        Ok(()) => {},
        Err(e) => return Err(e),
    }
    let ghost s2 = patches_run(s1, entries, s1.deferred.len() as int)->Ok_0;
    match reader.read_state(lock, state, Ghost(s2)) {
        Ok(()) => {},
        Err(e) => return Err(e),
    }
    let ghost s3 = state_phase(s2, entries, opt_str_view(state))->Ok_0;
    let n = reader.entry_of.len();
    let mut children: Vec<Vec<PackageID>> = Vec::new();
    let mut k: usize = 0;
    while k < n
        invariant
            k <= n,
            kids_view(children@) == Seq::new(k as nat, |i: int| Seq::<PackageID>::empty()),
        decreases n - k,
    {
        let ghost prev = children@;
        let empty: Vec<PackageID> = Vec::new();
        assert(empty@ =~= Seq::<PackageID>::empty());
        children.push(empty);
        assert(kids_view(children@) =~= kids_view(prev).push(Seq::<PackageID>::empty()));
        assert(kids_view(children@) =~= Seq::new((k + 1) as nat, |i: int| Seq::<PackageID>::empty()));
        k = k + 1;
    }
    match reader.read_deps(lock, &res, &mut children, Ghost(s3)) {
        Ok(()) => {},
        Err(e) => return Err(e),
    }
    let ghost ds = deps_run(s3, res.entries(), entries, s3.pkgs.len() as int)->Ok_0;
    match reader.read_peers(lock, &res, &mut children, Ghost(s3), Ghost(ds)) {
        Ok(()) => {},
        Err(e) => return Err(e),
    }
    let ghost ds2 = peers_run(s3, res.entries(), entries, ds, s3.pkgs.len() as int)->Ok_0;
    let ghost b = reader.builder;
    match reader.builder.build() {
        Ok(c) => {
            proof {
                let out = BerryOut { st: s3, deps: ds2.out };
                assert forall|j: int| 0 <= j < out.deps.len() implies dep_matches(
                    #[trigger] c.deps()[j],
                    out.deps[j].1,
                    out.deps[j].0,
                ) by {
                    assert(c.deps()[j] == b.deps()[j]);
                }
                assert forall|k: int| 0 <= k < s3.pkgs.len() implies package_is(
                    #[trigger] c.spec_packages()[k],
                    s3.pkgs[k],
                ) by {
                    assert(c.spec_packages()[k] == b.spec_packages()[k]);
                }
            }
            Ok(c)
        },
        Err(e) => Err(Error::ChasteError(e)),
    }
}

} // verus!
