//! Reading yarn's JSON lockfile into a chastefile (see [`crate::yarn::zpm_model`]).

use vstd::prelude::*;

use crate::error::{chaste_fail_is, ChasteFail};
use vstd::string::{StrSliceExecFns, StringExecFns};

use crate::chastefile::{Chastefile, ChastefileBuilder};
use crate::derivation::{PackageDerivation, PackageDerivationMetaBuilder, PackagePatchBuilder};
use crate::checksums::{hex_digest, integrity_from_hex_sha512, is_hex_text, Checksums};
use crate::dependency::DependencyKind;
use crate::installation::InstallationBuilder;
use crate::modpath::{is_module_path, ModulePath};
use crate::name::PackageName;
use crate::npm::parse::{dep_matches, DepView};
use crate::package::{lemma_pid_at, pid_at, Package, PackageBuilder, PackageID};
use crate::source::{opt_source_view, PackageSource};
use crate::text::{chars_of, first_from_exec, has_at_exec, str_eq, str_lt};
use crate::yarn::berry::percent_decode;
use crate::yarn::lockfile::{pairs_view, PairsView};
use crate::yarn::zpm::{resolved, specifier_at_exec, specifiers, Resolved};
use crate::yarn::berry_model::{
    distinct_pids, fail_is, insert_all, DepState, res_run, insert_pos, key_lt, lemma_insert_all_bound, table_insert, DescTable, Key,
    LockFail,
};
use crate::yarn::berry_resolve::{
    candidates_of, contains_pid, copy_pids, read_resolutions, dep_build, has_pid_exec, key_string, kids_view, lemma_candidates_bound,
    lemma_insert_all_err, sibling_hits, table_insert_exec, table_view,
};
use crate::name::opt_str_view;
use crate::svs::{npm_range_input, SourceVersionSpecifier};
use crate::semver::{semver_at_least, semver_range_parses, semver_satisfies, version_at_least, version_satisfies};
use crate::yarn::resolutions::{
    is_same_svs_zpm, keys_unique, lemma_found_is_lookup, pairs_view as res_pairs_view, spec_is_same_svs_zpm, Resolutions,
    EntryView as ResEntry,
};
use crate::dependency::Dependency;
use crate::yarn::zpm_model::{
    add_copies, entry_specs, json_pkg, member_at, member_step, name_key, patch_index, patched_run,
    patched_spec, root_state, table_find, table_set, last_copy, patch_found, zpm_entry_step, zpm_package_is,
    zpm_patch_step, same_zpm, zpm_dep, zpm_dep_step, json_list_run, json_deps_run, members_deps_run, entry_list_run,
    entries_deps_run, entry_kind, entry_list, json_fail, members_fail, members_run, patches_found, zpm_chastefile_is, zpm_entries_run,
    zpm_patches_apply, zpm_patches_run, zpm_read, zpm_run, zpm_last_max, zpm_npm, zpm_peer_target, Patched, ZpmPkg,
    ZpmState,
};
use crate::yarn::zpm_types::{strs_view, zentries_view, zentry_view, JsonEntry, JsonView, Lockfile, PackageJson, ZEntryView};
use crate::yarn::{Error, Meta};

verus! {

/// A package kept for a patch before it is built: name, version, checksum text and
/// source.
struct Kept<'a> {
    name: &'a str,
    version: &'a str,
    checksum: Option<&'a str>,
    source: Option<PackageSource>,
}

/// The package that a kept one builds.
spec fn kept_view(k: Kept) -> ZpmPkg {
    ZpmPkg {
        name: Some(k.name@),
        version: Some(k.version@),
        checksum: match k.checksum {
            Some(c) => Some(hex_digest(c@)),
            None => None,
        },
        source: opt_source_view(k.source),
        patch: None,
    }
}

/// A kept package can be built again: its name, version and checksum were accepted.
spec fn kept_ok(k: Kept) -> bool {
    &&& crate::name::is_package_name(k.name@)
    &&& crate::semver::semver_version_parses(k.version@)
    &&& (k.checksum matches Some(c) ==> is_hex_text(c@))
}

/// The workspace members as text: path and `package.json`.
pub open spec fn zmembers_view(m: Seq<(String, PackageJson)>) -> Seq<(Seq<char>, JsonView)> {
    m.map_values(|x: (String, PackageJson)| (x.0@, x.1@))
}

/// What has been read so far, as the chastefile builder and the tables beside it.
pub struct ZpmReader<'a> {
    table: Vec<((&'a str, &'a str), PackageID)>,
    sources: Vec<Option<PackageSource>>,
    versions: Vec<&'a str>,
    entry_pid: Vec<PackageID>,
    copies: Vec<((&'a str, &'a str), Kept<'a>)>,
    builder: ChastefileBuilder<Meta>,
}

impl<'a> ZpmReader<'a> {
    /// The reader holds the state `st`, read from a lockfile of version `version`,
    /// whatever dependencies were added.
    pub closed spec fn holds_core(self, st: ZpmState, version: u8) -> bool {
        &&& table_view(self.table@) == st.table
        &&& self.sources@.len() == st.sources.len()
        &&& forall|k: int| 0 <= k < st.sources.len() ==> opt_source_view(self.sources@[k]) == st.sources[k]
        &&& self.versions@.len() == st.versions.len()
        &&& forall|k: int| 0 <= k < st.versions.len() ==> self.versions@[k]@ == st.versions[k]
        &&& self.entry_pid@ == st.entry_pid
        &&& self.copies@.len() == st.copies.len()
        &&& forall|j: int|
            0 <= j < st.copies.len() ==> (self.copies@[j].0.0@, self.copies@[j].0.1@) == st.copies[j].0
                && kept_view(self.copies@[j].1) == st.copies[j].1 && kept_ok(self.copies@[j].1)
        &&& self.builder.spec_packages().len() == st.pkgs.len()
        &&& forall|k: int|
            0 <= k < st.pkgs.len() ==> zpm_package_is(self.builder.spec_packages()[k], st.pkgs[k])
        &&& self.builder.spec_root() == Some(pid_at(0))
        &&& self.builder.spec_members() == st.members
        &&& self.builder.spec_installations().len() == st.insts.len()
        &&& forall|k: int|
            0 <= k < st.insts.len() ==> (#[trigger] self.builder.spec_installations()[k]).spec_package_id()
                == st.insts[k].0 && self.builder.spec_installations()[k].spec_path()@ == st.insts[k].1
        &&& self.builder.spec_meta().lockfile_version == version
    }

    /// The reader holds the state `st`, and no dependency was added yet.
    pub closed spec fn holds(self, st: ZpmState, version: u8) -> bool {
        &&& self.holds_core(st, version)
        &&& self.builder.deps().len() == 0
    }

    /// The dependencies added are `out`, in order.
    pub closed spec fn deps_are(self, out: Seq<(PackageID, DepView)>) -> bool {
        &&& self.builder.deps().len() == out.len()
        &&& forall|j: int|
            0 <= j < out.len() ==> dep_matches(#[trigger] self.builder.deps()[j], out[j].1, out[j].0)
    }
}

/// The state is consistent: one source and version per package, the ids of the
/// table and of the entries name packages, and a package from npm has a version
/// that parses.
pub open spec fn zpm_wf(st: ZpmState) -> bool {
    &&& st.sources.len() == st.pkgs.len()
    &&& st.versions.len() == st.pkgs.len()
    &&& st.pkgs.len() >= 1
    &&& forall|j: int| 0 <= j < st.table.len() ==> (#[trigger] st.table[j]).1.id() < st.pkgs.len()
    &&& forall|j: int| 0 <= j < st.entry_pid.len() ==> (#[trigger] st.entry_pid[j]).id() < st.pkgs.len()
    &&& forall|k: int|
        0 <= k < st.pkgs.len() ==> (#[trigger] st.sources[k] == Some(crate::source::SourceView::Npm)
            ==> crate::semver::semver_version_parses(st.versions[k]))
}

/// The package of a `package.json`.
fn json_package(j: &PackageJson) -> (r: Result<Package, Error>)
    ensures
        match json_pkg(j@) {
            Some(v) => r matches Ok(p) && zpm_package_is(p, v),
            None => r matches Err(Error::ChasteError(x)) && chaste_fail_is(x, json_fail(j@)),
        },
{
    let name = match &j.name {
        Some(n) => match PackageName::new(n.clone()) {
            Ok(x) => Some(x),
            Err(e) => return Err(Error::ChasteError(e)),
        },
        None => None,
    };
    let version = match &j.version {
        Some(v) => Some(v.clone()),
        None => None,
    };
    match PackageBuilder::new(name, version).build() {
        Ok(p) => Ok(p),
        Err(e) => Err(Error::ChasteError(e)),
    }
}

fn key_lt_exec(a: (&str, &str), b: (&str, &str)) -> (r: bool)
    ensures
        r == key_lt((a.0@, a.1@), (b.0@, b.1@)),
{
    str_lt(a.0, b.0) || (str_eq(a.0, b.0) && str_lt(a.1, b.1))
}

/// Sets a key of the table to `pid`, at its place.
pub(crate) fn table_set_exec<'b>(table: &mut Vec<((&'b str, &'b str), PackageID)>, k: (&'b str, &'b str), pid: PackageID)
    ensures
        table_view(final(table)@) == table_set(table_view(old(table)@), (k.0@, k.1@), pid),
{
    let ghost tv = table_view(table@);
    let ghost kv = (k.0@, k.1@);
    let mut i: usize = 0;
    while i < table.len() && key_lt_exec(table[i].0, k)
        invariant
            i <= table.len(),
            tv == table_view(table@),
            tv.len() == table@.len(),
            kv == (k.0@, k.1@),
            insert_pos(tv, kv, 0) == insert_pos(tv, kv, i as int),
        decreases table.len() - i,
    {
        assert(tv[i as int].0 == (table@[i as int].0.0@, table@[i as int].0.1@));
        i = i + 1;
    }
    if i < table.len() {
        assert(tv[i as int].0 == (table@[i as int].0.0@, table@[i as int].0.1@));
    }
    assert(insert_pos(tv, kv, i as int) == i);
    if i < table.len() && str_eq(table[i].0.0, k.0) && str_eq(table[i].0.1, k.1) {
        table.set(i, (k, pid));
        assert(table_view(table@) =~= tv.update(i as int, (kv, pid)));
    } else {
        table.insert(i, (k, pid));
        assert(table_view(table@) =~= tv.insert(i as int, (kv, pid)));
    }
}

/// Sets the name of a workspace package, if it has one, to `pid`.
fn name_key_exec<'b>(table: &mut Vec<((&'b str, &'b str), PackageID)>, name: &'b Option<String>, pid: PackageID)
    ensures
        table_view(final(table)@) == name_key(crate::yarn::classic_model::opt_view(*name), table_view(old(table)@), pid),
{
    match name {
        Some(n) => {
            proof {
                reveal_strlit("");
                assert(""@ =~= Seq::<char>::empty());
            }
            table_set_exec(table, (n.as_str(), ""), pid);
        },
        None => {},
    }
}

/// Adds the specifiers of an entry for `pid`, in order; the first one that is there
/// already stops it.
fn insert_specs<'b>(table: &mut Vec<((&'b str, &'b str), PackageID)>, ds: &Vec<(&'b str, &'b str)>, pid: PackageID) -> (r: Result<(), Error>)
    ensures
        match insert_all(table_view(old(table)@), crate::yarn::zpm::pairs_view(ds@), pid) {
            Ok(t) => r is Ok && table_view(final(table)@) == t,
            Err(d) => r matches Err(e) && fail_is(e, LockFail::Duplicate(d)),
        },
{
    let ghost t0 = table_view(table@);
    let ghost pv = crate::yarn::zpm::pairs_view(ds@);
    let mut j: usize = 0;
    assert(pv.take(0) =~= Seq::<Key>::empty());
    while j < ds.len()
        invariant
            j <= ds.len(),
            t0 == table_view(old(table)@),
            pv == crate::yarn::zpm::pairs_view(ds@),
            insert_all(t0, pv.take(j as int), pid) == Ok::<DescTable, Seq<char>>(table_view(table@)),
        decreases ds.len() - j,
    {
        let (n, s) = ds[j];
        assert(pv.take(j + 1).drop_last() =~= pv.take(j as int));
        assert(pv.take(j + 1).last() == (n@, s@));
        if !table_insert_exec(table, (n, s), pid) {
            proof {
                lemma_insert_all_err(t0, pv, j + 1, pid);
            }
            return Err(Error::DuplicateSpecifiers(key_string(n, s)));
        }
        j = j + 1;
    }
    assert(pv.take(j as int) =~= pv);
    Ok(())
}

impl<'a> ZpmReader<'a> {
    /// Starts with the root package, installed at the root.
    fn start(root: &'a PackageJson, version: u8) -> (r: Result<ZpmReader<'a>, Error>)
        ensures
            match root_state(root@) {
                Some(st) => r matches Ok(x) && x.holds(st, version) && zpm_wf(st),
                None => r matches Err(Error::ChasteError(x)) && chaste_fail_is(x, json_fail(root@)),
            },
    {
        let p = match json_package(root) {
            Ok(p) => p,
            Err(e) => return Err(e),
        };
        let mut builder = ChastefileBuilder::new(Meta { lockfile_version: version });
        let pid = builder.add_package(p);
        proof {
            lemma_pid_at(0);
        }
        match builder.set_root_package_id(pid) {
            Ok(()) => {},
            Err(e) => return Err(Error::ChasteError(e)),
        }
        let inst = match InstallationBuilder::new(pid, ModulePath::root()).build() {
            Ok(i) => i,
            Err(e) => return Err(Error::ChasteError(e)),
        };
        builder.add_package_installation(inst);
        let mut table: Vec<((&'a str, &'a str), PackageID)> = Vec::new();
        assert(table_view(table@) =~= seq![]);
        name_key_exec(&mut table, &root.name, pid);
        let mut sources: Vec<Option<PackageSource>> = Vec::new();
        sources.push(None);
        let mut versions: Vec<&'a str> = Vec::new();
        proof {
            reveal_strlit("");
        }
        versions.push("");
        let r = ZpmReader { table, sources, versions, entry_pid: Vec::new(), copies: Vec::new(), builder };
        proof {
            let st = root_state(root@)->Some_0;
            assert(r.entry_pid@ =~= st.entry_pid);
            assert(""@ =~= Seq::<char>::empty());
            lemma_name_key_bound(root@.name, seq![], pid, 1);
            assert(r.copies@.len() == 0);
            assert(r.versions@[0]@ == st.versions[0]);
            assert(opt_source_view(r.sources@[0]) == st.sources[0]);
            assert(r.holds_core(st, version));
            assert(zpm_wf(st));
        }
        Ok(r)
    }

    /// Adds a workspace member at `path`.
    fn add_member(&mut self, path: &'a String, j: &'a PackageJson, Ghost(st): Ghost<ZpmState>, Ghost(version): Ghost<u8>) -> (r: Result<(), Error>)
        requires
            old(self).holds(st, version),
            zpm_wf(st),
            st.pkgs.len() < usize::MAX,
        ensures
            match member_step(st, (path@, j@)) {
                None => r matches Err(Error::ChasteError(x)) && chaste_fail_is(
                    x,
                    if json_pkg(j@) is None {
                        json_fail(j@)
                    } else {
                        ChasteFail::Path(path@)
                    },
                ),
                Some(s2) => r is Ok && final(self).holds(s2, version) && zpm_wf(s2),
            },
    {
        let p = match json_package(j) {
            Ok(p) => p,
            Err(e) => return Err(e),
        };
        let mp = match ModulePath::new(path.clone()) {
            Ok(m) => m,
            Err(e) => return Err(Error::ChasteError(e)),
        };
        let ghost b0 = self.builder;
        let ghost t0 = table_view(self.table@);
        let pid = self.builder.add_package(p);
        proof {
            lemma_pid_at(st.pkgs.len());
        }
        name_key_exec(&mut self.table, &j.name, pid);
        match self.builder.set_as_workspace_member(pid) {
            Ok(()) => {},
            Err(e) => return Err(Error::ChasteError(e)),
        }
        let inst = match InstallationBuilder::new(pid, mp).build() {
            Ok(i) => i,
            Err(e) => return Err(Error::ChasteError(e)),
        };
        self.builder.add_package_installation(inst);
        self.sources.push(None);
        proof {
            reveal_strlit("");
        }
        self.versions.push("");
        proof {
            let s2 = member_step(st, (path@, j@))->Some_0;
            assert forall|k: int| 0 <= k < s2.pkgs.len() implies zpm_package_is(
                self.builder.spec_packages()[k],
                s2.pkgs[k],
            ) by {
                if k < st.pkgs.len() {
                    assert(self.builder.spec_packages()[k] == b0.spec_packages()[k]);
                }
            }
            assert forall|k: int| 0 <= k < s2.sources.len() implies opt_source_view(self.sources@[k]) == s2.sources[k] by {
                if k < st.sources.len() {
                    assert(self.sources@[k] == old(self).sources@[k]);
                }
            }
            assert forall|k: int| 0 <= k < s2.versions.len() implies self.versions@[k]@ == s2.versions[k] by {
                if k < st.versions.len() {
                    assert(self.versions@[k] == old(self).versions@[k]);
                }
            }
            lemma_name_key_bound(j@.name, t0, pid, s2.pkgs.len());
        }
        Ok(())
    }
}

/// Setting a key to a package below `b` keeps every id of the table below `b`.
pub(crate) proof fn lemma_table_set_bound(t: DescTable, k: Key, pid: PackageID, b: nat)
    requires
        forall|j: int| 0 <= j < t.len() ==> (#[trigger] t[j]).1.id() < b,
        pid.id() < b,
    ensures
        forall|j: int| 0 <= j < table_set(t, k, pid).len() ==> (#[trigger] table_set(t, k, pid)[j]).1.id() < b,
{
    let i = insert_pos(t, k, 0);
    crate::yarn::berry_model::lemma_insert_pos(t, k, 0);
    let t2 = table_set(t, k, pid);
    assert forall|j: int| 0 <= j < t2.len() implies (#[trigger] t2[j]).1.id() < b by {
        if !(i < t.len() && t[i].0 == k) {
            if j > i {
                assert(t2[j] == t[j - 1]);
            }
        }
    }
}

proof fn lemma_name_key_bound(name: Option<Seq<char>>, t: DescTable, pid: PackageID, b: nat)
    requires
        forall|j: int| 0 <= j < t.len() ==> (#[trigger] t[j]).1.id() < b,
        pid.id() < b,
    ensures
        forall|j: int| 0 <= j < name_key(name, t, pid).len() ==> (#[trigger] name_key(name, t, pid)[j]).1.id() < b,
{
    if let Some(n) = name {
        lemma_table_set_bound(t, (n, seq![]), pid, b);
    }
}


/// A patch override: the specifier it applies to (decoded), the path of the patch,
/// and the override's value.
struct PatchOv<'a> {
    name: String,
    spec: String,
    path: &'a str,
    value: &'a str,
}

/// A patch override as text.
spec fn patch_ov_view(p: PatchOv) -> (Key, (Seq<char>, Seq<char>)) {
    ((p.name@, p.spec@), (p.path@, p.value@))
}

/// Patch overrides as text.
spec fn patched_view(v: Seq<PatchOv>) -> Patched {
    v.map_values(|p: PatchOv| patch_ov_view(p))
}

/// Reads a patch override (see [`patched_spec`]).
fn patched_spec_exec<'b>(v: &'b str) -> (r: Option<(String, String, &'b str)>)
    ensures
        match r {
            Some((n, s, p)) => patched_spec(v@) == Some(((n@, s@), p@)),
            None => patched_spec(v@) is None,
        },
{
    let chars = chars_of(v);
    if !has_at_exec(&chars, 0, "patch:") {
        return None;
    }
    proof {
        reveal_strlit("patch:");
        reveal_strlit("#");
    }
    let start = "patch:".unicode_len();
    let body = v.substring_char(start, chars.len());
    let bc = chars_of(body);
    let j = match first_from_exec(&bc, 0, "#") {
        Some(j) => j,
        None => return None,
    };
    let enc = body.substring_char(0, j);
    let decoded = match percent_decode(enc) {
        Ok(d) => d,
        Err(_) => return None,
    };
    let sc = chars_of(decoded.as_str());
    let (at, e) = match specifier_at_exec(&sc, 0) {
        Some(x) => x,
        None => return None,
    };
    let name = decoded.as_str().substring_char(0, at).to_owned();
    let spec = decoded.as_str().substring_char(at + 1, e).to_owned();
    let path = body.substring_char(j + 1, bc.len());
    Some((name, spec, path))
}

/// The first patch override from `i` for the specifier `k`.
fn patch_index_exec(ps: &Vec<PatchOv>, k: (&str, &str)) -> (r: Option<usize>)
    ensures
        match r {
            Some(i) => patch_index(patched_view(ps@), (k.0@, k.1@), 0) == Some(i as int) && i < ps@.len(),
            None => patch_index(patched_view(ps@), (k.0@, k.1@), 0) is None,
        },
{
    let ghost pv = patched_view(ps@);
    let mut i: usize = 0;
    while i < ps.len()
        invariant
            i <= ps.len(),
            pv == patched_view(ps@),
            patch_index(pv, (k.0@, k.1@), 0) == patch_index(pv, (k.0@, k.1@), i as int),
        decreases ps.len() - i,
    {
        assert(pv[i as int] == patch_ov_view(ps@[i as int]));
        if str_eq(ps[i].name.as_str(), k.0) && str_eq(ps[i].spec.as_str(), k.1) {
            return Some(i);
        }
        i = i + 1;
    }
    None
}

/// The patches of the overrides, in order (see [`patched_run`]).
fn read_patched<'b>(res: &'b Vec<(String, String)>) -> (r: Vec<PatchOv<'b>>)
    ensures
        patched_view(r@) == patched_run(pairs_view(res@), res@.len() as int),
{
    let ghost pv = pairs_view(res@);
    let mut out: Vec<PatchOv<'b>> = Vec::new();
    let mut j: usize = 0;
    assert(patched_view(out@) =~= seq![]);
    while j < res.len()
        invariant
            j <= res.len(),
            pv == pairs_view(res@),
            patched_view(out@) == patched_run(pv, j as int),
        decreases res.len() - j,
    {
        let value = res[j].1.as_str();
        assert(pv[j as int].1 == value@);
        match patched_spec_exec(value) {
            None => {},
            Some((name, spec, path)) => {
                let ghost before = patched_view(out@);
                match patch_index_exec(&out, (name.as_str(), spec.as_str())) {
                    Some(i) => {
                        let item = PatchOv { name, spec, path, value };
                        out.set(i, item);
                        assert(patched_view(out@) =~= before.update(i as int, patch_ov_view(item)));
                    },
                    None => {
                        let item = PatchOv { name, spec, path, value };
                        out.push(item);
                        assert(patched_view(out@) =~= before.push(patch_ov_view(item)));
                    },
                }
            },
        }
        j = j + 1;
    }
    out
}


/// The first member at `path`.
fn member_at_exec(members: &Vec<(String, PackageJson)>, path: &str) -> (r: Option<usize>)
    ensures
        match r {
            Some(m) => member_at(zmembers_view(members@), path@, 0) == Some(m as int) && m < members@.len(),
            None => member_at(zmembers_view(members@), path@, 0) is None,
        },
{
    let ghost mv = zmembers_view(members@);
    let mut m: usize = 0;
    while m < members.len()
        invariant
            m <= members.len(),
            mv == zmembers_view(members@),
            member_at(mv, path@, 0) == member_at(mv, path@, m as int),
        decreases members.len() - m,
    {
        assert(mv[m as int].0 == members@[m as int].0@);
        if str_eq(members[m].0.as_str(), path) {
            return Some(m);
        }
        m = m + 1;
    }
    None
}

/// The kept packages stay buildable and keep what they were.
proof fn lemma_copies_kept(cs: Seq<(Key, ZpmPkg)>, specs: PairsView, patched: Patched, p: ZpmPkg, n: int)
    requires
        0 <= n <= specs.len(),
    ensures
        add_copies(cs, specs.take(n), patched, p).len() >= cs.len(),
        forall|j: int| 0 <= j < cs.len() ==> add_copies(cs, specs.take(n), patched, p)[j] == cs[j],
        forall|j: int|
            cs.len() <= j < add_copies(cs, specs.take(n), patched, p).len() ==> add_copies(cs, specs.take(n), patched, p)[j].1 == p,
    decreases n,
{
    if n > 0 {
        assert(specs.take(n).drop_last() =~= specs.take(n - 1));
        lemma_copies_kept(cs, specs, patched, p, n - 1);
    }
}

impl<'a> ZpmReader<'a> {
    /// Reads an entry with its key.
    fn read_entry(
        &mut self,
        members: &'a Vec<(String, PackageJson)>,
        patched: &'a Vec<PatchOv<'a>>,
        ent: &'a (String, JsonEntry),
        Ghost(st): Ghost<ZpmState>,
        Ghost(version): Ghost<u8>,
    ) -> (r: Result<(), Error>)
        requires
            old(self).holds(st, version),
            zpm_wf(st),
            st.pkgs.len() < usize::MAX,
            1 + members@.len() <= st.pkgs.len(),
        ensures
            match zpm_entry_step(st, zmembers_view(members@), patched_view(patched@), zentry_view(*ent)) {
                Ok(s2) => r is Ok && final(self).holds(s2, version) && zpm_wf(s2) && s2.pkgs.len() <= st.pkgs.len() + 1,
                Err(f) => r matches Err(e) && fail_is(e, f),
            },
    {
        let ghost ev = zentry_view(*ent);
        let ghost pv = patched_view(patched@);
        let key = ent.0.as_str();
        let e = &ent.1;
        let specs = match specifiers(key) {
            Ok(v) => v,
            Err(x) => return Err(x),
        };
        let ghost sv = crate::yarn::zpm::pairs_view(specs@);
        assert(entry_specs(ev) == Some(sv));
        let (name, res) = match resolved(e.resolution.resolution.as_str()) {
            Ok(x) => x,
            Err(x) => return Err(x),
        };
        match res {
            Some(Resolved::Workspace(path)) => {
                let m = match member_at_exec(members, path) {
                    Some(m) => m,
                    None => return Err(Error::UnrecognizedWorkspaceMember(path.to_owned())),
                };
                let pid = PackageID::from_index(1 + m);
                proof {
                    lemma_pid_at((1 + m) as nat);
                    lemma_insert_all_bound(st.table, sv, pid, st.pkgs.len());
                }
                match insert_specs(&mut self.table, &specs, pid) {
                    Ok(()) => {},
                    Err(x) => return Err(x),
                }
                self.entry_pid.push(pid);
                Ok(())
            },
            _ => {
                let src: Option<PackageSource> = match &res {
                    Some(Resolved::Remote(s)) => Some(s.duplicate()),
                    _ => None,
                };
                let pn = match PackageName::new(name.to_owned()) {
                    Ok(n) => n,
                    Err(x) => return Err(Error::ChasteError(x)),
                };
                let checksum: Option<&'a str> = match &e.checksum {
                    Some(c) => Some(c.as_str()),
                    None => None,
                };
                let integrity = match checksum {
                    Some(c) => match integrity_from_hex_sha512(c) {
                        Ok(i) => Some(i),
                        Err(m) => return Err(Error::SSRIError(m)),
                    },
                    None => None,
                };
                let mut b = PackageBuilder::new(Some(pn), Some(e.resolution.version.clone()));
                match &src {
                    Some(s) => b.source(s.duplicate()),
                    None => {},
                }
                match integrity {
                    Some(i) => b.checksums(Checksums::RepackZip(i)),
                    None => {},
                }
                let p = match b.build() {
                    Ok(p) => p,
                    Err(x) => return Err(Error::ChasteError(x)),
                };
                let ghost zp = ZpmPkg {
                    name: Some(name@),
                    version: Some(e.resolution.version@),
                    checksum: match checksum {
                        Some(c) => Some(hex_digest(c@)),
                        None => None,
                    },
                    source: opt_source_view(src),
                    patch: None,
                };
                let ghost b0 = self.builder;
                let ghost t0 = table_view(self.table@);
                let pid = self.builder.add_package(p);
                proof {
                    lemma_pid_at(st.pkgs.len());
                    lemma_insert_all_bound(st.table, sv, pid, st.pkgs.len() + 1);
                }
                match insert_specs(&mut self.table, &specs, pid) {
                    Ok(()) => {},
                    Err(x) => return Err(x),
                }
                let ghost c0 = self.copies@;
                let ghost b1 = self.builder;
                let ghost tb1 = self.table@;
                let version_str = e.resolution.version.as_str();
                let mut c: usize = 0;
                assert(sv.take(0) =~= Seq::<Key>::empty());
                while c < specs.len()
                    invariant
                        c <= specs.len(),
                        sv == crate::yarn::zpm::pairs_view(specs@),
                        pv == patched_view(patched@),
                        self.copies@.len() == st.copies.len() + (self.copies@.len() - st.copies.len()),
                        self.copies@.len() >= c0.len(),
                        forall|j: int| 0 <= j < c0.len() ==> self.copies@[j] == c0[j],
                        add_copies(st.copies, sv.take(c as int), pv, zp).len() == self.copies@.len(),
                        forall|j: int|
                            0 <= j < self.copies@.len() ==> (self.copies@[j].0.0@, self.copies@[j].0.1@)
                                == add_copies(st.copies, sv.take(c as int), pv, zp)[j].0,
                        forall|j: int|
                            c0.len() <= j < self.copies@.len() ==> kept_view(self.copies@[j].1) == zp && kept_ok(
                                self.copies@[j].1,
                            ),
                        c0.len() == st.copies.len(),
                        forall|j: int|
                            0 <= j < st.copies.len() ==> (c0[j].0.0@, c0[j].0.1@) == st.copies[j].0,
                        zp.name == Some(name@),
                        zp.version == Some(version_str@),
                        crate::name::is_package_name(name@),
                        crate::semver::semver_version_parses(version_str@),
                        checksum matches Some(cs) ==> is_hex_text(cs@),
                        zp.checksum == match checksum {
                            Some(cs) => Some(hex_digest(cs@)),
                            None => None::<Seq<char>>,
                        },
                        zp.source == opt_source_view(src),
                        zp.patch is None,
                        self.builder == b1,
                        self.table@ == tb1,
                        self.sources@ == old(self).sources@,
                        self.versions@ == old(self).versions@,
                        self.entry_pid@ == old(self).entry_pid@,
                    decreases specs.len() - c,
                {
                    let k = specs[c];
                    assert(sv.take(c + 1).drop_last() =~= sv.take(c as int));
                    assert(sv.take(c + 1).last() == (k.0@, k.1@));
                    if patch_index_exec(patched, k).is_some() {
                        let kept_src = match &src {
                            Some(s) => Some(s.duplicate()),
                            None => None,
                        };
                        let kept = Kept { name, version: version_str, checksum, source: kept_src };
                        self.copies.push((k, kept));
                    }
                    c = c + 1;
                }
                assert(sv.take(c as int) =~= sv);
                proof {
                    lemma_copies_kept(st.copies, sv, pv, zp, sv.len() as int);
                }
                self.sources.push(src);
                self.versions.push(version_str);
                self.entry_pid.push(pid);
                proof {
                    let s2 = zpm_entry_step(st, zmembers_view(members@), pv, ev)->Ok_0;
                    assert(s2.pkgs == st.pkgs.push(zp));
                    assert(s2.copies == add_copies(st.copies, sv, pv, zp));
                    assert(add_copies(st.copies, sv.take(sv.len() as int), pv, zp) == s2.copies);
                    assert forall|k: int| 0 <= k < s2.pkgs.len() implies zpm_package_is(
                        self.builder.spec_packages()[k],
                        s2.pkgs[k],
                    ) by {
                        if k < st.pkgs.len() {
                            assert(self.builder.spec_packages()[k] == b0.spec_packages()[k]);
                        }
                    }
                    assert forall|k: int| 0 <= k < s2.sources.len() implies opt_source_view(self.sources@[k]) == s2.sources[k] by {
                        if k < st.sources.len() {
                            assert(self.sources@[k] == old(self).sources@[k]);
                        }
                    }
                    assert forall|k: int| 0 <= k < s2.versions.len() implies self.versions@[k]@ == s2.versions[k] by {
                        if k < st.versions.len() {
                            assert(self.versions@[k] == old(self).versions@[k]);
                        }
                    }
                    assert forall|j: int| 0 <= j < s2.copies.len() implies (self.copies@[j].0.0@, self.copies@[j].0.1@) == s2.copies[j].0
                        && kept_view(self.copies@[j].1) == s2.copies[j].1 && kept_ok(self.copies@[j].1) by {
                        if j < st.copies.len() {
                            assert(self.copies@[j] == c0[j]);
                            assert(c0[j] == old(self).copies@[j]);
                            assert(s2.copies[j] == st.copies[j]);
                            assert(kept_view(old(self).copies@[j].1) == st.copies[j].1);
                        } else {
                            assert(s2.copies[j].1 == zp);
                        }
                    }
                    assert(self.entry_pid@ =~= s2.entry_pid);
                }
                Ok(())
            },
        }
    }
}


/// The first position of the key `k` in the table.
fn table_find_exec(table: &Vec<((&str, &str), PackageID)>, k: (&str, &str)) -> (r: Option<usize>)
    ensures
        match r {
            Some(i) => table_find(table_view(table@), (k.0@, k.1@), 0) == Some(i as int) && i < table@.len(),
            None => table_find(table_view(table@), (k.0@, k.1@), 0) is None,
        },
{
    let ghost tv = table_view(table@);
    let mut i: usize = 0;
    while i < table.len()
        invariant
            i <= table.len(),
            tv == table_view(table@),
            table_find(tv, (k.0@, k.1@), 0) == table_find(tv, (k.0@, k.1@), i as int),
        decreases table.len() - i,
    {
        assert(tv[i as int].0 == (table@[i as int].0.0@, table@[i as int].0.1@));
        if str_eq(table[i].0.0, k.0) && str_eq(table[i].0.1, k.1) {
            return Some(i);
        }
        i = i + 1;
    }
    None
}

impl<'a> ZpmReader<'a> {
    /// The last package kept for the specifier `k`.
    fn last_copy_exec(&self, k: (&str, &str), Ghost(st): Ghost<ZpmState>, Ghost(version): Ghost<u8>) -> (r: Option<usize>)
        requires
            self.holds_core(st, version),
        ensures
            match r {
                Some(i) => i < st.copies.len() && last_copy(st.copies, (k.0@, k.1@), st.copies.len() as int)
                    == Some(st.copies[i as int].1),
                None => last_copy(st.copies, (k.0@, k.1@), st.copies.len() as int) is None,
            },
    {
        let mut i = self.copies.len();
        while i > 0
            invariant
                i <= self.copies@.len(),
                self.holds_core(st, version),
                last_copy(st.copies, (k.0@, k.1@), st.copies.len() as int) == last_copy(st.copies, (k.0@, k.1@), i as int),
            decreases i,
        {
            if str_eq(self.copies[i - 1].0.0, k.0) && str_eq(self.copies[i - 1].0.1, k.1) {
                return Some(i - 1);
            }
            i = i - 1;
        }
        None
    }

    /// Adds the patched copy of a package (see [`zpm_patch_step`]).
    fn read_patch(&mut self, pt: &'a PatchOv<'a>, Ghost(st): Ghost<ZpmState>, Ghost(version): Ghost<u8>)
        requires
            old(self).holds(st, version),
            zpm_wf(st),
            st.pkgs.len() < usize::MAX,
            patch_found(st, patch_ov_view(*pt).0),
        ensures
            final(self).holds(zpm_patch_step(st, patch_ov_view(*pt)), version),
            zpm_wf(zpm_patch_step(st, patch_ov_view(*pt))),
    {
        let k = (pt.name.as_str(), pt.spec.as_str());
        let og = match table_find_exec(&self.table, k) {
            Some(i) => self.table[i].1,
            None => {
                proof {
                    assert(false);
                }
                return;
            },
        };
        let ci = match self.last_copy_exec(k, Ghost(st), Ghost(version)) {
            Some(i) => i,
            None => {
                proof {
                    assert(false);
                }
                return;
            },
        };
        let kept = &self.copies[ci].1;
        let pn = match PackageName::new(String::from_str(kept.name)) {
            Ok(n) => n,
            Err(_) => {
                proof {
                    assert(false);
                }
                return;
            },
        };
        let mut b = PackageBuilder::new(Some(pn), Some(String::from_str(kept.version)));
        match &kept.source {
            Some(s) => b.source(s.duplicate()),
            None => {},
        }
        match kept.checksum {
            Some(c) => match integrity_from_hex_sha512(c) {
                Ok(i) => b.checksums(Checksums::RepackZip(i)),
                Err(_) => {
                    proof {
                        assert(false);
                    }
                    return;
                },
            },
            None => {},
        }
        let patch = match PackagePatchBuilder::new(String::from_str(pt.path)).build() {
            Ok(p) => p,
            Err(_) => return,
        };
        let meta = match PackageDerivationMetaBuilder::new(PackageDerivation::Patch(patch), og).build() {
            Ok(m) => m,
            Err(_) => return,
        };
        b.derived(meta);
        let p = match b.build() {
            Ok(p) => p,
            Err(_) => {
                proof {
                    assert(false);
                }
                return;
            },
        };
        let ghost b0 = self.builder;
        let ghost t0 = table_view(self.table@);
        let pid = self.builder.add_package(p);
        proof {
            lemma_pid_at(st.pkgs.len());
            lemma_table_set_bound(t0, (pt.name@, pt.value@), pid, st.pkgs.len() + 1);
        }
        table_set_exec(&mut self.table, (pt.name.as_str(), pt.value), pid);
        self.sources.push(None);
        proof {
            reveal_strlit("");
        }
        self.versions.push("");
        proof {
            let s2 = zpm_patch_step(st, patch_ov_view(*pt));
            assert forall|q: int| 0 <= q < s2.pkgs.len() implies zpm_package_is(
                self.builder.spec_packages()[q],
                s2.pkgs[q],
            ) by {
                if q < st.pkgs.len() {
                    assert(self.builder.spec_packages()[q] == b0.spec_packages()[q]);
                }
            }
            assert forall|q: int| 0 <= q < s2.sources.len() implies opt_source_view(self.sources@[q]) == s2.sources[q] by {
                if q < st.sources.len() {
                    assert(self.sources@[q] == old(self).sources@[q]);
                }
            }
            assert forall|q: int| 0 <= q < s2.versions.len() implies self.versions@[q]@ == s2.versions[q] by {
                if q < st.versions.len() {
                    assert(self.versions@[q] == old(self).versions@[q]);
                }
            }
        }
    }
}


/// The packages, each once, of the descriptors of `cands` whose specifier names the
/// same thing as `spec` (see [`same_zpm`]).
fn same_zpm_hits(cands: &Vec<((&str, &str), PackageID)>, spec: &str) -> (r: Vec<PackageID>)
    ensures
        r@ == same_zpm(table_view(cands@), spec@),
{
    let ghost c = table_view(cands@);
    let ghost pred = |x: (Key, PackageID)| spec_is_same_svs_zpm(spec@, x.0.1);
    let mut out: Vec<PackageID> = Vec::new();
    let mut m: usize = 0;
    proof {
        reveal(Seq::filter);
        assert(c.take(0) =~= Seq::<(Key, PackageID)>::empty());
    }
    while m < cands.len()
        invariant
            m <= cands.len(),
            c == table_view(cands@),
            pred == (|x: (Key, PackageID)| spec_is_same_svs_zpm(spec@, x.0.1)),
            out@ == distinct_pids(c.take(m as int).filter(pred)),
        decreases cands.len() - m,
    {
        proof {
            reveal(Seq::filter);
            assert(c.take(m + 1).drop_last() =~= c.take(m as int));
        }
        assert(c[m as int] == ((cands@[m as int].0.0@, cands@[m as int].0.1@), cands@[m as int].1));
        if is_same_svs_zpm(spec, cands[m].0.1) {
            let p = cands[m].1;
            let ghost f = c.take(m as int).filter(pred);
            assert(c.take(m + 1).filter(pred) == f.push(c[m as int]));
            assert(f.push(c[m as int]).drop_last() =~= f);
            if !contains_pid(&out, p) {
                out.push(p);
            }
        }
        m = m + 1;
    }
    assert(c.take(m as int) =~= c);
    out
}

/// The packages of `cands`, each once, in order of first appearance.
fn distinct_pids_exec(cands: &Vec<((&str, &str), PackageID)>) -> (r: Vec<PackageID>)
    ensures
        r@ == distinct_pids(table_view(cands@)),
{
    let ghost c = table_view(cands@);
    let mut out: Vec<PackageID> = Vec::new();
    let mut m: usize = 0;
    assert(c.take(0) =~= Seq::<(Key, PackageID)>::empty());
    while m < cands.len()
        invariant
            m <= cands.len(),
            c == table_view(cands@),
            out@ == distinct_pids(c.take(m as int)),
        decreases cands.len() - m,
    {
        assert(c.take(m + 1).drop_last() =~= c.take(m as int));
        assert(c.take(m + 1).last().1 == cands@[m as int].1);
        let p = cands[m].1;
        if !contains_pid(&out, p) {
            out.push(p);
        }
        m = m + 1;
    }
    assert(c.take(m as int) =~= c);
    out
}

impl<'a> ZpmReader<'a> {
    /// The packages of `d` from npm whose version satisfies `range`.
    fn satisfying(&self, d: &Vec<PackageID>, range: &str, Ghost(st): Ghost<ZpmState>, Ghost(version): Ghost<u8>) -> (r: Vec<PackageID>)
        requires
            self.holds_core(st, version),
            zpm_wf(st),
            semver_range_parses(range@),
            forall|j: int| 0 <= j < d@.len() ==> (#[trigger] d@[j]).id() < st.pkgs.len(),
        ensures
            r@ == d@.filter(|p: PackageID| zpm_npm(st, p) && semver_satisfies(st.versions[p.id() as int], range@)),
    {
        let ghost pred = |p: PackageID| zpm_npm(st, p) && semver_satisfies(st.versions[p.id() as int], range@);
        let mut out: Vec<PackageID> = Vec::new();
        let mut m: usize = 0;
        proof {
            reveal(Seq::filter);
            assert(d@.take(0) =~= Seq::<PackageID>::empty());
        }
        while m < d.len()
            invariant
                m <= d.len(),
                self.holds_core(st, version),
                zpm_wf(st),
                semver_range_parses(range@),
                forall|j: int| 0 <= j < d@.len() ==> (#[trigger] d@[j]).id() < st.pkgs.len(),
                pred == (|p: PackageID| zpm_npm(st, p) && semver_satisfies(st.versions[p.id() as int], range@)),
                out@ == d@.take(m as int).filter(pred),
            decreases d.len() - m,
        {
            proof {
                reveal(Seq::filter);
                assert(d@.take(m + 1).drop_last() =~= d@.take(m as int));
            }
            let p = d[m];
            let npm = match &self.sources[p.index()] {
                Some(PackageSource::Npm) => true,
                _ => false,
            };
            assert(npm == zpm_npm(st, p));
            let keep = if npm {
                version_satisfies(self.versions[p.index()], range)
            } else {
                false
            };
            if keep {
                out.push(p);
            }
            m = m + 1;
        }
        assert(d@.take(m as int) =~= d@);
        out
    }

    /// The package of the highest version among `sat`; the last of the highest.
    fn last_max_exec(&self, sat: &Vec<PackageID>, Ghost(st): Ghost<ZpmState>, Ghost(version): Ghost<u8>) -> (r: PackageID)
        requires
            self.holds_core(st, version),
            zpm_wf(st),
            sat@.len() > 0,
            forall|j: int| 0 <= j < sat@.len() ==> (#[trigger] sat@[j]).id() < st.pkgs.len() && zpm_npm(st, sat@[j]),
        ensures
            r == zpm_last_max(st, sat@),
            forall|m: int|
                0 <= m < sat@.len() ==> #[trigger] sat@[m] == r || semver_at_least(
                    st.versions[r.id() as int],
                    st.versions[sat@[m].id() as int],
                ),
    {
        let mut best = sat[0];
        assert(sat@.take(1) =~= seq![best]);
        let mut j: usize = 1;
        while j < sat.len()
            invariant
                1 <= j <= sat.len(),
                self.holds_core(st, version),
                zpm_wf(st),
                forall|m: int| 0 <= m < sat@.len() ==> (#[trigger] sat@[m]).id() < st.pkgs.len() && zpm_npm(st, sat@[m]),
                best == zpm_last_max(st, sat@.take(j as int)),
                best.id() < st.pkgs.len(),
                zpm_npm(st, best),
                forall|m: int|
                    0 <= m < j ==> #[trigger] sat@[m] == best || semver_at_least(
                        st.versions[best.id() as int],
                        st.versions[sat@[m].id() as int],
                    ),
            decreases sat.len() - j,
        {
            let p = sat[j];
            assert(sat@.take(j + 1).drop_last() =~= sat@.take(j as int));
            assert(sat@.take(j + 1).last() == p);
            if version_at_least(self.versions[p.index()], self.versions[best.index()]) {
                best = p;
            }
            j = j + 1;
        }
        assert(sat@.take(j as int) =~= sat@);
        best
    }
}


impl<'a> ZpmReader<'a> {
    /// The package a peer request resolves to (see [`zpm_peer_target`]).
    fn peer_target_exec(
        &self,
        kids: &Vec<PackageID>,
        from: PackageID,
        name: &str,
        spec: &str,
        over: Option<&str>,
        over_svs: &SourceVersionSpecifier,
        Ghost(st): Ghost<ZpmState>,
        Ghost(version): Ghost<u8>,
    ) -> (r: Option<PackageID>)
        requires
            self.holds_core(st, version),
            zpm_wf(st),
        ensures
            r == zpm_peer_target(st, kids@, from, name@, spec@, opt_str_view(over), over_svs@, over_svs.positions()),
    {
        let cands = candidates_of(self.table.as_slice(), name);
        proof {
            assert forall|j: int| 0 <= j < self.table@.len() implies (#[trigger] self.table@[j]).1.id()
                < st.pkgs.len() by {
                assert(table_view(self.table@)[j].1 == self.table@[j].1);
            }
            lemma_candidates_bound(self.table@, cands@, name@, st.pkgs.len());
        }
        let ghost c = table_view(cands@);
        proof {
            assert forall|j: int| 0 <= j < c.len() implies (#[trigger] c[j]).1.id() < st.pkgs.len() by {
                assert(c[j].1 == cands@[j].1);
            }
        }
        let d = distinct_pids_exec(&cands);
        if d.len() == 1 {
            return Some(d[0]);
        }
        if cands.len() == 0 {
            return None;
        }
        if let Some(ev) = over {
            let oh = same_zpm_hits(&cands, ev);
            if oh.len() == 1 {
                return Some(oh[0]);
            }
        }
        let sib = sibling_hits(kids, &cands);
        if sib.len() == 1 {
            return Some(sib[0]);
        }
        let same = same_zpm_hits(&cands, spec);
        if same.len() == 1 {
            return Some(same[0]);
        }
        if has_pid_exec(&cands, from) {
            return Some(from);
        }
        if over_svs.npm_range().is_some() {
            let rt = match over_svs.npm_range_str() {
                Some(x) => x,
                None => return None,
            };
            proof {
                reveal_strlit("*");
            }
            let range = if rt.unicode_len() == 0 {
                "*"
            } else {
                rt
            };
            assert(range@ == npm_range_input(over_svs@));
            proof {
                lemma_distinct_pids_in(c, st.pkgs.len());
            }
            let sat = self.satisfying(&d, range, Ghost(st), Ghost(version));
            proof {
                let pred = |p: PackageID| zpm_npm(st, p) && semver_satisfies(st.versions[p.id() as int], range@);
                assert forall|j: int| 0 <= j < sat@.len() implies (#[trigger] sat@[j]).id() < st.pkgs.len() && zpm_npm(st, sat@[j]) by {
                    assert(d@.filter(pred).contains(sat@[j]));
                    d@.lemma_filter_contains_rev(pred, sat@[j]);
                }
            }
            if sat.len() == 1 {
                return Some(sat[0]);
            }
            if sat.len() > 1 {
                return Some(self.last_max_exec(&sat, Ghost(st), Ghost(version)));
            }
        }
        None
    }
}

/// The packages of a table, each once, are among those it names.
proof fn lemma_distinct_pids_in(c: DescTable, b: nat)
    requires
        forall|j: int| 0 <= j < c.len() ==> (#[trigger] c[j]).1.id() < b,
    ensures
        forall|j: int| 0 <= j < distinct_pids(c).len() ==> (#[trigger] distinct_pids(c)[j]).id() < b,
    decreases c.len(),
{
    if c.len() > 0 {
        lemma_distinct_pids_in(c.drop_last(), b);
        let r = distinct_pids(c.drop_last());
        assert forall|j: int| 0 <= j < distinct_pids(c).len() implies (#[trigger] distinct_pids(c)[j]).id() < b by {
            if j < r.len() {
                assert(distinct_pids(c)[j] == r[j]);
            } else {
                assert(c[c.len() - 1] == c.last());
            }
        }
    }
}


impl<'a> ZpmReader<'a> {
    /// A request for `name` at `svs` from `from` (see [`zpm_dep`]).
    fn dep_exec(
        &self,
        res: &Resolutions,
        parents: &Vec<(&str, &str)>,
        kids: &Vec<PackageID>,
        from: PackageID,
        kind: DependencyKind,
        name: &str,
        svs: &str,
        Ghost(st): Ghost<ZpmState>,
        Ghost(version): Ghost<u8>,
    ) -> (r: Result<Option<Dependency>, Error>)
        requires
            self.holds_core(st, version),
            zpm_wf(st),
            keys_unique(res.entries()),
        ensures
            match zpm_dep(st, res.entries(), res_pairs_view(parents@), kids@, from, kind, name@, svs@) {
                Ok(None) => r matches Ok(None),
                Ok(Some(v)) => r matches Ok(Some(d)) && dep_matches(d, v, from),
                Err(f) => r matches Err(e) && fail_is(e, f),
            },
    {
        let found = res.find((name, svs), parents.as_slice());
        proof {
            lemma_found_is_lookup(
                res.entries(),
                name@,
                svs@,
                res_pairs_view(parents@),
                match found {
                    Some(v) => Some(v@),
                    None => None,
                },
            );
        }
        let osvs: &str = match found {
            Some(o) => o,
            None => svs,
        };
        match SourceVersionSpecifier::new(String::from_str(svs)) {
            Ok(_) => {},
            Err(e) => return Err(Error::ChasteError(e)),
        }
        let over_svs = match SourceVersionSpecifier::new(String::from_str(osvs)) {
            Ok(x) => x,
            Err(e) => return Err(Error::ChasteError(e)),
        };
        let alias = over_svs.aliased_package_name();
        let range_str = over_svs.npm_range_str();
        let aspec: &str = match (&alias, range_str) {
            (Some(_), Some(rs)) => rs,
            _ => osvs,
        };
        let lname: &str = match &alias {
            Some(a) => a.as_str(),
            None => name,
        };
        let target: Option<PackageID> = if kind.is_peer() {
            self.peer_target_exec(kids, from, lname, aspec, found, &over_svs, Ghost(st), Ghost(version))
        } else {
            let cands = candidates_of(self.table.as_slice(), lname);
            let hits = same_zpm_hits(&cands, aspec);
            if hits.len() == 0 {
                if kind.is_optional() {
                    None
                } else {
                    return Err(Error::DependencyNotFound(key_string(name, svs)));
                }
            } else if hits.len() == 1 {
                Some(hits[0])
            } else {
                return Err(Error::AmbiguousResolution(key_string(name, svs)));
            }
        };
        match target {
            None => Ok(None),
            Some(p) => match dep_build(kind, from, p, name, svs) {
                Ok(d) => Ok(Some(d)),
                Err(e) => Err(e),
            },
        }
    }

    /// One request from `from` (see [`zpm_dep_step`]).
    fn dep_step_exec(
        &mut self,
        res: &Resolutions,
        parents: &Vec<(&str, &str)>,
        from: PackageID,
        kind: DependencyKind,
        name: &str,
        svs: &str,
        children: &mut Vec<Vec<PackageID>>,
        Ghost(st): Ghost<ZpmState>,
        Ghost(ds): Ghost<DepState>,
        Ghost(version): Ghost<u8>,
    ) -> (r: Result<(), Error>)
        requires
            old(self).holds_core(st, version),
            old(self).deps_are(ds.out),
            zpm_wf(st),
            keys_unique(res.entries()),
            from.id() < st.pkgs.len(),
            kids_view(old(children)@) == ds.children,
            ds.children.len() == st.pkgs.len(),
        ensures
            match zpm_dep_step(st, res.entries(), res_pairs_view(parents@), from, kind, ds, (name@, svs@)) {
                Ok(d2) => r is Ok && final(self).holds_core(st, version) && final(self).deps_are(d2.out)
                    && kids_view(final(children)@) == d2.children && d2.children.len() == st.pkgs.len(),
                Err(f) => r matches Err(e) && fail_is(e, f),
            },
    {
        let fi = from.index();
        let kids = copy_pids(&children[fi]);
        assert(kids@ == ds.children[from.id() as int]);
        match self.dep_exec(res, parents, &kids, from, kind, name, svs, Ghost(st), Ghost(version)) {
            Err(e) => Err(e),
            Ok(None) => Ok(()),
            Ok(Some(dep)) => {
                if !kind.is_peer() {
                    let mut k2 = copy_pids(&children[fi]);
                    k2.push(dep.on());
                    children.set(fi, k2);
                    assert(kids_view(children@) =~= ds.children.update(from.id() as int, ds.children[from.id() as int].push(dep.spec_on())));
                }
                self.builder.add_dependency(dep);
                Ok(())
            },
        }
    }
}


proof fn lemma_json_list_run_err(st: ZpmState, res: Seq<ResEntry>, from: PackageID, kind: DependencyKind, list: PairsView, ds: DepState, j: int, n: int)
    requires
        0 <= j <= n,
        json_list_run(st, res, from, kind, list, ds, j) is Err,
    ensures
        json_list_run(st, res, from, kind, list, ds, n) == json_list_run(st, res, from, kind, list, ds, j),
    decreases n - j,
{
    if j < n {
        lemma_json_list_run_err(st, res, from, kind, list, ds, j, n - 1);
    }
}

proof fn lemma_json_deps_run_err(st: ZpmState, res: Seq<ResEntry>, from: PackageID, jv: JsonView, ds: DepState, j: int, n: int)
    requires
        0 <= j <= n,
        json_deps_run(st, res, from, jv, ds, j) is Err,
    ensures
        json_deps_run(st, res, from, jv, ds, n) == json_deps_run(st, res, from, jv, ds, j),
    decreases n - j,
{
    if j < n {
        lemma_json_deps_run_err(st, res, from, jv, ds, j, n - 1);
    }
}

proof fn lemma_members_deps_run_err(st: ZpmState, res: Seq<ResEntry>, members: Seq<(Seq<char>, JsonView)>, ds: DepState, j: int, n: int)
    requires
        0 <= j <= n,
        members_deps_run(st, res, members, ds, j) is Err,
    ensures
        members_deps_run(st, res, members, ds, n) == members_deps_run(st, res, members, ds, j),
    decreases n - j,
{
    if j < n {
        lemma_members_deps_run_err(st, res, members, ds, j, n - 1);
    }
}

proof fn lemma_entry_list_run_err(st: ZpmState, res: Seq<ResEntry>, entries: Seq<ZEntryView>, i: int, peer: bool, ds: DepState, j: int, n: int)
    requires
        0 <= j <= n,
        entry_list_run(st, res, entries, i, peer, ds, j) is Err,
    ensures
        entry_list_run(st, res, entries, i, peer, ds, n) == entry_list_run(st, res, entries, i, peer, ds, j),
    decreases n - j,
{
    if j < n {
        lemma_entry_list_run_err(st, res, entries, i, peer, ds, j, n - 1);
    }
}

proof fn lemma_entries_deps_run_err(st: ZpmState, res: Seq<ResEntry>, entries: Seq<ZEntryView>, peer: bool, ds: DepState, j: int, n: int)
    requires
        0 <= j <= n,
        entries_deps_run(st, res, entries, peer, ds, j) is Err,
    ensures
        entries_deps_run(st, res, entries, peer, ds, n) == entries_deps_run(st, res, entries, peer, ds, j),
    decreases n - j,
{
    if j < n {
        lemma_entries_deps_run_err(st, res, entries, peer, ds, j, n - 1);
    }
}

/// Whether `s` is among `v`.
fn contains_str(v: &Vec<String>, s: &str) -> (b: bool)
    ensures
        b == strs_view(v@).contains(s@),
{
    let ghost sv = strs_view(v@);
    let mut i: usize = 0;
    while i < v.len()
        invariant
            i <= v.len(),
            sv == strs_view(v@),
            forall|j: int| 0 <= j < i ==> sv[j] != s@,
        decreases v.len() - i,
    {
        assert(sv[i as int] == v@[i as int]@);
        if str_eq(v[i].as_str(), s) {
            assert(sv[i as int] == s@);
            return true;
        }
        i = i + 1;
    }
    assert forall|j: int| 0 <= j < sv.len() implies sv[j] != s@ by {}
    false
}

impl<'a> ZpmReader<'a> {
    /// The requests of one list of a `package.json`, in order.
    fn json_list_exec(
        &mut self,
        res: &Resolutions,
        from: PackageID,
        kind: DependencyKind,
        list: &Vec<(String, String)>,
        children: &mut Vec<Vec<PackageID>>,
        Ghost(st): Ghost<ZpmState>,
        Ghost(ds): Ghost<DepState>,
        Ghost(version): Ghost<u8>,
    ) -> (r: Result<(), Error>)
        requires
            old(self).holds_core(st, version),
            old(self).deps_are(ds.out),
            zpm_wf(st),
            keys_unique(res.entries()),
            from.id() < st.pkgs.len(),
            kids_view(old(children)@) == ds.children,
            ds.children.len() == st.pkgs.len(),
        ensures
            match json_list_run(st, res.entries(), from, kind, pairs_view(list@), ds, list@.len() as int) {
                Ok(d2) => r is Ok && final(self).holds_core(st, version) && final(self).deps_are(d2.out)
                    && kids_view(final(children)@) == d2.children && d2.children.len() == st.pkgs.len(),
                Err(f) => r matches Err(e) && fail_is(e, f),
            },
    {
        let ghost lv = pairs_view(list@);
        let ghost rs = res.entries();
        let parents: Vec<(&str, &str)> = Vec::new();
        assert(res_pairs_view(parents@) =~= seq![]);
        let mut j: usize = 0;
        while j < list.len()
            invariant
                j <= list.len(),
                lv == pairs_view(list@),
                rs == res.entries(),
                zpm_wf(st),
                keys_unique(res.entries()),
                from.id() < st.pkgs.len(),
                res_pairs_view(parents@) == Seq::<(Seq<char>, Seq<char>)>::empty(),
                json_list_run(st, rs, from, kind, lv, ds, j as int) matches Ok(dj) && self.holds_core(st, version)
                    && self.deps_are(dj.out) && kids_view(children@) == dj.children && dj.children.len() == st.pkgs.len(),
            decreases list.len() - j,
        {
            let ghost dj = json_list_run(st, rs, from, kind, lv, ds, j as int)->Ok_0;
            assert(lv[j as int] == (list@[j as int].0@, list@[j as int].1@));
            match self.dep_step_exec(res, &parents, from, kind, list[j].0.as_str(), list[j].1.as_str(), children, Ghost(st), Ghost(dj), Ghost(version)) {
                Ok(()) => {},
                Err(e) => {
                    proof {
                        lemma_json_list_run_err(st, rs, from, kind, lv, ds, j + 1, list@.len() as int);
                    }
                    return Err(e);
                },
            }
            j = j + 1;
        }
        Ok(())
    }

    /// The four lists of a `package.json`, for the package `from`.
    fn json_deps_exec(
        &mut self,
        res: &Resolutions,
        from: PackageID,
        j: &PackageJson,
        children: &mut Vec<Vec<PackageID>>,
        Ghost(st): Ghost<ZpmState>,
        Ghost(ds): Ghost<DepState>,
        Ghost(version): Ghost<u8>,
    ) -> (r: Result<(), Error>)
        requires
            old(self).holds_core(st, version),
            old(self).deps_are(ds.out),
            zpm_wf(st),
            keys_unique(res.entries()),
            from.id() < st.pkgs.len(),
            kids_view(old(children)@) == ds.children,
            ds.children.len() == st.pkgs.len(),
        ensures
            match json_deps_run(st, res.entries(), from, j@, ds, 4) {
                Ok(d2) => r is Ok && final(self).holds_core(st, version) && final(self).deps_are(d2.out)
                    && kids_view(final(children)@) == d2.children && d2.children.len() == st.pkgs.len(),
                Err(f) => r matches Err(e) && fail_is(e, f),
            },
    {
        let ghost jv = j@;
        let ghost rs = res.entries();
        assert(json_deps_run(st, rs, from, jv, ds, 0) == Ok::<DepState, LockFail>(ds));
        match self.json_list_exec(res, from, DependencyKind::Dependency, &j.dependencies, children, Ghost(st), Ghost(ds), Ghost(version)) {
            Ok(()) => {},
            Err(e) => {
                proof {
                    lemma_json_deps_run_err(st, rs, from, jv, ds, 1, 4);
                }
                return Err(e);
            },
        }
        let ghost d1 = json_deps_run(st, rs, from, jv, ds, 1)->Ok_0;
        match self.json_list_exec(res, from, DependencyKind::DevDependency, &j.dev_dependencies, children, Ghost(st), Ghost(d1), Ghost(version)) {
            Ok(()) => {},
            Err(e) => {
                proof {
                    lemma_json_deps_run_err(st, rs, from, jv, ds, 2, 4);
                }
                return Err(e);
            },
        }
        let ghost d2 = json_deps_run(st, rs, from, jv, ds, 2)->Ok_0;
        match self.json_list_exec(res, from, DependencyKind::OptionalDependency, &j.optional_dependencies, children, Ghost(st), Ghost(d2), Ghost(version)) {
            Ok(()) => {},
            Err(e) => {
                proof {
                    lemma_json_deps_run_err(st, rs, from, jv, ds, 3, 4);
                }
                return Err(e);
            },
        }
        let ghost d3 = json_deps_run(st, rs, from, jv, ds, 3)->Ok_0;
        self.json_list_exec(res, from, DependencyKind::PeerDependency, &j.peer_dependencies, children, Ghost(st), Ghost(d3), Ghost(version))
    }
}


/// The kind of a request of an entry (see [`entry_kind`]).
fn entry_kind_exec(peer: bool, optional: bool) -> (k: DependencyKind)
    ensures
        k == entry_kind(peer, optional),
{
    if peer {
        if optional {
            DependencyKind::OptionalPeerDependency
        } else {
            DependencyKind::PeerDependency
        }
    } else if optional {
        DependencyKind::OptionalDependency
    } else {
        DependencyKind::Dependency
    }
}

/// The entries were read: each has its id, and its key gives its specifiers.
pub open spec fn entries_read(st: ZpmState, entries: Seq<ZEntryView>) -> bool {
    &&& st.entry_pid.len() == entries.len()
    &&& forall|i: int| 0 <= i < entries.len() ==> #[trigger] entry_specs(entries[i]) is Some
}

impl<'a> ZpmReader<'a> {
    /// The dependencies of the members, each as its own package's.
    #[verifier::spinoff_prover]
    #[verifier::rlimit(40)]
    fn members_deps_exec(
        &mut self,
        res: &Resolutions,
        members: &Vec<(String, PackageJson)>,
        children: &mut Vec<Vec<PackageID>>,
        Ghost(st): Ghost<ZpmState>,
        Ghost(ds): Ghost<DepState>,
        Ghost(version): Ghost<u8>,
    ) -> (r: Result<(), Error>)
        requires
            old(self).holds_core(st, version),
            old(self).deps_are(ds.out),
            zpm_wf(st),
            keys_unique(res.entries()),
            1 + members@.len() <= st.pkgs.len(),
            kids_view(old(children)@) == ds.children,
            ds.children.len() == st.pkgs.len(),
        ensures
            match members_deps_run(st, res.entries(), zmembers_view(members@), ds, members@.len() as int) {
                Ok(d2) => r is Ok && final(self).holds_core(st, version) && final(self).deps_are(d2.out)
                    && kids_view(final(children)@) == d2.children && d2.children.len() == st.pkgs.len(),
                Err(f) => r matches Err(e) && fail_is(e, f),
            },
    {
        let ghost mv = zmembers_view(members@);
        let ghost rs = res.entries();
        let mut m: usize = 0;
        while m < members.len()
            invariant
                m <= members.len(),
                mv == zmembers_view(members@),
                rs == res.entries(),
                zpm_wf(st),
                keys_unique(res.entries()),
                1 + members@.len() <= st.pkgs.len(),
                members_deps_run(st, rs, mv, ds, m as int) matches Ok(dm) && self.holds_core(st, version)
                    && self.deps_are(dm.out) && kids_view(children@) == dm.children && dm.children.len() == st.pkgs.len(),
            decreases members.len() - m,
        {
            let ghost dm = members_deps_run(st, rs, mv, ds, m as int)->Ok_0;
            let from = PackageID::from_index(m + 1);
            assert(mv[m as int].1 == members@[m as int].1@);
            assert(members@[m as int].1@.lists.len() == 4);
            match self.json_deps_exec(res, from, &members[m].1, children, Ghost(st), Ghost(dm), Ghost(version)) {
                Ok(()) => {},
                Err(e) => {
                    proof {
                        lemma_members_deps_run_err(st, rs, mv, ds, m + 1, members@.len() as int);
                    }
                    return Err(e);
                },
            }
            m = m + 1;
        }
        Ok(())
    }

    /// The regular (or peer) requests of entry `i`.
    fn entry_list_exec(
        &mut self,
        res: &Resolutions,
        lock: &Lockfile,
        i: usize,
        peer: bool,
        children: &mut Vec<Vec<PackageID>>,
        Ghost(st): Ghost<ZpmState>,
        Ghost(ds): Ghost<DepState>,
        Ghost(version): Ghost<u8>,
    ) -> (r: Result<(), Error>)
        requires
            old(self).holds_core(st, version),
            old(self).deps_are(ds.out),
            zpm_wf(st),
            keys_unique(res.entries()),
            entries_read(st, zentries_view(lock.entries@)),
            i < lock.entries@.len(),
            kids_view(old(children)@) == ds.children,
            ds.children.len() == st.pkgs.len(),
        ensures
            match entry_list_run(st, res.entries(), zentries_view(lock.entries@), i as int, peer, ds,
                entry_list(zentries_view(lock.entries@)[i as int], peer).0.len() as int) {
                Ok(d2) => r is Ok && final(self).holds_core(st, version) && final(self).deps_are(d2.out)
                    && kids_view(final(children)@) == d2.children && d2.children.len() == st.pkgs.len(),
                Err(f) => r matches Err(e) && fail_is(e, f),
            },
    {
        let ghost entries = zentries_view(lock.entries@);
        let ghost rs = res.entries();
        let ent = &lock.entries[i];
        assert(entries[i as int] == zentry_view(*ent));
        assert(entry_specs(entries[i as int]) is Some);
        let specs = match specifiers(ent.0.as_str()) {
            Ok(v) => v,
            Err(e) => return Err(e),
        };
        assert(res_pairs_view(specs@) =~= entry_specs(entries[i as int])->Some_0);
        let from = self.entry_pid[i];
        assert(from == st.entry_pid[i as int]);
        let (list, opts) = if peer {
            (&ent.1.resolution.peer_dependencies, &ent.1.resolution.optional_peer_dependencies)
        } else {
            (&ent.1.resolution.dependencies, &ent.1.resolution.optional_dependencies)
        };
        let ghost lv = pairs_view(list@);
        assert(entry_list(entries[i as int], peer) == (lv, strs_view(opts@)));
        let mut j: usize = 0;
        while j < list.len()
            invariant
                j <= list.len(),
                entries == zentries_view(lock.entries@),
                rs == res.entries(),
                i < lock.entries@.len(),
                zpm_wf(st),
                keys_unique(res.entries()),
                entries_read(st, entries),
                from == st.entry_pid[i as int],
                res_pairs_view(specs@) == entry_specs(entries[i as int])->Some_0,
                lv == pairs_view(list@),
                entry_list(entries[i as int], peer) == (lv, strs_view(opts@)),
                entry_list_run(st, rs, entries, i as int, peer, ds, j as int) matches Ok(dj) && self.holds_core(st, version)
                    && self.deps_are(dj.out) && kids_view(children@) == dj.children && dj.children.len() == st.pkgs.len(),
            decreases list.len() - j,
        {
            let ghost dj = entry_list_run(st, rs, entries, i as int, peer, ds, j as int)->Ok_0;
            let name = list[j].0.as_str();
            let svs = list[j].1.as_str();
            assert(lv[j as int] == (name@, svs@));
            let kind = entry_kind_exec(peer, contains_str(opts, name));
            match self.dep_step_exec(res, &specs, from, kind, name, svs, children, Ghost(st), Ghost(dj), Ghost(version)) {
                Ok(()) => {},
                Err(e) => {
                    proof {
                        lemma_entry_list_run_err(st, rs, entries, i as int, peer, ds, j + 1, list@.len() as int);
                    }
                    return Err(e);
                },
            }
            j = j + 1;
        }
        Ok(())
    }

    /// The regular (or peer) requests of every entry, in order.
    fn entries_deps_exec(
        &mut self,
        res: &Resolutions,
        lock: &Lockfile,
        peer: bool,
        children: &mut Vec<Vec<PackageID>>,
        Ghost(st): Ghost<ZpmState>,
        Ghost(ds): Ghost<DepState>,
        Ghost(version): Ghost<u8>,
    ) -> (r: Result<(), Error>)
        requires
            old(self).holds_core(st, version),
            old(self).deps_are(ds.out),
            zpm_wf(st),
            keys_unique(res.entries()),
            entries_read(st, zentries_view(lock.entries@)),
            kids_view(old(children)@) == ds.children,
            ds.children.len() == st.pkgs.len(),
        ensures
            match entries_deps_run(st, res.entries(), zentries_view(lock.entries@), peer, ds, lock.entries@.len() as int) {
                Ok(d2) => r is Ok && final(self).holds_core(st, version) && final(self).deps_are(d2.out)
                    && kids_view(final(children)@) == d2.children && d2.children.len() == st.pkgs.len(),
                Err(f) => r matches Err(e) && fail_is(e, f),
            },
    {
        let ghost entries = zentries_view(lock.entries@);
        let ghost rs = res.entries();
        let mut i: usize = 0;
        while i < lock.entries.len()
            invariant
                i <= lock.entries.len(),
                entries == zentries_view(lock.entries@),
                rs == res.entries(),
                zpm_wf(st),
                keys_unique(res.entries()),
                entries_read(st, entries),
                entries_deps_run(st, rs, entries, peer, ds, i as int) matches Ok(di) && self.holds_core(st, version)
                    && self.deps_are(di.out) && kids_view(children@) == di.children && di.children.len() == st.pkgs.len(),
            decreases lock.entries.len() - i,
        {
            let ghost di = entries_deps_run(st, rs, entries, peer, ds, i as int)->Ok_0;
            match self.entry_list_exec(res, lock, i, peer, children, Ghost(st), Ghost(di), Ghost(version)) {
                Ok(()) => {},
                Err(e) => {
                    proof {
                        lemma_entries_deps_run_err(st, rs, entries, peer, ds, i + 1, lock.entries@.len() as int);
                    }
                    return Err(e);
                },
            }
            i = i + 1;
        }
        Ok(())
    }
}


proof fn lemma_members_shape(root: JsonView, members: Seq<(Seq<char>, JsonView)>, n: int)
    requires
        0 <= n,
    ensures
        members_run(root, members, n) matches Some(s) ==> s.pkgs.len() == 1 + n && s.entry_pid.len() == 0
            && s.copies.len() == 0,
    decreases n,
{
    if n > 0 {
        lemma_members_shape(root, members, n - 1);
    }
}

/// Members that fail on a prefix fail for the same reason on all of them.
proof fn lemma_members_fail_prefix(root: JsonView, members: Seq<(Seq<char>, JsonView)>, j: int, n: int)
    requires
        0 <= j <= n,
        members_run(root, members, j) is None,
    ensures
        members_fail(root, members, n) == members_fail(root, members, j),
    decreases n - j,
{
    if j < n {
        lemma_members_fail_prefix(root, members, j, n - 1);
        lemma_members_run_none(root, members, j, n - 1);
    }
}

proof fn lemma_members_run_none(root: JsonView, members: Seq<(Seq<char>, JsonView)>, j: int, n: int)
    requires
        0 <= j <= n,
        members_run(root, members, j) is None,
    ensures
        members_run(root, members, n) is None,
    decreases n - j,
{
    if j < n {
        lemma_members_run_none(root, members, j, n - 1);
    }
}

proof fn lemma_entries_shape(s0: ZpmState, members: Seq<(Seq<char>, JsonView)>, ps: Patched, entries: Seq<ZEntryView>, n: int)
    requires
        0 <= n <= entries.len(),
    ensures
        zpm_entries_run(s0, members, ps, entries, n) matches Ok(s) ==> s.entry_pid.len() == s0.entry_pid.len() + n
            && s0.pkgs.len() <= s.pkgs.len() <= s0.pkgs.len() + n
            && forall|i: int| 0 <= i < n ==> #[trigger] entry_specs(entries[i]) is Some,
    decreases n,
{
    if n > 0 {
        lemma_entries_shape(s0, members, ps, entries, n - 1);
    }
}

proof fn lemma_entries_run_err(s0: ZpmState, members: Seq<(Seq<char>, JsonView)>, ps: Patched, entries: Seq<ZEntryView>, j: int, n: int)
    requires
        0 <= j <= n,
        zpm_entries_run(s0, members, ps, entries, j) is Err,
    ensures
        zpm_entries_run(s0, members, ps, entries, n) == zpm_entries_run(s0, members, ps, entries, j),
    decreases n - j,
{
    if j < n {
        lemma_entries_run_err(s0, members, ps, entries, j, n - 1);
    }
}

proof fn lemma_patches_shape(st: ZpmState, ps: Patched, n: int)
    requires
        0 <= n,
    ensures
        zpm_patches_run(st, ps, n).pkgs.len() == st.pkgs.len() + n,
        zpm_patches_run(st, ps, n).entry_pid == st.entry_pid,
    decreases n,
{
    if n > 0 {
        lemma_patches_shape(st, ps, n - 1);
    }
}

proof fn lemma_patches_found(st: ZpmState, ps: Patched, k: int, n: int)
    requires
        0 <= k < n,
        patches_found(st, ps, n),
    ensures
        patch_found(zpm_patches_run(st, ps, k), ps[k].0),
    decreases n,
{
    if k < n - 1 {
        lemma_patches_found(st, ps, k, n - 1);
    }
}

proof fn lemma_patch_index(ps: Patched, k: Key, i: int)
    requires
        0 <= i,
    ensures
        patch_index(ps, k, i) matches Some(j) ==> i <= j < ps.len(),
    decreases ps.len() - i,
{
    if i < ps.len() {
        lemma_patch_index(ps, k, i + 1);
    }
}

proof fn lemma_patched_len(res: PairsView, n: int)
    requires
        0 <= n,
    ensures
        patched_run(res, n).len() <= n,
    decreases n,
{
    if n > 0 {
        lemma_patched_len(res, n - 1);
        let ps = patched_run(res, n - 1);
        if let Some((k, path)) = patched_spec(res[n - 1].1) {
            lemma_patch_index(ps, k, 0);
            if let Some(i) = patch_index(ps, k, 0) {
                assert(patched_run(res, n) == ps.update(i, (k, (path, res[n - 1].1))));
            } else {
                assert(patched_run(res, n) == ps.push((k, (path, res[n - 1].1))));
            }
        }
    }
}

impl<'a> ZpmReader<'a> {
    /// Reads every entry in order.
    #[verifier::spinoff_prover]
    fn read_entries(
        &mut self,
        members: &'a Vec<(String, PackageJson)>,
        patched: &'a Vec<PatchOv<'a>>,
        lock: &'a Lockfile,
        Ghost(s0): Ghost<ZpmState>,
        Ghost(version): Ghost<u8>,
    ) -> (r: Result<(), Error>)
        requires
            old(self).holds(s0, version),
            zpm_wf(s0),
            s0.pkgs.len() == 1 + members@.len(),
            members@.len() + lock.entries@.len() < usize::MAX,
        ensures
            match zpm_entries_run(s0, zmembers_view(members@), patched_view(patched@), zentries_view(lock.entries@),
                lock.entries@.len() as int) {
                Ok(s) => r is Ok && final(self).holds(s, version) && zpm_wf(s) && s.pkgs.len() <= 1 + members@.len()
                    + lock.entries@.len() && 1 + members@.len() <= s.pkgs.len(),
                Err(f) => r matches Err(e) && fail_is(e, f),
            },
    {
        let ghost mv = zmembers_view(members@);
        let ghost ps = patched_view(patched@);
        let ghost entries = zentries_view(lock.entries@);
        let mut i: usize = 0;
        while i < lock.entries.len()
            invariant
                i <= lock.entries@.len(),
                mv == zmembers_view(members@),
                entries == zentries_view(lock.entries@),
                ps == patched_view(patched@),
                members@.len() + lock.entries@.len() < usize::MAX,
                s0.pkgs.len() == 1 + members@.len(),
                zpm_entries_run(s0, mv, ps, entries, i as int) matches Ok(st) && self.holds(st, version) && zpm_wf(st)
                    && st.pkgs.len() <= 1 + members@.len() + i && 1 + members@.len() <= st.pkgs.len(),
            decreases lock.entries.len() - i,
        {
            let ghost st = zpm_entries_run(s0, mv, ps, entries, i as int)->Ok_0;
            assert(entries[i as int] == zentry_view(lock.entries@[i as int]));
            match self.read_entry(members, patched, &lock.entries[i], Ghost(st), Ghost(version)) {
                Ok(()) => {},
                Err(e) => {
                    proof {
                        lemma_entries_run_err(s0, mv, ps, entries, i + 1, entries.len() as int);
                    }
                    return Err(e);
                },
            }
            i = i + 1;
        }
        Ok(())
    }
}

impl<'a> ZpmReader<'a> {
    /// Whether the patch override finds what it applies to (see [`patch_found`]).
    fn patch_found_exec(&self, pt: &PatchOv, Ghost(st): Ghost<ZpmState>, Ghost(version): Ghost<u8>) -> (b: bool)
        requires
            self.holds_core(st, version),
        ensures
            b == patch_found(st, patch_ov_view(*pt).0),
    {
        let k = (pt.name.as_str(), pt.spec.as_str());
        table_find_exec(&self.table, k).is_some() && self.last_copy_exec(k, Ghost(st), Ghost(version)).is_some()
    }
}

/// A patch override of a lockfile of the version read applies to no package that
/// was read (see [`zpm_patches_apply`]).
pub open spec fn zpm_patch_missing(
    version: u8,
    root: JsonView,
    members: Seq<(Seq<char>, JsonView)>,
    entries: Seq<ZEntryView>,
) -> bool {
    version == 9 && !zpm_patches_apply(root, members, entries)
}

/// Reads a JSON lockfile as [`resolve`] does, where every patch override applies to a
/// package that was read; `None` where one does not.
#[verifier::spinoff_prover]
#[verifier::rlimit(40)]
fn resolve_inner(lock: &Lockfile, root: &PackageJson, members: &Vec<(String, PackageJson)>) -> (r: Option<
    Result<Chastefile<Meta>, Error>,
>)
    requires
        members@.len() + lock.entries@.len() + root.resolutions@.len() < usize::MAX,
    ensures
        r is None <==> zpm_patch_missing(lock.metadata.version, root@, zmembers_view(members@), zentries_view(lock.entries@)),
        r matches Some(x) ==> match zpm_run(lock.metadata.version, root@, zmembers_view(members@), zentries_view(lock.entries@)) {
            Ok(out) => x matches Ok(c) && zpm_chastefile_is(c, lock.metadata.version, out),
            Err(f) => x matches Err(e) && fail_is(e, f),
        },
{
    let version = lock.metadata.version;
    if version != 9 {
        return Some(Err(Error::UnknownLockfileVersion(version)));
    }
    let ghost mv = zmembers_view(members@);
    let ghost entries = zentries_view(lock.entries@);
    let res = match read_resolutions(&root.resolutions) {
        Ok(x) => x,
        Err(e) => return Some(Err(e)),
    };
    let patched = read_patched(&root.resolutions);
    let ghost ps = patched_view(patched@);
    proof {
        lemma_patched_len(root@.resolutions, root@.resolutions.len() as int);
        lemma_members_shape(root@, mv, mv.len() as int);
    }
    let mut reader = match ZpmReader::start(root, version) {
        Ok(x) => x,
        Err(e) => {
            proof {
                lemma_members_run_none(root@, mv, 0, mv.len() as int);
                lemma_members_fail_prefix(root@, mv, 0, mv.len() as int);
            }
            return Some(Err(e));
        },
    };
    let mut m: usize = 0;
    while m < members.len()
        invariant
            m <= members@.len(),
            mv == zmembers_view(members@),
            members@.len() + lock.entries@.len() + root.resolutions@.len() < usize::MAX,
            res_run(root@.resolutions) is Ok,
            entries == zentries_view(lock.entries@),
            version == 9,
            version == lock.metadata.version,
            members_run(root@, mv, m as int) matches Some(st) && reader.holds(st, version) && zpm_wf(st)
                && st.pkgs.len() == 1 + m,
        decreases members.len() - m,
    {
        let ghost st = members_run(root@, mv, m as int)->Some_0;
        assert(mv[m as int] == (members@[m as int].0@, members@[m as int].1@));
        match reader.add_member(&members[m].0, &members[m].1, Ghost(st), Ghost(version)) {
            Ok(()) => {},
            Err(e) => {
                proof {
                    lemma_members_run_none(root@, mv, m + 1, mv.len() as int);
                    lemma_members_fail_prefix(root@, mv, m + 1, mv.len() as int);
                    assert(res_run(root@.resolutions) is Ok);
                    assert(zpm_read(root@, mv, entries) == Err::<ZpmState, LockFail>(
                        LockFail::Chaste(members_fail(root@, mv, mv.len() as int)),
                    ));
                }
                return Some(Err(e));
            },
        }
        m = m + 1;
    }
    let ghost s0 = members_run(root@, mv, mv.len() as int)->Some_0;
    match reader.read_entries(members, &patched, lock, Ghost(s0), Ghost(version)) {
        Ok(()) => {},
        Err(e) => {
            proof {
                assert(res_run(root@.resolutions) is Ok);
                assert(zpm_read(root@, mv, entries) == zpm_entries_run(s0, mv, ps, entries, entries.len() as int));
            }
            return Some(Err(e));
        },
    }
    let ghost s1 = zpm_entries_run(s0, mv, ps, entries, entries.len() as int)->Ok_0;
    proof {
        lemma_entries_shape(s0, mv, ps, entries, entries.len() as int);
        assert(zpm_read(root@, mv, entries) == Ok::<ZpmState, LockFail>(s1));
    }
    let mut k: usize = 0;
    while k < patched.len()
        invariant
            k <= patched@.len(),
            ps == patched_view(patched@),
            ps.len() <= root.resolutions@.len(),
            members@.len() + lock.entries@.len() + root.resolutions@.len() < usize::MAX,
            s1.pkgs.len() <= 1 + members@.len() + lock.entries@.len(),
            patches_found(s1, ps, k as int),
            version == 9,
            version == lock.metadata.version,
            mv == zmembers_view(members@),
            entries == zentries_view(lock.entries@),
            ps == patched_run(root@.resolutions, root@.resolutions.len() as int),
            zpm_read(root@, mv, entries) == Ok::<ZpmState, LockFail>(s1),
            reader.holds(zpm_patches_run(s1, ps, k as int), version),
            zpm_wf(zpm_patches_run(s1, ps, k as int)),
        decreases patched.len() - k,
    {
        proof {
            lemma_patches_shape(s1, ps, k as int);
        }
        assert(ps[k as int] == patch_ov_view(patched@[k as int]));
        if !reader.patch_found_exec(&patched[k], Ghost(zpm_patches_run(s1, ps, k as int)), Ghost(version)) {
            proof {
                if patches_found(s1, ps, ps.len() as int) {
                    lemma_patches_found(s1, ps, k as int, ps.len() as int);
                }
            }
            return None;
        }
        reader.read_patch(&patched[k], Ghost(zpm_patches_run(s1, ps, k as int)), Ghost(version));
        k = k + 1;
    }
    let ghost st = zpm_patches_run(s1, ps, ps.len() as int);
    proof {
        lemma_patches_shape(s1, ps, ps.len() as int);
        assert(entries_read(st, entries));
    }
    let mut children: Vec<Vec<PackageID>> = Vec::new();
    let n = reader.sources.len();
    while children.len() < n
        invariant
            children@.len() <= n,
            forall|q: int| 0 <= q < children@.len() ==> children@[q]@ == Seq::<PackageID>::empty(),
        decreases n - children@.len(),
    {
        children.push(Vec::new());
    }
    let ghost d0 = DepState { children: Seq::new(st.pkgs.len(), |q: int| Seq::<PackageID>::empty()), out: seq![] };
    assert(kids_view(children@) =~= d0.children);
    let ghost rs = res.entries();
    match reader.members_deps_exec(&res, members, &mut children, Ghost(st), Ghost(d0), Ghost(version)) {
        Ok(()) => {},
        Err(e) => return Some(Err(e)),
    }
    let ghost d1 = members_deps_run(st, rs, mv, d0, mv.len() as int)->Ok_0;
    let root_pid = PackageID::from_index(0);
    match reader.json_deps_exec(&res, root_pid, root, &mut children, Ghost(st), Ghost(d1), Ghost(version)) {
        Ok(()) => {},
        Err(e) => return Some(Err(e)),
    }
    let ghost d2 = json_deps_run(st, rs, pid_at(0), root@, d1, 4)->Ok_0;
    match reader.entries_deps_exec(&res, lock, false, &mut children, Ghost(st), Ghost(d2), Ghost(version)) {
        Ok(()) => {},
        Err(e) => return Some(Err(e)),
    }
    let ghost d3 = entries_deps_run(st, rs, entries, false, d2, entries.len() as int)->Ok_0;
    match reader.entries_deps_exec(&res, lock, true, &mut children, Ghost(st), Ghost(d3), Ghost(version)) {
        Ok(()) => {},
        Err(e) => return Some(Err(e)),
    }
    match reader.builder.build() {
        Ok(c) => Some(Ok(c)),
        Err(e) => Some(Err(Error::ChasteError(e))),
    }
}

/// Whether the lockfile's format version is the one [`resolve`] reads: 9. Any
/// other version is refused before anything else is read.
pub fn is_known_version(lock: &Lockfile) -> (b: bool)
    ensures
        b == (lock.metadata.version == 9),
        !b ==> forall|root: JsonView, members: Seq<(Seq<char>, JsonView)>, entries: Seq<ZEntryView>|
            #[trigger] zpm_run(lock.metadata.version, root, members, entries) == Err::<crate::yarn::zpm_model::ZpmOut, LockFail>(
                LockFail::UnknownVersion(lock.metadata.version),
            ),
{
    lock.metadata.version == 9
}

/// Reads a JSON lockfile into a chastefile, with the `package.json` of the root and
/// of each workspace member, with its path. See [`zpm_run`] for what is read, in
/// which order, and each way it can fail.
pub fn resolve(lock: &Lockfile, root: &PackageJson, members: &Vec<(String, PackageJson)>) -> (r: Result<
    Chastefile<Meta>,
    Error,
>)
    requires
        members@.len() + lock.entries@.len() + root.resolutions@.len() < usize::MAX,
        !zpm_patch_missing(lock.metadata.version, root@, zmembers_view(members@), zentries_view(lock.entries@)),
    ensures
        match zpm_run(lock.metadata.version, root@, zmembers_view(members@), zentries_view(lock.entries@)) {
            Ok(out) => r matches Ok(c) && zpm_chastefile_is(c, lock.metadata.version, out),
            Err(f) => r matches Err(e) && fail_is(e, f),
        },
{
    match resolve_inner(lock, root, members) {
        Some(x) => x,
        None => {
            proof {
                assert(false);
            }
            Err(Error::UnknownFormat)
        },
    }
}

/// Whether every patch override applies to a package that was read, as [`resolve`]
/// asks: it reads the lockfile to find out.
pub fn patches_apply(lock: &Lockfile, root: &PackageJson, members: &Vec<(String, PackageJson)>) -> (b: bool)
    requires
        members@.len() + lock.entries@.len() + root.resolutions@.len() < usize::MAX,
    ensures
        b == !zpm_patch_missing(lock.metadata.version, root@, zmembers_view(members@), zentries_view(lock.entries@)),
{
    resolve_inner(lock, root, members).is_some()
}

/// Reads a JSON lockfile as [`resolve`] does where every patch override applies to a
/// package that was read; `None` where one does not, on which [`resolve`] is not
/// called.
pub fn try_resolve(lock: &Lockfile, root: &PackageJson, members: &Vec<(String, PackageJson)>) -> (r: Option<
    Result<Chastefile<Meta>, Error>,
>)
    requires
        members@.len() + lock.entries@.len() + root.resolutions@.len() < usize::MAX,
    ensures
        r is None <==> zpm_patch_missing(lock.metadata.version, root@, zmembers_view(members@), zentries_view(lock.entries@)),
        r matches Some(x) ==> match zpm_run(lock.metadata.version, root@, zmembers_view(members@), zentries_view(lock.entries@)) {
            Ok(out) => x matches Ok(c) && zpm_chastefile_is(c, lock.metadata.version, out),
            Err(f) => x matches Err(e) && fail_is(e, f),
        },
{
    if patches_apply(lock, root, members) {
        Some(resolve(lock, root, members))
    } else {
        None
    }
}

} // verus!
