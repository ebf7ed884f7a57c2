//! Reading a bun lockfile into a chastefile, phase by phase.

use vstd::prelude::*;
use vstd::string::{StrSliceExecFns, StringExecFns};

use crate::bun::keys::{key_name, key_source, parse_descriptor, parse_package_key, spec_parse_descriptor};
use crate::bun::parse::{
    bun_chastefile_matches, bun_entry_error, bun_error, bun_ok, bun_outcome, bun_req_error, bun_reqs_error, entry_read_error, new_packages_error, pkg_deps_error, pkg_phase_error, ws_deps_error, descriptor_of, entry_lookup, hoisted_target, install_path, key_install_path, marker_source,
    entry_deps, first_relations, listed, new_packages, package_is, pkg_deps_run, relations_count, pair_lookup, parents_prefix, pkg_run, pkg_step, pkg_target,
    rel_requests, reqs_run, str_lookup, ws_deps_run, ws_map, ws_target,
    ws_error, ws_members, ws_ok, ws_package, ws_pred, ws_root, PkgState, PkgView,
};
use crate::bun::{BunLock, Error, LockPackageElement, Meta, PackageRelations, WorkspaceMember};
use crate::dependency::{DependencyBuilder, DependencyKind};
use crate::npm::parse::{
    dep_matches, first_bad, lemma_first_bad, lemma_first_bad_at, req_view, requests_of, DepRequest, DepView,
};
use crate::checksums::{parse_integrity, Checksums};
use crate::derivation::{PackageDerivation, PackageDerivationMetaBuilder, PackagePatchBuilder};
use crate::source::PackageSource;
use crate::svs::{parse_svs, SourceVersionSpecifier, SourceVersionSpecifierKind};
use crate::text::{starts_with_exec, str_eq};
use crate::chastefile::{Chastefile, ChastefileBuilder};
use crate::dependency::Dependency;
use crate::installation::InstallationBuilder;
use crate::modpath::ModulePath;
use crate::name::PackageName;
use crate::npm::paths::{lookup_path, path_map_view};
use crate::package::{lemma_pid_at, lemma_pid_eq, pid_at, PackageBuilder, PackageID};

verus! {

/// The state after the workspace members are added.
pub open spec fn members_added(
    b: ChastefileBuilder<Meta>,
    ws_pid: Seq<(String, PackageID)>,
    ws: Seq<(String, WorkspaceMember)>,
) -> bool {
    &&& b.spec_packages().len() == ws.len()
    &&& forall|k: int|
        0 <= k < ws.len() ==> package_is(#[trigger] b.spec_packages()[k], ws_package(ws[k]))
    &&& b.spec_installations().len() == ws.len()
    &&& forall|k: int|
        0 <= k < ws.len() ==> (#[trigger] b.spec_installations()[k]).spec_package_id() == pid_at(
            k as nat,
        ) && b.spec_installations()[k].spec_path()@ == ws[k].0@
    &&& b.spec_root() == ws_root(ws)
    &&& b.spec_members() == ws_members(ws)
    &&& b.deps() == Seq::<Dependency>::empty()
    &&& path_map_view(ws_pid) == ws_map(ws)
}

/// A member refused after accepted ones is the first refused member.
proof fn lemma_ws_first_bad(ws: Seq<(String, WorkspaceMember)>, i: int)
    requires
        0 <= i < ws.len(),
        forall|k: int| 0 <= k < i ==> ws_ok(#[trigger] ws[k]),
        !ws_ok(ws[i]),
    ensures
        first_bad(ws, ws_pred()) == Some(i),
{
    let t = ws.take(i + 1);
    assert forall|k: int| 0 <= k < t.len() - 1 implies (ws_pred())(#[trigger] t[k]) by {
        assert(t[k] == ws[k]);
    }
    lemma_first_bad_at(t, ws, ws_pred());
}

/// Adds the package and installation of each workspace member.
pub fn add_workspaces(
    lock: &BunLock,
    builder: &mut ChastefileBuilder<Meta>,
    ws_pid: &mut Vec<(String, PackageID)>,
) -> (r: Result<(), Error>)
    requires
        members_added(*old(builder), old(ws_pid)@, Seq::empty()),
    ensures
        final(builder).spec_meta() == old(builder).spec_meta(),
        match r {
            Ok(()) => {
                &&& forall|k: int| 0 <= k < lock.workspaces@.len() ==> ws_ok(#[trigger] lock.workspaces@[k])
                &&& members_added(*final(builder), final(ws_pid)@, lock.workspaces@)
            },
            Err(e) => first_bad(lock.workspaces@, ws_pred()) matches Some(k) && ws_error(
                lock.workspaces@[k],
                e,
            ),
        },
{
    let ghost meta = builder.spec_meta();
    let n = lock.workspaces.len();
    let mut i: usize = 0;
    assert(lock.workspaces@.take(0) =~= Seq::<(String, WorkspaceMember)>::empty());
    while i < n
        invariant
            n == lock.workspaces@.len(),
            i <= n,
            meta == old(builder).spec_meta(),
            builder.spec_meta() == meta,
            forall|k: int| 0 <= k < i ==> ws_ok(#[trigger] lock.workspaces@[k]),
            members_added(*builder, ws_pid@, lock.workspaces@.take(i as int)),
        decreases n - i,
    {
        let ghost ws = lock.workspaces@.take(i as int);
        let ghost w = lock.workspaces@[i as int];
        let ghost ws2 = lock.workspaces@.take(i + 1);
        assert(ws2.drop_last() =~= ws);
        assert(ws2.last() == w);
        let (ws_location, ws_member) = &lock.workspaces[i];
        let ws_path = match ModulePath::new(ws_location.clone()) {
            Ok(p) => p,
            Err(err) => {
                proof {
                    lemma_ws_first_bad(lock.workspaces@, i as int);
                }
                return Err(Error::ChasteError(err));
            },
        };
        let name = match &ws_member.name {
            Some(s) => match PackageName::new(s.clone()) {
                Ok(pn) => Some(pn),
                Err(err) => {
                    proof {
                        lemma_ws_first_bad(lock.workspaces@, i as int);
                    }
                    return Err(Error::ChasteError(err));
                },
            },
            None => None,
        };
        let pkg_builder = PackageBuilder::new(name, ws_member.version.clone());
        let built = match pkg_builder.build() {
            Ok(p) => p,
            Err(err) => {
                proof {
                    lemma_ws_first_bad(lock.workspaces@, i as int);
                }
                return Err(Error::ChasteError(err));
            },
        };
        let ghost before = *builder;
        let pid = builder.add_package(built);
        let installation = match InstallationBuilder::new(pid, ws_path).build() {
            Ok(inst) => inst,
            Err(err) => {
                return Err(Error::ChasteError(err));
            },
        };
        builder.add_package_installation(installation);
        if ws_location.as_str().unicode_len() == 0 {
            let _ = builder.set_root_package_id(pid);
        } else {
            let _ = builder.set_as_workspace_member(pid);
        }
        let ghost pp = ws_pid@;
        ws_pid.push((ws_location.clone(), pid));
        proof {
            lemma_pid_at(i as nat);
            assert(path_map_view(ws_pid@) =~= path_map_view(pp).push((w.0@, pid)));
            assert(ws_map(ws2) =~= ws_map(ws).push((w.0@, pid_at(i as nat))));
            assert forall|k: int| 0 <= k < ws2.len() implies package_is(
                #[trigger] builder.spec_packages()[k],
                ws_package(ws2[k]),
            ) by {
                if k < ws.len() {
                    assert(builder.spec_packages()[k] == before.spec_packages()[k]);
                    assert(ws2[k] == ws[k]);
                }
            }
            assert forall|k: int| 0 <= k < ws2.len() implies (
            #[trigger] builder.spec_installations()[k]).spec_package_id() == pid_at(k as nat)
                && builder.spec_installations()[k].spec_path()@ == ws2[k].0@ by {
                if k < ws.len() {
                    assert(builder.spec_installations()[k] == before.spec_installations()[k]);
                    assert(ws2[k] == ws[k]);
                }
            }
        }
        i = i + 1;
    }
    assert(lock.workspaces@.take(n as int) =~= lock.workspaces@);
    Ok(())
}


pub open spec fn pre_view(m: Seq<((String, String), PackageID)>) -> Seq<((Seq<char>, Seq<char>), PackageID)> {
    m.map_values(|e: ((String, String), PackageID)| ((e.0.0@, e.0.1@), e.1))
}

/// Executable [`pair_lookup`].
fn lookup_pre(m: &Vec<((String, String), PackageID)>, a: &str, b: &str) -> (r: Option<PackageID>)
    ensures
        r == pair_lookup(pre_view(m@), (a@, b@)),
{
    let mut i = m.len();
    assert(pre_view(m@.take(i as int)) =~= pre_view(m@));
    while i > 0
        invariant
            i <= m.len(),
            pair_lookup(pre_view(m@), (a@, b@)) == pair_lookup(pre_view(m@.take(i as int)), (a@, b@)),
        decreases i,
    {
        assert(pre_view(m@.take(i as int)).drop_last() =~= pre_view(m@.take(i - 1)));
        if str_eq(m[i - 1].0.0.as_str(), a) && str_eq(m[i - 1].0.1.as_str(), b) {
            return Some(m[i - 1].1);
        }
        i = i - 1;
    }
    None
}

/// Executable [`str_lookup`].
fn lookup_patch<'a>(m: &'a Vec<(String, String)>, k: &str) -> (r: Option<&'a str>)
    ensures
        match r {
            Some(v) => str_lookup(m@, k@) == Some(v@),
            None => str_lookup(m@, k@) is None,
        },
{
    let mut i = m.len();
    assert(m@.take(i as int) =~= m@);
    while i > 0
        invariant
            i <= m.len(),
            str_lookup(m@, k@) == str_lookup(m@.take(i as int), k@),
        decreases i,
    {
        assert(m@.take(i as int).drop_last() =~= m@.take(i - 1));
        if str_eq(m[i - 1].0.as_str(), k) {
            return Some(m[i - 1].1.as_str());
        }
        i = i - 1;
    }
    None
}

/// Executable [`entry_lookup`].
fn lookup_entry<'a>(m: &'a Vec<(String, Vec<LockPackageElement>)>, k: &str) -> (r: Option<
    &'a Vec<LockPackageElement>,
>)
    ensures
        match r {
            Some(v) => entry_lookup(m@, k@) == Some(v@),
            None => entry_lookup(m@, k@) is None,
        },
{
    let mut i = m.len();
    assert(m@.take(i as int) =~= m@);
    while i > 0
        invariant
            i <= m.len(),
            entry_lookup(m@, k@) == entry_lookup(m@.take(i as int), k@),
        decreases i,
    {
        assert(m@.take(i as int).drop_last() =~= m@.take(i - 1));
        if str_eq(m[i - 1].0.as_str(), k) {
            return Some(&m[i - 1].1);
        }
        i = i - 1;
    }
    None
}

/// Executable [`descriptor_of`].
fn descriptor_exec(elems: &Vec<LockPackageElement>) -> (r: Option<&str>)
    ensures
        match r {
            Some(d) => descriptor_of(elems@) == Some(d@),
            None => descriptor_of(elems@) is None,
        },
{
    if elems.len() > 0 {
        match &elems[0] {
            LockPackageElement::String(d) => Some(d.as_str()),
            _ => None,
        }
    } else {
        None
    }
}

/// Executable [`install_path`].
fn install_path_exec(parents: &Vec<&str>, name: &str) -> (r: String)
    ensures
        r@ == install_path(parents@.map_values(|x: &str| x@), name@),
{
    let ghost pv = parents@.map_values(|x: &str| x@);
    let mut mp = String::new();
    let mut i: usize = 0;
    assert(pv.take(0) =~= Seq::<Seq<char>>::empty());
    while i < parents.len()
        invariant
            i <= parents.len(),
            pv == parents@.map_values(|x: &str| x@),
            mp@ == parents_prefix(pv.take(i as int)),
        decreases parents.len() - i,
    {
        mp.append("node_modules/");
        mp.append(parents[i]);
        mp.append("/");
        proof {
            assert(pv.take(i + 1).drop_last() =~= pv.take(i as int));
            assert(pv.take(i + 1).last() == parents@[i as int]@);
        }
        i = i + 1;
    }
    assert(pv.take(parents.len() as int) =~= pv);
    mp.append("node_modules/");
    mp.append(name);
    mp
}

/// Executable [`hoisted_target`].
fn hoisted_target_exec(
    all: &Vec<(String, Vec<LockPackageElement>)>,
    desc: &Vec<(String, PackageID)>,
    name: &str,
) -> (r: Option<PackageID>)
    ensures
        r == hoisted_target(all@, path_map_view(desc@), name@),
{
    match lookup_entry(all, name) {
        Some(elems) => match descriptor_exec(elems) {
            Some(d) => lookup_path(desc, d),
            None => None,
        },
        None => None,
    }
}

/// Adds the packages of a new descriptor `d` (`pname@marker`): the package, and a
/// patched one derived from it when the descriptor is patched.
fn add_new_packages(
    lock: &BunLock,
    builder: &mut ChastefileBuilder<Meta>,
    elems: &Vec<LockPackageElement>,
    d: &str,
    pname: &str,
    marker: &str,
    key: &str,
    Ghost(st): Ghost<PkgState>,
) -> (r: Result<PackageID, Error>)
    requires
        spec_parse_descriptor(d@) == Some((pname@, marker@)),
        old(builder).spec_packages().len() == lock.workspaces@.len() + st.pkgs.len(),
    ensures
        final(builder).spec_meta() == old(builder).spec_meta(),
        final(builder).spec_installations() == old(builder).spec_installations(),
        final(builder).spec_root() == old(builder).spec_root(),
        final(builder).spec_members() == old(builder).spec_members(),
        final(builder).deps() == old(builder).deps(),
        final(builder).spec_packages().len() >= old(builder).spec_packages().len(),
        forall|k: int|
            0 <= k < old(builder).spec_packages().len() ==> #[trigger] final(builder).spec_packages()[k]
                == old(builder).spec_packages()[k],
        match r {
            Ok(pid) => new_packages(
                st,
                lock.workspaces@.len(),
                key@,
                elems@,
                d@,
                lock.patched_dependencies@,
            ) matches Some((p, ps)) && p == pid && final(builder).spec_packages().len()
                == old(builder).spec_packages().len() + ps.len() && (forall|k: int|
                0 <= k < ps.len() ==> package_is(
                    #[trigger] final(builder).spec_packages()[old(builder).spec_packages().len() + k],
                    ps[k],
                )),
            Err(e) => new_packages(
                st,
                lock.workspaces@.len(),
                key@,
                elems@,
                d@,
                lock.patched_dependencies@,
            ) is None && new_packages_error(key@, elems@, d@, e),
        },
{
    let sm_svs = match SourceVersionSpecifier::new(marker.to_owned()) {
        Ok(x) => x,
        Err(err) => {
            return Err(Error::ChasteError(err));
        },
    };
    let patch_path = lookup_patch(&lock.patched_dependencies, d);
    let pkg_name = match PackageName::new(pname.to_owned()) {
        Ok(n) => n,
        Err(err) => {
            return Err(Error::ChasteError(err));
        },
    };
    let mut patched_pkg_builder = match patch_path {
        Some(_) => Some(PackageBuilder::new(Some(pkg_name.clone()), None)),
        None => None,
    };
    let mut pkg_builder = PackageBuilder::new(Some(pkg_name), None);
    let ghost pos = parse_svs(marker@, None)->0;
    let ghost ms = marker_source(elems@, marker@, pos);
    match sm_svs.kind() {
        SourceVersionSpecifierKind::Npm => {
            let fits = elems.len() == 4 && matches!(elems[1], LockPackageElement::String(_))
                && matches!(elems[2], LockPackageElement::Relations(_));
            let integrity = if fits {
                match &elems[3] {
                    LockPackageElement::String(i) => Some(i.as_str()),
                    _ => None,
                }
            } else {
                None
            };
            match integrity {
                Some(integrity) => {
                    if let Some(patched) = &mut patched_pkg_builder {
                        patched.version(Some(marker.to_owned()));
                    }
                    pkg_builder.version(Some(marker.to_owned()));
                    let inte = match parse_integrity(integrity) {
                        Ok(x) => x,
                        Err(m) => {
                            return Err(Error::SSRIError(m));
                        },
                    };
                    if !inte.is_empty() {
                        pkg_builder.checksums(Checksums::Tarball(inte));
                    }
                    pkg_builder.source(PackageSource::Npm);
                },
                None => {
                    return Err(Error::VariantMarkerMismatch(key.to_owned()));
                },
            }
        },
        SourceVersionSpecifierKind::TarballURL => {
            pkg_builder.source(PackageSource::TarballURL { url: marker.to_owned() });
        },
        SourceVersionSpecifierKind::Git | SourceVersionSpecifierKind::GitHub => {
            if !sm_svs.is_github() {
                pkg_builder.source(PackageSource::Git { url: marker.to_owned() });
            }
        },
        _ => {
            return Err(Error::VariantMarkerMismatch(key.to_owned()));
        },
    }
    let built = match pkg_builder.build() {
        Ok(p) => p,
        Err(err) => {
            return Err(Error::ChasteError(err));
        },
    };
    let ghost b0 = *builder;
    let og = builder.add_package(built);
    proof {
        lemma_pid_at(b0.spec_packages().len());
    }
    match patched_pkg_builder {
        Some(mut patched) => {
            let patch = match PackagePatchBuilder::new(patch_path.unwrap().to_owned()).build() {
                Ok(p) => p,
                Err(err) => {
                    return Err(Error::ChasteError(err));
                },
            };
            let derived = match PackageDerivationMetaBuilder::new(
                PackageDerivation::Patch(patch),
                og,
            ).build() {
                Ok(m) => m,
                Err(err) => {
                    return Err(Error::ChasteError(err));
                },
            };
            patched.derived(derived);
            let built_patched = match patched.build() {
                Ok(p) => p,
                Err(err) => {
                    return Err(Error::ChasteError(err));
                },
            };
            let ghost b1 = *builder;
            let p = builder.add_package(built_patched);
            proof {
                assert(builder.spec_packages()[b0.spec_packages().len() as int] == b1.spec_packages()[b0.spec_packages().len() as int]);
            }
            Ok(p)
        },
        None => Ok(og),
    }
}


/// The builder and maps hold the state `st` after the members and packages read.
pub open spec fn packages_read(
    b: ChastefileBuilder<Meta>,
    lock: BunLock,
    desc: Seq<(String, PackageID)>,
    pre: Seq<((String, String), PackageID)>,
    aliased: Seq<PackageID>,
    st: PkgState,
) -> bool {
    let nws = lock.workspaces@.len();
    &&& st.desc == path_map_view(desc)
    &&& st.pre == pre_view(pre)
    &&& st.aliased == aliased
    &&& b.spec_packages().len() == nws + st.pkgs.len()
    &&& forall|k: int|
        0 <= k < st.pkgs.len() ==> package_is(#[trigger] b.spec_packages()[nws + k], st.pkgs[k])
    &&& b.spec_installations().len() == nws + st.insts.len()
    &&& forall|k: int|
        0 <= k < st.insts.len() ==> (#[trigger] b.spec_installations()[nws + k]).spec_package_id()
            == st.insts[k].0 && b.spec_installations()[nws + k].spec_path()@ == st.insts[k].1
}

/// Reads the entry of `packages` at index `i` from state `st`.
fn read_entry(
    lock: &BunLock,
    builder: &mut ChastefileBuilder<Meta>,
    ws_pid: &Vec<(String, PackageID)>,
    desc: &mut Vec<(String, PackageID)>,
    pre: &mut Vec<((String, String), PackageID)>,
    aliased: &mut Vec<PackageID>,
    i: usize,
    Ghost(st): Ghost<PkgState>,
) -> (r: Result<(), Error>)
    requires
        i < lock.packages@.len(),
        path_map_view(ws_pid@) == ws_map(lock.workspaces@),
        packages_read(*old(builder), *lock, old(desc)@, old(pre)@, old(aliased)@, st),
    ensures
        final(builder).spec_meta() == old(builder).spec_meta(),
        final(builder).spec_root() == old(builder).spec_root(),
        final(builder).spec_members() == old(builder).spec_members(),
        final(builder).deps() == old(builder).deps(),
        final(builder).spec_packages().len() >= old(builder).spec_packages().len(),
        final(builder).spec_installations().len() >= old(builder).spec_installations().len(),
        forall|k: int|
            0 <= k < old(builder).spec_packages().len() ==> #[trigger] final(builder).spec_packages()[k]
                == old(builder).spec_packages()[k],
        forall|k: int|
            0 <= k < old(builder).spec_installations().len() ==> #[trigger] final(
            builder).spec_installations()[k] == old(builder).spec_installations()[k],
        match r {
            Ok(()) => pkg_step(
                st,
                lock.workspaces@.len(),
                ws_map(lock.workspaces@),
                lock.patched_dependencies@,
                lock.packages@[i as int],
            ) matches Some(nst) && packages_read(
                *final(builder),
                *lock,
                final(desc)@,
                final(pre)@,
                final(aliased)@,
                nst,
            ),
            Err(e) => pkg_step(
                st,
                lock.workspaces@.len(),
                ws_map(lock.workspaces@),
                lock.patched_dependencies@,
                lock.packages@[i as int],
            ) is None && entry_read_error(
                st,
                lock.workspaces@.len(),
                ws_map(lock.workspaces@),
                lock.patched_dependencies@,
                lock.packages@[i as int],
                e,
            ),
        },
{
    let ghost nws = lock.workspaces@.len();
    let ghost wsm = ws_map(lock.workspaces@);
    let ghost patched = lock.patched_dependencies@;
    let ghost entry = lock.packages@[i as int];
    let ghost next = pkg_step(st, nws, wsm, patched, entry);
    let (lock_key, lock_pkg) = &lock.packages[i];
    let (source, installation_package_name) = match parse_package_key(lock_key.as_str()) {
        Ok(x) => x,
        Err(err) => {
            return Err(err);
        },
    };
    let descriptor = match descriptor_exec(lock_pkg) {
        Some(d) => d,
        None => {
            return Err(Error::InvalidVariant(lock_key.clone()));
        },
    };
    let ghost key = lock_key@;
    let ghost d = descriptor@;
    let ghost pre_with = |pid: PackageID|
        match key_source(key) {
            Some((sk, _)) => st.pre.push(((sk, key_name(key)), pid)),
            None => st.pre,
        };
    match lookup_path(desc, descriptor) {
        Some(pid) => {
            let ghost pp = pre@;
            if let Some((source_key, _)) = &source {
                pre.push(((String::from_str(source_key), String::from_str(installation_package_name)), pid));
                assert(pre_view(pre@) =~= pre_view(pp).push(((source_key@, installation_package_name@), pid)));
            }
            assert(next == Some(PkgState { pre: pre_with(pid), ..st }));
            Ok(())
        },
        None => {
            let (package_name, sv_marker) = match parse_descriptor(descriptor) {
                Ok(x) => x,
                Err(err) => {
                    return Err(err);
                },
            };
            let ws_target = if starts_with_exec(sv_marker, "workspace:") {
                let wl = "workspace:".unicode_len();
                lookup_path(ws_pid, sv_marker.substring_char(wl, sv_marker.unicode_len()))
            } else {
                None
            };
            let ghost b1 = *builder;
            let ghost mut ps: Seq<PkgView> = Seq::empty();
            let ghost mut alias = false;
            let pid = match ws_target {
                Some(p) => p,
                None => {
                    let p = match add_new_packages(
                        lock,
                        builder,
                        lock_pkg,
                        descriptor,
                        package_name,
                        sv_marker,
                        lock_key.as_str(),
                        Ghost(st),
                    ) {
                        Ok(p) => p,
                        Err(err) => {
                            return Err(err);
                        },
                    };
                    proof {
                        ps = match new_packages(st, nws, key, lock_pkg@, d, patched) {
                            Some((_, added)) => added,
                            None => Seq::empty(),
                        };
                    }
                    if !str_eq(installation_package_name, package_name) {
                        aliased.push(p);
                        proof {
                            alias = true;
                        }
                    }
                    p
                },
            };
            let ghost dp = desc@;
            desc.push((String::from_str(descriptor), pid));
            assert(path_map_view(desc@) =~= path_map_view(dp).push((d, pid)));
            let ghost pp = pre@;
            if let Some((source_key, _)) = &source {
                pre.push(((String::from_str(source_key), String::from_str(installation_package_name)), pid));
                assert(pre_view(pre@) =~= pre_view(pp).push(((source_key@, installation_package_name@), pid)));
            }
            let no_parents: Vec<&str> = Vec::new();
            assert(no_parents@.map_values(|x: &str| x@) =~= Seq::<Seq<char>>::empty());
            let mp = match &source {
                Some((_, parent_modules)) => install_path_exec(parent_modules, installation_package_name),
                None => install_path_exec(&no_parents, installation_package_name),
            };
            let mod_path = match ModulePath::new(mp) {
                Ok(m) => m,
                Err(err) => {
                    return Err(Error::ChasteError(err));
                },
            };
            let installation = match InstallationBuilder::new(pid, mod_path).build() {
                Ok(inst) => inst,
                Err(err) => {
                    return Err(Error::ChasteError(err));
                },
            };
            let ghost b2 = *builder;
            builder.add_package_installation(installation);
            proof {
                let nst = PkgState {
                    desc: st.desc.push((d, pid)),
                    pre: pre_with(pid),
                    aliased: if alias {
                        st.aliased.push(pid)
                    } else {
                        st.aliased
                    },
                    pkgs: st.pkgs + ps,
                    insts: st.insts.push((pid, key_install_path(key))),
                };
                assert(next == Some(nst));
                assert forall|k: int| 0 <= k < nst.pkgs.len() implies package_is(
                    #[trigger] builder.spec_packages()[nws + k],
                    nst.pkgs[k],
                ) by {
                    assert(builder.spec_packages()[nws + k] == b2.spec_packages()[nws + k]);
                    if k < st.pkgs.len() {
                        assert(b2.spec_packages()[nws + k] == b1.spec_packages()[nws + k]);
                    } else {
                        assert(nws + k == b1.spec_packages().len() + (k - st.pkgs.len()));
                    }
                }
                assert forall|k: int| 0 <= k < nst.insts.len() implies (
                #[trigger] builder.spec_installations()[nws + k]).spec_package_id() == nst.insts[k].0
                    && builder.spec_installations()[nws + k].spec_path()@ == nst.insts[k].1 by {
                    if k < st.insts.len() {
                        assert(builder.spec_installations()[nws + k] == b2.spec_installations()[nws + k]);
                    }
                }
            }
            Ok(())
        },
    }
}

/// Reads each entry of `packages`: new descriptors add packages and an installation.
fn add_packages(
    lock: &BunLock,
    builder: &mut ChastefileBuilder<Meta>,
    ws_pid: &Vec<(String, PackageID)>,
    desc: &mut Vec<(String, PackageID)>,
    pre: &mut Vec<((String, String), PackageID)>,
    aliased: &mut Vec<PackageID>,
) -> (r: Result<(), Error>)
    requires
        members_added(*old(builder), ws_pid@, lock.workspaces@),
        old(desc)@.len() == 0,
        old(pre)@.len() == 0,
        old(aliased)@.len() == 0,
    ensures
        final(builder).spec_meta() == old(builder).spec_meta(),
        final(builder).spec_root() == old(builder).spec_root(),
        final(builder).spec_members() == old(builder).spec_members(),
        final(builder).deps() == old(builder).deps(),
        forall|k: int|
            0 <= k < lock.workspaces@.len() ==> #[trigger] final(builder).spec_packages()[k]
                == old(builder).spec_packages()[k],
        forall|k: int|
            0 <= k < lock.workspaces@.len() ==> #[trigger] final(builder).spec_installations()[k]
                == old(builder).spec_installations()[k],
        match r {
            Ok(()) => pkg_run(
                lock.packages@,
                lock.workspaces@.len(),
                ws_map(lock.workspaces@),
                lock.patched_dependencies@,
            ) matches Some(st) && packages_read(
                *final(builder),
                *lock,
                final(desc)@,
                final(pre)@,
                final(aliased)@,
                st,
            ),
            Err(e) => pkg_run(
                lock.packages@,
                lock.workspaces@.len(),
                ws_map(lock.workspaces@),
                lock.patched_dependencies@,
            ) is None && pkg_phase_error(
                lock.packages@,
                lock.workspaces@.len(),
                ws_map(lock.workspaces@),
                lock.patched_dependencies@,
                e,
            ),
        },
{
    let ghost nws = lock.workspaces@.len();
    let ghost wsm = ws_map(lock.workspaces@);
    let ghost patched = lock.patched_dependencies@;
    let ghost b0 = *builder;
    let n = lock.packages.len();
    let mut i: usize = 0;
    let ghost mut st = PkgState {
        desc: Seq::empty(),
        pre: Seq::empty(),
        aliased: Seq::empty(),
        pkgs: Seq::empty(),
        insts: Seq::empty(),
    };
    proof {
        assert(lock.packages@.take(0) =~= Seq::<(String, Vec<LockPackageElement>)>::empty());
        assert(path_map_view(desc@) =~= Seq::<(Seq<char>, PackageID)>::empty());
        assert(pre_view(pre@) =~= Seq::<((Seq<char>, Seq<char>), PackageID)>::empty());
        assert(aliased@ =~= Seq::<PackageID>::empty());
    }
    while i < n
        invariant
            n == lock.packages@.len(),
            i <= n,
            nws == lock.workspaces@.len(),
            wsm == ws_map(lock.workspaces@),
            patched == lock.patched_dependencies@,
            b0 == *old(builder),
            members_added(b0, ws_pid@, lock.workspaces@),
            builder.spec_meta() == b0.spec_meta(),
            builder.spec_root() == b0.spec_root(),
            builder.spec_members() == b0.spec_members(),
            builder.deps() == b0.deps(),
            builder.spec_packages().len() >= nws,
            builder.spec_installations().len() >= nws,
            forall|k: int|
                0 <= k < nws ==> #[trigger] builder.spec_packages()[k] == b0.spec_packages()[k],
            forall|k: int|
                0 <= k < nws ==> #[trigger] builder.spec_installations()[k]
                    == b0.spec_installations()[k],
            pkg_run(lock.packages@.take(i as int), nws, wsm, patched) == Some(st),
            packages_read(*builder, *lock, desc@, pre@, aliased@, st),
        decreases n - i,
    {
        proof {
            assert(lock.packages@.take(i + 1).drop_last() =~= lock.packages@.take(i as int));
            assert(lock.packages@.take(i + 1).last() == lock.packages@[i as int]);
        }
        let ghost bi = *builder;
        match read_entry(lock, builder, ws_pid, desc, pre, aliased, i, Ghost(st)) {
            Ok(()) => {},
            Err(err) => {
                proof {
                    lemma_pkg_run_prefix_none(lock.packages@, i + 1, nws, wsm, patched);
                    assert(pkg_run(lock.packages@.take(i as int), nws, wsm, patched) matches Some(x) && x == st);
                }
                return Err(err);
            },
        }
        proof {
            st = pkg_step(st, nws, wsm, patched, lock.packages@[i as int])->0;
            assert forall|k: int| 0 <= k < nws implies #[trigger] builder.spec_packages()[k]
                == b0.spec_packages()[k] by {
                assert(builder.spec_packages()[k] == bi.spec_packages()[k]);
            }
            assert forall|k: int| 0 <= k < nws implies #[trigger] builder.spec_installations()[k]
                == b0.spec_installations()[k] by {
                assert(builder.spec_installations()[k] == bi.spec_installations()[k]);
            }
        }
        i = i + 1;
    }
    assert(lock.packages@.take(n as int) =~= lock.packages@);
    Ok(())
}

/// A run that fails on a prefix of the entries fails on all of them.
pub proof fn lemma_pkg_run_prefix_none(
    entries: Seq<(String, Vec<LockPackageElement>)>,
    k: int,
    nws: nat,
    wsm: Seq<(Seq<char>, PackageID)>,
    patched: Seq<(String, String)>,
)
    requires
        0 <= k <= entries.len(),
        pkg_run(entries.take(k), nws, wsm, patched) is None,
    ensures
        pkg_run(entries, nws, wsm, patched) is None,
    decreases entries.len(),
{
    if k == entries.len() {
        assert(entries.take(k) =~= entries);
    } else {
        assert(entries.drop_last().take(k) =~= entries.take(k));
        lemma_pkg_run_prefix_none(entries.drop_last(), k, nws, wsm, patched);
    }
}


fn push_requests<'a>(
    out: &mut Vec<(&'a str, &'a str, DependencyKind)>,
    deps: &'a Vec<(String, String)>,
    kind: DependencyKind,
)
    ensures
        req_view(final(out)@) == req_view(old(out)@) + requests_of(deps@, kind),
{
    let ghost start = req_view(out@);
    let mut i: usize = 0;
    while i < deps.len()
        invariant
            i <= deps.len(),
            req_view(out@) == start + requests_of(deps@.take(i as int), kind),
        decreases deps.len() - i,
    {
        let ghost prev = out@;
        out.push((deps[i].0.as_str(), deps[i].1.as_str(), kind));
        proof {
            assert(deps@.take(i + 1) =~= deps@.take(i as int).push(deps@[i as int]));
            assert(req_view(out@) =~= req_view(prev).push((deps@[i as int].0@, deps@[i as int].1@, kind)));
            assert(requests_of(deps@.take(i + 1), kind) =~= requests_of(deps@.take(i as int), kind).push(
                (deps@[i as int].0@, deps@[i as int].1@, kind),
            ));
            assert(req_view(out@) =~= start + requests_of(deps@.take(i + 1), kind));
        }
        i = i + 1;
    }
    assert(deps@.take(deps.len() as int) =~= deps@);
}

/// Executable [`listed`].
fn is_listed(peers: &Vec<String>, name: &str) -> (b: bool)
    ensures
        b == listed(peers@, name@),
{
    let mut i: usize = 0;
    while i < peers.len()
        invariant
            i <= peers.len(),
            forall|j: int| 0 <= j < i ==> (#[trigger] peers@[j])@ != name@,
        decreases peers.len() - i,
    {
        if str_eq(peers[i].as_str(), name) {
            return true;
        }
        i = i + 1;
    }
    false
}

/// Executable [`rel_requests`].
fn relation_requests(r: &PackageRelations) -> (out: Vec<(&str, &str, DependencyKind)>)
    ensures
        req_view(out@) == rel_requests(*r),
{
    let mut out: Vec<(&str, &str, DependencyKind)> = Vec::new();
    assert(req_view(out@) =~= Seq::<DepRequest>::empty());
    push_requests(&mut out, &r.dependencies, DependencyKind::Dependency);
    push_requests(&mut out, &r.dev_dependencies, DependencyKind::DevDependency);
    let ghost before = req_view(out@);
    let peers = &r.peer_dependencies;
    let ghost pk = r.peer_dependencies@.map_values(
        |p: (String, String)|
            (
                p.0@,
                p.1@,
                if listed(r.optional_peers@, p.0@) {
                    DependencyKind::OptionalPeerDependency
                } else {
                    DependencyKind::PeerDependency
                },
            ),
    );
    let mut i: usize = 0;
    while i < peers.len()
        invariant
            i <= peers.len(),
            peers == &r.peer_dependencies,
            pk == r.peer_dependencies@.map_values(
                |p: (String, String)|
                    (
                        p.0@,
                        p.1@,
                        if listed(r.optional_peers@, p.0@) {
                            DependencyKind::OptionalPeerDependency
                        } else {
                            DependencyKind::PeerDependency
                        },
                    ),
            ),
            req_view(out@) == before + pk.take(i as int),
        decreases peers.len() - i,
    {
        let n = peers[i].0.as_str();
        let kind = if is_listed(&r.optional_peers, n) {
            DependencyKind::OptionalPeerDependency
        } else {
            DependencyKind::PeerDependency
        };
        let ghost prev = out@;
        out.push((n, peers[i].1.as_str(), kind));
        proof {
            assert(req_view(out@) =~= req_view(prev).push((n@, peers@[i as int].1@, kind)));
            assert(pk.take(i + 1) =~= pk.take(i as int).push(pk[i as int]));
            assert(req_view(out@) =~= before + pk.take(i + 1));
        }
        i = i + 1;
    }
    assert(pk.take(peers.len() as int) =~= pk);
    push_requests(&mut out, &r.optional_dependencies, DependencyKind::OptionalDependency);
    out
}

pub open spec fn opt_pids_view(a: Option<&Vec<PackageID>>) -> Option<Seq<PackageID>> {
    match a {
        Some(v) => Some(v@),
        None => None,
    }
}

/// The resolution a package's dependencies use (`pre_key` is the package's key), or
/// a workspace member's.
pub open spec fn target_for(
    pre_key: Option<&str>,
    lock: BunLock,
    desc: Seq<(String, PackageID)>,
    pre: Seq<((String, String), PackageID)>,
) -> spec_fn(Seq<char>) -> Option<PackageID> {
    match pre_key {
        Some(k) => pkg_target(pre_view(pre), k@, lock.packages@, path_map_view(desc)),
        None => ws_target(lock.packages@, path_map_view(desc)),
    }
}

/// Resolves each request into a dependency of `from` (see [`reqs_run`]).
fn run_requests(
    reqs: &Vec<(&str, &str, DependencyKind)>,
    lock: &BunLock,
    desc: &Vec<(String, PackageID)>,
    pre: &Vec<((String, String), PackageID)>,
    pre_key: Option<&str>,
    aliased: Option<&Vec<PackageID>>,
    from: PackageID,
) -> (r: Result<Vec<Dependency>, Error>)
    ensures
        match r {
            Ok(v) => reqs_run(
                req_view(reqs@),
                target_for(pre_key, *lock, desc@, pre@),
                opt_pids_view(aliased),
            ) matches Some(ds) && v@.len() == ds.len() && forall|j: int|
                0 <= j < ds.len() ==> dep_matches(#[trigger] v@[j], ds[j], from),
            Err(e) => reqs_run(
                req_view(reqs@),
                target_for(pre_key, *lock, desc@, pre@),
                opt_pids_view(aliased),
            ) is None && bun_reqs_error(
                req_view(reqs@),
                target_for(pre_key, *lock, desc@, pre@),
                opt_pids_view(aliased),
                e,
            ),
        },
{
    let ghost rq = req_view(reqs@);
    let ghost target = target_for(pre_key, *lock, desc@, pre@);
    let ghost av = opt_pids_view(aliased);
    let mut out: Vec<Dependency> = Vec::new();
    let mut i: usize = 0;
    assert(rq.take(0) =~= Seq::<DepRequest>::empty());
    while i < reqs.len()
        invariant
            i <= reqs.len(),
            rq == req_view(reqs@),
            target == target_for(pre_key, *lock, desc@, pre@),
            av == opt_pids_view(aliased),
            reqs_run(rq.take(i as int), target, av) matches Some(ds) && out@.len() == ds.len()
                && forall|j: int| 0 <= j < ds.len() ==> dep_matches(#[trigger] out@[j], ds[j], from),
        decreases reqs.len() - i,
    {
        let (n, sv, kind) = reqs[i];
        let ghost q = rq[i as int];
        assert(q == (n@, sv@, kind));
        assert(rq.take(i + 1).drop_last() =~= rq.take(i as int));
        assert(rq.take(i + 1).last() == q);
        let found = match pre_key {
            Some(k) => match lookup_pre(pre, k, n) {
                Some(p) => Some(p),
                None => hoisted_target_exec(&lock.packages, desc, n),
            },
            None => hoisted_target_exec(&lock.packages, desc, n),
        };
        assert(found == target(n@));
        let ghost ds = reqs_run(rq.take(i as int), target, av)->0;
        match found {
            Some(t) => {
                let mut dep = DependencyBuilder::new(kind, from, t);
                let svs = match SourceVersionSpecifier::new(String::from_str(sv)) {
                    Ok(x) => x,
                    Err(err) => {
                        proof {
                            lemma_reqs_run_prefix_none(rq, i + 1, target, av);
                            assert(bun_req_error(
                                bun_outcome(rq[i as int], target(rq[i as int].0), av),
                                rq[i as int],
                                Error::ChasteError(err),
                            ));
                            assert(reqs_run(rq.take(i as int), target, av) is Some);
                        }
                        return Err(Error::ChasteError(err));
                    },
                };
                dep.svs(svs);
                let is_aliased = match aliased {
                    Some(a) => contains_pid(a, t),
                    None => false,
                };
                if is_aliased {
                    match PackageName::new(String::from_str(n)) {
                        Ok(alias) => dep.alias_name(alias),
                        Err(err) => {
                            proof {
                                lemma_reqs_run_prefix_none(rq, i + 1, target, av);
                                assert(bun_req_error(
                                    bun_outcome(rq[i as int], target(rq[i as int].0), av),
                                    rq[i as int],
                                    Error::ChasteError(err),
                                ));
                                assert(reqs_run(rq.take(i as int), target, av) is Some);
                            }
                            return Err(Error::ChasteError(err));
                        },
                    }
                }
                let ghost prev = out@;
                out.push(dep.build());
                proof {
                    let nds = reqs_run(rq.take(i + 1), target, av)->0;
                    assert(nds == ds.push(nds.last()));
                    assert forall|j: int| 0 <= j < nds.len() implies dep_matches(
                        #[trigger] out@[j],
                        nds[j],
                        from,
                    ) by {
                        if j < ds.len() {
                            assert(out@[j] == prev[j]);
                        }
                    }
                }
            },
            None => {
                if !kind.is_optional() {
                    let mut msg = String::from_str(n);
                    msg.append("@");
                    msg.append(sv);
                    proof {
                        reveal_strlit("@");
                        lemma_reqs_run_prefix_none(rq, i + 1, target, av);
                        assert(bun_req_error(
                            bun_outcome(rq[i as int], target(rq[i as int].0), av),
                            rq[i as int],
                            Error::DependencyNotFound(msg),
                        ));
                        assert(reqs_run(rq.take(i as int), target, av) is Some);
                    }
                    return Err(Error::DependencyNotFound(msg));
                }
            },
        }
        i = i + 1;
    }
    assert(rq.take(reqs.len() as int) =~= rq);
    Ok(out)
}

/// Requests that fail on a prefix fail on all of them.
pub proof fn lemma_reqs_run_prefix_none(
    reqs: Seq<DepRequest>,
    k: int,
    target: spec_fn(Seq<char>) -> Option<PackageID>,
    aliased: Option<Seq<PackageID>>,
)
    requires
        0 <= k <= reqs.len(),
        reqs_run(reqs.take(k), target, aliased) is None,
    ensures
        reqs_run(reqs, target, aliased) is None,
    decreases reqs.len(),
{
    if k == reqs.len() {
        assert(reqs.take(k) =~= reqs);
    } else {
        assert(reqs.drop_last().take(k) =~= reqs.take(k));
        lemma_reqs_run_prefix_none(reqs.drop_last(), k, target, aliased);
    }
}

fn contains_pid(v: &Vec<PackageID>, pid: PackageID) -> (b: bool)
    ensures
        b == v@.contains(pid),
{
    let mut i: usize = 0;
    while i < v.len()
        invariant
            i <= v.len(),
            forall|j: int| 0 <= j < i ==> v@[j] != pid,
        decreases v.len() - i,
    {
        if v[i].index() == pid.index() {
            proof {
                lemma_pid_eq(v@[i as int], pid);
            }
            return true;
        }
        i = i + 1;
    }
    false
}


/// The dependencies `ds` of `from`, as the builder holds them from index `at` on.
pub open spec fn deps_added_from(b: ChastefileBuilder<Meta>, at: int, ds: Seq<(DepView, PackageID)>) -> bool {
    &&& b.deps().len() == at + ds.len()
    &&& forall|j: int| 0 <= j < ds.len() ==> dep_matches(#[trigger] b.deps()[at + j], ds[j].0, ds[j].1)
}

/// The relations of a package's data, and how many there are.
fn relations_exec(elems: &Vec<LockPackageElement>) -> (r: (usize, Option<&PackageRelations>))
    ensures
        (r.0 > 1) == (relations_count(elems@) > 1),
        r.1 == match first_relations(elems@) {
            Some(x) => Some(&x),
            None => None,
        },
{
    let mut count: usize = 0;
    let mut first: Option<&PackageRelations> = None;
    let mut i: usize = 0;
    assert(elems@.take(0) =~= Seq::<LockPackageElement>::empty());
    while i < elems.len()
        invariant
            i <= elems.len(),
            count <= i,
            (count > 1) == (relations_count(elems@.take(i as int)) > 1),
            count <= 1 ==> count == relations_count(elems@.take(i as int)),
            first == match first_relations(elems@.take(i as int)) {
                Some(x) => Some(&x),
                None => None,
            },
        decreases elems.len() - i,
    {
        assert(elems@.take(i + 1).drop_last() =~= elems@.take(i as int));
        assert(elems@.take(i + 1).last() == elems@[i as int]);
        match &elems[i] {
            LockPackageElement::Relations(rels) => {
                if count <= 1 {
                    count = count + 1;
                }
                if first.is_none() {
                    first = Some(rels);
                }
            },
            _ => {},
        }
        i = i + 1;
    }
    assert(elems@.take(elems.len() as int) =~= elems@);
    (count, first)
}

/// Adds the dependencies of each package entry (see [`pkg_deps_run`]).
fn add_package_dependencies(
    lock: &BunLock,
    builder: &mut ChastefileBuilder<Meta>,
    desc: &Vec<(String, PackageID)>,
    pre: &Vec<((String, String), PackageID)>,
    Ghost(st): Ghost<PkgState>,
) -> (r: Result<(), Error>)
    requires
        st.desc == path_map_view(desc@),
        st.pre == pre_view(pre@),
    ensures
        final(builder).spec_meta() == old(builder).spec_meta(),
        final(builder).spec_packages() == old(builder).spec_packages(),
        final(builder).spec_installations() == old(builder).spec_installations(),
        final(builder).spec_root() == old(builder).spec_root(),
        final(builder).spec_members() == old(builder).spec_members(),
        final(builder).deps().len() >= old(builder).deps().len(),
        forall|j: int|
            0 <= j < old(builder).deps().len() ==> #[trigger] final(builder).deps()[j] == old(
            builder).deps()[j],
        match r {
            Ok(()) => pkg_deps_run(lock.packages@, lock.packages@, st) matches Some(ds)
                && deps_added_from(*final(builder), old(builder).deps().len() as int, ds),
            Err(e) => pkg_deps_run(lock.packages@, lock.packages@, st) is None && pkg_deps_error(
                lock.packages@,
                lock.packages@,
                st,
                e,
            ),
        },
{
    let ghost all = lock.packages@;
    let ghost b0 = *builder;
    let ghost at = b0.deps().len() as int;
    let n = lock.packages.len();
    let mut i: usize = 0;
    assert(all.take(0) =~= Seq::<(String, Vec<LockPackageElement>)>::empty());
    while i < n
        invariant
            n == all.len(),
            all == lock.packages@,
            i <= n,
            st.desc == path_map_view(desc@),
            st.pre == pre_view(pre@),
            b0 == *old(builder),
            at == b0.deps().len(),
            builder.spec_meta() == b0.spec_meta(),
            builder.spec_packages() == b0.spec_packages(),
            builder.spec_installations() == b0.spec_installations(),
            builder.spec_root() == b0.spec_root(),
            builder.spec_members() == b0.spec_members(),
            builder.deps().len() >= at,
            forall|j: int| 0 <= j < at ==> #[trigger] builder.deps()[j] == b0.deps()[j],
            pkg_deps_run(all.take(i as int), all, st) matches Some(ds) && deps_added_from(
                *builder,
                at,
                ds,
            ),
        decreases n - i,
    {
        let ghost entry = all[i as int];
        proof {
            assert(all.take(i + 1).drop_last() =~= all.take(i as int));
            assert(all.take(i + 1).last() == entry);
        }
        let ghost ds = pkg_deps_run(all.take(i as int), all, st)->0;
        let (lock_key, lock_pkg) = &lock.packages[i];
        let (count, relations) = relations_exec(lock_pkg);
        if count > 1 {
            let key = lock_key.clone();
            proof {
                lemma_pkg_deps_prefix_none(all, i + 1, all, st);
                assert(bun_entry_error(entry, all, st, Error::InvalidVariant(key)));
                assert(pkg_deps_run(all.take(i as int), all, st) is Some);
            }
            return Err(Error::InvalidVariant(key));
        }
        let descriptor = match descriptor_exec(lock_pkg) {
            Some(d) => d,
            None => {
                let key = lock_key.clone();
                proof {
                    lemma_pkg_deps_prefix_none(all, i + 1, all, st);
                    assert(bun_entry_error(entry, all, st, Error::InvalidVariant(key)));
                    assert(pkg_deps_run(all.take(i as int), all, st) is Some);
                }
                return Err(Error::InvalidVariant(key));
            },
        };
        let pid = match lookup_path(desc, descriptor) {
            Some(p) => p,
            None => {
                let key = lock_key.clone();
                proof {
                    lemma_pkg_deps_prefix_none(all, i + 1, all, st);
                    assert(bun_entry_error(entry, all, st, Error::InvalidVariant(key)));
                    assert(pkg_deps_run(all.take(i as int), all, st) is Some);
                }
                return Err(Error::InvalidVariant(key));
            },
        };
        match relations {
            None => {
                assert(entry_deps(entry, all, st) == Some(Seq::<(DepView, PackageID)>::empty()));
                assert(ds + Seq::<(DepView, PackageID)>::empty() =~= ds);
            },
            Some(rels) => {
                let reqs = relation_requests(rels);
                let v = match run_requests(&reqs, lock, desc, pre, Some(lock_key.as_str()), None, pid) {
                    Ok(v) => v,
                    Err(err) => {
                        proof {
                            lemma_pkg_deps_prefix_none(all, i + 1, all, st);
                            assert(bun_entry_error(entry, all, st, err));
                            assert(pkg_deps_run(all.take(i as int), all, st) is Some);
                        }
                        return Err(err);
                    },
                };
                let ghost nd = reqs_run(
                    rel_requests(*rels),
                    pkg_target(st.pre, lock_key@, all, st.desc),
                    None,
                )->0.map_values(|dv: DepView| (dv, pid));
                let ghost prev = builder.deps();
                builder.add_dependencies(v);
                proof {
                    assert(entry_deps(entry, all, st) == Some(nd));
                    assert forall|j: int| 0 <= j < ds.len() + nd.len() implies dep_matches(
                        #[trigger] builder.deps()[at + j],
                        (ds + nd)[j].0,
                        (ds + nd)[j].1,
                    ) by {
                        if j < ds.len() {
                            assert(builder.deps()[at + j] == prev[at + j]);
                        } else {
                            assert(builder.deps()[at + j] == v@[j - ds.len()]);
                        }
                    }
                    assert forall|j: int| 0 <= j < at implies #[trigger] builder.deps()[j] == b0.deps()[j] by {
                        assert(builder.deps()[j] == prev[j]);
                    }
                }
            },
        }
        i = i + 1;
    }
    assert(all.take(n as int) =~= all);
    Ok(())
}

/// Dependencies that fail on a prefix of the entries fail on all of them.
pub proof fn lemma_pkg_deps_prefix_none(
    entries: Seq<(String, Vec<LockPackageElement>)>,
    k: int,
    all: Seq<(String, Vec<LockPackageElement>)>,
    st: PkgState,
)
    requires
        0 <= k <= entries.len(),
        pkg_deps_run(entries.take(k), all, st) is None,
    ensures
        pkg_deps_run(entries, all, st) is None,
    decreases entries.len(),
{
    if k == entries.len() {
        assert(entries.take(k) =~= entries);
    } else {
        assert(entries.drop_last().take(k) =~= entries.take(k));
        lemma_pkg_deps_prefix_none(entries.drop_last(), k, all, st);
    }
}


/// Adds the dependencies of each workspace member (see [`ws_deps_run`]).
fn add_member_dependencies(
    lock: &BunLock,
    builder: &mut ChastefileBuilder<Meta>,
    ws_pid: &Vec<(String, PackageID)>,
    desc: &Vec<(String, PackageID)>,
    pre: &Vec<((String, String), PackageID)>,
    aliased: &Vec<PackageID>,
    Ghost(st): Ghost<PkgState>,
) -> (r: Result<(), Error>)
    requires
        st.desc == path_map_view(desc@),
        st.aliased == aliased@,
        path_map_view(ws_pid@) == ws_map(lock.workspaces@),
    ensures
        final(builder).spec_meta() == old(builder).spec_meta(),
        final(builder).spec_packages() == old(builder).spec_packages(),
        final(builder).spec_installations() == old(builder).spec_installations(),
        final(builder).spec_root() == old(builder).spec_root(),
        final(builder).spec_members() == old(builder).spec_members(),
        final(builder).deps().len() >= old(builder).deps().len(),
        forall|j: int|
            0 <= j < old(builder).deps().len() ==> #[trigger] final(builder).deps()[j] == old(
            builder).deps()[j],
        match r {
            Ok(()) => ws_deps_run(lock.workspaces@, ws_map(lock.workspaces@), lock.packages@, st) matches Some(
                ds,
            ) && deps_added_from(*final(builder), old(builder).deps().len() as int, ds),
            Err(e) => ws_deps_run(lock.workspaces@, ws_map(lock.workspaces@), lock.packages@, st) is None
                && ws_deps_error(lock.workspaces@, ws_map(lock.workspaces@), lock.packages@, st, e),
        },
{
    let ghost ws = lock.workspaces@;
    let ghost wsm = ws_map(ws);
    let ghost all = lock.packages@;
    let ghost b0 = *builder;
    let ghost at = b0.deps().len() as int;
    let n = lock.workspaces.len();
    let mut i: usize = 0;
    assert(ws.take(0) =~= Seq::<(String, WorkspaceMember)>::empty());
    while i < n
        invariant
            n == ws.len(),
            ws == lock.workspaces@,
            wsm == ws_map(ws),
            all == lock.packages@,
            i <= n,
            st.desc == path_map_view(desc@),
            st.aliased == aliased@,
            path_map_view(ws_pid@) == wsm,
            b0 == *old(builder),
            at == b0.deps().len(),
            builder.spec_meta() == b0.spec_meta(),
            builder.spec_packages() == b0.spec_packages(),
            builder.spec_installations() == b0.spec_installations(),
            builder.spec_root() == b0.spec_root(),
            builder.spec_members() == b0.spec_members(),
            builder.deps().len() >= at,
            forall|j: int| 0 <= j < at ==> #[trigger] builder.deps()[j] == b0.deps()[j],
            ws_deps_run(ws.take(i as int), wsm, all, st) matches Some(ds) && deps_added_from(
                *builder,
                at,
                ds,
            ),
        decreases n - i,
    {
        let ghost w = ws[i as int];
        proof {
            assert(ws.take(i + 1).drop_last() =~= ws.take(i as int));
            assert(ws.take(i + 1).last() == w);
        }
        let ghost ds = ws_deps_run(ws.take(i as int), wsm, all, st)->0;
        let (ws_location, ws_member) = &lock.workspaces[i];
        let pid = match lookup_path(ws_pid, ws_location.as_str()) {
            Some(p) => p,
            None => {
                proof {
                    lemma_ws_deps_prefix_none(ws, i + 1, wsm, all, st);
                    assert(ws_deps_run(ws.take(i as int), wsm, all, st) is Some);
                }
                return Err(Error::DependencyNotFound(ws_location.clone()));
            },
        };
        let reqs = relation_requests(&ws_member.relations);
        let v = match run_requests(&reqs, lock, desc, pre, None, Some(aliased), pid) {
            Ok(v) => v,
            Err(err) => {
                proof {
                    lemma_ws_deps_prefix_none(ws, i + 1, wsm, all, st);
                    assert(ws_deps_run(ws.take(i as int), wsm, all, st) is Some);
                }
                return Err(err);
            },
        };
        let ghost nd = reqs_run(
            rel_requests(w.1.relations),
            ws_target(all, st.desc),
            Some(st.aliased),
        )->0.map_values(|dv: DepView| (dv, pid));
        let ghost prev = builder.deps();
        builder.add_dependencies(v);
        proof {
            assert(ws_deps_run(ws.take(i + 1), wsm, all, st) == Some(ds + nd));
            assert forall|j: int| 0 <= j < ds.len() + nd.len() implies dep_matches(
                #[trigger] builder.deps()[at + j],
                (ds + nd)[j].0,
                (ds + nd)[j].1,
            ) by {
                if j < ds.len() {
                    assert(builder.deps()[at + j] == prev[at + j]);
                } else {
                    assert(builder.deps()[at + j] == v@[j - ds.len()]);
                }
            }
            assert forall|j: int| 0 <= j < at implies #[trigger] builder.deps()[j] == b0.deps()[j] by {
                assert(builder.deps()[j] == prev[j]);
            }
        }
        i = i + 1;
    }
    assert(ws.take(n as int) =~= ws);
    Ok(())
}

/// Member dependencies that fail on a prefix fail on all of them.
pub proof fn lemma_ws_deps_prefix_none(
    members: Seq<(String, WorkspaceMember)>,
    k: int,
    wsm: Seq<(Seq<char>, PackageID)>,
    all: Seq<(String, Vec<LockPackageElement>)>,
    st: PkgState,
)
    requires
        0 <= k <= members.len(),
        ws_deps_run(members.take(k), wsm, all, st) is None,
    ensures
        ws_deps_run(members, wsm, all, st) is None,
    decreases members.len(),
{
    if k == members.len() {
        assert(members.take(k) =~= members);
    } else {
        assert(members.drop_last().take(k) =~= members.take(k));
        lemma_ws_deps_prefix_none(members.drop_last(), k, wsm, all, st);
    }
}

/// Reads a lockfile of version 0 or 1 into a chastefile (see
/// [`bun_chastefile_matches`]).
pub fn parse_contents(bun_lock: BunLock) -> (r: Result<Chastefile<Meta>, Error>)
    ensures
        match r {
            Ok(c) => bun_ok(bun_lock) && bun_chastefile_matches(c, bun_lock),
            Err(e) => !bun_ok(bun_lock) && bun_error(bun_lock, e),
        },
{
    if bun_lock.lockfile_version > 1 {
        return Err(Error::UnknownLockfileVersion(bun_lock.lockfile_version));
    }
    let lock = &bun_lock;
    let mut chastefile = ChastefileBuilder::new(Meta { lockfile_version: lock.lockfile_version });
    let mut ws_pid: Vec<(String, PackageID)> = Vec::new();
    proof {
        assert(path_map_view(ws_pid@) =~= ws_map(Seq::empty()));
    }
    match add_workspaces(lock, &mut chastefile, &mut ws_pid) {
        Ok(()) => {},
        Err(e) => {
            proof {
                lemma_first_bad(lock.workspaces@, ws_pred());
            }
            return Err(e);
        },
    }
    proof {
        let ws = lock.workspaces@;
        lemma_first_bad(ws, ws_pred());
        assert forall|k: int| 0 <= k < ws.len() implies (ws_pred())(#[trigger] ws[k]) by {
            assert(ws_ok(ws[k]));
        }
    }
    let ghost b1 = chastefile;
    let mut desc: Vec<(String, PackageID)> = Vec::new();
    let mut pre: Vec<((String, String), PackageID)> = Vec::new();
    let mut aliased: Vec<PackageID> = Vec::new();
    match add_packages(lock, &mut chastefile, &ws_pid, &mut desc, &mut pre, &mut aliased) {
        Ok(()) => {},
        Err(e) => {
            return Err(e);
        },
    }
    let ghost st = pkg_run(
        lock.packages@,
        lock.workspaces@.len(),
        ws_map(lock.workspaces@),
        lock.patched_dependencies@,
    )->0;
    let ghost b2 = chastefile;
    match add_package_dependencies(lock, &mut chastefile, &desc, &pre, Ghost(st)) {
        Ok(()) => {},
        Err(e) => {
            return Err(e);
        },
    }
    let ghost b3 = chastefile;
    match add_member_dependencies(lock, &mut chastefile, &ws_pid, &desc, &pre, &aliased, Ghost(st)) {
        Ok(()) => {},
        Err(e) => {
            return Err(e);
        },
    }
    proof {
        let ws = lock.workspaces@;
        let d1 = pkg_deps_run(lock.packages@, lock.packages@, st)->0;
        let d2 = ws_deps_run(ws, ws_map(ws), lock.packages@, st)->0;
        assert forall|k: int| 0 <= k < ws.len() implies package_is(
            #[trigger] chastefile.spec_packages()[k],
            ws_package(ws[k]),
        ) by {
            assert(chastefile.spec_packages()[k] == b2.spec_packages()[k]);
            assert(b2.spec_packages()[k] == b1.spec_packages()[k]);
        }
        assert forall|k: int| 0 <= k < ws.len() implies (
        #[trigger] chastefile.spec_installations()[k]).spec_package_id() == pid_at(k as nat)
            && chastefile.spec_installations()[k].spec_path()@ == ws[k].0@ by {
            assert(chastefile.spec_installations()[k] == b2.spec_installations()[k]);
            assert(b2.spec_installations()[k] == b1.spec_installations()[k]);
        }
        assert forall|j: int| 0 <= j < d1.len() + d2.len() implies dep_matches(
            #[trigger] chastefile.deps()[j],
            (d1 + d2)[j].0,
            (d1 + d2)[j].1,
        ) by {
            if j < d1.len() {
                assert(chastefile.deps()[j] == b3.deps()[j]);
                assert(b3.deps()[0 + j] == b3.deps()[j]);
            } else {
                assert(chastefile.deps()[d1.len() + (j - d1.len())] == chastefile.deps()[j]);
            }
        }
    }
    match chastefile.build() {
        Ok(c) => Ok(c),
        Err(e) => Err(Error::ChasteError(e)),
    }
}

} // verus!
