//! The unified lockfile: packages, where they are installed, and the dependency
//! graph between them.

use vstd::prelude::*;

use crate::dependency::{Dependency, DependencyKind};
use crate::error::Error;
use crate::installation::Installation;
use crate::package::{pid_at, Package, PackageID};

verus! {

/// The chastefile records a dependency of `from` on `on` of this kind.
pub open spec fn records_kind<M>(c: Chastefile<M>, from: PackageID, on: PackageID, kind: DependencyKind) -> bool {
    exists|j: int|
        0 <= j < c.deps().len() && #[trigger] c.deps()[j].spec_kind() == kind && c.deps()[j].spec_from()
            == from && c.deps()[j].spec_on() == on
}

/// The chastefile records a dependency of `from` on `on`, of this kind, with this
/// specifier.
pub open spec fn records_dependency<M>(
    c: Chastefile<M>,
    from: PackageID,
    on: PackageID,
    kind: DependencyKind,
    svs: Seq<char>,
) -> bool {
    exists|j: int|
        0 <= j < c.deps().len() && #[trigger] c.deps()[j].spec_kind() == kind && c.deps()[j].spec_from()
            == from && c.deps()[j].spec_on() == on && (c.deps()[j].spec_svs() matches Some(s) && s@ == svs)
}

/// The dependency counts toward the graph being walked: any dependency, or only
/// those that are not dev dependencies.
pub open spec fn dep_ok(d: Dependency, prod_only: bool) -> bool {
    !prod_only || d.spec_kind().spec_is_prod()
}

pub open spec fn from_pred(pid: PackageID, prod_only: bool) -> spec_fn(Dependency) -> bool {
    |d: Dependency| d.spec_from() == pid && dep_ok(d, prod_only)
}

pub open spec fn on_pred(pid: PackageID) -> spec_fn(Dependency) -> bool {
    |d: Dependency| d.spec_on() == pid
}

pub open spec fn installed_pred(pid: PackageID) -> spec_fn(Installation) -> bool {
    |i: Installation| i.spec_package_id() == pid
}

/// The dependencies that `pid` defines, in order.
pub open spec fn deps_from(deps: Seq<Dependency>, pid: PackageID, prod_only: bool) -> Seq<
    Dependency,
> {
    deps.filter(from_pred(pid, prod_only))
}

/// `x` depends on `y` through a dependency that counts.
pub open spec fn dep_edge(deps: Seq<Dependency>, prod_only: bool, x: PackageID, y: PackageID) -> bool {
    exists|j: int|
        0 <= j < deps.len() && dep_ok(#[trigger] deps[j], prod_only) && deps[j].spec_from() == x
            && deps[j].spec_on() == y
}

/// A chain of at least one dependency.
pub open spec fn dep_path(deps: Seq<Dependency>, prod_only: bool, p: Seq<PackageID>) -> bool {
    p.len() >= 2 && forall|i: int|
        #![trigger p[i]]
        0 <= i < p.len() - 1 ==> dep_edge(deps, prod_only, p[i], p[i + 1])
}

/// `y` is reached from `x` by following one or more dependencies.
pub open spec fn reaches(deps: Seq<Dependency>, prod_only: bool, x: PackageID, y: PackageID) -> bool {
    exists|p: Seq<PackageID>| #[trigger] dep_path(deps, prod_only, p) && p[0] == x && p.last() == y
}

pub open spec fn refs_view_pkg(s: Seq<&Package>) -> Seq<Package> {
    s.map_values(|p: &Package| *p)
}

pub open spec fn refs_view(s: Seq<&Dependency>) -> Seq<Dependency> {
    s.map_values(|d: &Dependency| *d)
}

/// What a transitive walk from `root` returns: the direct dependencies of `root`
/// first, then one dependency for each further package reached; every dependency
/// leaves a package that is `root` or reached from it, and every reached package
/// is the target of one of them.
pub open spec fn is_recursive_deps(
    deps: Seq<Dependency>,
    prod_only: bool,
    root: PackageID,
    r: Seq<Dependency>,
) -> bool {
    let direct = deps_from(deps, root, prod_only);
    &&& direct.len() <= r.len()
    &&& r.take(direct.len() as int) == direct
    &&& forall|m: int|
        0 <= m < r.len() ==> {
            &&& deps.contains(#[trigger] r[m])
            &&& dep_ok(r[m], prod_only)
            &&& (r[m].spec_from() == root || reaches(deps, prod_only, root, r[m].spec_from()))
        }
    &&& forall|x: PackageID|
        reaches(deps, prod_only, root, x) ==> exists|m: int|
            0 <= m < r.len() && (#[trigger] r[m]).spec_on() == x
    &&& forall|m1: int, m2: int|
        0 <= m1 < m2 < r.len() && direct.len() <= m2 ==> (#[trigger] r[m1]).spec_on() != (
        #[trigger] r[m2]).spec_on()
}

/// Every dependency from `from` whose target `dep_ok` admits is in `order`.
pub open spec fn closed_at(
    deps: Seq<Dependency>,
    prod_only: bool,
    order: Seq<PackageID>,
    from: PackageID,
    upto: int,
) -> bool {
    forall|j: int|
        0 <= j < upto && dep_ok(#[trigger] deps[j], prod_only) && deps[j].spec_from() == from
            ==> order.contains(deps[j].spec_on())
}

proof fn lemma_path_in_order(
    deps: Seq<Dependency>,
    prod_only: bool,
    root: PackageID,
    order: Seq<PackageID>,
    p: Seq<PackageID>,
    i: int,
)
    requires
        dep_path(deps, prod_only, p),
        p[0] == root,
        1 <= i < p.len(),
        closed_at(deps, prod_only, order, root, deps.len() as int),
        forall|k: int|
            0 <= k < order.len() ==> closed_at(
                deps,
                prod_only,
                order,
                #[trigger] order[k],
                deps.len() as int,
            ),
    ensures
        order.contains(p[i]),
    decreases i,
{
    assert(dep_edge(deps, prod_only, p[i - 1], p[i]));
    let j = choose|j: int|
        0 <= j < deps.len() && dep_ok(#[trigger] deps[j], prod_only) && deps[j].spec_from() == p[i
            - 1] && deps[j].spec_on() == p[i];
    if i == 1 {
    } else {
        lemma_path_in_order(deps, prod_only, root, order, p, i - 1);
        let k = choose|k: int| 0 <= k < order.len() && order[k] == p[i - 1];
        assert(closed_at(deps, prod_only, order, order[k], deps.len() as int));
    }
}

/// Some dependency in `r` targets `x`.
pub open spec fn covers(r: Seq<Dependency>, x: PackageID) -> bool {
    exists|m: int| 0 <= m < r.len() && (#[trigger] r[m]).spec_on() == x
}

/// `x` is the target of some dependency.
pub open spec fn is_target(deps: Seq<Dependency>, x: PackageID) -> bool {
    exists|j: int| 0 <= j < deps.len() && (#[trigger] deps[j]).spec_on() == x
}

proof fn lemma_order_bound(deps: Seq<Dependency>, order: Seq<PackageID>)
    requires
        order.no_duplicates(),
        forall|k: int| 0 <= k < order.len() ==> is_target(deps, #[trigger] order[k]),
    ensures
        order.len() <= deps.len(),
{
    let targets = deps.map_values(|d: Dependency| d.spec_on());
    order.unique_seq_to_set();
    targets.lemma_cardinality_of_set();
    assert forall|x: PackageID| order.to_set().contains(x) implies targets.to_set().contains(x) by {
        let k = choose|k: int| 0 <= k < order.len() && order[k] == x;
        assert(is_target(deps, order[k]));
        let j = choose|j: int| 0 <= j < deps.len() && (#[trigger] deps[j]).spec_on() == order[k];
        assert(targets[j] == x);
    }
    vstd::set_lib::lemma_len_subset(order.to_set(), targets.to_set());
}

fn contains_pid(v: &Vec<PackageID>, x: PackageID) -> (b: bool)
    ensures
        b == v@.contains(x),
{
    let mut i: usize = 0;
    while i < v.len()
        invariant
            i <= v.len(),
            forall|k: int| 0 <= k < i ==> v@[k] != x,
        decreases v.len() - i,
    {
        if v[i] == x {
            return true;
        }
        i = i + 1;
    }
    false
}

/// The dependencies in `deps` that `pid` defines.
fn collect_from<'a>(deps: &'a Vec<Dependency>, pid: PackageID, prod_only: bool) -> (r: Vec<
    &'a Dependency,
>)
    ensures
        refs_view(r@) == deps_from(deps@, pid, prod_only),
{
    let mut r: Vec<&Dependency> = Vec::new();
    let mut i: usize = 0;
    while i < deps.len()
        invariant
            i <= deps.len(),
            refs_view(r@) == deps@.take(i as int).filter(from_pred(pid, prod_only)),
        decreases deps.len() - i,
    {
        let d = &deps[i];
        proof {
            assert(deps@.take(i + 1) =~= deps@.take(i as int).push(deps@[i as int]));
            deps@.take(i as int).lemma_filter_push(deps@[i as int], from_pred(pid, prod_only));
        }
        if d.from() == pid && (!prod_only || d.kind().is_prod()) {
            r.push(d);
            assert(refs_view(r@) =~= refs_view(r@.drop_last()).push(*d));
        }
        i = i + 1;
    }
    assert(deps@.take(deps.len() as int) =~= deps@);
    r
}

/// The unified lockfile, with metadata of the package manager that wrote it.
#[derive(Debug)]
pub struct Chastefile<M> {
    packages: Vec<Package>,
    installations: Vec<Installation>,
    dependencies: Vec<Dependency>,
    root_package_id: PackageID,
    workspace_members: Vec<PackageID>,
    meta: M,
}

impl<M> Chastefile<M> {
    pub closed spec fn spec_meta(self) -> M {
        self.meta
    }

    /// Metadata of the package manager that wrote the lockfile.
    pub fn meta(&self) -> (r: &M)
        ensures
            *r == self.spec_meta(),
    {
        &self.meta
    }

    /// The same chastefile, with its metadata mapped.
    pub fn map_meta<N, F: Fn(M) -> N>(self, f: F) -> (r: Chastefile<N>)
        requires
            f.requires((self.spec_meta(),)),
        ensures
            f.ensures((self.spec_meta(),), r.spec_meta()),
            r.spec_packages() == self.spec_packages(),
            r.spec_installations() == self.spec_installations(),
            r.deps() == self.deps(),
            r.spec_root() == self.spec_root(),
            r.spec_members() == self.spec_members(),
    {
        Chastefile {
            packages: self.packages,
            installations: self.installations,
            dependencies: self.dependencies,
            root_package_id: self.root_package_id,
            workspace_members: self.workspace_members,
            meta: f(self.meta),
        }
    }

    pub closed spec fn spec_packages(self) -> Seq<Package> {
        self.packages@
    }

    pub closed spec fn spec_installations(self) -> Seq<Installation> {
        self.installations@
    }

    pub closed spec fn deps(self) -> Seq<Dependency> {
        self.dependencies@
    }

    pub closed spec fn spec_root(self) -> PackageID {
        self.root_package_id
    }

    pub closed spec fn spec_members(self) -> Seq<PackageID> {
        self.workspace_members@
    }

    /// The chastefile has a package with this id.
    pub open spec fn has_package(self, pid: PackageID) -> bool {
        pid.id() < self.spec_packages().len()
    }

    pub fn package(&self, package_id: PackageID) -> (r: &Package)
        requires
            self.has_package(package_id),
        ensures
            *r == self.spec_packages()[package_id.id() as int],
    {
        &self.packages[package_id.index()]
    }

    /// All packages, by id.
    pub fn packages(&self) -> (r: Vec<&Package>)
        ensures
            r@.len() == self.spec_packages().len(),
            forall|i: int| 0 <= i < r@.len() ==> *r@[i] == self.spec_packages()[i],
    {
        let mut r: Vec<&Package> = Vec::new();
        let mut i: usize = 0;
        while i < self.packages.len()
            invariant
                i <= self.packages.len(),
                r@.len() == i,
                forall|k: int| 0 <= k < i ==> *r@[k] == self.packages@[k],
            decreases self.packages.len() - i,
        {
            r.push(&self.packages[i]);
            i = i + 1;
        }
        r
    }

    /// All packages with their ids.
    pub fn packages_with_ids(&self) -> (r: Vec<(PackageID, &Package)>)
        ensures
            r@.len() == self.spec_packages().len(),
            forall|i: int|
                #![trigger r@[i]]
                0 <= i < r@.len() ==> r@[i].0.id() == i && *r@[i].1 == self.spec_packages()[i],
    {
        let mut r: Vec<(PackageID, &Package)> = Vec::new();
        let mut i: usize = 0;
        while i < self.packages.len()
            invariant
                i <= self.packages.len(),
                r@.len() == i,
                forall|k: int|
                    #![trigger r@[k]]
                    0 <= k < i ==> r@[k].0.id() == k && *r@[k].1 == self.packages@[k],
            decreases self.packages.len() - i,
        {
            let pid = PackageID::from_index(i);
            let pkg = &self.packages[i];
            let ghost old_r = r@;
            r.push((pid, pkg));
            assert(r@ == old_r.push((pid, pkg)));
            assert(r@[i as int].0.id() == i);
            assert(*r@[i as int].1 == self.packages@[i as int]);
            assert forall|k: int| 0 <= k < i + 1 implies #[trigger] r@[k].0.id() == k && *r@[k].1
                == self.packages@[k] by {
                if k < i {
                    assert(r@[k] == old_r[k]);
                }
            }
            i = i + 1;
        }
        r
    }

    /// The dependencies that a package defines.
    pub fn package_dependencies(&self, package_id: PackageID) -> (r: Vec<&Dependency>)
        ensures
            refs_view(r@) == deps_from(self.deps(), package_id, false),
    {
        collect_from(&self.dependencies, package_id, false)
    }

    /// The dependencies that a package defines, without dev dependencies.
    pub fn package_prod_dependencies(&self, package_id: PackageID) -> (r: Vec<&Dependency>)
        ensures
            refs_view(r@) == deps_from(self.deps(), package_id, true),
    {
        collect_from(&self.dependencies, package_id, true)
    }

    /// The dependencies on a package.
    pub fn package_dependents(&self, package_id: PackageID) -> (r: Vec<&Dependency>)
        ensures
            refs_view(r@) == self.deps().filter(on_pred(package_id)),
    {
        let mut r: Vec<&Dependency> = Vec::new();
        let mut i: usize = 0;
        while i < self.dependencies.len()
            invariant
                i <= self.dependencies.len(),
                refs_view(r@) == self.dependencies@.take(i as int).filter(on_pred(package_id)),
            decreases self.dependencies.len() - i,
        {
            let d = &self.dependencies[i];
            proof {
                assert(self.dependencies@.take(i + 1) =~= self.dependencies@.take(i as int).push(
                    self.dependencies@[i as int],
                ));
                self.dependencies@.take(i as int).lemma_filter_push(
                    self.dependencies@[i as int],
                    on_pred(package_id),
                );
            }
            if d.on() == package_id {
                r.push(d);
                assert(refs_view(r@) =~= refs_view(r@.drop_last()).push(*d));
            }
            i = i + 1;
        }
        assert(self.dependencies@.take(self.dependencies.len() as int) =~= self.dependencies@);
        r
    }

    fn recursive_deps(&self, root: PackageID, prod_only: bool) -> (r: Vec<&Dependency>)
        ensures
            is_recursive_deps(self.deps(), prod_only, root, refs_view(r@)),
    {
        let ghost d = self.dependencies@;
        let mut result = collect_from(&self.dependencies, root, prod_only);
        let ghost direct = deps_from(d, root, prod_only);
        let ghost n0 = direct.len();
        proof {
            broadcast use vstd::seq_lib::group_filter_ensures;
        }
        // Every package reached so far, in the order it was reached.
        let mut order: Vec<PackageID> = Vec::new();
        let mut i: usize = 0;
        while i < result.len()
            invariant
                d == self.dependencies@,
                refs_view(result@) == direct,
                direct == deps_from(d, root, prod_only),
                forall|m: int|
                    0 <= m < direct.len() ==> from_pred(root, prod_only)(#[trigger] direct[m]),
                i <= result.len(),
                order@.no_duplicates(),
                forall|k: int|
                    #![trigger order@[k]]
                    0 <= k < order@.len() ==> exists|m: int|
                        0 <= m < i && (#[trigger] direct[m]).spec_on() == order@[k],
                forall|m: int| 0 <= m < i ==> order@.contains((#[trigger] direct[m]).spec_on()),
            decreases result.len() - i,
        {
            let on = result[i].on();
            proof {
                assert(direct[i as int] == *result@[i as int]);
            }
            let ghost old_order = order@;
            if !contains_pid(&order, on) {
                order.push(on);
                proof {
                    assert(order@[order@.len() - 1] == on);
                    assert forall|x: PackageID| old_order.contains(x) implies order@.contains(x) by {
                        let k = choose|k: int| 0 <= k < old_order.len() && old_order[k] == x;
                        assert(order@[k] == x);
                    }
                    assert forall|k: int| #![trigger order@[k]]
                    0 <= k < order@.len() implies exists|m: int|
                        0 <= m < i + 1 && (#[trigger] direct[m]).spec_on() == order@[k] by {
                        if k < old_order.len() {
                            assert(order@[k] == old_order[k]);
                        } else {
                            assert(direct[i as int].spec_on() == order@[k]);
                        }
                    }
                }
            }
            i = i + 1;
        }
        proof {
            // Direct dependencies are reached through a single edge.
            assert forall|k: int| 0 <= k < order@.len() implies reaches(
                d,
                prod_only,
                root,
                #[trigger] order@[k],
            ) && is_target(d, order@[k]) by {
                let m = choose|m: int|
                    0 <= m < i && (#[trigger] direct[m]).spec_on() == order@[k];
                assert(from_pred(root, prod_only)(direct[m]));
                assert(direct.contains(direct[m]));
                d.lemma_filter_contains_rev(from_pred(root, prod_only), direct[m]);
                let j = choose|j: int| 0 <= j < d.len() && d[j] == direct[m];
                assert(dep_ok(d[j], prod_only));
                let p = seq![root, order@[k]];
                assert(dep_edge(d, prod_only, p[0], p[1]));
                assert(dep_path(d, prod_only, p));
            }
            assert forall|j: int|
                0 <= j < d.len() && dep_ok(#[trigger] d[j], prod_only) && d[j].spec_from()
                    == root implies order@.contains(d[j].spec_on()) by {
                d.lemma_filter_contains(from_pred(root, prod_only), j);
                let m = choose|m: int| 0 <= m < direct.len() && direct[m] == d[j];
                assert(direct[m].spec_on() == d[j].spec_on());
            }
            assert forall|k: int| 0 <= k < order@.len() implies covers(
                refs_view(result@),
                #[trigger] order@[k],
            ) by {
                let m = choose|m: int| 0 <= m < i && (#[trigger] direct[m]).spec_on() == order@[k];
                assert(refs_view(result@)[m] == direct[m]);
            }
            assert forall|m: int| 0 <= m < result@.len() implies {
                &&& d.contains(#[trigger] refs_view(result@)[m])
                &&& dep_ok(refs_view(result@)[m], prod_only)
                &&& (refs_view(result@)[m].spec_from() == root || reaches(
                    d,
                    prod_only,
                    root,
                    refs_view(result@)[m].spec_from(),
                ))
                &&& order@.contains(refs_view(result@)[m].spec_on())
            } by {
                assert(refs_view(result@)[m] == direct[m]);
                assert(direct.contains(direct[m]));
                d.lemma_filter_contains_rev(from_pred(root, prod_only), direct[m]);
                assert(from_pred(root, prod_only)(direct[m]));
            }
            assert(refs_view(result@).take(n0 as int) =~= direct);
        }
        let mut head: usize = 0;
        while head < order.len()
            invariant
                d == self.dependencies@,
                direct == deps_from(d, root, prod_only),
                n0 == direct.len(),
                n0 <= result@.len(),
                refs_view(result@).take(n0 as int) == direct,
                head <= order@.len(),
                order@.no_duplicates(),
                forall|k: int|
                    0 <= k < order@.len() ==> reaches(d, prod_only, root, #[trigger] order@[k])
                        && is_target(d, order@[k]),
                closed_at(d, prod_only, order@, root, d.len() as int),
                forall|k: int|
                    0 <= k < head ==> closed_at(
                        d,
                        prod_only,
                        order@,
                        #[trigger] order@[k],
                        d.len() as int,
                    ),
                forall|m: int|
                    0 <= m < result@.len() ==> {
                        &&& d.contains(#[trigger] refs_view(result@)[m])
                        &&& dep_ok(refs_view(result@)[m], prod_only)
                        &&& (refs_view(result@)[m].spec_from() == root || reaches(
                            d,
                            prod_only,
                            root,
                            refs_view(result@)[m].spec_from(),
                        ))
                        &&& order@.contains(refs_view(result@)[m].spec_on())
                    },
                forall|k: int|
                    0 <= k < order@.len() ==> covers(refs_view(result@), #[trigger] order@[k]),
                forall|m1: int, m2: int|
                    0 <= m1 < m2 < result@.len() && n0 <= m2 ==> (#[trigger] refs_view(
                        result@,
                    )[m1]).spec_on() != (#[trigger] refs_view(result@)[m2]).spec_on(),
            decreases d.len() - head,
        {
            proof {
                lemma_order_bound(d, order@);
            }
            let pid = order[head];
            let ghost k_pid = head as int;
            head = head + 1;
            let mut j: usize = 0;
            while j < self.dependencies.len()
                invariant
                    d == self.dependencies@,
                    direct == deps_from(d, root, prod_only),
                    n0 == direct.len(),
                    n0 <= result@.len(),
                    refs_view(result@).take(n0 as int) == direct,
                    0 <= k_pid < head <= order@.len(),
                    order@[k_pid] == pid,
                    j <= d.len(),
                    order@.no_duplicates(),
                    forall|k: int|
                        0 <= k < order@.len() ==> reaches(d, prod_only, root, #[trigger] order@[k])
                            && is_target(d, order@[k]),
                    closed_at(d, prod_only, order@, root, d.len() as int),
                    forall|k: int|
                        0 <= k < k_pid ==> closed_at(
                            d,
                            prod_only,
                            order@,
                            #[trigger] order@[k],
                            d.len() as int,
                        ),
                    closed_at(d, prod_only, order@, pid, j as int),
                    forall|m: int|
                        0 <= m < result@.len() ==> {
                            &&& d.contains(#[trigger] refs_view(result@)[m])
                            &&& dep_ok(refs_view(result@)[m], prod_only)
                            &&& (refs_view(result@)[m].spec_from() == root || reaches(
                                d,
                                prod_only,
                                root,
                                refs_view(result@)[m].spec_from(),
                            ))
                            &&& order@.contains(refs_view(result@)[m].spec_on())
                        },
                    forall|k: int|
                        0 <= k < order@.len() ==> covers(refs_view(result@), #[trigger] order@[k]),
                    forall|m1: int, m2: int|
                        0 <= m1 < m2 < result@.len() && n0 <= m2 ==> (#[trigger] refs_view(
                            result@,
                        )[m1]).spec_on() != (#[trigger] refs_view(result@)[m2]).spec_on(),
                decreases d.len() - j,
            {
                let dep = &self.dependencies[j];
                if dep.from() == pid && (!prod_only || dep.kind().is_prod()) && !contains_pid(
                    &order,
                    dep.on(),
                ) {
                    let ghost old_order = order@;
                    let ghost old_result = refs_view(result@);
                    proof {
                        assert(k_pid < order@.len());
                        assert(order@[k_pid] == pid);
                        assert(reaches(d, prod_only, root, order@[k_pid]));
                        let p0 = choose|p: Seq<PackageID>|
                            #[trigger] dep_path(d, prod_only, p) && p[0] == root && p.last()
                                == pid;
                        let p1 = p0.push(dep.spec_on());
                        assert(dep_edge(d, prod_only, pid, dep.spec_on()));
                        assert forall|i: int| 0 <= i < p1.len() - 1 implies dep_edge(
                            d,
                            prod_only,
                            #[trigger] p1[i],
                            p1[i + 1],
                        ) by {
                            if i < p0.len() - 1 {
                                assert(p1[i] == p0[i] && p1[i + 1] == p0[i + 1]);
                            } else {
                                assert(p1[i] == pid);
                                assert(p1[i + 1] == dep.spec_on());
                            }
                        }
                        assert(dep_path(d, prod_only, p1));
                    }
                    order.push(dep.on());
                    result.push(dep);
                    proof {
                        assert(order@ == old_order.push(dep.spec_on()));
                        assert(order@[k_pid] == old_order[k_pid]);
                        assert(refs_view(result@) =~= old_result.push(*dep));
                        assert(refs_view(result@).take(n0 as int) =~= old_result.take(n0 as int));
                        assert forall|x: PackageID| old_order.contains(x) implies order@.contains(
                            x,
                        ) by {
                            let k = choose|k: int| 0 <= k < old_order.len() && old_order[k] == x;
                            assert(order@[k] == x);
                        }
                        assert(d[j as int] == *dep);
                        assert(order@[order@.len() - 1] == dep.spec_on());
                        assert(refs_view(result@)[refs_view(result@).len() - 1] == *dep);
                        assert forall|k: int| 0 <= k < order@.len() implies covers(
                            refs_view(result@),
                            #[trigger] order@[k],
                        ) by {
                            if k < old_order.len() {
                                assert(order@[k] == old_order[k]);
                                assert(covers(old_result, old_order[k]));
                                let m = choose|m: int|
                                    0 <= m < old_result.len() && (#[trigger] old_result[m]).spec_on()
                                        == old_order[k];
                                assert(refs_view(result@)[m] == old_result[m]);
                            } else {
                                assert(refs_view(result@)[refs_view(result@).len() - 1].spec_on()
                                    == order@[k]);
                            }
                        }
                    }
                }
                j = j + 1;
            }
        }
        proof {
            let r = refs_view(result@);
            assert forall|x: PackageID| reaches(d, prod_only, root, x) implies exists|m: int|
                0 <= m < r.len() && (#[trigger] r[m]).spec_on() == x by {
                let p = choose|p: Seq<PackageID>|
                    #[trigger] dep_path(d, prod_only, p) && p[0] == root && p.last() == x;
                lemma_path_in_order(d, prod_only, root, order@, p, p.len() - 1);
                let k = choose|k: int| 0 <= k < order@.len() && order@[k] == x;
                assert(order@[k] == x);
            }
        }
        result
    }

    pub fn root_package_id(&self) -> (r: PackageID)
        ensures
            r == self.spec_root(),
    {
        self.root_package_id
    }

    pub fn root_package(&self) -> (r: &Package)
        requires
            self.has_package(self.spec_root()),
        ensures
            *r == self.spec_packages()[self.spec_root().id() as int],
    {
        self.package(self.root_package_id)
    }

    pub fn root_package_dependencies(&self) -> (r: Vec<&Dependency>)
        ensures
            refs_view(r@) == deps_from(self.deps(), self.spec_root(), false),
    {
        self.package_dependencies(self.root_package_id)
    }

    pub fn root_package_prod_dependencies(&self) -> (r: Vec<&Dependency>)
        ensures
            refs_view(r@) == deps_from(self.deps(), self.spec_root(), true),
    {
        self.package_prod_dependencies(self.root_package_id)
    }

    /// Ids of the workspace members other than the root.
    pub fn workspace_member_ids(&self) -> (r: Vec<PackageID>)
        ensures
            r@ == self.spec_members(),
    {
        self.workspace_members.clone()
    }

    /// Where a package is installed.
    pub fn package_installations(&self, package_id: PackageID) -> (r: Vec<&Installation>)
        ensures
            r@.map_values(|i: &Installation| *i) == self.spec_installations().filter(
                installed_pred(package_id),
            ),
    {
        let mut r: Vec<&Installation> = Vec::new();
        let mut i: usize = 0;
        while i < self.installations.len()
            invariant
                i <= self.installations.len(),
                r@.map_values(|i: &Installation| *i) == self.installations@.take(i as int).filter(
                    installed_pred(package_id),
                ),
            decreases self.installations.len() - i,
        {
            let inst = &self.installations[i];
            proof {
                assert(self.installations@.take(i + 1) =~= self.installations@.take(i as int).push(
                    self.installations@[i as int],
                ));
                self.installations@.take(i as int).lemma_filter_push(
                    self.installations@[i as int],
                    installed_pred(package_id),
                );
            }
            if inst.package_id() == package_id {
                let ghost old_r = r@;
                r.push(inst);
                assert(r@.map_values(|i: &Installation| *i) =~= old_r.map_values(
                    |i: &Installation| *i,
                ).push(*inst));
            }
            i = i + 1;
        }
        assert(self.installations@.take(self.installations.len() as int) =~= self.installations@);
        r
    }

    /// Every dependency that the package needs, directly or through other packages:
    /// its own dependencies first, then one dependency for each further package.
    pub fn recursive_package_dependencies(&self, package_id: PackageID) -> (r: Vec<&Dependency>)
        ensures
            is_recursive_deps(self.deps(), false, package_id, refs_view(r@)),
    {
        self.recursive_deps(package_id, false)
    }

    /// As [`Chastefile::recursive_package_dependencies`], through non-dev dependencies only.
    pub fn recursive_prod_package_dependencies(&self, package_id: PackageID) -> (r: Vec<
        &Dependency,
    >)
        ensures
            is_recursive_deps(self.deps(), true, package_id, refs_view(r@)),
    {
        self.recursive_deps(package_id, true)
    }
}


/// Collects packages, installations and dependencies into a [`Chastefile`].
#[derive(Debug)]
pub struct ChastefileBuilder<M> {
    packages: Vec<Package>,
    dependencies: Vec<Dependency>,
    installations: Vec<Installation>,
    root_package_id: Option<PackageID>,
    workspace_members: Vec<PackageID>,
    meta: M,
}

impl<M> ChastefileBuilder<M> {
    pub closed spec fn spec_meta(self) -> M {
        self.meta
    }

    pub closed spec fn spec_packages(self) -> Seq<Package> {
        self.packages@
    }

    pub closed spec fn deps(self) -> Seq<Dependency> {
        self.dependencies@
    }

    pub closed spec fn spec_installations(self) -> Seq<Installation> {
        self.installations@
    }

    pub closed spec fn spec_root(self) -> Option<PackageID> {
        self.root_package_id
    }

    pub closed spec fn spec_members(self) -> Seq<PackageID> {
        self.workspace_members@
    }

    pub fn new(meta: M) -> (r: ChastefileBuilder<M>)
        ensures
            r.spec_meta() == meta,
            r.spec_packages() == Seq::<Package>::empty(),
            r.deps() == Seq::<Dependency>::empty(),
            r.spec_installations() == Seq::<Installation>::empty(),
            r.spec_root() is None,
            r.spec_members() == Seq::<PackageID>::empty(),
    {
        ChastefileBuilder {
            packages: Vec::new(),
            dependencies: Vec::new(),
            installations: Vec::new(),
            root_package_id: None,
            workspace_members: Vec::new(),
            meta,
        }
    }

    /// Adds a package under the next id: ids count up from 0.
    pub fn add_package(&mut self, package: Package) -> (pid: PackageID)
        ensures
            pid.id() == old(self).spec_packages().len(),
            pid == pid_at(old(self).spec_packages().len()),
            final(self).spec_packages() == old(self).spec_packages().push(package),
            final(self).deps() == old(self).deps(),
            final(self).spec_installations() == old(self).spec_installations(),
            final(self).spec_root() == old(self).spec_root(),
            final(self).spec_members() == old(self).spec_members(),
            final(self).spec_meta() == old(self).spec_meta(),
    {
        let pid = PackageID::from_index(self.packages.len());
        self.packages.push(package);
        pid
    }

    pub fn add_package_installation(&mut self, installation: Installation)
        ensures
            final(self).spec_packages() == old(self).spec_packages(),
            final(self).deps() == old(self).deps(),
            final(self).spec_installations() == old(self).spec_installations().push(installation),
            final(self).spec_root() == old(self).spec_root(),
            final(self).spec_members() == old(self).spec_members(),
            final(self).spec_meta() == old(self).spec_meta(),
    {
        self.installations.push(installation);
    }

    pub fn add_dependency(&mut self, dependency: Dependency)
        ensures
            final(self).spec_packages() == old(self).spec_packages(),
            final(self).deps() == old(self).deps().push(dependency),
            final(self).spec_installations() == old(self).spec_installations(),
            final(self).spec_root() == old(self).spec_root(),
            final(self).spec_members() == old(self).spec_members(),
            final(self).spec_meta() == old(self).spec_meta(),
    {
        self.dependencies.push(dependency);
    }

    pub fn add_dependencies(&mut self, dependencies: Vec<Dependency>)
        ensures
            final(self).spec_packages() == old(self).spec_packages(),
            final(self).deps() == old(self).deps() + dependencies@,
            final(self).spec_installations() == old(self).spec_installations(),
            final(self).spec_root() == old(self).spec_root(),
            final(self).spec_members() == old(self).spec_members(),
            final(self).spec_meta() == old(self).spec_meta(),
    {
        let mut dependencies = dependencies;
        self.dependencies.append(&mut dependencies);
    }

    pub fn set_root_package_id(&mut self, root_pid: PackageID) -> (r: Result<(), Error>)
        ensures
            r is Ok,
            final(self).spec_packages() == old(self).spec_packages(),
            final(self).deps() == old(self).deps(),
            final(self).spec_installations() == old(self).spec_installations(),
            final(self).spec_root() == Some(root_pid),
            final(self).spec_members() == old(self).spec_members(),
            final(self).spec_meta() == old(self).spec_meta(),
    {
        self.root_package_id = Some(root_pid);
        Ok(())
    }

    /// Records a workspace member other than the root.
    pub fn set_as_workspace_member(&mut self, member_pid: PackageID) -> (r: Result<(), Error>)
        ensures
            r is Ok,
            final(self).spec_packages() == old(self).spec_packages(),
            final(self).deps() == old(self).deps(),
            final(self).spec_installations() == old(self).spec_installations(),
            final(self).spec_root() == old(self).spec_root(),
            final(self).spec_members() == old(self).spec_members().push(member_pid),
            final(self).spec_meta() == old(self).spec_meta(),
    {
        self.workspace_members.push(member_pid);
        Ok(())
    }

    pub fn build(self) -> (r: Result<Chastefile<M>, Error>)
        ensures
            match r {
                Ok(c) => {
                    &&& self.spec_root() == Some(c.spec_root())
                    &&& c.spec_packages() == self.spec_packages()
                    &&& c.deps() == self.deps()
                    &&& c.spec_installations() == self.spec_installations()
                    &&& c.spec_members() == self.spec_members()
                    &&& c.spec_meta() == self.spec_meta()
                },
                Err(e) => e == Error::MissingRootPackageID && self.spec_root() is None,
            },
    {
        match self.root_package_id {
            Some(root_package_id) => Ok(
                Chastefile {
                    packages: self.packages,
                    installations: self.installations,
                    dependencies: self.dependencies,
                    root_package_id,
                    workspace_members: self.workspace_members,
                    meta: self.meta,
                },
            ),
            None => Err(Error::MissingRootPackageID),
        }
    }
}

/// A package reached through non-dev dependencies is reached through dependencies.
pub proof fn law_prod_reach_within_reach(deps: Seq<Dependency>, root: PackageID, x: PackageID)
    requires
        reaches(deps, true, root, x),
    ensures
        reaches(deps, false, root, x),
{
    let p = choose|p: Seq<PackageID>| #[trigger] dep_path(deps, true, p) && p[0] == root && p.last()
        == x;
    assert forall|i: int| 0 <= i < p.len() - 1 implies dep_edge(deps, false, #[trigger] p[i], p[i + 1])
        by {
        assert(dep_edge(deps, true, p[i], p[i + 1]));
        let j = choose|j: int|
            0 <= j < deps.len() && dep_ok(#[trigger] deps[j], true) && deps[j].spec_from() == p[i]
                && deps[j].spec_on() == p[i + 1];
        assert(dep_ok(deps[j], false));
    }
    assert(dep_path(deps, false, p));
}


/// Reaching is transitive: a package reached from one reached from `x` is reached
/// from `x`.
pub proof fn law_reach_transitive(deps: Seq<Dependency>, prod_only: bool, x: PackageID, y: PackageID, z: PackageID)
    requires
        reaches(deps, prod_only, x, y),
        reaches(deps, prod_only, y, z),
    ensures
        reaches(deps, prod_only, x, z),
{
    let p = choose|p: Seq<PackageID>| #[trigger] dep_path(deps, prod_only, p) && p[0] == x && p.last() == y;
    let q = choose|q: Seq<PackageID>| #[trigger] dep_path(deps, prod_only, q) && q[0] == y && q.last() == z;
    let pq = p + q.drop_first();
    assert forall|i: int| 0 <= i < pq.len() - 1 implies dep_edge(deps, prod_only, #[trigger] pq[i], pq[i + 1]) by {
        if i < p.len() - 1 {
            assert(pq[i] == p[i] && pq[i + 1] == p[i + 1]);
        } else {
            let k = i - (p.len() - 1);
            assert(pq[i] == q[k]);
            assert(pq[i + 1] == q[k + 1]);
        }
    }
    assert(dep_path(deps, prod_only, pq));
}

/// A dependency that counts, from `x` or from a package reached from `x`, reaches
/// its target from `x`.
proof fn lemma_edge_extends(deps: Seq<Dependency>, prod_only: bool, x: PackageID, d: Dependency)
    requires
        deps.contains(d),
        dep_ok(d, prod_only),
        d.spec_from() == x || reaches(deps, prod_only, x, d.spec_from()),
    ensures
        reaches(deps, prod_only, x, d.spec_on()),
{
    let j = choose|j: int| 0 <= j < deps.len() && deps[j] == d;
    let e = seq![d.spec_from(), d.spec_on()];
    assert(dep_edge(deps, prod_only, e[0], e[1]));
    assert forall|i: int| 0 <= i < e.len() - 1 implies dep_edge(deps, prod_only, #[trigger] e[i], e[i + 1]) by {}
    assert(dep_path(deps, prod_only, e));
    if d.spec_from() != x {
        law_reach_transitive(deps, prod_only, x, d.spec_from(), d.spec_on());
    }
}

/// Some dependency of `r` points to `x`.
pub open spec fn has_target(r: Seq<Dependency>, x: PackageID) -> bool {
    exists|k: int| 0 <= k < r.len() && (#[trigger] r[k]).spec_on() == x
}

/// The walk through non-dev dependencies reaches no package that the walk through
/// all dependencies misses.
pub proof fn law_prod_walk_within_walk(deps: Seq<Dependency>, root: PackageID, rp: Seq<Dependency>, ra: Seq<Dependency>)
    requires
        is_recursive_deps(deps, true, root, rp),
        is_recursive_deps(deps, false, root, ra),
    ensures
        forall|m: int| 0 <= m < rp.len() ==> has_target(ra, (#[trigger] rp[m]).spec_on()),
{
    assert forall|m: int| 0 <= m < rp.len() implies has_target(ra, (#[trigger] rp[m]).spec_on()) by {
        let d = rp[m];
        lemma_edge_extends(deps, true, root, d);
        law_prod_reach_within_reach(deps, root, d.spec_on());
    }
}


/// The targets of a walk from `root` are exactly the packages reached from `root`.
pub proof fn law_walk_targets_are_reached(deps: Seq<Dependency>, prod_only: bool, root: PackageID, r: Seq<Dependency>)
    requires
        is_recursive_deps(deps, prod_only, root, r),
    ensures
        forall|m: int| 0 <= m < r.len() ==> reaches(deps, prod_only, root, (#[trigger] r[m]).spec_on()),
        forall|x: PackageID| reaches(deps, prod_only, root, x) ==> has_target(r, x),
{
    assert forall|m: int| 0 <= m < r.len() implies reaches(deps, prod_only, root, (#[trigger] r[m]).spec_on()) by {
        lemma_edge_extends(deps, prod_only, root, r[m]);
    }
}


/// A call on a chastefile builder: adding a package, an installation or
/// dependencies (one or several), or setting the root or a workspace member.
pub enum BuildStep {
    Package(Package),
    Installation(Installation),
    Dependencies(Seq<Dependency>),
    Root(PackageID),
    Member(PackageID),
}

/// `b` is `a` after `step`, as the builder's methods state it.
pub open spec fn after_step<M>(a: ChastefileBuilder<M>, step: BuildStep, b: ChastefileBuilder<M>) -> bool {
    &&& b.spec_meta() == a.spec_meta()
    &&& b.spec_packages() == match step {
        BuildStep::Package(p) => a.spec_packages().push(p),
        _ => a.spec_packages(),
    }
    &&& b.spec_installations() == match step {
        BuildStep::Installation(i) => a.spec_installations().push(i),
        _ => a.spec_installations(),
    }
    &&& b.deps() == match step {
        BuildStep::Dependencies(ds) => a.deps() + ds,
        _ => a.deps(),
    }
    &&& b.spec_root() == match step {
        BuildStep::Root(r) => Some(r),
        _ => a.spec_root(),
    }
    &&& b.spec_members() == match step {
        BuildStep::Member(m) => a.spec_members().push(m),
        _ => a.spec_members(),
    }
}

/// The packages added by `steps`, in order.
pub open spec fn steps_packages(steps: Seq<BuildStep>) -> Seq<Package>
    decreases steps.len(),
{
    if steps.len() == 0 {
        Seq::empty()
    } else {
        match steps.last() {
            BuildStep::Package(p) => steps_packages(steps.drop_last()).push(p),
            _ => steps_packages(steps.drop_last()),
        }
    }
}

/// The installations added by `steps`, in order.
pub open spec fn steps_installations(steps: Seq<BuildStep>) -> Seq<Installation>
    decreases steps.len(),
{
    if steps.len() == 0 {
        Seq::empty()
    } else {
        match steps.last() {
            BuildStep::Installation(i) => steps_installations(steps.drop_last()).push(i),
            _ => steps_installations(steps.drop_last()),
        }
    }
}

/// The dependencies added by `steps`, in order.
pub open spec fn steps_deps(steps: Seq<BuildStep>) -> Seq<Dependency>
    decreases steps.len(),
{
    if steps.len() == 0 {
        Seq::empty()
    } else {
        match steps.last() {
            BuildStep::Dependencies(ds) => steps_deps(steps.drop_last()) + ds,
            _ => steps_deps(steps.drop_last()),
        }
    }
}

/// The root set last by `steps`, if any.
pub open spec fn steps_root(steps: Seq<BuildStep>) -> Option<PackageID>
    decreases steps.len(),
{
    if steps.len() == 0 {
        None
    } else {
        match steps.last() {
            BuildStep::Root(r) => Some(r),
            _ => steps_root(steps.drop_last()),
        }
    }
}

/// The workspace members set by `steps`, in order.
pub open spec fn steps_members(steps: Seq<BuildStep>) -> Seq<PackageID>
    decreases steps.len(),
{
    if steps.len() == 0 {
        Seq::empty()
    } else {
        match steps.last() {
            BuildStep::Member(m) => steps_members(steps.drop_last()).push(m),
            _ => steps_members(steps.drop_last()),
        }
    }
}

/// Whatever calls follow `new(meta)`, the builder holds the packages, installations
/// and dependencies added, in the order added, the members set, and the root set
/// last; the package added by the `k`-th `add_package` is at index `k`, which is
/// the id that call returned. `build` then gives exactly these, or
/// `MissingRootPackageID` when no root was set.
pub proof fn law_builder_replays_steps<M>(bs: Seq<ChastefileBuilder<M>>, steps: Seq<BuildStep>, meta: M)
    requires
        bs.len() == steps.len() + 1,
        bs[0].spec_meta() == meta,
        bs[0].spec_packages() == Seq::<Package>::empty(),
        bs[0].deps() == Seq::<Dependency>::empty(),
        bs[0].spec_installations() == Seq::<Installation>::empty(),
        bs[0].spec_root() is None,
        bs[0].spec_members() == Seq::<PackageID>::empty(),
        forall|i: int| 0 <= i < steps.len() ==> after_step(#[trigger] bs[i], steps[i], bs[i + 1]),
    ensures
        bs.last().spec_meta() == meta,
        bs.last().spec_packages() == steps_packages(steps),
        bs.last().spec_installations() == steps_installations(steps),
        bs.last().deps() == steps_deps(steps),
        bs.last().spec_root() == steps_root(steps),
        bs.last().spec_members() == steps_members(steps),
    decreases steps.len(),
{
    if steps.len() > 0 {
        let n = steps.len() - 1;
        assert forall|i: int| 0 <= i < steps.drop_last().len() implies after_step(
            #[trigger] bs.drop_last()[i],
            steps.drop_last()[i],
            bs.drop_last()[i + 1],
        ) by {
            assert(after_step(bs[i], steps[i], bs[i + 1]));
        }
        law_builder_replays_steps(bs.drop_last(), steps.drop_last(), meta);
        assert(after_step(bs[n], steps[n], bs[n + 1]));
        if steps[n] is Dependencies {
            assert(bs[n + 1].deps() =~= steps_deps(steps));
        }
    }
}

} // verus!
