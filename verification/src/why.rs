//! Why a package is installed: the chains of dependents that lead to it.

use vstd::prelude::*;

use crate::chastefile::{on_pred, refs_view, Chastefile};
use crate::dependency::{Dependency, DependencyKind};
use crate::package::{lemma_pid_at, lemma_pid_eq, pid_at, Package};
use crate::text::str_eq;

verus! {

/// `g` leaves a package that the chain already leaves, or reaches one that it
/// already reaches.
pub open spec fn conflicts(chain: Seq<Dependency>, g: Dependency) -> bool {
    exists|i: int|
        0 <= i < chain.len() && ((#[trigger] chain[i]).spec_from() == g.spec_from()
            || chain[i].spec_on() == g.spec_on())
}

/// A chain of dependencies of `deps`, no two leaving the same package.
pub open spec fn chain_ok(chain: Seq<Dependency>, deps: Seq<Dependency>) -> bool {
    &&& chain.len() > 0
    &&& forall|i: int| 0 <= i < chain.len() ==> deps.contains(#[trigger] chain[i])
    &&& forall|i: int, j: int|
        0 <= i < j < chain.len() ==> (#[trigger] chain[i]).spec_from() != (#[trigger] chain[j]).spec_from()
}

/// A chain is no longer than the dependencies it is made of.
pub proof fn lemma_chain_len(chain: Seq<Dependency>, deps: Seq<Dependency>)
    requires
        chain_ok(chain, deps),
    ensures
        chain.len() <= deps.len(),
{
    assert(chain.no_duplicates()) by {
        assert forall|i: int, j: int| 0 <= i < chain.len() && 0 <= j < chain.len() && i != j implies chain[i]
            != chain[j] by {
            if i < j {
                assert(chain[i].spec_from() != chain[j].spec_from());
            } else {
                assert(chain[j].spec_from() != chain[i].spec_from());
            }
        }
    }
    chain.unique_seq_to_set();
    deps.lemma_cardinality_of_set();
    assert(chain.to_set().subset_of(deps.to_set()));
    vstd::set_lib::lemma_len_subset(chain.to_set(), deps.to_set());
}

/// The dependencies on the package that the chain's last dependency leaves.
pub open spec fn dependents_of_last(chain: Seq<Dependency>, deps: Seq<Dependency>) -> Seq<Dependency> {
    deps.filter(on_pred(chain.last().spec_from()))
}

/// The chains that extend `chain` with `g`, when it does not conflict.
pub open spec fn extend_with(chain: Seq<Dependency>, g: Dependency, deps: Seq<Dependency>) -> Seq<
    Seq<Dependency>,
>
    decreases deps.len() - chain.len(), 0nat, 0nat,
{
    if conflicts(chain, g) || chain.len() >= deps.len() {
        Seq::empty()
    } else {
        spec_permute(chain.push(g), deps)
    }
}

/// The chains that extend `chain` with each of `gs` in turn.
pub open spec fn branches(chain: Seq<Dependency>, gs: Seq<Dependency>, deps: Seq<Dependency>) -> Seq<
    Seq<Dependency>,
>
    decreases deps.len() - chain.len(), 1nat, gs.len(),
{
    if gs.len() == 0 {
        Seq::empty()
    } else {
        branches(chain, gs.drop_last(), deps) + extend_with(chain, gs.last(), deps)
    }
}

/// The chains of dependents that end with `chain`, walking from the package that
/// its last dependency leaves to the packages that depend on it, as long as no
/// package is left twice and no package is reached twice. A chain stops where a
/// package has no dependents. Where there is exactly one dependent and it
/// conflicts, no chain is given.
pub open spec fn spec_permute(chain: Seq<Dependency>, deps: Seq<Dependency>) -> Seq<Seq<Dependency>>
    decreases deps.len() - chain.len(), 2nat, 0nat,
{
    let gen = dependents_of_last(chain, deps);
    if gen.len() == 0 {
        seq![chain]
    } else if gen.len() == 1 {
        extend_with(chain, gen[0], deps)
    } else {
        branches(chain, gen, deps)
    }
}

pub open spec fn chains_view(r: Seq<Vec<&Dependency>>) -> Seq<Seq<Dependency>> {
    r.map_values(|v: Vec<&Dependency>| refs_view(v@))
}

/// All chains of dependents that end with `preceding` (see [`spec_permute`]).
/// `preceding` is a chain as this module builds them ([`chain_ok`]): not empty, made
/// of dependencies of the chastefile, no two leaving the same package. Every chain
/// that the recursion builds keeps that shape, and it is what bounds the recursion.
pub fn permute<'a, M>(preceding: Vec<&'a Dependency>, chastefile: &'a Chastefile<M>) -> (r: Vec<
    Vec<&'a Dependency>,
>)
    requires
        chain_ok(refs_view(preceding@), chastefile.deps()),
    ensures
        chains_view(r@) == spec_permute(refs_view(preceding@), chastefile.deps()),
    decreases chastefile.deps().len() - preceding@.len(),
{
    let ghost deps = chastefile.deps();
    let ghost chain = refs_view(preceding@);
    proof {
        lemma_chain_len(chain, deps);
    }
    let last = preceding[preceding.len() - 1];
    let generated = chastefile.package_dependents(last.from());
    let ghost gen = refs_view(generated@);
    assert(gen == dependents_of_last(chain, deps));
    proof {
        deps.lemma_filter_len(on_pred(last.spec_from()));
        broadcast use vstd::seq_lib::group_filter_ensures;
        assert forall|k: int| 0 <= k < gen.len() implies deps.contains(#[trigger] gen[k]) by {
            deps.lemma_filter_contains_rev(on_pred(last.spec_from()), gen[k]);
        }
    }
    if generated.len() == 0 {
        let r = vec![preceding];
        assert(chains_view(r@) =~= seq![chain]);
        return r;
    }
    let mut res: Vec<Vec<&'a Dependency>> = Vec::new();
    assert(chains_view(res@) =~= branches(chain, gen.take(0), deps));
    let mut i: usize = 0;
    while i < generated.len()
        invariant
            i <= generated.len(),
            deps == chastefile.deps(),
            chain == refs_view(preceding@),
            chain_ok(chain, deps),
            chain.len() <= deps.len(),
            gen == refs_view(generated@),
            gen == dependents_of_last(chain, deps),
            forall|k: int| 0 <= k < gen.len() ==> deps.contains(#[trigger] gen[k]),
            chains_view(res@) == branches(chain, gen.take(i as int), deps),
        decreases generated.len() - i,
    {
        let g = generated[i];
        assert(gen[i as int] == *g);
        let mut conflict = false;
        let mut j: usize = 0;
        while j < preceding.len()
            invariant
                j <= preceding.len(),
                chain == refs_view(preceding@),
                conflict <==> exists|q: int|
                    0 <= q < j && ((#[trigger] chain[q]).spec_from() == g.spec_from()
                        || chain[q].spec_on() == g.spec_on()),
            decreases preceding.len() - j,
        {
            let d = preceding[j];
            assert(chain[j as int] == *d);
            if d.from() == g.from() || d.on() == g.on() {
                conflict = true;
            }
            j = j + 1;
        }
        assert(conflict == conflicts(chain, *g));
        assert(gen.take(i + 1).drop_last() =~= gen.take(i as int));
        assert(gen.take(i + 1).last() == *g);
        if !conflict {
            let mut branch = preceding.clone();
            assert(refs_view(branch@) == chain) by {
                assert(branch@ =~= preceding@);
            }
            branch.push(g);
            let ghost nc = refs_view(branch@);
            assert(nc =~= chain.push(*g));
            assert(chain_ok(nc, deps)) by {
                assert forall|a: int, b: int| 0 <= a < b < nc.len() implies (#[trigger] nc[a]).spec_from()
                    != (#[trigger] nc[b]).spec_from() by {
                    if b == chain.len() {
                        assert(nc[a] == chain[a]);
                    } else {
                        assert(nc[a] == chain[a]);
                        assert(nc[b] == chain[b]);
                    }
                }
                assert forall|a: int| 0 <= a < nc.len() implies deps.contains(#[trigger] nc[a]) by {
                    if a < chain.len() {
                        assert(nc[a] == chain[a]);
                    }
                }
            }
            proof {
                lemma_chain_len(nc, deps);
            }
            let mut sub = permute(branch, chastefile);
            let ghost before = chains_view(res@);
            let ghost subv = chains_view(sub@);
            res.append(&mut sub);
            assert(chains_view(res@) =~= before + subv);
            assert(extend_with(chain, *g, deps) == spec_permute(nc, deps));
            assert(branches(chain, gen.take(i + 1), deps) == branches(chain, gen.take(i as int), deps)
                + extend_with(chain, *g, deps));
        } else {
            assert(extend_with(chain, *g, deps) == Seq::<Seq<Dependency>>::empty());
            assert(branches(chain, gen.take(i + 1), deps) =~= branches(chain, gen.take(i as int), deps));
        }
        i = i + 1;
    }
    assert(gen.take(generated.len() as int) =~= gen);
    if generated.len() == 1 {
        assert(branches(chain, gen, deps) =~= extend_with(chain, gen[0], deps)) by {
            assert(gen.drop_last() =~= gen.take(0));
        }
    }
    res
}


/// The chains of [`spec_permute`] that start from each dependency of `ds` in turn,
/// each listed from the outermost dependent inwards.
pub open spec fn chains_from(ds: Seq<Dependency>, deps: Seq<Dependency>) -> Seq<Seq<Dependency>>
    decreases ds.len(),
{
    if ds.len() == 0 {
        Seq::empty()
    } else {
        chains_from(ds.drop_last(), deps) + spec_permute(seq![ds.last()], deps).map_values(
            |c: Seq<Dependency>| c.reverse(),
        )
    }
}

/// The chains that explain the packages named `name`, package by package in id order.
pub open spec fn why_chains(pkgs: Seq<Package>, deps: Seq<Dependency>, name: Seq<char>) -> Seq<
    Seq<Dependency>,
>
    decreases pkgs.len(),
{
    if pkgs.len() == 0 {
        Seq::empty()
    } else {
        let k = (pkgs.len() - 1) as nat;
        why_chains(pkgs.drop_last(), deps, name) + if pkgs.last().spec_name() == Some(name) {
            chains_from(deps.filter(on_pred(pid_at(k))), deps)
        } else {
            Seq::empty()
        }
    }
}

fn reversed<'a>(v: Vec<&'a Dependency>) -> (r: Vec<&'a Dependency>)
    ensures
        refs_view(r@) == refs_view(v@).reverse(),
{
    let mut r: Vec<&'a Dependency> = Vec::new();
    let mut i = v.len();
    while i > 0
        invariant
            i <= v.len(),
            refs_view(r@) == refs_view(v@).subrange(i as int, v@.len() as int).reverse(),
        decreases i,
    {
        let ghost old_r = refs_view(r@);
        r.push(v[i - 1]);
        i = i - 1;
        proof {
            let a = refs_view(v@).subrange(i as int, v@.len() as int);
            let b = refs_view(v@).subrange(i + 1, v@.len() as int);
            assert(refs_view(r@) =~= old_r.push(*v@[i as int]));
            assert(old_r == b.reverse());
            assert forall|j: int| 0 <= j < a.len() implies a.reverse()[j] == refs_view(r@)[j] by {
                if j < b.len() {
                    assert(a[a.len() - 1 - j] == b[b.len() - 1 - j]);
                }
            }
            assert(refs_view(r@) =~= a.reverse());
        }
    }
    assert(refs_view(v@).subrange(0, v@.len() as int) =~= refs_view(v@));
    r
}

/// Why packages named `name` are installed: the chains of dependencies that lead
/// to them (see [`why_chains`]).
pub fn chains_to<'a, M>(chastefile: &'a Chastefile<M>, name: &str) -> (r: Vec<Vec<&'a Dependency>>)
    ensures
        chains_view(r@) == why_chains(chastefile.spec_packages(), chastefile.deps(), name@),
{
    let ghost pkgs = chastefile.spec_packages();
    let ghost deps = chastefile.deps();
    let all = chastefile.packages_with_ids();
    let mut result: Vec<Vec<&'a Dependency>> = Vec::new();
    let mut i: usize = 0;
    assert(chains_view(result@) =~= why_chains(pkgs.take(0), deps, name@));
    while i < all.len()
        invariant
            i <= all.len(),
            pkgs == chastefile.spec_packages(),
            deps == chastefile.deps(),
            all@.len() == pkgs.len(),
            forall|k: int|
                #![trigger all@[k]]
                0 <= k < all@.len() ==> all@[k].0.id() == k && *all@[k].1 == pkgs[k],
            chains_view(result@) == why_chains(pkgs.take(i as int), deps, name@),
        decreases all.len() - i,
    {
        let (pid, package) = all[i];
        proof {
            assert(pkgs.take(i + 1).drop_last() =~= pkgs.take(i as int));
            assert(pkgs.take(i + 1).last() == *package);
            lemma_pid_at(i as nat);
            lemma_pid_eq(pid, pid_at(i as nat));
        }
        let named = match package.name() {
            Some(n) => str_eq(n.as_str(), name),
            None => false,
        };
        if named {
            let dependents = chastefile.package_dependents(pid);
            let ghost ds = refs_view(dependents@);
            let ghost start = chains_view(result@);
            proof {
                broadcast use vstd::seq_lib::group_filter_ensures;
            }
            let mut j: usize = 0;
            while j < dependents.len()
                invariant
                    j <= dependents.len(),
                    deps == chastefile.deps(),
                    ds == refs_view(dependents@),
                    ds == deps.filter(on_pred(pid)),
                    chains_view(result@) == start + chains_from(ds.take(j as int), deps),
                decreases dependents.len() - j,
            {
                let dep = dependents[j];
                assert(ds[j as int] == *dep);
                proof {
                    deps.lemma_filter_contains_rev(on_pred(pid), *dep);
                }
                let first = vec![dep];
                assert(refs_view(first@) =~= seq![*dep]);
                let perms = permute(first, chastefile);
                let mut k: usize = 0;
                let ghost mid = chains_view(result@);
                let ghost pv = chains_view(perms@);
                while k < perms.len()
                    invariant
                        k <= perms.len(),
                        pv == chains_view(perms@),
                        chains_view(result@) == mid + pv.take(k as int).map_values(
                            |c: Seq<Dependency>| c.reverse(),
                        ),
                    decreases perms.len() - k,
                {
                    let ghost before = chains_view(result@);
                    let c = perms[k].clone();
                    assert(refs_view(c@) =~= refs_view(perms@[k as int]@));
                    result.push(reversed(c));
                    proof {
                        assert(chains_view(result@) =~= before.push(pv[k as int].reverse()));
                        assert(pv.take(k + 1).map_values(|c: Seq<Dependency>| c.reverse()) =~= pv.take(
                            k as int,
                        ).map_values(|c: Seq<Dependency>| c.reverse()).push(pv[k as int].reverse()));
                    }
                    k = k + 1;
                }
                proof {
                    assert(pv.take(perms.len() as int) =~= pv);
                    assert(ds.take(j + 1).drop_last() =~= ds.take(j as int));
                    assert(ds.take(j + 1).last() == *dep);
                }
                j = j + 1;
            }
            assert(ds.take(dependents.len() as int) =~= ds);
        }
        i = i + 1;
    }
    assert(pkgs.take(all.len() as int) =~= pkgs);
    result
}


/// `r` extends `chain` into a chain of dependents: no package is left twice, and
/// each added dependency leads into the package that the one before it leaves.
pub open spec fn chain_extends(r: Seq<Dependency>, chain: Seq<Dependency>, deps: Seq<Dependency>) -> bool {
    &&& chain_ok(r, deps)
    &&& chain.len() <= r.len()
    &&& r.take(chain.len() as int) == chain
    &&& forall|k: int|
        chain.len() - 1 <= k < r.len() - 1 ==> (#[trigger] r[k + 1]).spec_on() == r[k].spec_from()
}

/// Each chain that [`spec_permute`] gives extends the chain it starts from (see
/// [`chain_extends`]): a walk from a package to its dependents never leaves a
/// package twice, and so ends, even where dependencies form a cycle.
pub proof fn law_permute_chains(chain: Seq<Dependency>, deps: Seq<Dependency>)
    requires
        chain_ok(chain, deps),
    ensures
        forall|q: int|
            0 <= q < spec_permute(chain, deps).len() ==> chain_extends(
                #[trigger] spec_permute(chain, deps)[q],
                chain,
                deps,
            ),
    decreases deps.len() - chain.len(), 2nat, 0nat,
{
    let gen = dependents_of_last(chain, deps);
    let pred = on_pred(chain.last().spec_from());
    broadcast use vstd::seq_lib::group_filter_ensures;
    assert forall|k: int| 0 <= k < gen.len() implies deps.contains(#[trigger] gen[k])
        && gen[k].spec_on() == chain.last().spec_from() by {
        deps.lemma_filter_contains_rev(pred, gen[k]);
    }
    if gen.len() == 0 {
        assert(chain.take(chain.len() as int) =~= chain);
        assert(spec_permute(chain, deps) == seq![chain]);
        assert(chain_extends(chain, chain, deps));
        assert(spec_permute(chain, deps)[0] == chain);
    } else if gen.len() == 1 {
        lemma_extend_chains(chain, gen[0], deps);
        assert(spec_permute(chain, deps) == extend_with(chain, gen[0], deps));
    } else {
        lemma_branches_chains(chain, gen, deps);
        assert(spec_permute(chain, deps) == branches(chain, gen, deps));
    }
}

proof fn lemma_branches_chains(chain: Seq<Dependency>, gs: Seq<Dependency>, deps: Seq<Dependency>)
    requires
        chain_ok(chain, deps),
        forall|k: int|
            0 <= k < gs.len() ==> deps.contains(#[trigger] gs[k]) && gs[k].spec_on()
                == chain.last().spec_from(),
    ensures
        forall|q: int|
            0 <= q < branches(chain, gs, deps).len() ==> chain_extends(
                #[trigger] branches(chain, gs, deps)[q],
                chain,
                deps,
            ),
    decreases deps.len() - chain.len(), 1nat, gs.len(),
{
    if gs.len() > 0 {
        lemma_branches_chains(chain, gs.drop_last(), deps);
        assert(gs.last() == gs[gs.len() - 1]);
        lemma_extend_chains(chain, gs.last(), deps);
        let a = branches(chain, gs.drop_last(), deps);
        let b = extend_with(chain, gs.last(), deps);
        assert forall|q: int| 0 <= q < (a + b).len() implies chain_extends(
            #[trigger] (a + b)[q],
            chain,
            deps,
        ) by {
            if q < a.len() {
                assert((a + b)[q] == a[q]);
            } else {
                assert((a + b)[q] == b[q - a.len()]);
            }
        }
    }
}

proof fn lemma_extend_chains(chain: Seq<Dependency>, g: Dependency, deps: Seq<Dependency>)
    requires
        chain_ok(chain, deps),
        deps.contains(g),
        g.spec_on() == chain.last().spec_from(),
    ensures
        forall|q: int|
            0 <= q < extend_with(chain, g, deps).len() ==> chain_extends(
                #[trigger] extend_with(chain, g, deps)[q],
                chain,
                deps,
            ),
    decreases deps.len() - chain.len(), 0nat, 0nat,
{
    if !(conflicts(chain, g) || chain.len() >= deps.len()) {
        let nc = chain.push(g);
        assert(chain_ok(nc, deps)) by {
            assert forall|a: int, b: int| 0 <= a < b < nc.len() implies (#[trigger] nc[a]).spec_from()
                != (#[trigger] nc[b]).spec_from() by {
                assert(nc[a] == chain[a]);
                if b < chain.len() {
                    assert(nc[b] == chain[b]);
                }
            }
            assert forall|a: int| 0 <= a < nc.len() implies deps.contains(#[trigger] nc[a]) by {
                if a < chain.len() {
                    assert(nc[a] == chain[a]);
                }
            }
        }
        law_permute_chains(nc, deps);
        let rs = spec_permute(nc, deps);
        assert forall|q: int| 0 <= q < rs.len() implies chain_extends(#[trigger] rs[q], chain, deps) by {
            let r = rs[q];
            assert(chain_extends(r, nc, deps));
            assert(r.take(chain.len() as int) =~= nc.take(chain.len() as int));
            assert(nc.take(chain.len() as int) =~= chain);
            assert(r[chain.len() as int] == nc[chain.len() as int]);
            assert(r[chain.len() - 1] == nc[chain.len() - 1]);
        }
    }
}


/// The name under which a chain shows a kind of dependency.
pub open spec fn kind_text(k: DependencyKind) -> Seq<char> {
    match k {
        DependencyKind::Dependency => "Dependency"@,
        DependencyKind::DevDependency => "DevDependency"@,
        DependencyKind::PeerDependency => "PeerDependency"@,
        DependencyKind::OptionalDependency => "OptionalDependency"@,
        DependencyKind::OptionalPeerDependency => "OptionalPeerDependency"@,
    }
}

/// The name under which a chain shows a package.
pub open spec fn shown_name(p: Package) -> Seq<char> {
    match p.spec_name() {
        Some(n) => n,
        None => "[unnamed]"@,
    }
}

/// One step of a chain: ` -Kind-> name` of the package depended on.
pub open spec fn step_text(pkgs: Seq<Package>, d: Dependency) -> Seq<char> {
    " -"@ + kind_text(d.spec_kind()) + "-> "@ + shown_name(pkgs[d.spec_on().id() as int])
}

/// The line that shows a chain: the name of the package it starts from, then each
/// step.
pub open spec fn chain_text(pkgs: Seq<Package>, chain: Seq<Dependency>) -> Seq<char>
    decreases chain.len(),
{
    if chain.len() == 0 {
        Seq::empty()
    } else if chain.len() == 1 {
        shown_name(pkgs[chain[0].spec_from().id() as int]) + step_text(pkgs, chain[0])
    } else {
        chain_text(pkgs, chain.drop_last()) + step_text(pkgs, chain.last())
    }
}

/// Every package that the chain names is one of the chastefile's.
pub open spec fn chain_in<M>(chastefile: Chastefile<M>, chain: Seq<Dependency>) -> bool {
    &&& chain.len() > 0
    &&& chastefile.has_package(chain[0].spec_from())
    &&& forall|k: int| 0 <= k < chain.len() ==> chastefile.has_package(#[trigger] chain[k].spec_on())
}

fn kind_str(k: DependencyKind) -> (r: &'static str)
    ensures
        r@ == kind_text(k),
{
    match k {
        DependencyKind::Dependency => "Dependency",
        DependencyKind::DevDependency => "DevDependency",
        DependencyKind::PeerDependency => "PeerDependency",
        DependencyKind::OptionalDependency => "OptionalDependency",
        DependencyKind::OptionalPeerDependency => "OptionalPeerDependency",
    }
}

fn shown_name_str(p: &Package) -> (r: &str)
    ensures
        r@ == shown_name(*p),
{
    match p.name() {
        Some(n) => n.as_str(),
        None => "[unnamed]",
    }
}

/// The line that shows `chain` (see [`chain_text`]).
pub fn chain_line<M>(chastefile: &Chastefile<M>, chain: &Vec<&Dependency>) -> (r: String)
    requires
        chain_in(*chastefile, refs_view(chain@)),
    ensures
        r@ == chain_text(chastefile.spec_packages(), refs_view(chain@)),
{
    let ghost pkgs = chastefile.spec_packages();
    let ghost cv = refs_view(chain@);
    assert(cv[0] == *chain@[0]);
    let first = chastefile.package(chain[0].from());
    let mut s = String::new();
    s.append(shown_name_str(first));
    let mut k: usize = 0;
    proof {
        reveal_strlit(" -");
        reveal_strlit("-> ");
    }
    while k < chain.len()
        invariant
            cv == refs_view(chain@),
            pkgs == chastefile.spec_packages(),
            chain_in(*chastefile, cv),
            0 <= k <= chain@.len(),
            k == 0 ==> s@ == shown_name(pkgs[cv[0].spec_from().id() as int]),
            k > 0 ==> s@ == chain_text(pkgs, cv.take(k as int)),
        decreases chain@.len() - k,
    {
        let d = chain[k];
        assert(cv[k as int] == *d);
        assert(chastefile.has_package(cv[k as int].spec_on()));
        let pkg = chastefile.package(d.on());
        let ghost before = s@;
        s.append(" -");
        s.append(kind_str(d.kind()));
        s.append("-> ");
        s.append(shown_name_str(pkg));
        proof {
            let t = cv.take(k + 1);
            assert(s@ =~= before + step_text(pkgs, cv[k as int]));
            if k == 0 {
                assert(t.len() == 1 && t[0] == cv[0]);
            } else {
                assert(t.drop_last() =~= cv.take(k as int));
                assert(t.last() == cv[k as int]);
            }
        }
        k = k + 1;
    }
    assert(cv.take(chain@.len() as int) =~= cv);
    s
}

/// The options of `why`: the name of the packages asked about.
pub struct Why {
    pub package_name: String,
}

impl Why {
    /// The chains of dependencies that lead to the packages asked about.
    pub fn chains<'a, M>(&self, chastefile: &'a Chastefile<M>) -> (r: Vec<Vec<&'a Dependency>>)
        ensures
            chains_view(r@) == why_chains(chastefile.spec_packages(), chastefile.deps(), self.package_name@),
    {
        chains_to(chastefile, self.package_name.as_str())
    }
}

} // verus!
