//! The entries of an indented `yarn.lock`, as `yarn_lock_parser` reads them.

use vstd::prelude::*;
use vstd::string::StringExecFns;

verus! {

/// Whether a dependency is marked optional in `dependenciesMeta` / `peerDependenciesMeta`.
#[derive(Debug, Clone, Copy, PartialEq, Eq, Structural)]
pub struct DepMeta {
    pub optional: Option<bool>,
}

/// One entry of the lockfile: the package its descriptors resolve to.
#[derive(Debug)]
pub struct LockEntry {
    pub name: String,
    pub version: String,
    pub resolved: String,
    pub integrity: String,
    pub dependencies: Vec<(String, String)>,
    pub optional_dependencies: Vec<(String, String)>,
    pub dependencies_meta: Vec<(String, DepMeta)>,
    pub peer_dependencies: Vec<(String, String)>,
    pub peer_dependencies_meta: Vec<(String, DepMeta)>,
    pub descriptors: Vec<(String, String)>,
}

/// A lockfile: the version of its format and its entries.
#[derive(Debug)]
pub struct Lockfile {
    pub version: u8,
    pub entries: Vec<LockEntry>,
}

/// Pairs of strings as text.
pub type PairsView = Seq<(Seq<char>, Seq<char>)>;

/// Dependency metadata as text.
pub type MetasView = Seq<(Seq<char>, Option<bool>)>;

/// An entry as text: name, version, resolution and integrity; dependencies, optional
/// dependencies and dependency metadata; peer dependencies and their metadata;
/// descriptors.
pub type EntryView = (
    (Seq<char>, Seq<char>, Seq<char>, Seq<char>),
    (PairsView, PairsView, MetasView),
    (PairsView, MetasView),
    PairsView,
);

pub open spec fn pairs_view(v: Seq<(String, String)>) -> PairsView {
    v.map_values(|p: (String, String)| (p.0@, p.1@))
}

pub open spec fn metas_view(v: Seq<(String, DepMeta)>) -> MetasView {
    v.map_values(|p: (String, DepMeta)| (p.0@, p.1.optional))
}

impl View for LockEntry {
    type V = EntryView;

    open spec fn view(&self) -> EntryView {
        (
            (self.name@, self.version@, self.resolved@, self.integrity@),
            (
                pairs_view(self.dependencies@),
                pairs_view(self.optional_dependencies@),
                metas_view(self.dependencies_meta@),
            ),
            (pairs_view(self.peer_dependencies@), metas_view(self.peer_dependencies_meta@)),
            pairs_view(self.descriptors@),
        )
    }
}

pub open spec fn entries_view(v: Seq<LockEntry>) -> Seq<EntryView> {
    v.map_values(|e: LockEntry| e@)
}

impl View for Lockfile {
    type V = (u8, Seq<EntryView>);

    open spec fn view(&self) -> (u8, Seq<EntryView>) {
        (self.version, entries_view(self.entries@))
    }
}

/// What `yarn_lock_parser::parse_str` reads from a lockfile: the version and the
/// entries, or `None` where it refuses the text.
pub uninterp spec fn yarn_lock_parsed(content: Seq<char>) -> Option<(u8, Seq<EntryView>)>;

/// Reads an indented `yarn.lock` with `yarn_lock_parser::parse_str`, converting each
/// entry. Trusted: the result is [`yarn_lock_parsed`] of the text, and each entry has
/// at least one descriptor (the parser reads them with `separated_list1`); a refusal
/// is reported as the parser's message.
#[verifier::external_body]
pub fn parse_lockfile(content: &str) -> (r: Result<Lockfile, String>)
    ensures
        r is Ok <==> yarn_lock_parsed(content@) is Some,
        r matches Ok(l) ==> yarn_lock_parsed(content@) == Some(l@),
        r matches Ok(l) ==> forall|i: int| 0 <= i < l.entries@.len() ==> (#[trigger] l.entries@[i]).descriptors@.len() > 0,
{
    let lock = yarn_lock_parser::parse_str(content).map_err(|e| e.to_string())?;
    Ok(Lockfile { version: lock.version, entries: lock.entries.iter().map(entry_of).collect() })
}

/// An entry as `yarn_lock_parser` gives it.
#[verifier::external_type_specification]
#[verifier::external_body]
pub struct ExYarnLockEntry<'a>(yarn_lock_parser::Entry<'a>);

/// Converts an entry of `yarn_lock_parser` field by field, copying the text.
#[verifier::external_body]
fn entry_of(e: &yarn_lock_parser::Entry<'_>) -> LockEntry {
    LockEntry {
        name: e.name.to_string(),
        version: e.version.to_string(),
        resolved: e.resolved.to_string(),
        integrity: e.integrity.to_string(),
        dependencies: owned_pairs(&e.dependencies),
        optional_dependencies: owned_pairs(&e.optional_dependencies),
        dependencies_meta: e.dependencies_meta.iter().map(|m| (m.0.to_string(), DepMeta { optional: m.1.optional })).collect(),
        peer_dependencies: owned_pairs(&e.peer_dependencies),
        peer_dependencies_meta: e.peer_dependencies_meta.iter().map(|m| (m.0.to_string(), DepMeta { optional: m.1.optional })).collect(),
        descriptors: owned_pairs(&e.descriptors),
    }
}

/// Pairs of borrowed strings as text.
pub open spec fn str_pairs_view(v: Seq<(&str, &str)>) -> PairsView {
    v.map_values(|p: (&str, &str)| (p.0@, p.1@))
}

/// Copies pairs of strings.
pub fn owned_pairs(v: &Vec<(&str, &str)>) -> (r: Vec<(String, String)>)
    ensures
        pairs_view(r@) == str_pairs_view(v@),
{
    let mut out: Vec<(String, String)> = Vec::new();
    let mut i: usize = 0;
    while i < v.len()
        invariant
            i <= v.len(),
            pairs_view(out@) == str_pairs_view(v@.take(i as int)),
        decreases v.len() - i,
    {
        let (a, b) = v[i];
        let ghost prev = out@;
        out.push((String::from_str(a), String::from_str(b)));
        proof {
            assert(v@.take(i + 1) =~= v@.take(i as int).push(v@[i as int]));
            assert(pairs_view(out@) =~= pairs_view(prev).push((a@, b@)));
            assert(str_pairs_view(v@.take(i + 1)) =~= str_pairs_view(v@.take(i as int)).push((a@, b@)));
        }
        i = i + 1;
    }
    assert(v@.take(i as int) =~= v@);
    out
}

} // verus!
