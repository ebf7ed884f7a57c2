//! The contents of yarn's JSON lockfile and of the `package.json` files it is read
//! with, as plain values. Maps are lists of pairs in key order, each key once.

use vstd::prelude::*;

use crate::dependency::DependencyKind;
use crate::yarn::classic_model::opt_view;
use crate::yarn::lockfile::{pairs_view, PairsView};

verus! {

/// What the reader takes from a `package.json`: name, version, the dependencies of
/// each kind, and the `"resolutions"` overrides.
#[derive(Debug)]
pub struct PackageJson {
    pub name: Option<String>,
    pub version: Option<String>,
    pub dependencies: Vec<(String, String)>,
    pub dev_dependencies: Vec<(String, String)>,
    pub optional_dependencies: Vec<(String, String)>,
    pub peer_dependencies: Vec<(String, String)>,
    pub resolutions: Vec<(String, String)>,
}

/// The header of the lockfile.
#[derive(Debug)]
pub struct Metadata {
    pub version: u8,
}

/// The `resolution` object of an entry.
#[derive(Debug)]
pub struct Resolution {
    pub resolution: String,
    pub version: String,
    pub dependencies: Vec<(String, String)>,
    pub peer_dependencies: Vec<(String, String)>,
    pub optional_dependencies: Vec<String>,
    pub optional_peer_dependencies: Vec<String>,
}

/// An entry of the lockfile.
#[derive(Debug)]
pub struct JsonEntry {
    pub checksum: Option<String>,
    pub resolution: Resolution,
}

/// A JSON lockfile: its metadata and its entries, each under its key.
#[derive(Debug)]
pub struct Lockfile {
    pub metadata: Metadata,
    pub entries: Vec<(String, JsonEntry)>,
}

/// A `package.json` as text: name, version, the lists of dependencies with their
/// kind in the order in which they are read, and the overrides.
pub struct JsonView {
    pub name: Option<Seq<char>>,
    pub version: Option<Seq<char>>,
    pub lists: Seq<(PairsView, DependencyKind)>,
    pub resolutions: PairsView,
}

impl View for PackageJson {
    type V = JsonView;

    open spec fn view(&self) -> JsonView {
        JsonView {
            name: opt_view(self.name),
            version: opt_view(self.version),
            lists: seq![
                (pairs_view(self.dependencies@), DependencyKind::Dependency),
                (pairs_view(self.dev_dependencies@), DependencyKind::DevDependency),
                (pairs_view(self.optional_dependencies@), DependencyKind::OptionalDependency),
                (pairs_view(self.peer_dependencies@), DependencyKind::PeerDependency),
            ],
            resolutions: pairs_view(self.resolutions@),
        }
    }
}

/// An entry as text, with its key.
pub struct ZEntryView {
    pub key: Seq<char>,
    pub checksum: Option<Seq<char>>,
    pub resolution: Seq<char>,
    pub version: Seq<char>,
    pub dependencies: PairsView,
    pub peer_dependencies: PairsView,
    pub optional: Seq<Seq<char>>,
    pub optional_peers: Seq<Seq<char>>,
}

/// A list of texts as text.
pub open spec fn strs_view(v: Seq<String>) -> Seq<Seq<char>> {
    v.map_values(|s: String| s@)
}

/// An entry with its key, as text.
pub open spec fn zentry_view(e: (String, JsonEntry)) -> ZEntryView {
    ZEntryView {
        key: e.0@,
        checksum: opt_view(e.1.checksum),
        resolution: e.1.resolution.resolution@,
        version: e.1.resolution.version@,
        dependencies: pairs_view(e.1.resolution.dependencies@),
        peer_dependencies: pairs_view(e.1.resolution.peer_dependencies@),
        optional: strs_view(e.1.resolution.optional_dependencies@),
        optional_peers: strs_view(e.1.resolution.optional_peer_dependencies@),
    }
}

/// The entries of a lockfile as text, in order.
pub open spec fn zentries_view(v: Seq<(String, JsonEntry)>) -> Seq<ZEntryView> {
    v.map_values(|e: (String, JsonEntry)| zentry_view(e))
}

} // verus!
