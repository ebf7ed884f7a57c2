//! Unified model of npm-ecosystem lockfiles: package names, version
//! specifiers, module paths, and the dependency graph built from them.

pub mod audit;
pub mod bun;
pub mod chastefile;
pub mod checksums;
pub mod dependency;
pub mod derivation;
pub mod error;
pub mod installation;
pub mod meta;
pub mod modpath;
pub mod name;
pub mod npm;
pub mod package;
pub mod pnpm;
pub mod provider;
pub mod quirks;
pub mod semver;
pub mod source;
pub mod svd;
pub mod svs;
pub mod text;
pub mod why;
pub mod yarn;
pub mod yarn_state;
