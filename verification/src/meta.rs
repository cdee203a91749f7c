//! The parts of a package declaration and of the lock data that the rules
//! read.

use crate::ordered::Ordered;
use crate::text::opt_str;
use vstd::prelude::*;

verus! {

/// Where a package's source comes from.
#[derive(Debug)]
pub enum SourceSpec {
    /// A URL without a declared digest.
    Unverified(String),
    /// A URL with the SHA-256 its contents must have.
    Verified { url: String, sha256: String },
}

/// The URL of a source.
pub open spec fn source_url(s: SourceSpec) -> Seq<char> {
    match s {
        SourceSpec::Unverified(url) => url@,
        SourceSpec::Verified { url, sha256 } => url@,
    }
}

impl SourceSpec {
    /// The URL.
    pub fn url(&self) -> (r: &str)
        ensures
            r@ == source_url(*self),
    {
        match self {
            SourceSpec::Unverified(url) => url.as_str(),
            SourceSpec::Verified { url, .. } => url.as_str(),
        }
    }

    /// The declared SHA-256, where there is one.
    pub fn expected_sha256(&self) -> (r: Option<&str>)
        ensures
            opt_str(r) == match *self {
                SourceSpec::Unverified(_) => None,
                SourceSpec::Verified { url, sha256 } => Some(sha256@),
            },
    {
        match self {
            SourceSpec::Unverified(_) => None,
            SourceSpec::Verified { sha256, .. } => Some(sha256.as_str()),
        }
    }
}

/// The value of a plugin option.
#[derive(Debug)]
pub enum PluginValue {
    Str(String),
    Bool(bool),
    Table(Ordered<String>),
}

/// One part of a build.
#[derive(Debug)]
pub struct SnapPart {
    pub build: String,
    pub after: Vec<String>,
    pub plugin: Option<String>,
    pub plugin_options: Option<Ordered<PluginValue>>,
}

/// One app of a package.
#[derive(Debug)]
pub struct SnapApp {
    pub command: String,
    pub desktop: Option<String>,
}

/// The lockfile of one ecosystem's dependency closure.
#[derive(Debug)]
pub struct DepsLockSpec {
    /// The lockfile's path within the source tree.
    pub lock: String,
    /// The package index, where it is not the default one.
    pub index: Option<String>,
    /// Patterns of lock keys that are not fetched.
    pub exclude: Vec<String>,
}

/// The dependency closures a package declares.
#[derive(Debug)]
pub struct PackageDeps {
    pub npm: Option<DepsLockSpec>,
    pub pip: Option<DepsLockSpec>,
}

/// A package declaration.
#[derive(Debug)]
pub struct SnapMeta {
    pub name: String,
    pub version: String,
    pub type_: Option<String>,
    pub source: Option<SourceSpec>,
    pub parts: Option<Ordered<SnapPart>>,
    pub target: Option<String>,
    pub adopt_info: Option<String>,
    pub requires: Vec<String>,
    pub build_deps: Vec<String>,
    pub apps: Ordered<SnapApp>,
    pub deps: Option<PackageDeps>,
}

/// A snap pinned in the lockfile.
#[derive(Debug)]
pub struct LockedSnap {
    pub revision: u32,
    pub sha3_384: String,
}

/// A dependency closure pinned in the lockfile.
#[derive(Debug)]
pub struct PackageDepsLock {
    pub deps_hash: String,
    pub fetched_at: Option<String>,
}

/// A package pinned in the lockfile.
#[derive(Debug)]
pub struct LockedPackage {
    pub version: String,
    pub deps: Option<PackageDepsLock>,
}

/// The lockfile.
#[derive(Debug)]
pub struct LockFile {
    /// The SHA-256 of each source URL.
    pub sources: Ordered<String>,
    pub snaps: Ordered<LockedSnap>,
    pub packages: Ordered<LockedPackage>,
}

} // verus!
