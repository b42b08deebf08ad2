//! The package record that the catalogue supplies: what was built, for which
//! platform, and what it depends on.

use vstd::prelude::*;
use crate::ident::{valid_part, IdentView, PackageIdent};
use crate::target::{target_of, PackageTarget};

verus! {

/// One package as the catalogue describes it.
#[derive(Debug, PartialEq, Eq)]
pub struct PackageRecord {
    /// The platform the package was built for, in its string form.
    pub target: String,
    /// The concrete package: origin, name, version and release.
    pub ident: PackageIdent,
    /// What the package needs in order to run.
    pub deps: Vec<PackageIdent>,
    /// What the package needs only in order to be built.
    pub build_deps: Vec<PackageIdent>,
}

/// A record as the contracts see it.
pub struct RecordView {
    pub target: Seq<char>,
    pub ident: IdentView,
    pub deps: Seq<IdentView>,
    pub build_deps: Seq<IdentView>,
}

/// The views of a sequence of identifiers.
pub open spec fn ident_views(s: Seq<PackageIdent>) -> Seq<IdentView> {
    s.map_values(|d: PackageIdent| d@)
}

impl View for PackageRecord {
    type V = RecordView;

    open spec fn view(&self) -> RecordView {
        RecordView {
            target: self.target@,
            ident: self.ident@,
            deps: ident_views(self.deps@),
            build_deps: ident_views(self.build_deps@),
        }
    }
}

/// Why a record is turned away before it reaches a graph.
#[derive(Clone, Copy, Debug, PartialEq, Eq, Structural)]
pub enum RecordError {
    /// The target string names no supported platform.
    UnknownTarget,
    /// The record's own identifier is malformed.
    InvalidIdent,
    /// The record's own identifier lacks a version or a release.
    UnqualifiedIdent,
    /// One of the dependencies, run-time or build-time, is malformed.
    InvalidDependency,
    /// The record is for another platform than the graph it was handed to.
    TargetMismatch,
}

/// What a package needs another for.
#[derive(Clone, Copy, Debug, PartialEq, Eq, Structural, Hash)]
pub enum DependencyKind {
    /// The dependency is needed for the package to run.
    Runtime,
    /// The dependency is needed only for the package to be built.
    Build,
}

/// A dependency as a record declares it: the logical package that is needed, and what for.
/// A version or release that the record names with it plays no part.
pub struct DeclaredView {
    pub origin: Seq<char>,
    pub name: Seq<char>,
    pub kind: DependencyKind,
}

impl DeclaredView {
    /// Origin and name are well formed.
    pub open spec fn valid(self) -> bool {
        valid_part(self.origin) && valid_part(self.name)
    }
}

/// Every identifier in the sequence is well formed.
pub open spec fn all_valid(s: Seq<IdentView>) -> bool {
    forall|k: int| 0 <= k < s.len() ==> (#[trigger] s[k]).valid()
}

/// Every declared dependency in the sequence is well formed.
pub open spec fn all_declared_valid(s: Seq<DeclaredView>) -> bool {
    forall|k: int| 0 <= k < s.len() ==> (#[trigger] s[k]).valid()
}

/// The identifiers as declared dependencies of one kind.
pub open spec fn declared(deps: Seq<IdentView>, kind: DependencyKind) -> Seq<DeclaredView> {
    deps.map_values(|d: IdentView| DeclaredView { origin: d.origin, name: d.name, kind: kind })
}

impl RecordView {
    /// The dependencies that become edges: those needed to run, and after them, where
    /// asked for, those needed only to build.
    pub open spec fn wanted(self, include_build_deps: bool) -> Seq<DeclaredView> {
        if include_build_deps {
            declared(self.deps, DependencyKind::Runtime) + declared(
                self.build_deps,
                DependencyKind::Build,
            )
        } else {
            declared(self.deps, DependencyKind::Runtime)
        }
    }

    /// The platform of a well-formed record, or the first fault found in it: the target
    /// is looked at first, then the record's own identifier, then the dependencies.
    pub open spec fn verdict(self) -> Result<PackageTarget, RecordError> {
        match target_of(self.target) {
            None => Err(RecordError::UnknownTarget),
            Some(t) => if !self.ident.valid() {
                Err(RecordError::InvalidIdent)
            } else if !self.ident.fully_qualified() {
                Err(RecordError::UnqualifiedIdent)
            } else if !all_valid(self.deps) || !all_valid(self.build_deps) {
                Err(RecordError::InvalidDependency)
            } else {
                Ok(t)
            },
        }
    }

    /// The verdict of a graph for platform `target` on the record.
    pub open spec fn verdict_for(self, target: PackageTarget) -> Result<(), RecordError> {
        match self.verdict() {
            Err(e) => Err(e),
            Ok(t) => if t == target {
                Ok(())
            } else {
                Err(RecordError::TargetMismatch)
            },
        }
    }
}

fn clone_idents(idents: &Vec<PackageIdent>) -> (r: Vec<PackageIdent>)
    ensures
        ident_views(r@) == ident_views(idents@),
{
    let mut r: Vec<PackageIdent> = Vec::new();
    let mut k: usize = 0;
    while k < idents.len()
        invariant
            k <= idents.len(),
            r.len() == k,
            forall|m: int| 0 <= m < k ==> (#[trigger] r@[m])@ == idents@[m]@,
        decreases idents.len() - k,
    {
        r.push(idents[k].clone());
        k += 1;
    }
    assert(ident_views(r@) =~= ident_views(idents@));
    r
}

impl Clone for PackageRecord {
    fn clone(&self) -> (r: Self)
        ensures
            r@ == self@,
    {
        PackageRecord {
            target: self.target.clone(),
            ident: self.ident.clone(),
            deps: clone_idents(&self.deps),
            build_deps: clone_idents(&self.build_deps),
        }
    }
}

fn all_idents_valid(idents: &Vec<PackageIdent>) -> (r: bool)
    ensures
        r == all_valid(ident_views(idents@)),
{
    let mut k: usize = 0;
    while k < idents.len()
        invariant
            k <= idents.len(),
            forall|m: int| 0 <= m < k ==> (#[trigger] ident_views(idents@)[m]).valid(),
        decreases idents.len() - k,
    {
        if !idents[k].is_valid() {
            assert(!ident_views(idents@)[k as int].valid());
            return false;
        }
        k += 1;
    }
    true
}

impl PackageRecord {
    /// Checks the record as a whole and gives its platform.
    pub fn validate(&self) -> (r: Result<PackageTarget, RecordError>)
        ensures
            r == self@.verdict(),
    {
        match PackageTarget::parse(self.target.as_str()) {
            Err(_) => Err(RecordError::UnknownTarget),
            Ok(t) => {
                if !self.ident.is_valid() {
                    Err(RecordError::InvalidIdent)
                } else if !self.ident.is_fully_qualified() {
                    Err(RecordError::UnqualifiedIdent)
                } else if !all_idents_valid(&self.deps) || !all_idents_valid(&self.build_deps) {
                    Err(RecordError::InvalidDependency)
                } else {
                    Ok(t)
                }
            },
        }
    }
}

} // verus!
