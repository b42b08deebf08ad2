//! The closed set of platforms that packages are built for.

use vstd::prelude::*;
use crate::text::same_text;

verus! {

/// A supported platform: architecture, operating system and, where it matters, kernel ABI.
#[derive(Clone, Copy, Debug, PartialEq, Eq, Structural, Hash)]
pub enum PackageTarget {
    X8664Linux,
    X8664LinuxKernel2,
    X8664Windows,
}

/// A target string that names no supported platform.
#[derive(Clone, Copy, Debug, PartialEq, Eq, Structural)]
pub struct UnknownTarget;

/// The string form of a target.
pub open spec fn target_name(t: PackageTarget) -> Seq<char> {
    match t {
        PackageTarget::X8664Linux => "x86_64-linux"@,
        PackageTarget::X8664LinuxKernel2 => "x86_64-linux-kernel2"@,
        PackageTarget::X8664Windows => "x86_64-windows"@,
    }
}

/// The target that a string names, if it names one. Only the exact string form counts.
pub open spec fn target_of(s: Seq<char>) -> Option<PackageTarget> {
    if s == target_name(PackageTarget::X8664Linux) {
        Some(PackageTarget::X8664Linux)
    } else if s == target_name(PackageTarget::X8664LinuxKernel2) {
        Some(PackageTarget::X8664LinuxKernel2)
    } else if s == target_name(PackageTarget::X8664Windows) {
        Some(PackageTarget::X8664Windows)
    } else {
        None
    }
}

/// The three names are pairwise different, so each target is the one its own name parses to.
pub proof fn law_target_name_reads_back(t: PackageTarget)
    ensures
        target_of(target_name(t)) == Some(t),
{
    reveal_strlit("x86_64-linux");
    reveal_strlit("x86_64-linux-kernel2");
    reveal_strlit("x86_64-windows");
    assert("x86_64-linux"@.len() == 12);
    assert("x86_64-linux-kernel2"@.len() == 20);
    assert("x86_64-windows"@.len() == 14);
}

impl PackageTarget {
    /// Every supported target, in the order in which the router reports them.
    pub fn all() -> (r: Vec<PackageTarget>)
        ensures
            r@ == seq![
                PackageTarget::X8664Linux,
                PackageTarget::X8664LinuxKernel2,
                PackageTarget::X8664Windows,
            ],
    {
        let mut r: Vec<PackageTarget> = Vec::new();
        r.push(PackageTarget::X8664Linux);
        r.push(PackageTarget::X8664LinuxKernel2);
        r.push(PackageTarget::X8664Windows);
        assert(r@ =~= seq![
            PackageTarget::X8664Linux,
            PackageTarget::X8664LinuxKernel2,
            PackageTarget::X8664Windows,
        ]);
        r
    }

    /// Reads a target from its string form; any other string is refused.
    pub fn parse(s: &str) -> (r: Result<PackageTarget, UnknownTarget>)
        ensures
            r is Ok <==> target_of(s@) is Some,
            r matches Ok(t) ==> target_of(s@) == Some(t),
    {
        if same_text(s, "x86_64-linux") {
            Ok(PackageTarget::X8664Linux)
        } else if same_text(s, "x86_64-linux-kernel2") {
            Ok(PackageTarget::X8664LinuxKernel2)
        } else if same_text(s, "x86_64-windows") {
            Ok(PackageTarget::X8664Windows)
        } else {
            Err(UnknownTarget)
        }
    }

    /// The string form, which `parse` reads back.
    pub fn as_str(&self) -> (r: &'static str)
        ensures
            r@ == target_name(*self),
    {
        match self {
            PackageTarget::X8664Linux => "x86_64-linux",
            PackageTarget::X8664LinuxKernel2 => "x86_64-linux-kernel2",
            PackageTarget::X8664Windows => "x86_64-windows",
        }
    }
}

} // verus!
