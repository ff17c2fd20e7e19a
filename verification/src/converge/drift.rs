//! What to do about drift.
use vstd::prelude::*;
use crate::text;
use crate::text::texts;

verus! {

/// What to do where the cluster is not as it was declared.
#[derive(Debug, PartialEq, Eq)]
pub enum DriftPolicy {
    /// Do not look.
    Disabled,
    /// Look and tell.
    Warn,
    /// Look, tell and put right, but for some paths.
    Enabled { ignore_paths: Vec<String> },
}

impl Default for DriftPolicy {
    fn default() -> (r: Self)
        ensures
            r is Warn,
    {
        DriftPolicy::Warn
    }
}

/// The name of a policy.
pub open spec fn mode_name(p: DriftPolicy) -> Seq<char> {
    match p {
        DriftPolicy::Disabled => "disabled"@,
        DriftPolicy::Warn => "warn"@,
        DriftPolicy::Enabled { .. } => "enabled"@,
    }
}

/// A path is not looked at.
pub open spec fn ignores(p: DriftPolicy, path: Seq<char>) -> bool {
    match p {
        DriftPolicy::Disabled => true,
        DriftPolicy::Warn => false,
        DriftPolicy::Enabled { ignore_paths } => texts(ignore_paths@).contains(path),
    }
}

impl DriftPolicy {
    /// The name of the policy.
    pub fn mode(&self) -> (r: &'static str)
        ensures
            r@ == mode_name(*self),
    {
        match self {
            DriftPolicy::Disabled => "disabled",
            DriftPolicy::Warn => "warn",
            DriftPolicy::Enabled { .. } => "enabled",
        }
    }

    /// Whether drift is looked for.
    pub fn detects(&self) -> (r: bool)
        ensures
            r == !(self is Disabled),
    {
        match self {
            DriftPolicy::Disabled => false,
            _ => true,
        }
    }

    /// Whether drift is put right.
    pub fn corrects(&self) -> (r: bool)
        ensures
            r == (self is Enabled),
    {
        match self {
            DriftPolicy::Enabled { .. } => true,
            _ => false,
        }
    }

    /// Whether a path is not looked at: every path where nothing is, none
    /// where everything is, else those that are listed.
    pub fn should_ignore_path(&self, path: &str) -> (r: bool)
        ensures
            r == ignores(*self, path@),
    {
        match self {
            DriftPolicy::Disabled => true,
            DriftPolicy::Warn => false,
            DriftPolicy::Enabled { ignore_paths } => text::contains_text(ignore_paths, path),
        }
    }
}

/// A policy that is off ignores every path, one that warns none, and one that
/// is on those that it lists.
pub proof fn law_ignored_paths(p: DriftPolicy, path: Seq<char>)
    ensures
        p is Disabled ==> ignores(p, path),
        p is Warn ==> !ignores(p, path),
        p matches DriftPolicy::Enabled { ignore_paths } ==> (ignores(p, path) <==> exists|i: int|
            0 <= i < ignore_paths@.len() && (#[trigger] ignore_paths@[i])@ == path),
{
    if let DriftPolicy::Enabled { ignore_paths } = p {
        let ts = texts(ignore_paths@);
        if ts.contains(path) {
            let i = choose|i: int| 0 <= i < ts.len() && ts[i] == path;
            assert(ignore_paths@[i]@ == path);
        }
        if exists|i: int| 0 <= i < ignore_paths@.len() && (#[trigger] ignore_paths@[i])@ == path {
            let i = choose|i: int|
                0 <= i < ignore_paths@.len() && (#[trigger] ignore_paths@[i])@ == path;
            assert(ts[i] == path);
        }
    }
}

} // verus!
