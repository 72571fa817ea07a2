//! Per-job configuration. Defaults are chosen to be safe: gitignore respected,
//! deletes go to the recycle bin, and a big-delete guard trips at 25% or 100
//! files.
use crate::model::SyncMode;
use vstd::prelude::*;

verus! {

/// Fractions are expressed in parts per million: `1_000_000` is 100%.
pub const PPM: u64 = 1_000_000;

#[derive(Debug, PartialEq, Eq)]
pub struct IgnorePolicy {
    /// Honor `.gitignore` files (and `.git/info/exclude`) found in each root.
    pub use_gitignore: bool,
    /// Honor non-git `.ignore` files.
    pub use_dot_ignore: bool,
    /// Include dotfiles / hidden entries.
    pub include_hidden: bool,
    /// Extra gitignore-syntax globs (a leading `!` re-includes), applied to both
    /// roots identically.
    pub custom_globs: Vec<String>,
}

/// Two policies say the same: equal flags and equal glob texts in order.
pub open spec fn same_policy(a: IgnorePolicy, b: IgnorePolicy) -> bool {
    &&& a.use_gitignore == b.use_gitignore
    &&& a.use_dot_ignore == b.use_dot_ignore
    &&& a.include_hidden == b.include_hidden
    &&& a.custom_globs@.len() == b.custom_globs@.len()
    &&& forall|i: int| 0 <= i < a.custom_globs@.len() ==> #[trigger] a.custom_globs@[i]@ == b.custom_globs@[i]@
}

impl IgnorePolicy {
    /// An independent copy of this policy.
    pub fn duplicate(&self) -> (r: IgnorePolicy)
        ensures
            same_policy(r, *self),
    {
        let mut globs: Vec<String> = Vec::new();
        let mut i: usize = 0;
        while i < self.custom_globs.len()
            invariant
                i <= self.custom_globs@.len(),
                globs@.len() == i,
                forall|j: int| 0 <= j < i ==> #[trigger] globs@[j]@ == self.custom_globs@[j]@,
            decreases self.custom_globs@.len() - i,
        {
            globs.push(self.custom_globs[i].clone());
            i = i + 1;
        }
        IgnorePolicy {
            use_gitignore: self.use_gitignore,
            use_dot_ignore: self.use_dot_ignore,
            include_hidden: self.include_hidden,
            custom_globs: globs,
        }
    }
}

impl Default for IgnorePolicy {
    fn default() -> (r: IgnorePolicy)
        ensures
            r.use_gitignore,
            r.use_dot_ignore,
            !r.include_hidden,
            r.custom_globs@.len() == 0,
    {
        IgnorePolicy {
            use_gitignore: yes(),
            use_dot_ignore: yes(),
            include_hidden: false,
            custom_globs: Vec::new(),
        }
    }
}

#[derive(Debug)]
pub struct JobConfig {
    pub root_a: String,
    pub root_b: String,
    /// One-way mode post-filter; `TwoWay` is the bidirectional identity.
    pub mode: SyncMode,
    pub ignore: IgnorePolicy,
    /// Hash file contents so change detection uses content identity.
    pub verify_by_hash: bool,
    /// Trip the big-delete guard if deletions reach this fraction of members
    /// (parts per million).
    pub big_delete_pct: u64,
    /// ...or this absolute count.
    pub big_delete_abs: usize,
    /// Route deletions through the OS recycle bin when possible.
    pub use_recycle_bin: bool,
    /// Walker threads per root; `0` => auto.
    pub scan_threads: usize,
    /// mtime comparison tolerance in nanoseconds; `0` => the engine default.
    pub mtime_gran_ns: i64,
}

/// The serde default for flags that are on unless stated otherwise.
pub fn yes() -> (r: bool)
    ensures
        r,
{
    true
}

/// Default big-delete fraction: 25%, in parts per million.
pub fn default_big_delete_pct() -> (r: u64)
    ensures
        r == 250_000,
{
    250_000
}

/// Default big-delete absolute count.
pub fn default_big_delete_abs() -> (r: usize)
    ensures
        r == 100,
{
    100
}

} // verus!
