//! Newtypes that keep branch names, parent-branch names and version names
//! from being mixed up at call sites.

use vstd::prelude::*;

verus! {

/// A branch name, as bytes.
#[derive(Clone, Copy, Debug)]
pub struct BranchName<'a>(pub &'a [u8]);

/// The name of the branch a new branch forks from.
#[derive(Clone, Copy, Debug)]
pub struct ParentBranchName<'a>(pub &'a [u8]);

/// A version name, as bytes.
#[derive(Clone, Copy, Debug)]
pub struct VersionName<'a>(pub &'a [u8]);

impl Default for BranchName<'static> {
    /// The default branch's name.
    fn default() -> (r: Self)
        ensures
            r.0@ == crate::ledger::initial_branch_name_spec(),
    {
        let r = BranchName([109u8, 97u8, 105u8, 110u8].as_slice());
        proof {
            assert(r.0@ =~= crate::ledger::initial_branch_name_spec());
        }
        r
    }
}

} // verus!
