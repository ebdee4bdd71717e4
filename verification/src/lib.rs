//! A versioned key-value library: Git-like branch/version semantics layered
//! onto an embedded ordered byte store, exposed through typed collection
//! handles that are identified by an 8-byte namespace prefix.

pub mod ende;
pub mod ledger;
pub mod mapx;
pub mod mapx_ord;
pub mod names;
pub mod orphan;
pub mod mapx_raw;
pub mod sample;
pub mod store;
pub mod vecx;
pub mod versioned;
pub mod engine;
pub mod err;

pub use ende::{
    lex_lt, lex_le, be8, from_be8, u64_to_be_vec, u64_from_be_slice, ValueEnDe, KeyEnDeOrdered,
};
pub use ledger::{Ledger, BranchInfo};
pub use mapx::Mapx;
pub use mapx_ord::{MapxOrd, KBound};
pub use mapx_raw::{MapxRaw, KeyBound};
pub use store::VsStore;
pub use orphan::Orphan;
pub use vecx::Vecx;
pub use versioned::MapxRawVs;
pub use err::VsError;
pub use names::{BranchName, ParentBranchName, VersionName};
pub use sample::{SampleBlock, gen_sample};

use vstd::prelude::*;

verus! {

} // verus!
