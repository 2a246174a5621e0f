//! The numeric bounds the components share.
use vstd::prelude::*;

verus! {

/// Bytes of one block of the object-store projection.
pub const ODB_BLOCK_BYTES: u64 = 65536;

/// The longest path component a mutation may create.
pub const MAX_NAME_BYTES: usize = 255;

/// Directory entries per page unless a caller asks otherwise.
pub const DEFAULT_DIRECTORY_PAGE_SIZE: u32 = 1000;

/// The most directory entries one page may carry.
pub const MAX_DIRECTORY_PAGE_SIZE: u32 = 10000;

/// Entries per recursive-listing page unless a caller asks otherwise.
pub const DEFAULT_TREE_PAGE_ENTRIES: u32 = 10000;

/// The most entries one recursive-listing page may carry.
pub const MAX_TREE_PAGE_ENTRIES: u32 = 50000;

/// Commits per log page unless a caller asks otherwise.
pub const DEFAULT_LOG_LIMIT: u32 = 100;

/// The most commits one log page may carry.
pub const MAX_LOG_LIMIT: u32 = 1000;

/// The largest blob that is read whole.
pub const MAX_BLOB_BYTES: u64 = 1073741824;

/// The largest blob a search reads.
pub const MAX_SEARCHABLE_BLOB_BYTES: u64 = 4194304;

/// The most context lines a diff may be asked for.
pub const MAX_DIFF_CONTEXT_LINES: u32 = 1000;

/// Rendered diff bytes unless a caller asks otherwise.
pub const DEFAULT_DIFF_BYTES: u64 = 4194304;

/// The most rendered diff bytes one answer may carry.
pub const MAX_DIFF_BYTES: u64 = 67108864;

/// The state directory format this build reads and writes.
pub const STATE_FORMAT_VERSION: u32 = 1;

/// Repository handles kept open at once.
pub const DEFAULT_REPO_HANDLES: usize = 8;

/// Bytes a mount may hydrate before reads are refused.
pub const DEFAULT_HYDRATION_BUDGET_BYTES: u64 = 1073741824;

/// The version of the service's interface.
pub const API_VERSION: &'static str = "v1";

} // verus!
