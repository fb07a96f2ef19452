use vstd::prelude::*;

pub mod record;
pub mod codec;
pub mod backend;
pub mod store;
pub mod query;
pub mod laws;

verus! {

/// The schema constant of this store's persisted format: a record whose
/// serialized text exceeds this many characters is an encoding fault and is
/// never committed.  The unit is characters of the encoded text, not bytes;
/// a record of non-ASCII text may occupy up to four bytes per character in
/// the backing region.
pub const MAX_ENCODED_LEN: usize = 2048;

} // verus!
