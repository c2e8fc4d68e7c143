pub mod config;
pub mod dedup;
pub mod feed;
pub mod group;
pub mod ingest;
pub mod model;
pub mod nav;
pub mod normalize;
pub mod sanitize;
pub mod text;

use vstd::prelude::*;

verus! {

/// Per-feed payload cap: a feed larger than this many bytes is rejected
/// before any parsing is attempted.
pub fn max_feed_bytes() -> (n: usize)
    ensures
        n == 5 * 1024 * 1024,
{
    5 * 1024 * 1024
}

} // verus!
