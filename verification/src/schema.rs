//! Decisions about the destination archive: which storage layout a run uses
//! and whether the aggregate tile hash is recomputed at the end.

use vstd::prelude::*;

verus! {

/// Caller-facing layout choice for a new destination.
#[derive(Clone, Copy, PartialEq, Eq, Structural, Debug)]
pub enum MbtTypeCli {
    Flat,
    FlatWithHash,
    Normalized,
}

/// Physical layout of the destination archive.
#[derive(Clone, Copy, PartialEq, Eq, Structural, Debug)]
pub enum MbtType {
    Flat,
    FlatWithHash,
    Normalized { hash_view: bool },
}

/// Destination-defined behaviour when an inserted tile already exists.
#[derive(Clone, Copy, PartialEq, Eq, Structural, Debug)]
pub enum CopyDuplicateMode {
    Override,
    Ignore,
    Abort,
}

/// What the run does to the destination's schema before copying.
#[derive(Clone, Copy, PartialEq, Eq, Structural, Debug)]
pub enum SchemaPlan {
    /// Create this layout and seed the initial metadata.
    Create(MbtType),
    /// Keep whatever layout detection finds on the existing destination.
    DetectExisting,
}

/// The layout a new destination gets: the caller's choice, defaulting to
/// normalized with a hash view.
pub open spec fn spec_resolve_layout(mbt_type: Option<MbtTypeCli>) -> MbtType {
    match mbt_type {
        Some(MbtTypeCli::Flat) => MbtType::Flat,
        Some(MbtTypeCli::FlatWithHash) => MbtType::FlatWithHash,
        _ => MbtType::Normalized { hash_view: true },
    }
}

/// Decide the destination's layout. An empty destination gets the caller's
/// layout — the default when none was given — created from scratch; a
/// destination that already has tiles keeps its existing, detected layout,
/// whatever the caller asked for.
pub fn select_schema(dst_is_empty: bool, mbt_type: Option<MbtTypeCli>) -> (plan: SchemaPlan)
    ensures
        dst_is_empty ==> plan == SchemaPlan::Create(spec_resolve_layout(mbt_type)),
        !dst_is_empty ==> plan == SchemaPlan::DetectExisting,
{
    if dst_is_empty {
        let layout = match mbt_type {
            Some(MbtTypeCli::Flat) => MbtType::Flat,
            Some(MbtTypeCli::FlatWithHash) => MbtType::FlatWithHash,
            _ => MbtType::Normalized { hash_view: true },
        };
        SchemaPlan::Create(layout)
    } else {
        SchemaPlan::DetectExisting
    }
}

/// Decide whether the aggregate tile hash is recomputed at the end of the
/// run: only when not explicitly skipped and at least one non-empty tile was
/// written; over zero written tiles it is a no-op, not an error.
pub fn should_compute_agg_hash(skip_agg_tiles_hash: bool, non_empty: u64) -> (r: bool)
    ensures
        r == (!skip_agg_tiles_hash && non_empty > 0),
{
    !skip_agg_tiles_hash && non_empty > 0
}

} // verus!
