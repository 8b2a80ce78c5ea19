use vstd::prelude::*;

verus! {

/// Mapping hints for segment creation and attachment.
///
/// These are best-effort: the platform backend documents what it actually
/// provides. Both default to `false`.
#[derive(Debug, Clone, Copy)]
pub struct MapHints {
    /// Pre-fault pages into memory (`MAP_POPULATE`).
    pub pretouch: bool,
    /// Request huge-page backing (`MAP_HUGETLB`).
    pub huge_pages: bool,
}

impl Default for MapHints {
    fn default() -> (r: Self)
        ensures
            !r.pretouch,
            !r.huge_pages,
    {
        MapHints { pretouch: false, huge_pages: false }
    }
}

} // verus!
