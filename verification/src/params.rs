//! Thresholds shared by the indexer, the analyzer and the queries.

use vstd::prelude::*;

verus! {

/// The defaults of the whole tool that are whole numbers.
#[derive(Debug, Clone, Copy, PartialEq, Eq, Structural)]
pub struct Params {
    /// Hard exclusion threshold: commits touching more files than this get
    /// weight 0 and the TOO_LARGE flag.
    pub max_commit_files: usize,
    /// Minimum raw co-occurrence count before a pure co-change pair is
    /// reportable.
    pub min_cochange_n: i64,
    /// An edge must have lived at least this long for its death to count as
    /// a ghost candidate. Shorter-lived edges were scaffolding.
    pub ghost_min_lifetime_days: i64,
    /// Post-severance gate: fewer co-changes than this are no ghost.
    pub ghost_min_cochanges_since: i64,
    /// Rename similarity threshold, in hundredths.
    pub rename_percent: u16,
    /// Hundredths of the changed lines that must be import lines for a touch
    /// to be flagged import-only.
    pub import_only_percent: u8,
}

impl Default for Params {
    fn default() -> (r: Self)
        ensures
            r == (Params {
                max_commit_files: 50,
                min_cochange_n: 3,
                ghost_min_lifetime_days: 90,
                ghost_min_cochanges_since: 2,
                rename_percent: 50,
                import_only_percent: 90,
            }),
    {
        Params {
            max_commit_files: 50,
            min_cochange_n: 3,
            ghost_min_lifetime_days: 90,
            ghost_min_cochanges_since: 2,
            rename_percent: 50,
            import_only_percent: 90,
        }
    }
}

} // verus!
