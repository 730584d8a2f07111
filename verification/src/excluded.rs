//! Bitflags recording why a commit was excluded from co-change metrics.

use vstd::prelude::*;

verus! {

pub const TOO_LARGE: i64 = 1;

pub const MECHANICAL: i64 = 2;

pub const VENDORED: i64 = 4;

pub const MERGE: i64 = 8;

} // verus!
