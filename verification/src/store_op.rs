//! What the walk asks the store to write.

use crate::lang::Lang;
use crate::model::{ChangeKind, CommitId, FileId, Resolution};
use crate::open_edges::EdgeKey;
use crate::vcs;
use vstd::prelude::*;

verus! {

pub enum StoreOp {
    /// Detach the current path of a file that leaves it in this commit.
    ClearPath { file: FileId },
    InsertFile { file: FileId, path: String, lang: Option<Lang>, born: CommitId },
    /// The file is gone: its current path, and its open path span.
    FileDied { file: FileId, at: CommitId },
    Resurrect { file: FileId, path: String, at: CommitId },
    /// The open path span ends and one for the new path begins.
    Rename { file: FileId, path: String, at: CommitId, confidence: u8 },
    SetLang { file: FileId, lang: Option<Lang> },
    Touch {
        commit: CommitId,
        file: FileId,
        change: ChangeKind,
        blob: Option<Vec<u8>>,
        lines_added: i64,
        lines_removed: i64,
        import_only: bool,
    },
    OpenSymbol { name: String, file: FileId, kind: String, at: CommitId },
    CloseSymbol { name: String, file: FileId, at: CommitId },
    /// Close every open symbol of a file.
    CloseSymbols { file: FileId, at: CommitId },
    /// Get or create the edge, keep the better resolution, open an interval.
    OpenEdge { edge: EdgeKey, resolution: Resolution, at: CommitId },
    /// Open an interval of an edge that exists.
    ReopenEdge { edge: EdgeKey, at: CommitId },
    /// Close the open interval of an edge.
    CloseEdge { edge: EdgeKey, at: CommitId },
}

#[verifier::ext_equal]
pub enum OpView {
    ClearPath { file: FileId },
    InsertFile { file: FileId, path: Seq<char>, lang: Option<Lang>, born: CommitId },
    FileDied { file: FileId, at: CommitId },
    Resurrect { file: FileId, path: Seq<char>, at: CommitId },
    Rename { file: FileId, path: Seq<char>, at: CommitId, confidence: u8 },
    SetLang { file: FileId, lang: Option<Lang> },
    Touch {
        commit: CommitId,
        file: FileId,
        change: ChangeKind,
        blob: Option<Seq<u8>>,
        lines_added: i64,
        lines_removed: i64,
        import_only: bool,
    },
    OpenSymbol { name: Seq<char>, file: FileId, kind: Seq<char>, at: CommitId },
    CloseSymbol { name: Seq<char>, file: FileId, at: CommitId },
    CloseSymbols { file: FileId, at: CommitId },
    OpenEdge { edge: EdgeKey, resolution: Resolution, at: CommitId },
    ReopenEdge { edge: EdgeKey, at: CommitId },
    CloseEdge { edge: EdgeKey, at: CommitId },
}

impl View for StoreOp {
    type V = OpView;

    open spec fn view(&self) -> OpView {
        match *self {
            StoreOp::ClearPath { file } => OpView::ClearPath { file },
            StoreOp::InsertFile { file, path, lang, born } => OpView::InsertFile { file, path: path@, lang, born },
            StoreOp::FileDied { file, at } => OpView::FileDied { file, at },
            StoreOp::Resurrect { file, path, at } => OpView::Resurrect { file, path: path@, at },
            StoreOp::Rename { file, path, at, confidence } => OpView::Rename { file, path: path@, at, confidence },
            StoreOp::SetLang { file, lang } => OpView::SetLang { file, lang },
            StoreOp::Touch { commit, file, change, blob, lines_added, lines_removed, import_only } => OpView::Touch {
                commit,
                file,
                change,
                blob: vcs::blob_view(blob),
                lines_added,
                lines_removed,
                import_only,
            },
            StoreOp::OpenSymbol { name, file, kind, at } => OpView::OpenSymbol { name: name@, file, kind: kind@, at },
            StoreOp::CloseSymbol { name, file, at } => OpView::CloseSymbol { name: name@, file, at },
            StoreOp::CloseSymbols { file, at } => OpView::CloseSymbols { file, at },
            StoreOp::OpenEdge { edge, resolution, at } => OpView::OpenEdge { edge, resolution, at },
            StoreOp::ReopenEdge { edge, at } => OpView::ReopenEdge { edge, at },
            StoreOp::CloseEdge { edge, at } => OpView::CloseEdge { edge, at },
        }
    }
}

pub open spec fn op_views(s: Seq<StoreOp>) -> Seq<OpView> {
    s.map_values(|o: StoreOp| o@)
}

pub proof fn lemma_ops_push(s: Seq<StoreOp>, x: StoreOp)
    ensures
        op_views(s.push(x)) == op_views(s).push(x@),
{
    assert(op_views(s.push(x)) =~= op_views(s).push(x@));
}

/// The resolution that an edge is stored under once it was resolved again:
/// the more exact one.
pub open spec fn kept_resolution(stored: i64, found: Resolution) -> int {
    if found.code() < stored {
        found.code()
    } else {
        stored as int
    }
}

/// Whether the stored resolution of an edge gives way, and to what.
pub fn finer(stored: i64, found: Resolution) -> (r: Option<i64>)
    ensures
        match r {
            Some(n) => n < stored && n == kept_resolution(stored, found),
            None => stored == kept_resolution(stored, found),
        },
{
    let n = found.to_i64();
    if n < stored {
        Some(n)
    } else {
        None
    }
}

/// Law: resolving an edge again in another order leaves the same resolution,
/// which is none of those that are less exact.
pub proof fn resolutions_only_sharpen(stored: Resolution, a: Resolution, b: Resolution)
    ensures
        kept_resolution(kept_resolution(stored.code() as i64, a) as i64, b) == kept_resolution(
            kept_resolution(stored.code() as i64, b) as i64,
            a,
        ),
        kept_resolution(stored.code() as i64, a) <= stored.code(),
        kept_resolution(stored.code() as i64, a) <= a.code(),
{
}

} // verus!
