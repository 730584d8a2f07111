//! Domain types: identities, the kinds of edges and changes, and evidence.

use crate::text;
use vstd::prelude::*;

verus! {

/// Dense internal id for a file identity that survives renames.
#[derive(Debug, Clone, Copy, PartialEq, Eq, Structural, Hash, PartialOrd, Ord)]
pub struct FileId(pub i64);

/// Dense internal id for a commit, ordered oldest to newest along the walk.
#[derive(Debug, Clone, Copy, PartialEq, Eq, Structural, Hash, PartialOrd, Ord)]
pub struct CommitId(pub i64);

#[derive(Debug, Clone, Copy, PartialEq, Eq, Structural, Hash, PartialOrd, Ord)]
pub enum EdgeKind {
    Import,
    Call,
    TypeRef,
    DocRef,
    Reexport,
}

impl EdgeKind {
    /// The number an edge kind is stored under.
    pub open spec fn code(self) -> int {
        match self {
            EdgeKind::Import => 0,
            EdgeKind::Call => 1,
            EdgeKind::TypeRef => 2,
            EdgeKind::DocRef => 3,
            EdgeKind::Reexport => 4,
        }
    }

    /// The word an edge kind is written as.
    pub open spec fn name(self) -> Seq<char> {
        match self {
            EdgeKind::Import => "import"@,
            EdgeKind::Call => "call"@,
            EdgeKind::TypeRef => "typeref"@,
            EdgeKind::DocRef => "docref"@,
            EdgeKind::Reexport => "reexport"@,
        }
    }

    pub fn to_i64(self) -> (r: i64)
        ensures
            r == self.code(),
    {
        match self {
            EdgeKind::Import => 0,
            EdgeKind::Call => 1,
            EdgeKind::TypeRef => 2,
            EdgeKind::DocRef => 3,
            EdgeKind::Reexport => 4,
        }
    }

    pub fn from_i64(v: i64) -> (r: Option<Self>)
        ensures
            match r {
                Some(k) => k.code() == v,
                None => forall|k: EdgeKind| #[trigger] k.code() != v,
            },
    {
        match v {
            0 => Some(EdgeKind::Import),
            1 => Some(EdgeKind::Call),
            2 => Some(EdgeKind::TypeRef),
            3 => Some(EdgeKind::DocRef),
            4 => Some(EdgeKind::Reexport),
            _ => None,
        }
    }

    pub fn as_str(self) -> (r: &'static str)
        ensures
            r@ == self.name(),
    {
        match self {
            EdgeKind::Import => "import",
            EdgeKind::Call => "call",
            EdgeKind::TypeRef => "typeref",
            EdgeKind::DocRef => "docref",
            EdgeKind::Reexport => "reexport",
        }
    }

    pub fn parse(s: &str) -> (r: Option<Self>)
        ensures
            match r {
                Some(k) => k.name() == s@,
                None => forall|k: EdgeKind| #[trigger] k.name() != s@,
            },
    {
        if text::eq_str(s, "import") {
            Some(EdgeKind::Import)
        } else if text::eq_str(s, "call") {
            Some(EdgeKind::Call)
        } else if text::eq_str(s, "typeref") {
            Some(EdgeKind::TypeRef)
        } else if text::eq_str(s, "docref") {
            Some(EdgeKind::DocRef)
        } else if text::eq_str(s, "reexport") {
            Some(EdgeKind::Reexport)
        } else {
            None
        }
    }
}

/// How an edge target was resolved. Lower is more exact.
#[derive(Debug, Clone, Copy, PartialEq, Eq, Structural, Hash, PartialOrd, Ord)]
pub enum Resolution {
    PathExact,
    SymbolName,
    Heuristic,
}

impl Resolution {
    /// The number a resolution is stored under.
    pub open spec fn code(self) -> int {
        match self {
            Resolution::PathExact => 0,
            Resolution::SymbolName => 1,
            Resolution::Heuristic => 2,
        }
    }

    /// The word a resolution is written as.
    pub open spec fn name(self) -> Seq<char> {
        match self {
            Resolution::PathExact => "path-exact"@,
            Resolution::SymbolName => "symbol-name"@,
            Resolution::Heuristic => "heuristic"@,
        }
    }

    pub fn to_i64(self) -> (r: i64)
        ensures
            r == self.code(),
    {
        match self {
            Resolution::PathExact => 0,
            Resolution::SymbolName => 1,
            Resolution::Heuristic => 2,
        }
    }

    pub fn from_i64(v: i64) -> (r: Option<Self>)
        ensures
            match r {
                Some(k) => k.code() == v,
                None => forall|k: Resolution| #[trigger] k.code() != v,
            },
    {
        match v {
            0 => Some(Resolution::PathExact),
            1 => Some(Resolution::SymbolName),
            2 => Some(Resolution::Heuristic),
            _ => None,
        }
    }

    pub fn as_str(self) -> (r: &'static str)
        ensures
            r@ == self.name(),
    {
        match self {
            Resolution::PathExact => "path-exact",
            Resolution::SymbolName => "symbol-name",
            Resolution::Heuristic => "heuristic",
        }
    }
}

/// Kind of change a commit made to a file.
#[derive(Debug, Clone, Copy, PartialEq, Eq, Structural)]
pub enum ChangeKind {
    Added,
    Modified,
    Deleted,
    Renamed,
}

impl ChangeKind {
    /// The number a change kind is stored under.
    pub open spec fn code(self) -> int {
        match self {
            ChangeKind::Added => 0,
            ChangeKind::Modified => 1,
            ChangeKind::Deleted => 2,
            ChangeKind::Renamed => 3,
        }
    }

    /// The letter a change kind is written as.
    pub open spec fn name(self) -> Seq<char> {
        match self {
            ChangeKind::Added => "A"@,
            ChangeKind::Modified => "M"@,
            ChangeKind::Deleted => "D"@,
            ChangeKind::Renamed => "R"@,
        }
    }

    pub fn to_i64(self) -> (r: i64)
        ensures
            r == self.code(),
    {
        match self {
            ChangeKind::Added => 0,
            ChangeKind::Modified => 1,
            ChangeKind::Deleted => 2,
            ChangeKind::Renamed => 3,
        }
    }

    pub fn from_i64(v: i64) -> (r: Option<Self>)
        ensures
            match r {
                Some(k) => k.code() == v,
                None => forall|k: ChangeKind| #[trigger] k.code() != v,
            },
    {
        match v {
            0 => Some(ChangeKind::Added),
            1 => Some(ChangeKind::Modified),
            2 => Some(ChangeKind::Deleted),
            3 => Some(ChangeKind::Renamed),
            _ => None,
        }
    }

    pub fn as_str(self) -> (r: &'static str)
        ensures
            r@ == self.name(),
    {
        match self {
            ChangeKind::Added => "A",
            ChangeKind::Modified => "M",
            ChangeKind::Deleted => "D",
            ChangeKind::Renamed => "R",
        }
    }
}

/// Which end of an edge the queried file is.
#[derive(Debug, Clone, Copy, PartialEq, Eq, Structural)]
pub enum Direction {
    Out,
    In,
}

/// Law: the stored number of an edge kind, resolution or change kind names it
/// alone, so reading back what was written gives the same value.
pub proof fn codes_identify(a: EdgeKind, b: EdgeKind, c: Resolution, d: Resolution, e: ChangeKind, f: ChangeKind)
    ensures
        a.code() == b.code() ==> a == b,
        c.code() == d.code() ==> c == d,
        e.code() == f.code() ==> e == f,
{
}

/// Law: the written word of an edge kind, resolution or change kind names it
/// alone.
pub proof fn names_identify(a: EdgeKind, b: EdgeKind, c: Resolution, d: Resolution, e: ChangeKind, f: ChangeKind)
    ensures
        a.name() == b.name() ==> a == b,
        c.name() == d.name() ==> c == d,
        e.name() == f.name() ==> e == f,
{
    reveal_strlit("import");
    reveal_strlit("call");
    reveal_strlit("typeref");
    reveal_strlit("docref");
    reveal_strlit("reexport");
    reveal_strlit("path-exact");
    reveal_strlit("symbol-name");
    reveal_strlit("heuristic");
    reveal_strlit("A");
    reveal_strlit("M");
    reveal_strlit("D");
    reveal_strlit("R");
    assert("A"@[0] == 'A' && "M"@[0] == 'M' && "D"@[0] == 'D' && "R"@[0] == 'R');
    assert("import"@.len() == 6 && "call"@.len() == 4 && "typeref"@.len() == 7 && "docref"@.len() == 6
        && "reexport"@.len() == 8);
    assert("path-exact"@.len() == 10 && "symbol-name"@.len() == 11 && "heuristic"@.len() == 9);
    assert("typeref"@[0] == 't' && "import"@[0] == 'i' && "docref"@[0] == 'd');
}

/// Law: an index keeps a kind as a number, counted from 0 in the order in which
/// the kinds are listed.
pub proof fn codes_count_kinds()
    ensures
        EdgeKind::Import.code() == 0,
        EdgeKind::Call.code() == 1,
        EdgeKind::TypeRef.code() == 2,
        EdgeKind::DocRef.code() == 3,
        EdgeKind::Reexport.code() == 4,
        Resolution::PathExact.code() == 0,
        Resolution::SymbolName.code() == 1,
        Resolution::Heuristic.code() == 2,
        ChangeKind::Added.code() == 0,
        ChangeKind::Modified.code() == 1,
        ChangeKind::Deleted.code() == 2,
        ChangeKind::Renamed.code() == 3,
{
}

} // verus!
