//! The edges that are open at a point of the walk, kept in order.

use crate::model::{EdgeKind, FileId, Resolution};
use crate::tables;
use vstd::prelude::*;

verus! {

/// What identifies an edge.
#[derive(Debug, Clone, Copy, PartialEq, Eq, Structural)]
pub struct EdgeKey {
    pub src: FileId,
    pub dst: FileId,
    pub kind: EdgeKind,
}

/// Edges are ordered by source, target and kind.
pub open spec fn key_before(a: EdgeKey, b: EdgeKey) -> bool {
    a.src.0 < b.src.0 || (a.src == b.src && (a.dst.0 < b.dst.0 || (a.dst == b.dst && a.kind.code() < b.kind.code())))
}

/// Strictly increasing.
pub open spec fn keys_increasing(s: Seq<EdgeKey>) -> bool {
    forall|i: int, j: int| 0 <= i < j < s.len() ==> #[trigger] key_before(s[i], s[j])
}

/// The edges of a set in order.
pub open spec fn keys_in_order(set: Set<EdgeKey>) -> Seq<EdgeKey> {
    choose|s: Seq<EdgeKey>| #[trigger] keys_increasing(s) && s.to_set() == set
}

/// The edges out of a file.
pub open spec fn out_of(set: Set<EdgeKey>, id: FileId) -> Set<EdgeKey> {
    set.filter(|e: EdgeKey| e.src == id)
}

/// The edges into a file from other files.
pub open spec fn into(set: Set<EdgeKey>, id: FileId) -> Set<EdgeKey> {
    set.filter(|e: EdgeKey| e.dst == id && e.src != id)
}

/// The edges that have nothing to do with a file.
pub open spec fn apart_from(set: Set<EdgeKey>, id: FileId) -> Set<EdgeKey> {
    set.filter(|e: EdgeKey| e.src != id && e.dst != id)
}

/// A set has one ordered list.
pub proof fn lemma_order_unique(a: Seq<EdgeKey>, b: Seq<EdgeKey>)
    requires
        keys_increasing(a),
        keys_increasing(b),
        a.to_set() == b.to_set(),
    ensures
        a == b,
    decreases a.len(),
{
    if a.len() == 0 {
        if b.len() > 0 {
            assert(b.to_set().contains(b[0]));
            assert(a.to_set().contains(b[0]));
        }
        assert(a =~= b);
    } else {
        assert(a.to_set().contains(a.last()));
        assert(b.to_set().contains(a.last()));
        assert(b.len() > 0);
        assert(b.to_set().contains(b.last()));
        assert(a.to_set().contains(b.last()));
        let x = a.index_of(b.last());
        let y = b.index_of(a.last());
        if a.last() != b.last() {
            assert(key_before(a[x], a[a.len() - 1]));
            assert(key_before(b[y], b[b.len() - 1]));
        }
        let da = a.drop_last();
        let db = b.drop_last();
        assert(keys_increasing(da)) by {
            assert forall|i: int, j: int| 0 <= i < j < da.len() implies #[trigger] key_before(da[i], da[j]) by {
                assert(key_before(a[i], a[j]));
            }
        }
        assert(keys_increasing(db)) by {
            assert forall|i: int, j: int| 0 <= i < j < db.len() implies #[trigger] key_before(db[i], db[j]) by {
                assert(key_before(b[i], b[j]));
            }
        }
        assert(da.to_set() =~= db.to_set()) by {
            assert forall|e: EdgeKey| da.to_set().contains(e) <==> db.to_set().contains(e) by {
                if da.contains(e) {
                    let i = da.index_of(e);
                    assert(a[i] == e);
                    assert(key_before(a[i], a[a.len() - 1]));
                    assert(a.to_set().contains(e));
                    assert(b.to_set().contains(e));
                    let j = b.index_of(e);
                    assert(j < b.len() - 1);
                    assert(db[j] == e);
                }
                if db.contains(e) {
                    let i = db.index_of(e);
                    assert(b[i] == e);
                    assert(key_before(b[i], b[b.len() - 1]));
                    assert(b.to_set().contains(e));
                    assert(a.to_set().contains(e));
                    let j = a.index_of(e);
                    assert(j < a.len() - 1);
                    assert(da[j] == e);
                }
            }
        }
        lemma_order_unique(da, db);
        assert(a =~= da.push(a.last()));
        assert(b =~= db.push(b.last()));
    }
}

/// An ordered list is the order of what it lists.
pub proof fn lemma_in_order(s: Seq<EdgeKey>)
    requires
        keys_increasing(s),
    ensures
        keys_in_order(s.to_set()) == s,
{
    let t = keys_in_order(s.to_set());
    assert(keys_increasing(s) && s.to_set() == s.to_set());
    lemma_order_unique(t, s);
}

proof fn order_with(s: Seq<EdgeKey>, e: EdgeKey) -> (r: Seq<EdgeKey>)
    requires
        keys_increasing(s),
    ensures
        keys_increasing(r),
        r.to_set() == s.to_set().insert(e),
    decreases s.len(),
{
    if s.len() == 0 {
        let r = seq![e];
        assert(r.to_set() =~= s.to_set().insert(e)) by {
            assert forall|x: EdgeKey| r.to_set().contains(x) <==> s.to_set().insert(e).contains(x) by {
                if x == e {
                    assert(r[0] == x);
                }
            }
        }
        r
    } else if s.last() == e {
        assert(s.to_set().contains(e));
        assert(s.to_set().insert(e) =~= s.to_set());
        s
    } else {
        let d = s.drop_last();
        assert forall|i: int, j: int| 0 <= i < j < d.len() implies #[trigger] key_before(d[i], d[j]) by {
            assert(key_before(s[i], s[j]));
        }
        if key_before(s.last(), e) {
            let r = s.push(e);
            assert forall|i: int, j: int| 0 <= i < j < r.len() implies #[trigger] key_before(r[i], r[j]) by {
                if j < s.len() {
                    assert(key_before(s[i], s[j]));
                } else if i < s.len() - 1 {
                    assert(key_before(s[i], s[s.len() - 1]));
                }
            }
            lemma_push_set(s, e);
            r
        } else {
            let b = order_with(d, e);
            let r = b.push(s.last());
            assert forall|i: int, j: int| 0 <= i < j < r.len() implies #[trigger] key_before(r[i], r[j]) by {
                if j < b.len() {
                    assert(key_before(b[i], b[j]));
                } else {
                    assert(b.to_set().contains(b[i]));
                    if b[i] != e {
                        assert(d.to_set().contains(b[i]));
                        let k = d.index_of(b[i]);
                        assert(key_before(s[k], s[s.len() - 1]));
                    }
                }
            }
            lemma_push_set(b, s.last());
            lemma_push_set(d, s.last());
            assert(s =~= d.push(s.last()));
            assert(r.to_set() =~= s.to_set().insert(e));
            r
        }
    }
}

pub proof fn lemma_push_set(s: Seq<EdgeKey>, e: EdgeKey)
    ensures
        s.push(e).to_set() == s.to_set().insert(e),
{
    assert forall|x: EdgeKey| s.push(e).to_set().contains(x) <==> s.to_set().insert(e).contains(x) by {
        if s.contains(x) {
            assert(s.push(e)[s.index_of(x)] == x);
        }
        if x == e {
            assert(s.push(e)[s.len() as int] == x);
        }
    }
    assert(s.push(e).to_set() =~= s.to_set().insert(e));
}

proof fn some_order(set: Set<EdgeKey>) -> (r: Seq<EdgeKey>)
    requires
        set.finite(),
    ensures
        keys_increasing(r),
        r.to_set() == set,
    decreases set.len(),
{
    if set.len() == 0 {
        let r = Seq::<EdgeKey>::empty();
        assert(r.to_set() =~= set);
        r
    } else {
        let e = set.choose();
        let b = some_order(set.remove(e));
        let r = order_with(b, e);
        assert(r.to_set() =~= set);
        r
    }
}

/// A finite set of edges has an ordered list of exactly its edges.
pub proof fn lemma_ordered(set: Set<EdgeKey>)
    requires
        set.finite(),
    ensures
        keys_increasing(keys_in_order(set)),
        keys_in_order(set).to_set() == set,
{
    let s = some_order(set);
    assert(keys_increasing(s) && s.to_set() == set);
}

/// The edges found for one file in order.
pub open spec fn edges_in_order(set: Set<(FileId, EdgeKind, Resolution)>) -> Seq<(FileId, EdgeKind, Resolution)> {
    choose|s: Seq<(FileId, EdgeKind, Resolution)>| #[trigger] tables::edges_increasing(s) && s.to_set() == set
}

/// A set of found edges has one ordered list.
pub proof fn lemma_found_unique(a: Seq<(FileId, EdgeKind, Resolution)>, b: Seq<(FileId, EdgeKind, Resolution)>)
    requires
        tables::edges_increasing(a),
        tables::edges_increasing(b),
        a.to_set() == b.to_set(),
    ensures
        a == b,
    decreases a.len(),
{
    if a.len() == 0 {
        if b.len() > 0 {
            assert(b.to_set().contains(b[0]));
            assert(a.to_set().contains(b[0]));
        }
        assert(a =~= b);
    } else {
        assert(a.to_set().contains(a.last()));
        assert(b.to_set().contains(a.last()));
        assert(b.len() > 0);
        assert(b.to_set().contains(b.last()));
        assert(a.to_set().contains(b.last()));
        let x = a.index_of(b.last());
        let y = b.index_of(a.last());
        assert(a.last() == b.last()) by {
            if x < a.len() - 1 {
                assert(tables::edge_rank(a[x]) < tables::edge_rank(a[a.len() - 1]));
                if y < b.len() - 1 {
                    assert(tables::edge_rank(b[y]) < tables::edge_rank(b[b.len() - 1]));
                }
            }
        }
        let da = a.drop_last();
        let db = b.drop_last();
        assert(da.to_set() =~= db.to_set()) by {
            assert forall|e: (FileId, EdgeKind, Resolution)| da.to_set().contains(e) <==> db.to_set().contains(
                e,
            ) by {
                if da.contains(e) {
                    let i = da.index_of(e);
                    assert(a[i] == e);
                    assert(tables::edge_rank(a[i]) < tables::edge_rank(a[a.len() - 1]));
                    assert(a.to_set().contains(e));
                    assert(b.to_set().contains(e));
                    let j = b.index_of(e);
                    assert(j < b.len() - 1);
                    assert(db[j] == e);
                }
                if db.contains(e) {
                    let i = db.index_of(e);
                    assert(b[i] == e);
                    assert(tables::edge_rank(b[i]) < tables::edge_rank(b[b.len() - 1]));
                    assert(b.to_set().contains(e));
                    assert(a.to_set().contains(e));
                    let j = a.index_of(e);
                    assert(j < a.len() - 1);
                    assert(da[j] == e);
                }
            }
        }
        lemma_found_unique(da, db);
        assert(a =~= da.push(a.last()));
        assert(b =~= db.push(b.last()));
    }
}

/// An ordered list of found edges is the order of what it lists.
pub proof fn lemma_found_in_order(s: Seq<(FileId, EdgeKind, Resolution)>)
    requires
        tables::edges_increasing(s),
    ensures
        edges_in_order(s.to_set()) == s,
{
    let t = edges_in_order(s.to_set());
    assert(tables::edges_increasing(s) && s.to_set() == s.to_set());
    lemma_found_unique(t, s);
}

proof fn found_order_with(s: Seq<(FileId, EdgeKind, Resolution)>, e: (FileId, EdgeKind, Resolution)) -> (r: Seq<
    (FileId, EdgeKind, Resolution),
>)
    requires
        tables::edges_increasing(s),
    ensures
        tables::edges_increasing(r),
        r.to_set() == s.to_set().insert(e),
    decreases s.len(),
{
    if s.len() == 0 {
        let r = seq![e];
        assert(r.to_set() =~= s.to_set().insert(e)) by {
            assert(r[0] == e);
        }
        r
    } else if s.last() == e {
        assert(s.to_set().contains(e));
        assert(s.to_set().insert(e) =~= s.to_set());
        s
    } else if tables::edge_rank(s.last()) < tables::edge_rank(e) {
        let r = s.push(e);
        assert forall|i: int, j: int| 0 <= i < j < r.len() implies tables::edge_rank(#[trigger] r[i])
            < tables::edge_rank(#[trigger] r[j]) by {
            if j == s.len() && i < s.len() - 1 {
                assert(tables::edge_rank(s[i]) < tables::edge_rank(s[s.len() - 1]));
            }
        }
        lemma_found_push_set(s, e);
        r
    } else {
        tables::rank_identifies(s.last(), e);
        let d = s.drop_last();
        let b = found_order_with(d, e);
        let r = b.push(s.last());
        assert forall|i: int, j: int| 0 <= i < j < r.len() implies tables::edge_rank(#[trigger] r[i])
            < tables::edge_rank(#[trigger] r[j]) by {
            if j == b.len() {
                assert(b.to_set().contains(b[i]));
                if b[i] != e {
                    assert(d.to_set().contains(b[i]));
                    let k = d.index_of(b[i]);
                    assert(tables::edge_rank(s[k]) < tables::edge_rank(s[s.len() - 1]));
                }
            }
        }
        lemma_found_push_set(b, s.last());
        lemma_found_push_set(d, s.last());
        assert(s =~= d.push(s.last()));
        assert(r.to_set() =~= s.to_set().insert(e));
        r
    }
}

proof fn lemma_found_push_set(s: Seq<(FileId, EdgeKind, Resolution)>, e: (FileId, EdgeKind, Resolution))
    ensures
        s.push(e).to_set() == s.to_set().insert(e),
{
    assert forall|x: (FileId, EdgeKind, Resolution)| s.push(e).to_set().contains(x) <==> s.to_set().insert(
        e,
    ).contains(x) by {
        if s.contains(x) {
            assert(s.push(e)[s.index_of(x)] == x);
        }
        if x == e {
            assert(s.push(e)[s.len() as int] == x);
        }
    }
    assert(s.push(e).to_set() =~= s.to_set().insert(e));
}

proof fn some_found_order(set: Set<(FileId, EdgeKind, Resolution)>) -> (r: Seq<(FileId, EdgeKind, Resolution)>)
    requires
        set.finite(),
    ensures
        tables::edges_increasing(r),
        r.to_set() == set,
    decreases set.len(),
{
    if set.len() == 0 {
        let r = Seq::<(FileId, EdgeKind, Resolution)>::empty();
        assert(r.to_set() =~= set);
        r
    } else {
        let e = set.choose();
        let b = some_found_order(set.remove(e));
        let r = found_order_with(b, e);
        assert(r.to_set() =~= set);
        r
    }
}

/// A finite set of found edges has an ordered list of exactly its edges.
pub proof fn lemma_found_ordered(set: Set<(FileId, EdgeKind, Resolution)>)
    requires
        set.finite(),
    ensures
        tables::edges_increasing(edges_in_order(set)),
        edges_in_order(set).to_set() == set,
{
    let s = some_found_order(set);
    assert(tables::edges_increasing(s) && s.to_set() == set);
}

/// The open edges, each once, in order.
pub struct OpenEdges {
    keys: Vec<EdgeKey>,
}

impl View for OpenEdges {
    type V = Set<EdgeKey>;

    closed spec fn view(&self) -> Set<EdgeKey> {
        self.keys@.to_set()
    }
}

fn comes_before(a: EdgeKey, b: EdgeKey) -> (r: bool)
    ensures
        r == key_before(a, b),
{
    a.src.0 < b.src.0 || (a.src.0 == b.src.0 && (a.dst.0 < b.dst.0 || (a.dst.0 == b.dst.0 && a.kind.to_i64()
        < b.kind.to_i64())))
}

/// Elements kept from an ordered list stay in order.
pub proof fn lemma_kept_push(kept: Seq<EdgeKey>, s: Seq<EdgeKey>, i: int)
    requires
        keys_increasing(s),
        0 <= i < s.len(),
        keys_increasing(kept),
        forall|k: int| 0 <= k < kept.len() ==> s.take(i).contains(#[trigger] kept[k]),
    ensures
        keys_increasing(kept.push(s[i])),
{
    let n = kept.push(s[i]);
    assert forall|x: int, y: int| 0 <= x < y < n.len() implies #[trigger] key_before(n[x], n[y]) by {
        if y < kept.len() {
            assert(key_before(kept[x], kept[y]));
        } else {
            assert(s.take(i).contains(kept[x]));
            let m = s.take(i).index_of(kept[x]);
            assert(key_before(s[m], s[i]));
        }
    }
}

/// Which edges a scan keeps.
pub enum Pick {
    OutOf(FileId),
    Into(FileId),
    ApartFrom(FileId),
    NotOutOf(FileId),
}

impl Pick {
    pub open spec fn keeps(self, e: EdgeKey) -> bool {
        match self {
            Pick::OutOf(id) => e.src == id,
            Pick::Into(id) => e.dst == id && e.src != id,
            Pick::ApartFrom(id) => e.src != id && e.dst != id,
            Pick::NotOutOf(id) => e.src != id,
        }
    }

    pub fn holds(&self, e: EdgeKey) -> (r: bool)
        ensures
            r == self.keeps(e),
    {
        match self {
            Pick::OutOf(id) => e.src == *id,
            Pick::Into(id) => e.dst == *id && e.src != *id,
            Pick::ApartFrom(id) => e.src != *id && e.dst != *id,
            Pick::NotOutOf(id) => e.src != *id,
        }
    }
}

impl OpenEdges {
    pub closed spec fn wf(&self) -> bool {
        keys_increasing(self.keys@)
    }

    pub fn new() -> (r: Self)
        ensures
            r.wf(),
            r@ == Set::<EdgeKey>::empty(),
    {
        let r = OpenEdges { keys: Vec::new() };
        assert(r@ =~= Set::<EdgeKey>::empty());
        r
    }

    pub fn contains(&self, e: EdgeKey) -> (r: bool)
        ensures
            r == self@.contains(e),
    {
        let mut i: usize = 0;
        while i < self.keys.len()
            invariant
                i <= self.keys@.len(),
                forall|k: int| 0 <= k < i ==> self.keys@[k] != e,
            decreases self.keys@.len() - i,
        {
            if self.keys[i] == e {
                assert(self.keys@.contains(e));
                return true;
            }
            i += 1;
        }
        false
    }

    fn scan(&self, pick: &Pick) -> (r: Vec<EdgeKey>)
        requires
            self.wf(),
        ensures
            keys_increasing(r@),
            r@.to_set() == self@.filter(|e: EdgeKey| pick.keeps(e)),
    {
        let ghost s = self.keys@;
        let mut out: Vec<EdgeKey> = Vec::new();
        let mut i: usize = 0;
        while i < self.keys.len()
            invariant
                i <= self.keys@.len(),
                s == self.keys@,
                keys_increasing(s),
                keys_increasing(out@),
                forall|e: EdgeKey| #[trigger] out@.contains(e) <==> pick.keeps(e) && s.take(i as int).contains(e),
            decreases self.keys@.len() - i,
        {
            let e = self.keys[i];
            let ghost before = out@;
            proof {
                assert forall|k: int| 0 <= k < before.len() implies s.take(i as int).contains(#[trigger] before[k]) by {
                    assert(before.contains(before[k]));
                }
                lemma_kept_push(out@, s, i as int);
                assert(s.take(i + 1) =~= s.take(i as int).push(s[i as int]));
            }
            if pick.holds(e) {
                out.push(e);
            }
            proof {
                let t = s.take(i as int);
                assert forall|x: EdgeKey| #[trigger] out@.contains(x) <==> pick.keeps(x) && s.take(i + 1).contains(
                    x,
                ) by {
                    if before.contains(x) {
                        let k = before.index_of(x);
                        assert(out@[k] == x);
                    }
                    if t.contains(x) {
                        let k = t.index_of(x);
                        assert(t.push(e)[k] == x);
                    }
                    if x == e {
                        assert(t.push(e)[t.len() as int] == x);
                        if pick.keeps(e) {
                            assert(out@[before.len() as int] == x);
                        }
                    }
                }
            }
            i += 1;
        }
        assert(s.take(i as int) =~= s);
        assert(out@.to_set() =~= self@.filter(|e: EdgeKey| pick.keeps(e)));
        out
    }

    /// The edges out of a file.
    pub fn outs(&self, id: FileId) -> (r: Vec<EdgeKey>)
        requires
            self.wf(),
        ensures
            r@ == keys_in_order(out_of(self@, id)),
            keys_increasing(r@),
            r@.to_set() == out_of(self@, id),
    {
        let pick = Pick::OutOf(id);
        let r = self.scan(&pick);
        proof {
            lemma_in_order(r@);
            assert(self@.filter(|e: EdgeKey| pick.keeps(e)) =~= out_of(self@, id));
        }
        r
    }

    /// The edges into a file from other files.
    pub fn ins(&self, id: FileId) -> (r: Vec<EdgeKey>)
        requires
            self.wf(),
        ensures
            r@ == keys_in_order(into(self@, id)),
            r@.to_set() == into(self@, id),
    {
        let pick = Pick::Into(id);
        let r = self.scan(&pick);
        proof {
            lemma_in_order(r@);
            assert(self@.filter(|e: EdgeKey| pick.keeps(e)) =~= into(self@, id));
        }
        r
    }

    /// Close every edge at a file.
    pub fn drop_file(&mut self, id: FileId)
        requires
            old(self).wf(),
        ensures
            final(self).wf(),
            final(self)@ == apart_from(old(self)@, id),
    {
        let ghost before = self@;
        let pick = Pick::ApartFrom(id);
        let kept = self.scan(&pick);
        self.keys = kept;
        assert(self@ =~= apart_from(before, id));
    }

    /// Close every edge out of a file.
    pub fn drop_outs(&mut self, id: FileId)
        requires
            old(self).wf(),
        ensures
            final(self).wf(),
            final(self)@ == old(self)@.difference(out_of(old(self)@, id)),
    {
        let ghost before = self@;
        let pick = Pick::NotOutOf(id);
        let kept = self.scan(&pick);
        self.keys = kept;
        assert(self@ =~= before.difference(out_of(before, id)));
    }

    /// Open an edge.
    pub fn insert(&mut self, e: EdgeKey)
        requires
            old(self).wf(),
        ensures
            final(self).wf(),
            final(self)@ == old(self)@.insert(e),
    {
        let ghost s = self.keys@;
        let mut i: usize = self.keys.len();
        while i > 0 && comes_before(e, self.keys[i - 1])
            invariant
                i <= self.keys@.len(),
                self.keys@ == s,
                forall|j: int| i <= j < s.len() ==> key_before(e, #[trigger] s[j]),
            decreases i,
        {
            i -= 1;
        }
        if i > 0 && self.keys[i - 1] == e {
            proof {
                assert(s.to_set().contains(e));
                assert(s.to_set().insert(e) =~= s.to_set());
            }
            return ;
        }
        self.keys.insert(i, e);
        proof {
            let n = self.keys@;
            assert(n =~= s.insert(i as int, e));
            assert forall|a: int, b: int| 0 <= a < b < n.len() implies #[trigger] key_before(n[a], n[b]) by {
                let x = if a < i { a } else { a - 1 };
                let y = if b < i { b } else { b - 1 };
                if a != i && b != i {
                    assert(key_before(s[x], s[y]));
                } else if b == i {
                    if a < i - 1 {
                        assert(key_before(s[a], s[i - 1]));
                    }
                }
            }
            assert(n.to_set() =~= s.to_set().insert(e)) by {
                assert forall|x: EdgeKey| n.to_set().contains(x) <==> s.to_set().insert(e).contains(x) by {
                    if s.contains(x) {
                        let a = s.index_of(x);
                        if a < i {
                            assert(n[a] == x);
                        } else {
                            assert(n[a + 1] == x);
                        }
                    }
                    if n.contains(x) {
                        let a = n.index_of(x);
                        if a < i {
                            assert(s[a] == x);
                        } else if a > i {
                            assert(s[a - 1] == x);
                        }
                    }
                    if x == e {
                        assert(n[i as int] == x);
                    }
                }
            }
        }
    }
}

} // verus!
