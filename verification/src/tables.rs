//! The tables that resolution reads and the walk keeps: live paths, the files
//! that define a symbol, crate roots, and the edges found for one file.

use crate::model::{EdgeKind, FileId, Resolution};
use crate::text;
use vstd::hash_map::StringHashMap;
use vstd::prelude::*;

verus! {

// ---- live paths ----

/// Where a path stands in a list of entries.
pub open spec fn key_at(o: Seq<(Seq<char>, FileId)>, k: Seq<char>) -> Option<int>
    decreases o.len(),
{
    if o.len() == 0 {
        None
    } else if o.last().0 == k {
        Some(o.len() - 1)
    } else {
        key_at(o.drop_last(), k)
    }
}

/// The entries once `k` leads to `v`: in its place, or at the end.
pub open spec fn entry_put(o: Seq<(Seq<char>, FileId)>, k: Seq<char>, v: FileId) -> Seq<(Seq<char>, FileId)> {
    match key_at(o, k) {
        Some(i) => o.update(i, (k, v)),
        None => o.push((k, v)),
    }
}

/// The entries without `k`.
pub open spec fn entry_drop(o: Seq<(Seq<char>, FileId)>, k: Seq<char>) -> Seq<(Seq<char>, FileId)> {
    match key_at(o, k) {
        Some(i) => o.remove(i),
        None => o,
    }
}

/// Live repo-relative paths and the files that have them, in the order in
/// which they came.
pub struct PathMap {
    entries: Vec<(String, FileId)>,
    index: StringHashMap<FileId>,
}

pub open spec fn entry_views(s: Seq<(String, FileId)>) -> Seq<(Seq<char>, FileId)> {
    s.map_values(|e: (String, FileId)| (e.0@, e.1))
}

/// The entries and the map say the same.
pub open spec fn entries_agree(o: Seq<(Seq<char>, FileId)>, m: Map<Seq<char>, FileId>) -> bool {
    &&& forall|i: int| 0 <= i < o.len() ==> m.contains_key((#[trigger] o[i]).0) && m[o[i].0] == o[i].1
    &&& forall|i: int, j: int| 0 <= i < j < o.len() ==> (#[trigger] o[i]).0 != (#[trigger] o[j]).0
    &&& forall|k: Seq<char>| #[trigger] m.contains_key(k) ==> key_at(o, k) is Some
}

impl View for PathMap {
    type V = Map<Seq<char>, FileId>;

    closed spec fn view(&self) -> Map<Seq<char>, FileId> {
        self.index@
    }
}

proof fn lemma_key_at(o: Seq<(Seq<char>, FileId)>, k: Seq<char>)
    ensures
        match key_at(o, k) {
            Some(i) => 0 <= i < o.len() && o[i].0 == k,
            None => forall|i: int| 0 <= i < o.len() ==> (#[trigger] o[i]).0 != k,
        },
    decreases o.len(),
{
    if o.len() > 0 {
        lemma_key_at(o.drop_last(), k);
        match key_at(o, k) {
            Some(i) => {},
            None => {
                assert forall|i: int| 0 <= i < o.len() implies (#[trigger] o[i]).0 != k by {
                    if i < o.len() - 1 {
                        assert(o.drop_last()[i] == o[i]);
                    }
                }
            },
        }
    }
}

/// A path that stands in the list has a place in it.
proof fn lemma_key_found(o: Seq<(Seq<char>, FileId)>, i: int)
    requires
        0 <= i < o.len(),
    ensures
        key_at(o, o[i].0) is Some,
{
    lemma_key_at(o, o[i].0);
}

/// Entries and map still say the same once a path leads to a file.
pub proof fn lemma_put_agrees(o: Seq<(Seq<char>, FileId)>, m: Map<Seq<char>, FileId>, k: Seq<char>, id: FileId)
    requires
        entries_agree(o, m),
    ensures
        entries_agree(entry_put(o, k, id), m.insert(k, id)),
{
    let n = entry_put(o, k, id);
    let r = m.insert(k, id);
    lemma_key_at(o, k);
    assert forall|q: Seq<char>| #[trigger] r.contains_key(q) implies key_at(n, q) is Some by {
        if q == k {
            match key_at(o, k) {
                Some(i) => {
                    assert(n[i].0 == k);
                    lemma_key_found(n, i);
                },
                None => {
                    assert(n[o.len() as int].0 == k);
                    lemma_key_found(n, o.len() as int);
                },
            }
        } else {
            assert(m.contains_key(q));
            lemma_key_at(o, q);
            let j = key_at(o, q).unwrap();
            assert(n[j].0 == q);
            lemma_key_found(n, j);
        }
    }
    assert forall|i: int| 0 <= i < n.len() implies r.contains_key((#[trigger] n[i]).0) && r[n[i].0] == n[i].1 by {
        if i < o.len() && n[i].0 != k {
            assert(n[i] == o[i]);
        }
    }
    assert forall|i: int, j: int| 0 <= i < j < n.len() implies (#[trigger] n[i]).0 != (#[trigger] n[j]).0 by {
        if i < o.len() {
            assert(n[i].0 == o[i].0);
        }
        if j < o.len() {
            assert(n[j].0 == o[j].0);
        }
    }
}

/// Entries and map still say the same once a path is taken out.
pub proof fn lemma_drop_agrees(o: Seq<(Seq<char>, FileId)>, m: Map<Seq<char>, FileId>, k: Seq<char>)
    requires
        entries_agree(o, m),
    ensures
        entries_agree(entry_drop(o, k), m.remove(k)),
{
    let n = entry_drop(o, k);
    let r = m.remove(k);
    let at = key_at(o, k);
    lemma_key_at(o, k);
    assert forall|q: Seq<char>| #[trigger] r.contains_key(q) implies key_at(n, q) is Some by {
        lemma_key_at(o, q);
        let j = key_at(o, q).unwrap();
        match at {
            Some(i) => {
                if j < i {
                    assert(n[j].0 == q);
                    lemma_key_found(n, j);
                } else {
                    assert(n[j - 1].0 == q);
                    lemma_key_found(n, j - 1);
                }
            },
            None => {
                assert(n[j].0 == q);
                lemma_key_found(n, j);
            },
        }
    }
    assert forall|i: int| 0 <= i < n.len() implies r.contains_key((#[trigger] n[i]).0) && r[n[i].0] == n[i].1 by {
        match at {
            Some(a) => {
                if i < a {
                    assert(n[i] == o[i]);
                    assert(o[i].0 != o[a].0);
                } else {
                    assert(n[i] == o[i + 1]);
                    assert(o[a].0 != o[i + 1].0);
                }
            },
            None => {
                assert(n[i] == o[i]);
            },
        }
    }
    assert forall|i: int, j: int| 0 <= i < j < n.len() implies (#[trigger] n[i]).0 != (#[trigger] n[j]).0 by {
        match at {
            Some(a) => {
                let x = if i < a { i } else { i + 1 };
                let y = if j < a { j } else { j + 1 };
                assert(n[i] == o[x] && n[j] == o[y]);
            },
            None => {},
        }
    }
}

impl PathMap {
    /// The entries in the order in which they came.
    pub closed spec fn order(&self) -> Seq<(Seq<char>, FileId)> {
        entry_views(self.entries@)
    }

    pub open spec fn wf(&self) -> bool {
        entries_agree(self.order(), self@)
    }

    pub fn new() -> (r: Self)
        ensures
            r@ == Map::<Seq<char>, FileId>::empty(),
            r.order() == Seq::<(Seq<char>, FileId)>::empty(),
            r.wf(),
    {
        let r = PathMap { entries: Vec::new(), index: StringHashMap::new() };
        assert(r.order() =~= Seq::<(Seq<char>, FileId)>::empty());
        r
    }

    pub fn get(&self, path: &str) -> (r: Option<FileId>)
        ensures
            match r {
                Some(id) => self@.contains_key(path@) && self@[path@] == id,
                None => !self@.contains_key(path@),
            },
    {
        match self.index.get(path) {
            Some(id) => Some(*id),
            None => None,
        }
    }

    pub fn contains_key(&self, path: &str) -> (r: bool)
        ensures
            r == self@.contains_key(path@),
    {
        self.index.contains_key(path)
    }

    pub fn len(&self) -> (r: usize)
        ensures
            r == self.order().len(),
    {
        self.entries.len()
    }

    /// The entry at a place.
    pub fn entry(&self, i: usize) -> (r: (&str, FileId))
        requires
            i < self.order().len(),
        ensures
            (r.0@, r.1) == self.order()[i as int],
    {
        let e = &self.entries[i];
        (e.0.as_str(), e.1)
    }

    fn place(&self, path: &str) -> (r: Option<usize>)
        ensures
            match r {
                Some(i) => key_at(self.order(), path@) == Some(i as int) && i < self.order().len(),
                None => key_at(self.order(), path@) is None,
            },
    {
        let ghost o = self.order();
        let mut i: usize = self.entries.len();
        assert(o.take(i as int) =~= o);
        while i > 0
            invariant
                i <= self.entries@.len(),
                o == self.order(),
                key_at(o, path@) == key_at(o.take(i as int), path@),
            decreases i,
        {
            assert(o.take(i as int).drop_last() =~= o.take(i - 1));
            assert(o[i - 1].0 == self.entries@[i - 1].0@);
            if text::eq_str(self.entries[i - 1].0.as_str(), path) {
                return Some(i - 1);
            }
            i -= 1;
        }
        None
    }

    /// Let a path lead to a file.
    pub fn insert(&mut self, path: String, id: FileId)
        requires
            old(self).wf(),
        ensures
            final(self).wf(),
            final(self)@ == old(self)@.insert(path@, id),
            final(self).order() == entry_put(old(self).order(), path@, id),
    {
        let ghost o = self.order();
        let ghost m = self@;
        let ghost k = path@;
        let at = self.place(path.as_str());
        proof {
            lemma_key_at(o, k);
        }
        match at {
            Some(i) => {
                self.entries.set(i, (path.clone(), id));
            },
            None => {
                self.entries.push((path.clone(), id));
            },
        }
        self.index.insert(path, id);
        proof {
            assert(self.order() =~= entry_put(o, k, id));
            lemma_put_agrees(o, m, k, id);
        }
    }

    /// Take a path out; gives the file that had it.
    pub fn remove(&mut self, path: &str) -> (r: Option<FileId>)
        requires
            old(self).wf(),
        ensures
            final(self).wf(),
            final(self)@ == old(self)@.remove(path@),
            final(self).order() == entry_drop(old(self).order(), path@),
            match r {
                Some(id) => old(self)@.contains_key(path@) && old(self)@[path@] == id,
                None => !old(self)@.contains_key(path@),
            },
    {
        let ghost o = self.order();
        let ghost m = self@;
        let ghost k = path@;
        proof {
            lemma_key_at(o, k);
        }
        let r = self.get(path);
        let at = self.place(path);
        match at {
            Some(i) => {
                self.entries.remove(i);
            },
            None => {},
        }
        self.index.remove(path);
        proof {
            assert(self.order() =~= entry_drop(o, k));
            lemma_drop_agrees(o, m, k);
        }
        r
    }

    /// Whether a file has a live path.
    pub fn has_file(&self, id: FileId) -> (r: bool)
        requires
            self.wf(),
        ensures
            r == self@.contains_value(id),
    {
        let mut i: usize = 0;
        while i < self.entries.len()
            invariant
                i <= self.entries@.len(),
                self.wf(),
                forall|k: int| 0 <= k < i ==> (#[trigger] self.order()[k]).1 != id,
            decreases self.entries@.len() - i,
        {
            if self.entries[i].1 == id {
                assert(self.order()[i as int].1 == id);
                assert(self@.contains_key(self.order()[i as int].0));
                return true;
            }
            i += 1;
        }
        proof {
            if self@.contains_value(id) {
                let k = choose|k: Seq<char>| #[trigger] self@.contains_key(k) && self@[k] == id;
                lemma_key_at(self.order(), k);
                let j = key_at(self.order(), k).unwrap();
                assert(self.order()[j].1 != id);
            }
        }
        false
    }
}

// ---- symbols ----

/// Symbol name to the live files that define it.
pub struct SymbolTable {
    names: StringHashMap<Vec<FileId>>,
}

impl View for SymbolTable {
    type V = Map<Seq<char>, Set<FileId>>;

    closed spec fn view(&self) -> Map<Seq<char>, Set<FileId>> {
        self.names@.map_values(|v: Vec<FileId>| v@.to_set())
    }
}

/// The files that define a name.
pub open spec fn definers(m: Map<Seq<char>, Set<FileId>>, name: Seq<char>) -> Set<FileId> {
    if m.contains_key(name) {
        m[name]
    } else {
        Set::empty()
    }
}

/// `t` alone defines a name besides `src`.
pub open spec fn sole_definer(set: Set<FileId>, src: FileId, t: FileId) -> bool {
    t != src && set.contains(t) && forall|u: FileId| #[trigger] set.contains(u) ==> u == src || u == t
}

/// The table once a file defines a name.
pub open spec fn symbol_added(m: Map<Seq<char>, Set<FileId>>, name: Seq<char>, id: FileId) -> Map<
    Seq<char>,
    Set<FileId>,
> {
    m.insert(name, definers(m, name).insert(id))
}

/// The table once a file no longer defines a name. A name that nothing
/// defines is gone.
pub open spec fn symbol_dropped(m: Map<Seq<char>, Set<FileId>>, name: Seq<char>, id: FileId) -> Map<
    Seq<char>,
    Set<FileId>,
> {
    if !m.contains_key(name) {
        m
    } else if m[name].remove(id) == Set::<FileId>::empty() {
        m.remove(name)
    } else {
        m.insert(name, m[name].remove(id))
    }
}

impl SymbolTable {
    pub fn new() -> (r: Self)
        ensures
            r@ == Map::<Seq<char>, Set<FileId>>::empty(),
    {
        let r = SymbolTable { names: StringHashMap::new() };
        assert(r@ =~= Map::<Seq<char>, Set<FileId>>::empty());
        r
    }

    pub fn add(&mut self, name: &str, id: FileId)
        ensures
            final(self)@ == symbol_added(old(self)@, name@, id),
    {
        let ghost before = self@;
        let mut v: Vec<FileId> = match self.names.get(name) {
            Some(v) => v.clone(),
            None => Vec::new(),
        };
        proof {
            if self.names@.contains_key(name@) {
                assert(v@ =~= self.names@[name@]@);
            }
        }
        let ghost v0 = v@;
        v.push(id);
        proof {
            assert(v@.to_set() =~= v0.to_set().insert(id)) by {
                assert forall|x: FileId| v@.to_set().contains(x) <==> v0.to_set().insert(id).contains(x) by {
                    if v0.contains(x) {
                        let k = v0.index_of(x);
                        assert(v@[k] == x);
                    }
                    if x == id {
                        assert(v@[v0.len() as int] == x);
                    }
                }
            }
            if !self.names@.contains_key(name@) {
                assert(v0.to_set() =~= Set::<FileId>::empty());
            }
        }
        self.names.insert(name.to_owned(), v);
        assert(self@ =~= symbol_added(before, name@, id));
    }

    pub fn remove(&mut self, name: &str, id: FileId)
        ensures
            final(self)@ == symbol_dropped(old(self)@, name@, id),
    {
        let ghost before = self@;
        let mut kept: Vec<FileId> = Vec::new();
        let present = match self.names.get(name) {
            Some(v) => {
                let mut i: usize = 0;
                while i < v.len()
                    invariant
                        i <= v@.len(),
                        forall|x: FileId|
                            #[trigger] kept@.contains(x) <==> x != id && v@.take(i as int).contains(x),
                    decreases v@.len() - i,
                {
                    let ghost k0 = kept@;
                    assert(v@.take(i + 1) =~= v@.take(i as int).push(v@[i as int]));
                    if v[i] != id {
                        kept.push(v[i]);
                    }
                    proof {
                        let t = v@.take(i as int);
                        let x0 = v@[i as int];
                        assert forall|x: FileId| #[trigger] kept@.contains(x) <==> x != id && v@.take(i + 1).contains(
                            x,
                        ) by {
                            if t.contains(x) {
                                let k = t.index_of(x);
                                assert(t.push(x0)[k] == x);
                            }
                            if k0.contains(x) {
                                let k = k0.index_of(x);
                                assert(kept@[k] == x);
                            }
                            if x == x0 {
                                assert(t.push(x0)[t.len() as int] == x);
                                if x != id {
                                    assert(kept@[k0.len() as int] == x);
                                }
                            }
                        }
                    }
                    i += 1;
                }
                assert(v@.take(i as int) =~= v@);
                true
            },
            None => false,
        };
        proof {
            if present {
                assert(kept@.to_set() =~= before[name@].remove(id));
                if kept@.len() == 0 {
                    assert(kept@.to_set() =~= Set::<FileId>::empty());
                } else {
                    assert(kept@.to_set().contains(kept@[0]));
                }
            }
        }
        if present {
            if kept.len() == 0 {
                self.names.remove(name);
            } else {
                self.names.insert(name.to_owned(), kept);
            }
        }
        assert(self@ =~= symbol_dropped(before, name@, id));
    }

    /// The one file besides `src` that defines a name.
    pub fn sole(&self, src: FileId, name: &str) -> (r: Option<FileId>)
        ensures
            match r {
                Some(t) => sole_definer(definers(self@, name@), src, t),
                None => forall|t: FileId| !#[trigger] sole_definer(definers(self@, name@), src, t),
            },
    {
        let ghost set = definers(self@, name@);
        let v = match self.names.get(name) {
            Some(v) => v,
            None => {
                return None;
            },
        };
        assert(set == v@.to_set());
        let mut first: Option<FileId> = None;
        let mut i: usize = 0;
        while i < v.len()
            invariant
                i <= v@.len(),
                set == v@.to_set(),
                set == definers(self@, name@),
                match first {
                    Some(t) => t != src && v@.contains(t) && forall|k: int|
                        0 <= k < i ==> #[trigger] v@[k] == src || v@[k] == t,
                    None => forall|k: int| 0 <= k < i ==> #[trigger] v@[k] == src,
                },
            decreases v@.len() - i,
        {
            let f = v[i];
            if f != src {
                match first {
                    Some(t) => {
                        if t != f {
                            // Ambiguous: drop, do not guess.
                            proof {
                                assert(set.contains(t) && set.contains(v@[i as int]));
                            }
                            return None;
                        }
                    },
                    None => {
                        first = Some(f);
                    },
                }
            }
            i += 1;
        }
        proof {
            match first {
                Some(t) => {
                    assert forall|u: FileId| #[trigger] set.contains(u) implies u == src || u == t by {
                        let k = v@.index_of(u);
                        assert(v@[k] == u);
                    }
                },
                None => {
                    assert forall|t: FileId| !#[trigger] sole_definer(set, src, t) by {
                        if set.contains(t) {
                            let k = v@.index_of(t);
                            assert(v@[k] == t);
                        }
                    }
                },
            }
        }
        first
    }
}

// ---- crates ----

/// Rust crate name to the root directory of its sources.
pub struct CrateMap {
    roots: StringHashMap<String>,
}

impl View for CrateMap {
    type V = Map<Seq<char>, Seq<char>>;

    closed spec fn view(&self) -> Map<Seq<char>, Seq<char>> {
        self.roots@.map_values(|s: String| s@)
    }
}

impl CrateMap {
    pub fn new() -> (r: Self)
        ensures
            r@ == Map::<Seq<char>, Seq<char>>::empty(),
    {
        let r = CrateMap { roots: StringHashMap::new() };
        assert(r@ =~= Map::<Seq<char>, Seq<char>>::empty());
        r
    }

    pub fn insert(&mut self, name: String, root: String)
        ensures
            final(self)@ == old(self)@.insert(name@, root@),
    {
        let ghost before = self@;
        let ghost k = name@;
        let ghost v = root@;
        self.roots.insert(name, root);
        assert(self@ =~= before.insert(k, v));
    }

    pub fn get(&self, name: &str) -> (r: Option<String>)
        ensures
            match r {
                Some(s) => self@.contains_key(name@) && self@[name@] == s@,
                None => !self@.contains_key(name@),
            },
    {
        match self.roots.get(name) {
            Some(s) => Some(s.clone()),
            None => None,
        }
    }

    pub fn contains_key(&self, name: &str) -> (r: bool)
        ensures
            r == self@.contains_key(name@),
    {
        self.roots.contains_key(name)
    }
}

// ---- edges of one file ----

/// The place of an edge in the order of edges: by target, kind and
/// resolution.
pub open spec fn edge_rank(e: (FileId, EdgeKind, Resolution)) -> int {
    e.0.0 * 100 + e.1.code() * 10 + e.2.code()
}

/// Strictly increasing.
pub open spec fn edges_increasing(s: Seq<(FileId, EdgeKind, Resolution)>) -> bool {
    forall|i: int, j: int| 0 <= i < j < s.len() ==> edge_rank(#[trigger] s[i]) < edge_rank(#[trigger] s[j])
}

/// Edges out of one file, each once, in order.
pub struct EdgeSet {
    items: Vec<(FileId, EdgeKind, Resolution)>,
}

impl View for EdgeSet {
    type V = Set<(FileId, EdgeKind, Resolution)>;

    open spec fn view(&self) -> Set<(FileId, EdgeKind, Resolution)> {
        self.listed().to_set()
    }
}

fn rank(e: &(FileId, EdgeKind, Resolution)) -> (r: i128)
    ensures
        r == edge_rank(*e),
{
    let (f, k, s) = *e;
    (f.0 as i128) * 100 + (k.to_i64() as i128) * 10 + (s.to_i64() as i128)
}

/// Law: the order of edges tells different edges apart.
pub proof fn rank_identifies(a: (FileId, EdgeKind, Resolution), b: (FileId, EdgeKind, Resolution))
    ensures
        edge_rank(a) == edge_rank(b) ==> a == b,
{
}

impl EdgeSet {
    /// The edges in order.
    pub closed spec fn listed(&self) -> Seq<(FileId, EdgeKind, Resolution)> {
        self.items@
    }

    pub open spec fn wf(&self) -> bool {
        edges_increasing(self.listed())
    }

    pub fn new() -> (r: Self)
        ensures
            r@ == Set::<(FileId, EdgeKind, Resolution)>::empty(),
            r.wf(),
    {
        let r = EdgeSet { items: Vec::new() };
        assert(r@ =~= Set::<(FileId, EdgeKind, Resolution)>::empty());
        r
    }

    /// The edges in order.
    pub fn list(&self) -> (r: &Vec<(FileId, EdgeKind, Resolution)>)
        ensures
            r@ == self.listed(),
    {
        &self.items
    }

    pub fn insert(&mut self, e: (FileId, EdgeKind, Resolution))
        requires
            old(self).wf(),
        ensures
            final(self).wf(),
            final(self)@ == old(self)@.insert(e),
    {
        let ghost s = self.items@;
        let k = rank(&e);
        let mut i: usize = self.items.len();
        while i > 0 && rank(&self.items[i - 1]) > k
            invariant
                i <= self.items@.len(),
                self.items@ == s,
                k == edge_rank(e),
                forall|j: int| i <= j < s.len() ==> edge_rank(#[trigger] s[j]) > k,
            decreases i,
        {
            i -= 1;
        }
        if i > 0 && rank(&self.items[i - 1]) == k {
            proof {
                rank_identifies(s[i - 1], e);
                assert(s.to_set().contains(e));
                assert(s.to_set().insert(e) =~= s.to_set());
            }
            return ;
        }
        self.items.insert(i, e);
        proof {
            let n = self.items@;
            assert(n =~= s.insert(i as int, e));
            assert forall|a: int, b: int| 0 <= a < b < n.len() implies edge_rank(#[trigger] n[a]) < edge_rank(
                #[trigger] n[b],
            ) by {
                let x = if a < i { a } else { a - 1 };
                let y = if b < i { b } else { b - 1 };
                if a != i {
                    assert(n[a] == s[x]);
                }
                if b != i {
                    assert(n[b] == s[y]);
                }
                if a == i {
                    assert(edge_rank(s[y]) > k);
                } else if b == i {
                    if a < i - 1 {
                        assert(edge_rank(s[x]) < edge_rank(s[i - 1]));
                    }
                }
            }
            assert(n.to_set() =~= s.to_set().insert(e)) by {
                assert forall|x: (FileId, EdgeKind, Resolution)| n.to_set().contains(x) <==> s.to_set().insert(
                    e,
                ).contains(x) by {
                    if s.contains(x) {
                        let a = s.index_of(x);
                        if a < i {
                            assert(n[a] == x);
                        } else {
                            assert(n[a + 1] == x);
                        }
                    }
                    if n.contains(x) {
                        let a = n.index_of(x);
                        if a < i {
                            assert(s[a] == x);
                        } else if a > i {
                            assert(s[a - 1] == x);
                        }
                    }
                    if x == e {
                        assert(n[i as int] == x);
                    }
                }
            }
        }
    }
}

} // verus!
