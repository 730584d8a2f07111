//! A set of names kept in lexicographic order.

use crate::text;
use vstd::prelude::*;

verus! {

/// `x` put into its place in an ordered list of names, where it is not there
/// yet.
pub open spec fn sorted_insert(s: Seq<Seq<char>>, x: Seq<char>) -> Seq<Seq<char>>
    decreases s.len(),
{
    if s.len() == 0 {
        seq![x]
    } else if s.last() == x {
        s
    } else if text::text_le(s.last(), x) {
        s.push(x)
    } else {
        sorted_insert(s.drop_last(), x).push(s.last())
    }
}

/// The names in order, each once.
pub open spec fn sorted_names(s: Seq<Seq<char>>) -> Seq<Seq<char>>
    decreases s.len(),
{
    if s.len() == 0 {
        Seq::empty()
    } else {
        sorted_insert(sorted_names(s.drop_last()), s.last())
    }
}

/// Strictly increasing.
pub open spec fn increasing(s: Seq<Seq<char>>) -> bool {
    forall|i: int, j: int| 0 <= i < j < s.len() ==> #[trigger] text::text_le(s[i], s[j]) && s[i] != s[j]
}

/// Law: inserting keeps a list of names in order and without repetition, and
/// adds exactly the name that was inserted.
pub proof fn insert_keeps_order(s: Seq<Seq<char>>, x: Seq<char>)
    requires
        increasing(s),
    ensures
        increasing(sorted_insert(s, x)),
        forall|y: Seq<char>| #[trigger] sorted_insert(s, x).contains(y) <==> s.contains(y) || y == x,
        s.contains(x) <==> sorted_insert(s, x) == s,
    decreases s.len(),
{
    let r = sorted_insert(s, x);
    if s.len() == 0 {
        assert(r[0] == x);
        assert(r.len() == 1);
    } else if s.last() == x {
        assert(s[s.len() - 1] == x);
    } else if text::text_le(s.last(), x) {
        assert forall|i: int, j: int| 0 <= i < j < r.len() implies #[trigger] text::text_le(r[i], r[j]) && r[i]
            != r[j] by {
            if j == s.len() {
                if i < s.len() - 1 {
                    assert(text::text_le(s[i], s[s.len() - 1]));
                    text::lemma_text_le_trans(s[i], s.last(), x);
                    if s[i] == x {
                        text::lemma_text_le_antisym(s.last(), x);
                    }
                }
            } else {
                assert(text::text_le(s[i], s[j]));
            }
        }
        assert(r[s.len() as int] == x);
        assert forall|y: Seq<char>| s.contains(y) implies r.contains(y) by {
            let k = s.index_of(y);
            assert(r[k] == y);
        }
        if s.contains(x) {
            let k = s.index_of(x);
            assert(text::text_le(s[k], s[s.len() - 1]));
            text::lemma_text_le_antisym(x, s.last());
        }
        assert(r.len() == s.len() + 1);
    } else {
        let f = s.drop_last();
        assert forall|i: int, j: int| 0 <= i < j < f.len() implies #[trigger] text::text_le(f[i], f[j]) && f[i]
            != f[j] by {
            assert(text::text_le(s[i], s[j]));
        }
        insert_keeps_order(f, x);
        let g = sorted_insert(f, x);
        text::lemma_text_le_total(s.last(), x);
        assert forall|i: int, j: int| 0 <= i < j < r.len() implies #[trigger] text::text_le(r[i], r[j]) && r[i]
            != r[j] by {
            if j < g.len() {
                assert(text::text_le(g[i], g[j]));
            } else {
                assert(g.contains(g[i]));
                if g[i] != x {
                    assert(f.contains(g[i]));
                    let k = f.index_of(g[i]);
                    assert(text::text_le(s[k], s[s.len() - 1]));
                }
            }
        }
        assert forall|y: Seq<char>| #[trigger] r.contains(y) <==> s.contains(y) || y == x by {
            if r.contains(y) {
                let k = r.index_of(y);
                if k < g.len() {
                    assert(g.contains(y));
                    if y != x {
                        let m = f.index_of(y);
                        assert(s[m] == y);
                    }
                } else {
                    assert(s[s.len() - 1] == y);
                }
            }
            if s.contains(y) || y == x {
                if y == s.last() {
                    assert(r[r.len() - 1] == y);
                } else {
                    if s.contains(y) {
                        let k = s.index_of(y);
                        assert(f[k] == y);
                    }
                    assert(g.contains(y));
                    let m = g.index_of(y);
                    assert(r[m] == y);
                }
            }
        }
        if s.contains(x) {
            let k = s.index_of(x);
            assert(f[k] == x);
            assert(r =~= s);
        } else {
            if r == s {
                assert(r.contains(x));
            }
        }
    }
}

/// Where the scan from the back stops, the name stands or goes.
proof fn lemma_insert_at(s: Seq<Seq<char>>, x: Seq<char>, i: int)
    requires
        0 <= i <= s.len(),
        forall|j: int| i <= j < s.len() ==> !text::text_le(#[trigger] s[j], x),
        i > 0 ==> text::text_le(s[i - 1], x),
    ensures
        sorted_insert(s, x) == (if i > 0 && s[i - 1] == x { s } else { s.insert(i, x) }),
    decreases s.len(),
{
    if s.len() == 0 {
        assert(s.insert(i, x) =~= seq![x]);
    } else if i == s.len() {
        assert(s.insert(i, x) =~= s.push(x));
    } else {
        text::lemma_text_le_refl(x);
        assert(!text::text_le(s[s.len() - 1], x));
        lemma_insert_at(s.drop_last(), x, i);
        if i > 0 && s[i - 1] == x {
            assert(s.drop_last().push(s.last()) =~= s);
        } else {
            assert(s.drop_last().insert(i, x).push(s.last()) =~= s.insert(i, x));
        }
    }
}

/// Names in lexicographic order, each once.
pub struct NameSet {
    items: Vec<String>,
}

impl View for NameSet {
    type V = Seq<Seq<char>>;

    closed spec fn view(&self) -> Seq<Seq<char>> {
        text::views(self.items@)
    }
}

impl NameSet {
    pub fn new() -> (r: Self)
        ensures
            r@ == Seq::<Seq<char>>::empty(),
    {
        let r = NameSet { items: Vec::new() };
        assert(r@ =~= Seq::<Seq<char>>::empty());
        r
    }

    pub fn len(&self) -> (r: usize)
        ensures
            r == self@.len(),
    {
        self.items.len()
    }

    /// Put a name in; says whether it was missing.
    pub fn insert(&mut self, x: String) -> (added: bool)
        requires
            increasing(old(self)@),
        ensures
            final(self)@ == sorted_insert(old(self)@, x@),
            increasing(final(self)@),
            added == !old(self)@.contains(x@),
    {
        let ghost s = self@;
        proof {
            insert_keeps_order(s, x@);
        }
        let mut i: usize = self.items.len();
        while i > 0 && !text::le_text(self.items[i - 1].as_str(), x.as_str())
            invariant
                i <= self.items@.len(),
                s == text::views(self.items@),
                self.items == old(self).items,
                forall|j: int| i <= j < s.len() ==> !text::text_le(#[trigger] s[j], x@),
            decreases i,
        {
            assert(s[i - 1] == self.items@[i - 1]@);
            i -= 1;
        }
        proof {
            lemma_insert_at(s, x@, i as int);
            if i > 0 {
                assert(s[i - 1] == self.items@[i - 1]@);
            }
        }
        if i > 0 && text::eq_str(self.items[i - 1].as_str(), x.as_str()) {
            return false;
        }
        let ghost xv = x@;
        let ghost before = self.items@;
        self.items.insert(i, x);
        assert(text::views(self.items@) =~= s.insert(i as int, xv));
        true
    }

    pub fn contains(&self, x: &str) -> (r: bool)
        ensures
            r == self@.contains(x@),
    {
        let mut i: usize = 0;
        while i < self.items.len()
            invariant
                i <= self.items@.len(),
                forall|j: int| 0 <= j < i ==> self@[j] != x@,
            decreases self.items@.len() - i,
        {
            assert(self@[i as int] == self.items@[i as int]@);
            if text::eq_str(self.items[i].as_str(), x) {
                return true;
            }
            i += 1;
        }
        false
    }

    /// The names from first to last.
    pub fn into_list(self) -> (r: Vec<String>)
        ensures
            text::views(r@) == self@,
    {
        self.items
    }

    pub fn list(&self) -> (r: &Vec<String>)
        ensures
            text::views(r@) == self@,
    {
        &self.items
    }
}

} // verus!
