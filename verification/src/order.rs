//! Ranking: the order in which rows are shown, stable among equals.

use crate::postings;
use vstd::prelude::*;

verus! {

/// An index put into its place in an order: behind those with a key that is
/// not larger.
pub open spec fn placed(keys: Seq<i128>, s: Seq<int>, x: int) -> Seq<int>
    decreases s.len(),
{
    if s.len() == 0 || keys[s.last()] <= keys[x] {
        s.push(x)
    } else {
        placed(keys, s.drop_last(), x).push(s.last())
    }
}

/// The first `n` indices ordered by their keys, equals by index.
pub open spec fn ranked(keys: Seq<i128>, n: nat) -> Seq<int>
    decreases n,
{
    if n == 0 {
        Seq::empty()
    } else {
        placed(keys, ranked(keys, (n - 1) as nat), n - 1)
    }
}

/// The indices of a list ordered by its keys, equals by index.
pub open spec fn order_of(keys: Seq<i128>) -> Seq<int> {
    ranked(keys, keys.len())
}

/// `i` comes before `j`: by key, equals by index.
pub open spec fn before(keys: Seq<i128>, i: int, j: int) -> bool {
    keys[i] < keys[j] || (keys[i] == keys[j] && i < j)
}

proof fn lemma_placed(keys: Seq<i128>, s: Seq<int>, x: int)
    requires
        0 <= x,
        forall|i: int| 0 <= i < s.len() ==> 0 <= #[trigger] s[i] < x,
        forall|i: int, j: int| 0 <= i < j < s.len() ==> #[trigger] before(keys, s[i], s[j]),
    ensures
        placed(keys, s, x).len() == s.len() + 1,
        forall|i: int, j: int|
            0 <= i < j < placed(keys, s, x).len() ==> #[trigger] before(
                keys,
                placed(keys, s, x)[i],
                placed(keys, s, x)[j],
            ),
        forall|y: int| #[trigger] placed(keys, s, x).contains(y) <==> s.contains(y) || y == x,
    decreases s.len(),
{
    let r = placed(keys, s, x);
    if s.len() == 0 || keys[s.last()] <= keys[x] {
        assert forall|i: int, j: int| 0 <= i < j < r.len() implies #[trigger] before(keys, r[i], r[j]) by {
            if j == s.len() {
                assert(0 <= s[i] < x);
                if i < s.len() - 1 {
                    assert(before(keys, s[i], s[s.len() - 1]));
                }
            } else {
                assert(before(keys, s[i], s[j]));
            }
        }
        assert forall|y: int| #[trigger] r.contains(y) <==> s.contains(y) || y == x by {
            if s.contains(y) {
                let k = s.index_of(y);
                assert(r[k] == y);
            }
            assert(r[s.len() as int] == x);
        }
    } else {
        let f = s.drop_last();
        assert forall|i: int| 0 <= i < f.len() implies 0 <= #[trigger] f[i] < x by {
            assert(f[i] == s[i]);
        }
        assert forall|i: int, j: int| 0 <= i < j < f.len() implies #[trigger] before(keys, f[i], f[j]) by {
            assert(before(keys, s[i], s[j]));
        }
        lemma_placed(keys, f, x);
        let g = placed(keys, f, x);
        assert(0 <= s[s.len() - 1] < x);
        assert forall|i: int, j: int| 0 <= i < j < r.len() implies #[trigger] before(keys, r[i], r[j]) by {
            if j == g.len() {
                assert(g.contains(g[i]));
                if g[i] != x {
                    let k = f.index_of(g[i]);
                    assert(before(keys, s[k], s[s.len() - 1]));
                }
            } else {
                assert(before(keys, g[i], g[j]));
            }
        }
        assert forall|y: int| #[trigger] r.contains(y) <==> s.contains(y) || y == x by {
            if r.contains(y) {
                let k = r.index_of(y);
                if k < g.len() {
                    assert(g.contains(y));
                    if y != x {
                        let m = f.index_of(y);
                        assert(s[m] == y);
                    }
                } else {
                    assert(s[s.len() - 1] == y);
                }
            }
            if s.contains(y) {
                let k = s.index_of(y);
                if k < f.len() {
                    assert(f[k] == y);
                    assert(g.contains(y));
                    let m = g.index_of(y);
                    assert(r[m] == y);
                } else {
                    assert(r[r.len() - 1] == y);
                }
            }
            if y == x {
                assert(g.contains(x));
                let m = g.index_of(x);
                assert(r[m] == x);
            }
        }
    }
}

proof fn lemma_ranked(keys: Seq<i128>, n: nat)
    ensures
        ranked(keys, n).len() == n,
        forall|i: int, j: int|
            0 <= i < j < n ==> #[trigger] before(keys, ranked(keys, n)[i], ranked(keys, n)[j]),
        forall|y: int| #[trigger] ranked(keys, n).contains(y) <==> 0 <= y < n,
    decreases n,
{
    if n > 0 {
        let m = (n - 1) as nat;
        lemma_ranked(keys, m);
        let s = ranked(keys, m);
        assert forall|i: int| 0 <= i < s.len() implies 0 <= #[trigger] s[i] < m by {
            assert(s.contains(s[i]));
        }
        lemma_placed(keys, s, m as int);
    }
}

/// Law: the order of a list holds each of its indices once, by ascending key,
/// equals by index.
pub proof fn order_is_stable(keys: Seq<i128>)
    ensures
        order_of(keys).len() == keys.len(),
        forall|y: int| #[trigger] order_of(keys).contains(y) <==> 0 <= y < keys.len(),
        forall|i: int, j: int|
            0 <= i < j < keys.len() ==> #[trigger] before(keys, order_of(keys)[i], order_of(keys)[j]),
        forall|i: int| 0 <= i < keys.len() ==> 0 <= #[trigger] order_of(keys)[i] < keys.len(),
{
    lemma_ranked(keys, keys.len());
    assert forall|i: int| 0 <= i < keys.len() implies 0 <= #[trigger] order_of(keys)[i] < keys.len() by {
        assert(order_of(keys).contains(order_of(keys)[i]));
    }
}

proof fn lemma_placed_at(keys: Seq<i128>, s: Seq<int>, x: int, at: int)
    requires
        0 <= at <= s.len(),
        forall|j: int| at <= j < s.len() ==> keys[#[trigger] s[j]] > keys[x],
        at > 0 ==> keys[s[at - 1]] <= keys[x],
    ensures
        placed(keys, s, x) == s.insert(at, x),
    decreases s.len(),
{
    if at == s.len() {
        assert(s.insert(at, x) =~= s.push(x));
    } else {
        assert(keys[s[s.len() - 1]] > keys[x]);
        lemma_placed_at(keys, s.drop_last(), x, at);
        assert(s.drop_last().insert(at, x).push(s.last()) =~= s.insert(at, x));
    }
}

/// The indices of a list ordered by its keys, equals by index.
pub fn stable_order(keys: &Vec<i128>) -> (r: Vec<usize>)
    ensures
        postings::as_ints(r@) == order_of(keys@),
        r@.len() == keys@.len(),
        forall|i: int| 0 <= i < r@.len() ==> #[trigger] r@[i] < keys@.len(),
{
    let mut out: Vec<usize> = Vec::new();
    let mut n: usize = 0;
    assert(postings::as_ints(out@) =~= ranked(keys@, 0));
    while n < keys.len()
        invariant
            n <= keys@.len(),
            out@.len() == n,
            postings::as_ints(out@) == ranked(keys@, n as nat),
            forall|i: int| 0 <= i < out@.len() ==> #[trigger] out@[i] < n,
        decreases keys@.len() - n,
    {
        let k = keys[n];
        let ghost s = postings::as_ints(out@);
        let ghost o = out@;
        let mut at: usize = out.len();
        while at > 0 && keys[out[at - 1]] > k
            invariant
                at <= out@.len(),
                out@ == o,
                s == postings::as_ints(o),
                n < keys@.len(),
                k == keys@[n as int],
                forall|i: int| 0 <= i < out@.len() ==> #[trigger] out@[i] < n,
                forall|j: int| at <= j < s.len() ==> keys@[#[trigger] s[j]] > k,
            decreases at,
        {
            assert(s[at - 1] == o[at - 1]);
            at -= 1;
        }
        proof {
            if at > 0 {
                assert(s[at - 1] == o[at - 1]);
            }
            lemma_placed_at(keys@, s, n as int, at as int);
        }
        out.insert(at, n);
        assert(postings::as_ints(out@) =~= s.insert(at as int, n as int));
        n += 1;
    }
    proof {
        order_is_stable(keys@);
    }
    out
}

} // verus!
