//! Evolutionary coupling: which files changed together in the commits that
//! count, and in which of them. What the commits weigh is measured elsewhere.

use crate::model::{CommitId, FileId};
use crate::query::{Ctx, TouchTable};
use crate::query;
use crate::rows::{CommitRow, TouchRow};
use std::collections::HashMap;
use vstd::prelude::*;

pub mod laws;

verus! {

broadcast use vstd::std_specs::hash::group_hash_axioms;

pub struct CochangeReport {
    pub pairs_written: usize,
    pub commits_used: usize,
}

/// A commit that counts and the files that it touched.
pub struct CommitGroup {
    pub commit: CommitId,
    pub files: Vec<FileId>,
}

#[verifier::ext_equal]
pub struct GroupView {
    pub commit: CommitId,
    pub files: Seq<FileId>,
}

impl View for CommitGroup {
    type V = GroupView;

    open spec fn view(&self) -> GroupView {
        GroupView { commit: self.commit, files: self.files@ }
    }
}

pub open spec fn group_views(s: Seq<CommitGroup>) -> Seq<GroupView> {
    s.map_values(|g: CommitGroup| g@)
}

/// Two files, and the numbers of the groups in which they stand together.
pub struct PairAcc {
    pub a: FileId,
    pub b: FileId,
    pub groups: Vec<usize>,
}

#[verifier::ext_equal]
pub struct PairView {
    pub a: FileId,
    pub b: FileId,
    pub groups: Seq<int>,
}

impl View for PairAcc {
    type V = PairView;

    open spec fn view(&self) -> PairView {
        PairView { a: self.a, b: self.b, groups: self.groups@.map_values(|g: usize| g as int) }
    }
}

pub open spec fn pair_views(s: Seq<PairAcc>) -> Seq<PairView> {
    s.map_values(|p: PairAcc| p@)
}

// ---- groups ----

/// The groups once a touch is added. Touches of one commit stand together.
pub open spec fn with_touch(groups: Seq<GroupView>, commit: CommitId, file: FileId) -> Seq<GroupView> {
    if groups.len() > 0 && groups.last().commit == commit {
        groups.drop_last().push(GroupView { commit, files: groups.last().files.push(file) })
    } else {
        groups.push(GroupView { commit, files: seq![file] })
    }
}

/// The touches of the commits that count, by commit.
pub open spec fn grouped(commits: Seq<CommitRow>, touches: Seq<TouchRow>) -> Seq<GroupView>
    decreases touches.len(),
{
    if touches.len() == 0 {
        Seq::empty()
    } else {
        let b = grouped(commits, touches.drop_last());
        let t = touches.last();
        if query::counts(commits, t.commit.0) {
            with_touch(b, t.commit, t.file)
        } else {
            b
        }
    }
}

fn list_groups(ctx: &Ctx, touches: &Vec<TouchRow>) -> (r: Vec<CommitGroup>)
    requires
        ctx.wf(),
    ensures
        group_views(r@) == grouped(ctx.commits@, touches@),
{
    let mut out: Vec<CommitGroup> = Vec::new();
    let mut i: usize = 0;
    assert(touches@.take(0) =~= Seq::<TouchRow>::empty());
    assert(group_views(out@) =~= Seq::<GroupView>::empty());
    while i < touches.len()
        invariant
            i <= touches@.len(),
            ctx.wf(),
            group_views(out@) == grouped(ctx.commits@, touches@.take(i as int)),
        decreases touches@.len() - i,
    {
        assert(touches@.take(i + 1).drop_last() =~= touches@.take(i as int));
        let t = touches[i];
        let ghost before = group_views(out@);
        if ctx.counts(t.commit.0) {
            let n = out.len();
            if n > 0 && out[n - 1].commit == t.commit {
                assert(before.last() == out@[n - 1]@);
                out[n - 1].files.push(t.file);
                assert(group_views(out@) =~= with_touch(before, t.commit, t.file));
            } else {
                assert(n > 0 ==> before.last() == out@[n - 1]@);
                let mut files: Vec<FileId> = Vec::new();
                files.push(t.file);
                assert(files@ =~= seq![t.file]);
                out.push(CommitGroup { commit: t.commit, files });
                assert(group_views(out@) =~= with_touch(before, t.commit, t.file));
            }
        }
        i += 1;
    }
    assert(touches@.take(i as int) =~= touches@);
    out
}

// ---- pairs ----

/// Two files in the order of their ids.
pub open spec fn in_order(x: FileId, y: FileId) -> (FileId, FileId) {
    if x.0 <= y.0 {
        (x, y)
    } else {
        (y, x)
    }
}

/// The pairs of the file at `i` with the different files behind it, up to
/// `j`.
pub open spec fn pairs_at(files: Seq<FileId>, i: int, j: int) -> Seq<(FileId, FileId)>
    decreases j - i,
{
    if j <= i + 1 {
        Seq::empty()
    } else {
        let b = pairs_at(files, i, j - 1);
        if files[i] == files[j - 1] {
            b
        } else {
            b.push(in_order(files[i], files[j - 1]))
        }
    }
}

/// The pairs of the first `n` files with the files behind each.
pub open spec fn pairs_in(files: Seq<FileId>, n: int) -> Seq<(FileId, FileId)>
    decreases n,
{
    if n <= 0 {
        Seq::empty()
    } else {
        pairs_in(files, n - 1) + pairs_at(files, n - 1, files.len() as int)
    }
}

/// Where a pair stands.
pub open spec fn pair_at(s: Seq<PairView>, p: (FileId, FileId)) -> Option<int>
    decreases s.len(),
{
    if s.len() == 0 {
        None
    } else if s.last().a == p.0 && s.last().b == p.1 {
        Some(s.len() - 1)
    } else {
        pair_at(s.drop_last(), p)
    }
}

/// The pairs once one stands together in a group.
pub open spec fn with_pair(s: Seq<PairView>, p: (FileId, FileId), g: int) -> Seq<PairView> {
    match pair_at(s, p) {
        Some(i) => s.update(i, PairView { groups: s[i].groups.push(g), ..s[i] }),
        None => s.push(PairView { a: p.0, b: p.1, groups: seq![g] }),
    }
}

pub open spec fn with_pairs(s: Seq<PairView>, ps: Seq<(FileId, FileId)>, g: int) -> Seq<PairView>
    decreases ps.len(),
{
    if ps.len() == 0 {
        s
    } else {
        with_pair(with_pairs(s, ps.drop_last(), g), ps.last(), g)
    }
}

/// The pairs of the first `n` groups.
pub open spec fn paired(groups: Seq<GroupView>, n: int) -> Seq<PairView>
    decreases n,
{
    if n <= 0 {
        Seq::empty()
    } else {
        let f = groups[n - 1].files;
        with_pairs(paired(groups, n - 1), pairs_in(f, f.len() as int), n - 1)
    }
}

/// A pair is kept where its files stood together at least twice.
pub open spec fn persisted(s: Seq<PairView>) -> Seq<PairView> {
    s.filter(|p: PairView| p.groups.len() >= 2)
}

// ---- laws ----

/// The groups in which a pair stands together, one entry for each time.
pub open spec fn times_in(ps: Seq<(FileId, FileId)>, p: (FileId, FileId), g: int) -> Seq<int>
    decreases ps.len(),
{
    if ps.len() == 0 {
        Seq::empty()
    } else {
        let b = times_in(ps.drop_last(), p, g);
        if ps.last() == p {
            b.push(g)
        } else {
            b
        }
    }
}

/// The numbers of the groups, among the first `n`, in which a pair stands
/// together.
pub open spec fn together(groups: Seq<GroupView>, n: int, p: (FileId, FileId)) -> Seq<int>
    decreases n,
{
    if n <= 0 {
        Seq::empty()
    } else {
        let f = groups[n - 1].files;
        together(groups, n - 1, p) + times_in(pairs_in(f, f.len() as int), p, n - 1)
    }
}

/// A list of pairs says of each pair where it stands together.
pub open spec fn pairs_say(s: Seq<PairView>, m: spec_fn((FileId, FileId)) -> Seq<int>) -> bool {
    &&& forall|i: int, j: int|
        0 <= i < j < s.len() ==> (#[trigger] s[i]).a != (#[trigger] s[j]).a || s[i].b != s[j].b
    &&& forall|i: int| 0 <= i < s.len() ==> (#[trigger] s[i]).groups == m((s[i].a, s[i].b)) && s[i].groups.len() > 0
    &&& forall|p: (FileId, FileId)| #[trigger] m(p).len() > 0 ==> pair_at(s, p) is Some
}

pub proof fn lemma_pair_at(s: Seq<PairView>, p: (FileId, FileId))
    ensures
        match pair_at(s, p) {
            Some(i) => 0 <= i < s.len() && s[i].a == p.0 && s[i].b == p.1,
            None => forall|i: int| 0 <= i < s.len() ==> (#[trigger] s[i]).a != p.0 || s[i].b != p.1,
        },
    decreases s.len(),
{
    if s.len() > 0 {
        lemma_pair_at(s.drop_last(), p);
        match pair_at(s, p) {
            Some(i) => {},
            None => {
                assert forall|i: int| 0 <= i < s.len() implies (#[trigger] s[i]).a != p.0 || s[i].b != p.1 by {
                    if i < s.len() - 1 {
                        assert(s.drop_last()[i] == s[i]);
                    }
                }
            },
        }
    }
}

proof fn lemma_with_pair(
    s: Seq<PairView>,
    m: spec_fn((FileId, FileId)) -> Seq<int>,
    n: spec_fn((FileId, FileId)) -> Seq<int>,
    p: (FileId, FileId),
    g: int,
)
    requires
        pairs_say(s, m),
        forall|q: (FileId, FileId)|
            #[trigger] n(q) == (if q == p {
                m(q).push(g)
            } else {
                m(q)
            }),
    ensures
        pairs_say(with_pair(s, p, g), n),
{
    let r = with_pair(s, p, g);
    lemma_pair_at(s, p);
    assert(n(p) == m(p).push(g));
    if pair_at(s, p) is None {
        assert(m(p).len() == 0);
        assert(m(p).push(g) =~= seq![g]);
    }
    assert forall|i: int| 0 <= i < r.len() implies (#[trigger] r[i]).groups == n((r[i].a, r[i].b))
        && r[i].groups.len() > 0 by {
        if i < s.len() {
            assert(r[i].a == s[i].a && r[i].b == s[i].b);
            assert(s[i].groups == m((s[i].a, s[i].b)));
            assert(n((s[i].a, s[i].b)) == (if (s[i].a, s[i].b) == p {
                m((s[i].a, s[i].b)).push(g)
            } else {
                m((s[i].a, s[i].b))
            }));
            match pair_at(s, p) {
                Some(k) => {
                    if i != k {
                        assert(s[i].a != s[k].a || s[i].b != s[k].b);
                    }
                },
                None => {},
            }
        }
    }
    assert forall|i: int, j: int| 0 <= i < j < r.len() implies (#[trigger] r[i]).a != (#[trigger] r[j]).a || r[i].b
        != r[j].b by {
        if j < s.len() {
            assert(r[j].a == s[j].a && r[j].b == s[j].b);
        }
        if i < s.len() {
            assert(r[i].a == s[i].a && r[i].b == s[i].b);
        }
    }
    assert forall|q: (FileId, FileId)| #[trigger] n(q).len() > 0 implies pair_at(r, q) is Some by {
        lemma_pair_at(r, q);
        if q == p {
            match pair_at(s, p) {
                Some(k) => {
                    assert(r[k].a == p.0 && r[k].b == p.1);
                },
                None => {
                    assert(r[s.len() as int].a == p.0);
                },
            }
        } else {
            assert(m(q).len() > 0);
            lemma_pair_at(s, q);
            let k = pair_at(s, q).unwrap();
            assert(r[k].a == q.0 && r[k].b == q.1);
        }
    }
}

proof fn lemma_with_pairs(
    s: Seq<PairView>,
    m: spec_fn((FileId, FileId)) -> Seq<int>,
    ps: Seq<(FileId, FileId)>,
    g: int,
)
    requires
        pairs_say(s, m),
    ensures
        pairs_say(with_pairs(s, ps, g), |p: (FileId, FileId)| m(p) + times_in(ps, p, g)),
    decreases ps.len(),
{
    let n = |p: (FileId, FileId)| m(p) + times_in(ps, p, g);
    if ps.len() == 0 {
        assert forall|p: (FileId, FileId)| #[trigger] n(p) == m(p) by {
            assert(n(p) =~= m(p));
        }
        assert forall|i: int| 0 <= i < s.len() implies (#[trigger] s[i]).groups == n((s[i].a, s[i].b)) by {
            assert(n((s[i].a, s[i].b)) == m((s[i].a, s[i].b)));
        }
        assert forall|p: (FileId, FileId)| #[trigger] n(p).len() > 0 implies pair_at(s, p) is Some by {
            assert(m(p).len() > 0);
        }
    } else {
        let d = ps.drop_last();
        let b = |p: (FileId, FileId)| m(p) + times_in(d, p, g);
        lemma_with_pairs(s, m, d, g);
        assert forall|q: (FileId, FileId)| #[trigger] n(q) == (if q == ps.last() {
            b(q).push(g)
        } else {
            b(q)
        }) by {
            if q == ps.last() {
                assert(m(q) + times_in(d, q, g).push(g) =~= (m(q) + times_in(d, q, g)).push(g));
            }
        }
        lemma_with_pair(with_pairs(s, d, g), b, n, ps.last(), g);
    }
}

/// Law: every pair of different files that stood together in a commit that
/// counts is listed once, with exactly the commits in which it did.
pub proof fn pairs_hold_their_commits(groups: Seq<GroupView>, n: int)
    requires
        0 <= n <= groups.len(),
    ensures
        pairs_say(paired(groups, n), |p: (FileId, FileId)| together(groups, n, p)),
    decreases n,
{
    if n > 0 {
        let m = |p: (FileId, FileId)| together(groups, n - 1, p);
        let f = groups[n - 1].files;
        let ps = pairs_in(f, f.len() as int);
        pairs_hold_their_commits(groups, n - 1);
        lemma_with_pairs(paired(groups, n - 1), m, ps, n - 1);
        let x = |p: (FileId, FileId)| m(p) + times_in(ps, p, n - 1);
        let y = |p: (FileId, FileId)| together(groups, n, p);
        assert(x =~= y);
    }
}

proof fn lemma_pairs_at(files: Seq<FileId>, i: int, j: int)
    ensures
        forall|k: int|
            0 <= k < pairs_at(files, i, j).len() ==> (#[trigger] pairs_at(files, i, j)[k]).0.0 < pairs_at(
                files,
                i,
                j,
            )[k].1.0,
    decreases j - i,
{
    if j > i + 1 {
        lemma_pairs_at(files, i, j - 1);
        let b = pairs_at(files, i, j - 1);
        let r = pairs_at(files, i, j);
        assert forall|k: int| 0 <= k < r.len() implies (#[trigger] r[k]).0.0 < r[k].1.0 by {
            if k < b.len() {
                assert(r[k] == b[k]);
            }
        }
    }
}

/// Law: a pair holds two different files, the one with the smaller id first.
pub proof fn pairs_are_ordered(files: Seq<FileId>, n: int)
    ensures
        forall|k: int|
            0 <= k < pairs_in(files, n).len() ==> (#[trigger] pairs_in(files, n)[k]).0.0 < pairs_in(files, n)[k].1.0,
    decreases n,
{
    if n > 0 {
        pairs_are_ordered(files, n - 1);
        lemma_pairs_at(files, n - 1, files.len() as int);
        let a = pairs_in(files, n - 1);
        let b = pairs_at(files, n - 1, files.len() as int);
        assert forall|k: int| 0 <= k < (a + b).len() implies (#[trigger] (a + b)[k]).0.0 < (a + b)[k].1.0 by {
            if k < a.len() {
                assert((a + b)[k] == a[k]);
            } else {
                assert((a + b)[k] == b[k - a.len()]);
            }
        }
    }
}

// ---- the table of pairs ----

/// One number for two files.
pub open spec fn pair_code(p: (FileId, FileId)) -> int {
    p.0.0 * 0x1_0000_0000_0000_0000 + p.1.0 + 0x8000_0000_0000_0000
}

/// One number for two files.
pub fn code(a: FileId, b: FileId) -> (r: i128)
    ensures
        r == pair_code((a, b)),
{
    (a.0 as i128) * 0x1_0000_0000_0000_0000 + ((b.0 as i128) + 0x8000_0000_0000_0000)
}

/// Law: different pairs have different numbers.
pub proof fn codes_tell_apart(p: (FileId, FileId), q: (FileId, FileId))
    ensures
        pair_code(p) == pair_code(q) <==> p == q,
{
}

struct PairTable {
    pairs: Vec<PairAcc>,
    index: HashMap<i128, usize>,
}

impl PairTable {
    spec fn wf(&self) -> bool {
        &&& forall|k: i128| #[trigger]
            self.index@.contains_key(k) ==> self.index@[k] < self.pairs@.len() && pair_code(
                (self.pairs@[self.index@[k] as int].a, self.pairs@[self.index@[k] as int].b),
            ) == k
        &&& forall|i: int|
            0 <= i < self.pairs@.len() ==> self.index@.contains_key(
                pair_code(((#[trigger] self.pairs@[i]).a, self.pairs@[i].b)) as i128,
            )
        &&& forall|i: int|
            0 <= i < self.pairs@.len() ==> self.index@[pair_code(
                ((#[trigger] self.pairs@[i]).a, self.pairs@[i].b),
            ) as i128] == i
    }

    fn new() -> (r: Self)
        ensures
            r.wf(),
            pair_views(r.pairs@) == Seq::<PairView>::empty(),
    {
        let r = PairTable { pairs: Vec::new(), index: HashMap::new() };
        assert(pair_views(r.pairs@) =~= Seq::<PairView>::empty());
        r
    }

    fn add(&mut self, a: FileId, b: FileId, g: usize)
        requires
            old(self).wf(),
        ensures
            final(self).wf(),
            pair_views(final(self).pairs@) == with_pair(pair_views(old(self).pairs@), (a, b), g as int),
    {
        let ghost s = pair_views(self.pairs@);
        let ghost o = *self;
        let k = code(a, b);
        proof {
            lemma_pair_at(s, (a, b));
            match pair_at(s, (a, b)) {
                Some(i) => {
                    assert(s[i] == self.pairs@[i]@);
                },
                None => {
                    if self.index@.contains_key(k) {
                        let i = self.index@[k] as int;
                        codes_tell_apart((self.pairs@[i].a, self.pairs@[i].b), (a, b));
                        assert(s[i] == self.pairs@[i]@);
                    }
                },
            }
        }
        match self.index.get(&k) {
            Some(i) => {
                let i = *i;
                proof {
                    codes_tell_apart((self.pairs@[i as int].a, self.pairs@[i as int].b), (a, b));
                    assert(s[i as int] == self.pairs@[i as int]@);
                    let j = pair_at(s, (a, b)).unwrap();
                    assert(s[j] == self.pairs@[j]@);
                }
                self.pairs[i].groups.push(g);
                assert(pair_views(self.pairs@) =~= with_pair(s, (a, b), g as int)) by {
                    assert(self.pairs@[i as int]@.groups =~= o.pairs@[i as int]@.groups.push(g as int));
                }
            },
            None => {
                let n = self.pairs.len();
                let mut groups: Vec<usize> = Vec::new();
                groups.push(g);
                self.index.insert(k, n);
                let acc = PairAcc { a, b, groups };
                assert(acc@.groups =~= seq![g as int]);
                let ghost av = acc@;
                self.pairs.push(acc);
                assert(pair_views(self.pairs@) =~= s.push(av));
                proof {
                    assert forall|i: int| 0 <= i < self.pairs@.len() implies self.index@.contains_key(
                        pair_code(((#[trigger] self.pairs@[i]).a, self.pairs@[i].b)) as i128,
                    ) && self.index@[pair_code((self.pairs@[i].a, self.pairs@[i].b)) as i128] == i by {
                        if i < n {
                            assert(self.pairs@[i] == o.pairs@[i]);
                        }
                    }
                }
            },
        }
    }
}

fn list_pairs(files: &Vec<FileId>) -> (r: Vec<(FileId, FileId)>)
    ensures
        r@ == pairs_in(files@, files@.len() as int),
{
    let mut out: Vec<(FileId, FileId)> = Vec::new();
    let n = files.len();
    let mut i: usize = 0;
    while i < n
        invariant
            i <= n,
            n == files@.len(),
            out@ == pairs_in(files@, i as int),
        decreases n - i,
    {
        let mut j: usize = i + 1;
        let ghost base = out@;
        assert(base + pairs_at(files@, i as int, j as int) =~= base);
        while j < n
            invariant
                i < j <= n,
                n == files@.len(),
                out@ == base + pairs_at(files@, i as int, j as int),
            decreases n - j,
        {
            let x = files[i];
            let y = files[j];
            if x != y {
                let ghost before = out@;
                if x.0 <= y.0 {
                    out.push((x, y));
                } else {
                    out.push((y, x));
                }
                assert(out@ =~= base + pairs_at(files@, i as int, j + 1));
            }
            j += 1;
        }
        i += 1;
    }
    out
}

/// The coupling that an index shows.
pub struct CochangeSurvey {
    pub commits_used: usize,
    pub groups: Vec<CommitGroup>,
    pub pairs: Vec<PairAcc>,
}

/// How many commits count.
pub open spec fn used(commits: Seq<CommitRow>) -> nat {
    commits.filter(|c: CommitRow| c.weighted).len()
}

/// Find which files changed together. Pairs are persisted when their raw
/// co-occurrence is at least two. The reporting gates (n and lift) apply at
/// query time so thresholds can move without a reindex.
pub fn compute(ctx: &Ctx, touches: &TouchTable) -> (r: CochangeSurvey)
    requires
        ctx.wf(),
    ensures
        r.commits_used == used(ctx.commits@),
        group_views(r.groups@) == grouped(ctx.commits@, touches@),
        pair_views(r.pairs@) == persisted(
            paired(grouped(ctx.commits@, touches@), grouped(ctx.commits@, touches@).len() as int),
        ),
{
    let mut commits_used: usize = 0;
    let mut c: usize = 0;
    let ghost f = |c: CommitRow| c.weighted;
    proof {
        reveal(Seq::filter);
        assert(ctx.commits@.take(0) =~= Seq::<CommitRow>::empty());
    }
    while c < ctx.commits.len()
        invariant
            c <= ctx.commits@.len(),
            f == (|c: CommitRow| c.weighted),
            commits_used == ctx.commits@.take(c as int).filter(f).len(),
            commits_used <= c,
        decreases ctx.commits@.len() - c,
    {
        proof {
            reveal(Seq::filter);
            assert(ctx.commits@.take(c + 1).drop_last() =~= ctx.commits@.take(c as int));
        }
        if ctx.commits[c].weighted {
            commits_used += 1;
        }
        c += 1;
    }
    assert(ctx.commits@.take(c as int) =~= ctx.commits@);
    let groups = list_groups(ctx, touches.all());
    let ghost gs = group_views(groups@);
    let mut table = PairTable::new();
    let mut g: usize = 0;
    while g < groups.len()
        invariant
            g <= groups@.len(),
            gs == group_views(groups@),
            table.wf(),
            pair_views(table.pairs@) == paired(gs, g as int),
        decreases groups@.len() - g,
    {
        let ps = list_pairs(&groups[g].files);
        let ghost base = pair_views(table.pairs@);
        let mut k: usize = 0;
        assert(ps@.take(0) =~= Seq::<(FileId, FileId)>::empty());
        while k < ps.len()
            invariant
                k <= ps@.len(),
                table.wf(),
                pair_views(table.pairs@) == with_pairs(base, ps@.take(k as int), g as int),
            decreases ps@.len() - k,
        {
            assert(ps@.take(k + 1).drop_last() =~= ps@.take(k as int));
            let (a, b) = ps[k];
            table.add(a, b, g);
            k += 1;
        }
        assert(ps@.take(k as int) =~= ps@);
        assert(gs[g as int].files == groups@[g as int].files@);
        g += 1;
    }
    let pairs = keep_repeated(table.pairs);
    CochangeSurvey { commits_used, groups, pairs }
}

fn keep_repeated(all: Vec<PairAcc>) -> (r: Vec<PairAcc>)
    ensures
        pair_views(r@) == persisted(pair_views(all@)),
{
    let ghost s = pair_views(all@);
    let ghost f = |p: PairView| p.groups.len() >= 2;
    let mut out: Vec<PairAcc> = Vec::new();
    proof {
        reveal(Seq::filter);
        assert(s.take(0).filter(f) =~= Seq::<PairView>::empty());
        assert(pair_views(out@) =~= Seq::<PairView>::empty());
    }
    for p in it: all
        invariant
            it.seq() == all@,
            s == pair_views(all@),
            f == (|p: PairView| p.groups.len() >= 2),
            pair_views(out@) == s.take(it.index() as int).filter(f),
    {
        let ghost n = it.index() as int;
        let ghost before = out@;
        proof {
            reveal(Seq::filter);
            assert(s.take(n + 1).drop_last() =~= s.take(n));
            assert(s.take(n + 1).last() == p@);
        }
        let ghost pv = p@;
        if p.groups.len() >= 2 {
            out.push(p);
            assert(pair_views(out@) =~= pair_views(before).push(pv));
        }
    }
    assert(s.take(s.len() as int) =~= s);
    out
}

} // verus!
