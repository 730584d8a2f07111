//! The start of a walk in the middle of history: the tree before the first
//! commit.

use crate::classify::is_excluded_path;
use crate::classify;
use crate::lang::Lang;
use crate::lang;
use crate::model::{CommitId, FileId};
use crate::store_op::{OpView, StoreOp};
use crate::tables;
use crate::text;
use crate::walk::{order_parses, BlobFacts, FactsView, WalkState, WalkView};
use crate::walk;
use vstd::prelude::*;

verus! {

/// A file of a tree.
pub struct TreeFile {
    pub path: String,
    pub blob: Vec<u8>,
}

pub open spec fn tree_paths(s: Seq<TreeFile>) -> Seq<Seq<char>> {
    s.map_values(|f: TreeFile| f.path@)
}

/// The walk once a file of the tree is there from before history.
pub open spec fn file_seeded(w: WalkView, path: Seq<char>, content: Option<Seq<u8>>) -> WalkView {
    let id = FileId(w.next_file as i64);
    let l = lang::lang_at(path);
    let b = WalkView {
        live: w.live.insert(path, id),
        order: tables::entry_put(w.order, path, id),
        lang_of: walk::lang_put(w.lang_of, id, l),
        next_file: w.next_file + 1,
        log: w.log.push(OpView::InsertFile { file: id, path, lang: l, born: CommitId(0) }),
        ..w
    };
    match content {
        Some(c) => walk::config_read(b, path, text::lossy(c)),
        None => b,
    }
}

/// The walk once the first `n` files of the tree are there. Vendored files
/// are left out.
pub open spec fn files_seeded(w: WalkView, tree: Seq<TreeFile>, facts: Seq<FactsView>, n: int) -> WalkView
    decreases n,
{
    if n <= 0 {
        w
    } else {
        let b = files_seeded(w, tree, facts, n - 1);
        if classify::excluded_path(tree[n - 1].path@) {
            b
        } else {
            file_seeded(b, tree[n - 1].path@, facts[n - 1].content)
        }
    }
}

/// The files among the first `n` of the tree to parse.
pub open spec fn seed_jobs(w: WalkView, tree: Seq<TreeFile>, facts: Seq<FactsView>, n: int) -> Seq<(FileId, int)>
    decreases n,
{
    if n <= 0 {
        Seq::empty()
    } else {
        let b = seed_jobs(w, tree, facts, n - 1);
        let path = tree[n - 1].path@;
        if !classify::excluded_path(path) && lang::lang_at(path) is Some && walk::real_blob(tree[n - 1].blob@) {
            b.push((FileId(files_seeded(w, tree, facts, n - 1).next_file as i64), n - 1))
        } else {
            b
        }
    }
}

/// The walk once the tree is there, with the edges that it has.
pub open spec fn tree_seeded(w: WalkView, tree: Seq<TreeFile>, facts: Seq<FactsView>) -> WalkView {
    let n = tree.len() as int;
    walk::parses_applied(
        files_seeded(w, tree, facts, n),
        walk::parse_order(seed_jobs(w, tree, facts, n), facts),
        tree_paths(tree),
        facts,
        CommitId(0),
    )
}

proof fn lemma_seed_numbered(w: WalkView, tree: Seq<TreeFile>, facts: Seq<FactsView>, n: int)
    requires
        n >= 0,
    ensures
        walk::numbered(seed_jobs(w, tree, facts, n), n),
    decreases n,
{
    if n > 0 {
        lemma_seed_numbered(w, tree, facts, n - 1);
    }
}

impl WalkState {
    fn seed_file(&mut self, path: &str, facts: &BlobFacts) -> (r: FileId)
        requires
            old(self).wf(),
            old(self)@.next_file < i64::MAX,
        ensures
            final(self).wf(),
            r == FileId(old(self)@.next_file as i64),
            final(self)@ == file_seeded(old(self)@, path@, facts@.content),
    {
        let ghost w = self@;
        let id = FileId(self.next_file);
        let lang = Lang::from_path(path);
        self.next_file = self.next_file + 1;
        assert(self@ =~= (WalkView { next_file: w.next_file + 1, ..w }));
        self.write(StoreOp::InsertFile { file: id, path: path.to_owned(), lang, born: CommitId(0) });
        let ghost b = self@;
        self.live.insert(path.to_owned(), id);
        assert(self@ =~= (WalkView {
            live: w.live.insert(path@, id),
            order: tables::entry_put(w.order, path@, id),
            ..b
        }));
        self.set_lang(id, lang);
        match &facts.content {
            Some(c) => {
                self.update_configs(path, c);
            },
            None => {},
        }
        id
    }

    /// Seed live state from a full tree (for indexes that start mid-history).
    pub fn seed_from_tree(&mut self, tree: &Vec<TreeFile>, facts: &Vec<BlobFacts>)
        requires
            old(self).wf(),
            facts@.len() == tree@.len(),
            walk::has_room(old(self)@, tree@.len() as int, walk::facts_views(facts@)),
        ensures
            final(self).wf(),
            final(self)@ == tree_seeded(old(self)@, tree@, walk::facts_views(facts@)),
    {
        let ghost w = self@;
        let ghost t = tree@;
        let ghost fv = walk::facts_views(facts@);
        let mut jobs: Vec<(FileId, usize)> = Vec::new();
        let mut paths: Vec<String> = Vec::new();
        let mut i: usize = 0;
        assert(walk::pairs(jobs@) =~= Seq::<(FileId, int)>::empty());
        while i < tree.len()
            invariant
                i <= tree@.len(),
                t == tree@,
                fv == walk::facts_views(facts@),
                facts@.len() == tree@.len(),
                w.next_file + tree@.len() <= i64::MAX,
                self.wf(),
                self@ == files_seeded(w, t, fv, i as int),
                self@.next_file <= w.next_file + i,
                self@.total == w.total,
                self@.resolved == w.resolved,
                walk::pairs(jobs@) == seed_jobs(w, t, fv, i as int),
                forall|k: int| 0 <= k < jobs@.len() ==> (#[trigger] jobs@[k]).1 < tree@.len(),
                paths@.len() == i,
                forall|k: int| 0 <= k < i ==> (#[trigger] paths@[k])@ == tree_paths(t)[k],
            decreases tree@.len() - i,
        {
            let path = tree[i].path.as_str();
            let ghost j = jobs@;
            assert(fv[i as int] == facts@[i as int]@);
            if !is_excluded_path(path) {
                let id = self.seed_file(path, &facts[i]);
                if Lang::from_path(path).is_some() && walk::is_real(&tree[i].blob) {
                    jobs.push((id, i));
                    assert(walk::pairs(jobs@) =~= walk::pairs(j).push((id, i as int)));
                }
            }
            paths.push(tree[i].path.clone());
            i += 1;
        }
        let ghost n = tree@.len() as int;
        let ghost js = walk::pairs(jobs@);
        proof {
            lemma_seed_numbered(w, t, fv, n);
            walk::lemma_refs_listed(js, fv, n);
            walk::lemma_refs_parts(js, fv);
            assert(text::views(paths@) =~= tree_paths(t));
        }
        let order = order_parses(&jobs, facts);
        self.apply_parses(&order, &paths, facts, CommitId(0));
    }
}

} // verus!
