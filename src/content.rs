use vstd::prelude::*;

use crate::filter::{kept_by_all, paths_view, Filter};
use crate::path::EntryPath;
use crate::tree::{dirs_in, lemma_dirs_in_prefix, lemma_dirs_in_take_len, EntryKind, FsTree};

verus! {

/// The files under directory `i` that every filter of `fs` keeps, in the
/// order of a depth-first walk that enters each subdirectory where its entry
/// stands in the listing.
pub open spec fn explored(tree: FsTree, fs: Seq<Filter>, i: int) -> Seq<Seq<Seq<char>>>
    decreases tree.listed() - i, tree.entries(i).len() + 1,
{
    if 0 <= i < tree.listed() {
        explored_prefix(tree, fs, i, tree.entries(i).len() as int)
    } else {
        seq![]
    }
}

/// What the walk of `explored` finds through the first `e` entries of directory `i`.
pub open spec fn explored_prefix(tree: FsTree, fs: Seq<Filter>, i: int, e: int) -> Seq<
    Seq<Seq<char>>,
>
    decreases tree.listed() - i, e,
{
    if 0 <= i < tree.listed() && 0 < e <= tree.entries(i).len() {
        let ent = tree.entries(i)[e - 1];
        explored_prefix(tree, fs, i, e - 1) + if ent.kind == EntryKind::File {
            if kept_by_all(fs, ent.path@) {
                seq![ent.path@]
            } else {
                seq![]
            }
        } else if ent.kind == EntryKind::Directory {
            let j = tree.first_child(i) + dirs_in(tree.entries(i).take(e - 1)).len();
            if i < j < tree.listed() {
                explored(tree, fs, j)
            } else {
                seq![]
            }
        } else {
            seq![]
        }
    } else {
        seq![]
    }
}

/// The files found under a directory that pass every filter, gathered while
/// walking.
pub struct Content {
    pub files: Vec<EntryPath>,
    pub filters: Vec<Filter>,
}

impl Content {
    /// No file found yet, and no filter.
    pub fn new() -> (r: Content)
        ensures
            r.files@.len() == 0,
            r.filters@.len() == 0,
    {
        Content { files: Vec::new(), filters: Vec::new() }
    }

    /// Appends `filter` to the filters, and hands the collection back so
    /// that calls can be chained.
    pub fn add_filter(&mut self, filter: Filter) -> (r: &mut Content)
        ensures
            r.filters@ == old(self).filters@.push(filter),
            r.files == old(self).files,
            *final(self) == *final(r),
    {
        self.filters.push(filter);
        self
    }

    /// Whether every filter keeps `p`.
    fn passes(&self, p: &EntryPath) -> (r: bool)
        ensures
            r == kept_by_all(self.filters@, p@),
    {
        let mut i: usize = 0;
        while i < self.filters.len()
            invariant
                i <= self.filters.len(),
                forall|k: int| 0 <= k < i ==> #[trigger] self.filters@[k].keeps(p@),
            decreases self.filters.len() - i,
        {
            if !self.filters[i].allows(p) {
                return false;
            }
            i = i + 1;
        }
        true
    }

    /// Walks directory `node` of the tree and appends each file found under
    /// it that every filter keeps.
    pub fn explore_path(&mut self, tree: &FsTree, node: usize)
        requires
            tree.wf(),
            tree.complete(),
            node < tree.listed(),
        ensures
            paths_view(final(self).files@) == paths_view(old(self).files@) + explored(
                *tree,
                old(self).filters@,
                node as int,
            ),
            final(self).filters == old(self).filters,
        decreases tree.listed() - node,
    {
        let entries = &tree.listings[node].entries;
        let first_child = tree.listings[node].first_child;
        let ghost es = tree.entries(node as int);
        let ghost start = paths_view(self.files@);
        let total = tree.dirs.len();
        assert(tree.first_child(node as int) == first_child);
        let mut d: usize = 0;
        let mut e: usize = 0;
        while e < entries.len()
            invariant
                tree.wf(),
                tree.complete(),
                node < tree.listed(),
                e <= entries.len(),
                entries@ == es,
                es == tree.entries(node as int),
                tree.dirs@.len() == total,
                first_child == tree.first_child(node as int),
                node < first_child,
                first_child + dirs_in(es).len() <= total,
                d == dirs_in(es.take(e as int)).len(),
                self.filters == old(self).filters,
                paths_view(self.files@) == start + explored_prefix(*tree, self.filters@, node as int, e as int),
            decreases entries.len() - e,
        {
            proof {
                lemma_dirs_in_prefix(es, e as int + 1);
                lemma_dirs_in_take_len(es, e as int + 1);
            }
            let ghost before = paths_view(self.files@);
            let kind = entries[e].kind;
            if kind == EntryKind::File && self.passes(&entries[e].path) {
                self.files.push(entries[e].path.duplicate());
                assert(paths_view(self.files@) =~= before.push(es[e as int].path@));
                assert(paths_view(self.files@) =~= start + explored_prefix(*tree, self.filters@, node as int, e + 1));
            } else if kind == EntryKind::Directory {
                let j = first_child + d;
                self.explore_path(tree, j);
                assert(paths_view(self.files@) =~= start + explored_prefix(*tree, self.filters@, node as int, e + 1));
                d = d + 1;
            } else {
                assert(explored_prefix(*tree, self.filters@, node as int, e + 1) =~= explored_prefix(
                    *tree,
                    self.filters@,
                    node as int,
                    e as int,
                ));
            }
            e = e + 1;
        }
    }
}

} // verus!
