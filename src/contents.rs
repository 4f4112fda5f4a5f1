use vstd::prelude::*;

use crate::filter::{lemma_retain_all_concat, paths_view, retain_all, Filter};
use crate::path::EntryPath;
use crate::tree::{dirs_in, files_in, lemma_dirs_in_prefix, lemma_dirs_in_take_len, EntryKind, FsTree};

verus! {

proof fn lemma_paths_view_concat(a: Seq<EntryPath>, b: Seq<EntryPath>)
    ensures
        paths_view(a + b) == paths_view(a) + paths_view(b),
{
    assert(paths_view(a + b) =~= paths_view(a) + paths_view(b));
}

/// The contents of one directory of a tree: its subdirectories, its files,
/// and the filters that its file list passes through.
pub struct PathContents {
    /// The immediate subdirectories of the directory.
    pub directories: Vec<EntryPath>,
    /// Before a walk, the directory's own files; after one, every file under
    /// it that the filters keep.
    pub files: Vec<EntryPath>,
    pub filters: Vec<Filter>,
    /// The directory's number in the tree.
    pub node: usize,
    /// The numbers in the tree of `directories`, in the same order.
    pub dir_nodes: Vec<usize>,
}

impl PathContents {
    /// `directories` and `dir_nodes` describe the subdirectories of `node` in `tree`.
    pub open spec fn matches_tree(&self, tree: FsTree) -> bool {
        &&& 0 <= self.node < tree.listed()
        &&& paths_view(self.directories@) == dirs_in(tree.entries(self.node as int))
        &&& self.dir_nodes@.len() == dirs_in(tree.entries(self.node as int)).len()
        &&& forall|k: int|
            0 <= k < self.dir_nodes@.len() ==> #[trigger] self.dir_nodes@[k] == tree.first_child(
                self.node as int,
            ) + k
    }

    /// The files that the collection yields once walked in `tree`.
    pub open spec fn walked_files(&self, tree: FsTree) -> Seq<Seq<Seq<char>>> {
        retain_all(self.filters@, tree.closure(self.node as int))
    }

    /// An empty collection, with no filter.
    pub fn new() -> (r: PathContents)
        ensures
            r.directories@.len() == 0,
            r.files@.len() == 0,
            r.filters@.len() == 0,
            r.dir_nodes@.len() == 0,
            r.node == 0,
    {
        PathContents {
            directories: Vec::new(),
            files: Vec::new(),
            filters: Vec::new(),
            node: 0,
            dir_nodes: Vec::new(),
        }
    }

    /// The subdirectories, their numbers, and the files of directory `node`,
    /// from its listing; entries that are neither are left out.
    fn partition(tree: &FsTree, node: usize) -> (r: (Vec<EntryPath>, Vec<usize>, Vec<EntryPath>))
        requires
            tree.wf(),
            node < tree.listed(),
        ensures
            paths_view(r.0@) == dirs_in(tree.entries(node as int)),
            r.1@.len() == dirs_in(tree.entries(node as int)).len(),
            forall|k: int| 0 <= k < r.1@.len() ==> #[trigger] r.1@[k] == tree.first_child(node as int) + k,
            paths_view(r.2@) == files_in(tree.entries(node as int)),
    {
        let entries = &tree.listings[node].entries;
        let first_child = tree.listings[node].first_child;
        let ghost es = tree.entries(node as int);
        let total = tree.dirs.len();
        assert(tree.first_child(node as int) == first_child);
        assert(first_child + dirs_in(es).len() <= tree.dirs@.len());
        let mut directories: Vec<EntryPath> = Vec::new();
        let mut dir_nodes: Vec<usize> = Vec::new();
        let mut files: Vec<EntryPath> = Vec::new();
        let mut i: usize = 0;
        while i < entries.len()
            invariant
                i <= entries.len(),
                entries@ == es,
                first_child == tree.first_child(node as int),
                first_child + dirs_in(es).len() <= tree.dirs@.len(),
                tree.dirs@.len() == total,
                paths_view(directories@) == dirs_in(es.take(i as int)),
                paths_view(files@) == files_in(es.take(i as int)),
                dir_nodes@.len() == directories@.len(),
                dir_nodes@.len() == dirs_in(es.take(i as int)).len(),
                forall|k: int| 0 <= k < dir_nodes@.len() ==> #[trigger] dir_nodes@[k] == first_child + k,
            decreases entries.len() - i,
        {
            assert(es.take(i + 1).drop_last() =~= es.take(i as int));
            proof {
                lemma_dirs_in_prefix(es, i as int + 1);
                lemma_dirs_in_take_len(es, i as int + 1);
            }
            let kind = entries[i].kind;
            if kind == EntryKind::Directory {
                let ghost before = directories@;
                directories.push(entries[i].path.duplicate());
                assert(paths_view(directories@) =~= paths_view(before).push(es[i as int].path@));
                dir_nodes.push(first_child + dir_nodes.len());
            } else if kind == EntryKind::File {
                let ghost before = files@;
                files.push(entries[i].path.duplicate());
                assert(paths_view(files@) =~= paths_view(before).push(es[i as int].path@));
            }
            i = i + 1;
        }
        assert(es.take(i as int) =~= es);
        (directories, dir_nodes, files)
    }

    /// The collection of directory `node` of `tree`: its immediate
    /// subdirectories and files, not yet walked, with no filter.
    pub fn from(tree: &FsTree, node: usize) -> (r: PathContents)
        requires
            tree.wf(),
            node < tree.listed(),
        ensures
            r.node == node,
            r.matches_tree(*tree),
            paths_view(r.files@) == files_in(tree.entries(node as int)),
            r.filters@.len() == 0,
    {
        let (directories, dir_nodes, files) = Self::partition(tree, node);
        PathContents { directories, files, filters: Vec::new(), node, dir_nodes }
    }

    /// Appends `filter` to the chain of filters.
    pub fn add_filter(&mut self, filter: Filter)
        ensures
            final(self).filters@ == old(self).filters@.push(filter),
            final(self).directories == old(self).directories,
            final(self).files == old(self).files,
            final(self).node == old(self).node,
            final(self).dir_nodes == old(self).dir_nodes,
    {
        self.filters.push(filter);
    }

    /// Walks the tree under the directory and returns every file found there
    /// that the filters keep, in the order of the walk. Each call walks anew.
    pub fn get_files(&mut self, tree: &FsTree) -> (r: Vec<EntryPath>)
        requires
            tree.wf(),
            tree.complete(),
            old(self).matches_tree(*tree),
        ensures
            paths_view(r@) == old(self).walked_files(*tree),
            paths_view(final(self).files@) == old(self).walked_files(*tree),
            final(self).filters == old(self).filters,
            final(self).directories == old(self).directories,
            final(self).node == old(self).node,
            final(self).dir_nodes == old(self).dir_nodes,
    {
        let (_, _, files) = Self::partition(tree, self.node);
        self.files = files;
        self.walk(tree);
        let mut r: Vec<EntryPath> = Vec::new();
        let mut i: usize = 0;
        while i < self.files.len()
            invariant
                i <= self.files.len(),
                paths_view(r@) == paths_view(self.files@).take(i as int),
            decreases self.files.len() - i,
        {
            let ghost before = r@;
            r.push(self.files[i].duplicate());
            assert(paths_view(r@) =~= paths_view(before).push(self.files@[i as int]@));
            assert(paths_view(self.files@).take(i + 1) =~= paths_view(self.files@).take(i as int).push(
                self.files@[i as int]@,
            ));
            i = i + 1;
        }
        assert(paths_view(self.files@).take(i as int) =~= paths_view(self.files@));
        r
    }

    /// Appends the files under each subdirectory, then applies the filters
    /// once to the whole list.
    fn walk(&mut self, tree: &FsTree)
        requires
            tree.wf(),
            tree.complete(),
            old(self).matches_tree(*tree),
            paths_view(old(self).files@) == files_in(tree.entries(old(self).node as int)),
        ensures
            paths_view(final(self).files@) == old(self).walked_files(*tree),
            final(self).filters == old(self).filters,
            final(self).directories == old(self).directories,
            final(self).node == old(self).node,
            final(self).dir_nodes == old(self).dir_nodes,
        decreases tree.listed() - old(self).node,
    {
        let ghost node = self.node as int;
        let mut k: usize = 0;
        while k < self.dir_nodes.len()
            invariant
                tree.wf(),
                tree.complete(),
                self.matches_tree(*tree),
                self.node == old(self).node,
                node == self.node,
                self.filters == old(self).filters,
                self.directories == old(self).directories,
                self.dir_nodes == old(self).dir_nodes,
                k <= self.dir_nodes.len(),
                paths_view(self.files@) == files_in(tree.entries(node)) + tree.sub_closures(node, k as int),
            decreases self.dir_nodes.len() - k,
        {
            let j = self.dir_nodes[k];
            assert(tree.first_child(node) + dirs_in(tree.entries(node)).len() <= tree.dirs@.len());
            let mut sub = PathContents::from(tree, j);
            sub.walk(tree);
            let mut sub_files = sub.files;
            let ghost before = self.files@;
            self.files.append(&mut sub_files);
            proof {
                lemma_paths_view_concat(before, self.files@.skip(before.len() as int));
                assert(self.files@ =~= before + self.files@.skip(before.len() as int));
                assert(tree.sub_closures(node, k + 1) == tree.sub_closures(node, k as int) + tree.closure(
                    j as int,
                ));
            }
            k = k + 1;
        }
        assert(tree.closure(node) == files_in(tree.entries(node)) + tree.sub_closures(
            node,
            dirs_in(tree.entries(node)).len() as int,
        ));
        self.apply_filters();
    }

    /// Passes the file list through each filter in turn.
    fn apply_filters(&mut self)
        ensures
            paths_view(final(self).files@) == retain_all(old(self).filters@, paths_view(old(self).files@)),
            final(self).filters == old(self).filters,
            final(self).directories == old(self).directories,
            final(self).node == old(self).node,
            final(self).dir_nodes == old(self).dir_nodes,
    {
        let mut i: usize = 0;
        while i < self.filters.len()
            invariant
                i <= self.filters.len(),
                self.filters == old(self).filters,
                self.directories == old(self).directories,
                self.node == old(self).node,
                self.dir_nodes == old(self).dir_nodes,
                paths_view(self.files@) == retain_all(
                    self.filters@.take(i as int),
                    paths_view(old(self).files@),
                ),
            decreases self.filters.len() - i,
        {
            assert(self.filters@.take(i + 1).drop_last() =~= self.filters@.take(i as int));
            self.filters[i].apply(&mut self.files);
            i = i + 1;
        }
        assert(self.filters@.take(i as int) =~= self.filters@);
    }
}

/// The filtered files under the first `k` subdirectories of directory `i`,
/// each subdirectory's list filtered on its own, one after the other.
pub open spec fn filtered_sub_results(tree: FsTree, fs: Seq<Filter>, i: int, k: int) -> Seq<
    Seq<Seq<char>>,
>
    decreases k,
{
    if k <= 0 {
        seq![]
    } else {
        filtered_sub_results(tree, fs, i, k - 1) + retain_all(fs, tree.closure(tree.first_child(i) + k - 1))
    }
}

/// Filters act once, on the whole list of files under a directory; the result
/// is the same as filtering the directory's own files and the list of each
/// subdirectory separately, and joining them in order.
pub proof fn lemma_filters_apply_once(tree: FsTree, fs: Seq<Filter>, i: int)
    requires
        tree.wf(),
        tree.complete(),
        0 <= i < tree.listed(),
    ensures
        retain_all(fs, tree.closure(i)) == retain_all(fs, files_in(tree.entries(i)))
            + filtered_sub_results(tree, fs, i, dirs_in(tree.entries(i)).len() as int),
{
    let n = dirs_in(tree.entries(i)).len() as int;
    lemma_retain_all_concat(fs, files_in(tree.entries(i)), tree.sub_closures(i, n));
    lemma_sub_results(tree, fs, i, n);
}

proof fn lemma_sub_results(tree: FsTree, fs: Seq<Filter>, i: int, k: int)
    requires
        tree.wf(),
        tree.complete(),
        0 <= i < tree.listed(),
        0 <= k <= dirs_in(tree.entries(i)).len(),
    ensures
        retain_all(fs, tree.sub_closures(i, k)) == filtered_sub_results(tree, fs, i, k),
    decreases k,
{
    if k > 0 {
        lemma_sub_results(tree, fs, i, k - 1);
        assert(i < tree.first_child(i));
        lemma_retain_all_concat(fs, tree.sub_closures(i, k - 1), tree.closure(tree.first_child(i) + k - 1));
    } else {
        assert(retain_all(fs, seq![]) =~= seq![]) by {
            lemma_retain_all_empty(fs);
        }
    }
}

proof fn lemma_retain_all_empty(fs: Seq<Filter>)
    ensures
        retain_all(fs, seq![]) == Seq::<Seq<Seq<char>>>::empty(),
    decreases fs.len(),
{
    if fs.len() > 0 {
        lemma_retain_all_empty(fs.drop_last());
    }
}

/// Two collections of one directory with the same filters yield the same
/// files: a walk depends on nothing else, so it can be repeated.
pub proof fn lemma_get_files_repeatable(a: PathContents, b: PathContents, tree: FsTree)
    requires
        a.node == b.node,
        a.filters@ == b.filters@,
    ensures
        a.walked_files(tree) == b.walked_files(tree),
{
}

} // verus!
