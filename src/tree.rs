use vstd::prelude::*;

use crate::filter::paths_view;
use crate::path::EntryPath;

verus! {

/// What a directory entry was found to be when it was listed.
#[derive(Clone, Copy, PartialEq, Eq, Structural, Debug)]
pub enum EntryKind {
    File,
    Directory,
    /// Neither a readable file nor a readable directory.
    Other,
}

/// One entry of a directory listing.
pub struct Entry {
    pub path: EntryPath,
    pub kind: EntryKind,
}

/// The paths of the file entries of a listing, in order.
pub open spec fn files_in(es: Seq<Entry>) -> Seq<Seq<Seq<char>>>
    decreases es.len(),
{
    if es.len() == 0 {
        seq![]
    } else if es.last().kind == EntryKind::File {
        files_in(es.drop_last()).push(es.last().path@)
    } else {
        files_in(es.drop_last())
    }
}

/// The paths of the directory entries of a listing, in order.
pub open spec fn dirs_in(es: Seq<Entry>) -> Seq<Seq<Seq<char>>>
    decreases es.len(),
{
    if es.len() == 0 {
        seq![]
    } else if es.last().kind == EntryKind::Directory {
        dirs_in(es.drop_last()).push(es.last().path@)
    } else {
        dirs_in(es.drop_last())
    }
}

/// A prefix of a listing has no more directories than the listing.
pub proof fn lemma_dirs_in_take_len(es: Seq<Entry>, n: int)
    requires
        0 <= n <= es.len(),
    ensures
        dirs_in(es.take(n)).len() <= dirs_in(es).len(),
    decreases es.len() - n,
{
    if n < es.len() {
        lemma_dirs_in_take_len(es, n + 1);
        lemma_dirs_in_prefix(es, n + 1);
    } else {
        assert(es.take(n) =~= es);
    }
}

/// The files and directories of a listing's first `n` entries, from those
/// of its first `n - 1`.
pub proof fn lemma_dirs_in_prefix(es: Seq<Entry>, n: int)
    requires
        0 < n <= es.len(),
    ensures
        dirs_in(es.take(n)) == (if es[n - 1].kind == EntryKind::Directory {
            dirs_in(es.take(n - 1)).push(es[n - 1].path@)
        } else {
            dirs_in(es.take(n - 1))
        }),
        files_in(es.take(n)) == (if es[n - 1].kind == EntryKind::File {
            files_in(es.take(n - 1)).push(es[n - 1].path@)
        } else {
            files_in(es.take(n - 1))
        }),
{
    assert(es.take(n).drop_last() =~= es.take(n - 1));
}

/// The recorded listing of one directory. Its directory entries are the
/// directories numbered `first_child`, `first_child + 1`, ... of the tree.
pub struct Listing {
    pub entries: Vec<Entry>,
    pub first_child: usize,
}

/// A directory tree as it was observed, one listing at a time.
///
/// Directory number 0 is the root. `dirs` holds every directory discovered so
/// far; `listings[i]` is the listing of `dirs[i]`, for the directories listed
/// so far, which come first. A directory is always numbered after the one that
/// contains it, so the tree has no cycle.
pub struct FsTree {
    pub dirs: Vec<EntryPath>,
    pub listings: Vec<Listing>,
}

impl FsTree {
    pub open spec fn entries(self, i: int) -> Seq<Entry> {
        self.listings@[i].entries@
    }

    pub open spec fn first_child(self, i: int) -> int {
        self.listings@[i].first_child as int
    }

    /// The number of directories listed so far.
    pub open spec fn listed(self) -> int {
        self.listings@.len() as int
    }

    pub open spec fn wf(self) -> bool {
        &&& self.dirs@.len() >= 1
        &&& self.listings@.len() <= self.dirs@.len()
        &&& forall|i: int|
            0 <= i < self.listed() ==> {
                &&& i < #[trigger] self.first_child(i)
                &&& self.first_child(i) + dirs_in(self.entries(i)).len() <= self.dirs@.len()
            }
        &&& forall|i: int, k: int|
            0 <= i < self.listed() && 0 <= k < dirs_in(self.entries(i)).len() ==> (
            #[trigger] self.dirs@[self.first_child(i) + k])@ == #[trigger] dirs_in(self.entries(i))[k]
    }

    /// Every directory discovered has been listed.
    pub open spec fn complete(self) -> bool {
        self.listings@.len() == self.dirs@.len()
    }

    /// Every file under directory `i`: its own files, then those under each of
    /// its subdirectories in turn.
    pub open spec fn closure(self, i: int) -> Seq<Seq<Seq<char>>>
        decreases self.listed() - i, dirs_in(self.entries(i)).len() + 1,
    {
        if 0 <= i < self.listed() {
            files_in(self.entries(i)) + self.sub_closures(i, dirs_in(self.entries(i)).len() as int)
        } else {
            seq![]
        }
    }

    /// The files under the first `k` subdirectories of directory `i`.
    pub open spec fn sub_closures(self, i: int, k: int) -> Seq<Seq<Seq<char>>>
        decreases self.listed() - i, k,
    {
        if 0 <= i < self.listed() && 0 < k {
            let j = self.first_child(i) + k - 1;
            self.sub_closures(i, k - 1) + (if i < j < self.listed() {
                self.closure(j)
            } else {
                seq![]
            })
        } else {
            seq![]
        }
    }

    /// A tree of which only the root is known.
    pub fn new(root: EntryPath) -> (r: FsTree)
        ensures
            r.wf(),
            paths_view(r.dirs@) == seq![root@],
            r.listed() == 0,
    {
        let mut dirs: Vec<EntryPath> = Vec::new();
        dirs.push(root);
        assert(paths_view(dirs@) =~= seq![root@]);
        FsTree { dirs, listings: Vec::new() }
    }

    pub fn is_complete(&self) -> (r: bool)
        ensures
            r == self.complete(),
    {
        self.listings.len() == self.dirs.len()
    }

    /// The first directory that is discovered and not yet listed.
    pub fn next_unlisted(&self) -> (r: Option<EntryPath>)
        requires
            self.wf(),
        ensures
            self.complete() <==> r is None,
            r matches Some(p) ==> p@ == self.dirs@[self.listed()]@,
    {
        if self.listings.len() < self.dirs.len() {
            Some(self.dirs[self.listings.len()].duplicate())
        } else {
            None
        }
    }

    /// Records `entries` as the listing of the first unlisted directory; the
    /// directories among them are discovered, numbered in their order.
    pub fn record(&mut self, entries: Vec<Entry>)
        requires
            old(self).wf(),
            !old(self).complete(),
        ensures
            final(self).wf(),
            final(self).listings@ == old(self).listings@.push(
                Listing { entries, first_child: old(self).dirs@.len() as usize },
            ),
            paths_view(final(self).dirs@) == paths_view(old(self).dirs@) + dirs_in(entries@),
    {
        let ghost old_dirs = self.dirs@;
        let first_child = self.dirs.len();
        let mut i: usize = 0;
        while i < entries.len()
            invariant
                i <= entries.len(),
                self.listings == old(self).listings,
                self.dirs@.len() == old_dirs.len() + dirs_in(entries@.take(i as int)).len(),
                self.dirs@.take(old_dirs.len() as int) == old_dirs,
                first_child == old_dirs.len(),
                forall|k: int|
                    0 <= k < dirs_in(entries@.take(i as int)).len() ==> (
                    #[trigger] self.dirs@[first_child + k])@ == dirs_in(entries@.take(i as int))[k],
            decreases entries.len() - i,
        {
            assert(entries@.take(i + 1).drop_last() =~= entries@.take(i as int));
            if entries[i].kind == EntryKind::Directory {
                let p = entries[i].path.duplicate();
                self.dirs.push(p);
                assert(self.dirs@.take(old_dirs.len() as int) =~= old_dirs);
            }
            i = i + 1;
        }
        assert(entries@.take(i as int) =~= entries@);
        self.listings.push(Listing { entries, first_child });
        assert forall|j: int|
            0 <= j < self.listed() implies {
                &&& j < #[trigger] self.first_child(j)
                &&& self.first_child(j) + dirs_in(self.entries(j)).len() <= self.dirs@.len()
            } by {
            if j < self.listed() - 1 {
                assert(self.listings@[j] == old(self).listings@[j]);
                assert(old(self).first_child(j) + dirs_in(old(self).entries(j)).len() <= old_dirs.len());
            }
        }
        assert forall|j: int, k: int|
            0 <= j < self.listed() && 0 <= k < dirs_in(self.entries(j)).len() implies (
            #[trigger] self.dirs@[self.first_child(j) + k])@ == #[trigger] dirs_in(self.entries(j))[k] by {
            if j < self.listed() - 1 {
                assert(self.listings@[j] == old(self).listings@[j]);
                assert(old(self).first_child(j) + dirs_in(old(self).entries(j)).len() <= old_dirs.len());
                assert(self.dirs@[self.first_child(j) + k] == old_dirs[self.first_child(j) + k]);
                assert(old(self).dirs@[old(self).first_child(j) + k]@ == dirs_in(old(self).entries(j))[k]);
            }
        }
        assert(paths_view(self.dirs@) =~= paths_view(old_dirs) + dirs_in(entries@)) by {
            assert forall|k: int| 0 <= k < self.dirs@.len() implies paths_view(self.dirs@)[k] == (paths_view(old_dirs) + dirs_in(entries@))[k] by {
                if k < old_dirs.len() {
                    assert(self.dirs@[k] == old_dirs[k]);
                } else {
                    assert(self.dirs@[first_child + (k - first_child)]@ == dirs_in(entries@)[k - first_child]);
                }
            }
        }
    }
}

} // verus!
