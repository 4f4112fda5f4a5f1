use vstd::prelude::*;

use crate::path::{has_segment_in, path_extension, strings_view, EntryPath};

verus! {

/// The views of a sequence of paths.
pub open spec fn paths_view(v: Seq<EntryPath>) -> Seq<Seq<Seq<char>>> {
    v.map_values(|p: EntryPath| p@)
}

/// A predicate over file paths that removes the paths it does not keep.
pub enum Filter {
    /// Keeps the files whose extension is exactly this string.
    Extension(String),
    /// Keeps the files none of whose path components is one of these names.
    ExcludedFolders(Vec<String>),
}

impl Filter {
    /// Whether the filter keeps the path `p`.
    pub open spec fn keeps(&self, p: Seq<Seq<char>>) -> bool {
        match self {
            Filter::Extension(ext) => path_extension(p) == Some(ext@),
            Filter::ExcludedFolders(names) => !has_segment_in(p, strings_view(names@)),
        }
    }

    /// Whether the filter keeps `p`.
    pub fn allows(&self, p: &EntryPath) -> (r: bool)
        ensures
            r == self.keeps(p@),
    {
        match self {
            Filter::Extension(ext) => p.has_extension(ext),
            Filter::ExcludedFolders(names) => !p.has_segment_in(names),
        }
    }

    /// Removes from `paths` the paths that the filter does not keep, keeping
    /// the order of the others.
    pub fn apply(&self, paths: &mut Vec<EntryPath>)
        ensures
            paths_view(final(paths)@) == retain(*self, paths_view(old(paths)@)),
    {
        let ghost src = paths_view(paths@);
        let mut kept: Vec<EntryPath> = Vec::new();
        let mut i: usize = 0;
        while i < paths.len()
            invariant
                i <= paths.len(),
                src == paths_view(paths@),
                src.len() == paths@.len(),
                paths_view(kept@) == retain(*self, src.take(i as int)),
            decreases paths.len() - i,
        {
            let ghost before = kept@;
            if self.allows(&paths[i]) {
                let p = paths[i].duplicate();
                kept.push(p);
                assert(paths_view(kept@) =~= paths_view(before).push(src[i as int]));
            }
            assert(src.take(i + 1).drop_last() =~= src.take(i as int));
            i = i + 1;
        }
        assert(src.take(i as int) =~= src);
        *paths = kept;
    }
}

/// The filter that keeps the files with extension `extension`.
pub fn filter_paths_with_extension(extension: String) -> (r: Filter)
    ensures
        r == Filter::Extension(extension),
{
    Filter::Extension(extension)
}

/// The filter that keeps the files under none of the folders `folders`.
pub fn filter_out_paths_under_folders(folders: Vec<String>) -> (r: Filter)
    ensures
        r == Filter::ExcludedFolders(folders),
{
    Filter::ExcludedFolders(folders)
}

/// The elements of `s` that `f` keeps, in their order.
pub open spec fn retain(f: Filter, s: Seq<Seq<Seq<char>>>) -> Seq<Seq<Seq<char>>>
    decreases s.len(),
{
    if s.len() == 0 {
        s
    } else {
        let r = retain(f, s.drop_last());
        if f.keeps(s.last()) {
            r.push(s.last())
        } else {
            r
        }
    }
}

/// `s` after each filter of `fs` in turn.
pub open spec fn retain_all(fs: Seq<Filter>, s: Seq<Seq<Seq<char>>>) -> Seq<Seq<Seq<char>>>
    decreases fs.len(),
{
    if fs.len() == 0 {
        s
    } else {
        retain(fs.last(), retain_all(fs.drop_last(), s))
    }
}

/// Whether every filter of `fs` keeps `p`.
pub open spec fn kept_by_all(fs: Seq<Filter>, p: Seq<Seq<char>>) -> bool {
    forall|k: int| 0 <= k < fs.len() ==> #[trigger] fs[k].keeps(p)
}

/// Retaining commutes with concatenation.
pub proof fn lemma_retain_concat(f: Filter, a: Seq<Seq<Seq<char>>>, b: Seq<Seq<Seq<char>>>)
    ensures
        retain(f, a + b) == retain(f, a) + retain(f, b),
    decreases b.len(),
{
    if b.len() == 0 {
        assert(a + b =~= a);
        assert(retain(f, b) =~= b);
        assert(retain(f, a) + retain(f, b) =~= retain(f, a));
    } else {
        lemma_retain_concat(f, a, b.drop_last());
        assert((a + b).drop_last() =~= a + b.drop_last());
        assert((a + b).last() == b.last());
        if f.keeps(b.last()) {
            assert(retain(f, a) + retain(f, b) =~= (retain(f, a) + retain(f, b.drop_last())).push(b.last()));
        } else {
            assert(retain(f, a) + retain(f, b) =~= retain(f, a) + retain(f, b.drop_last()));
        }
    }
}

/// A chain of filters commutes with concatenation: filtering a whole sequence
/// once is the same as filtering its parts separately.
pub proof fn lemma_retain_all_concat(fs: Seq<Filter>, a: Seq<Seq<Seq<char>>>, b: Seq<Seq<Seq<char>>>)
    ensures
        retain_all(fs, a + b) == retain_all(fs, a) + retain_all(fs, b),
    decreases fs.len(),
{
    if fs.len() > 0 {
        lemma_retain_all_concat(fs.drop_last(), a, b);
        lemma_retain_concat(fs.last(), retain_all(fs.drop_last(), a), retain_all(fs.drop_last(), b));
    }
}

/// Two filters that keep the same paths retain the same elements.
pub proof fn lemma_retain_same(f: Filter, g: Filter, s: Seq<Seq<Seq<char>>>)
    requires
        forall|p: Seq<Seq<char>>| f.keeps(p) == g.keeps(p),
    ensures
        retain(f, s) == retain(g, s),
    decreases s.len(),
{
    if s.len() > 0 {
        lemma_retain_same(f, g, s.drop_last());
    }
}

/// Two chains of filters that keep the same paths, filter by filter, retain
/// the same elements.
pub proof fn lemma_retain_all_same(fs: Seq<Filter>, gs: Seq<Filter>, s: Seq<Seq<Seq<char>>>)
    requires
        fs.len() == gs.len(),
        forall|k: int, p: Seq<Seq<char>>| 0 <= k < fs.len() ==> #[trigger] fs[k].keeps(p) == gs[k].keeps(p),
    ensures
        retain_all(fs, s) == retain_all(gs, s),
    decreases fs.len(),
{
    if fs.len() > 0 {
        assert forall|k: int, p: Seq<Seq<char>>| 0 <= k < fs.len() - 1 implies #[trigger] fs.drop_last()[k].keeps(p) == gs.drop_last()[k].keeps(p) by {
            assert(fs[k].keeps(p) == gs[k].keeps(p));
        }
        lemma_retain_all_same(fs.drop_last(), gs.drop_last(), s);
        assert forall|p: Seq<Seq<char>>| fs.last().keeps(p) == gs.last().keeps(p) by {
            assert(fs[fs.len() - 1].keeps(p) == gs[fs.len() - 1].keeps(p));
        }
        lemma_retain_same(fs.last(), gs.last(), retain_all(fs.drop_last(), s));
    }
}

/// What `f` retains of `s` is kept by `f` and taken from `s`.
pub proof fn lemma_retain_sound(f: Filter, s: Seq<Seq<Seq<char>>>)
    ensures
        forall|i: int| 0 <= i < retain(f, s).len() ==> f.keeps(#[trigger] retain(f, s)[i]),
        forall|i: int| 0 <= i < retain(f, s).len() ==> s.contains(#[trigger] retain(f, s)[i]),
    decreases s.len(),
{
    if s.len() > 0 {
        lemma_retain_sound(f, s.drop_last());
        assert forall|i: int| 0 <= i < retain(f, s).len() implies s.contains(#[trigger] retain(f, s)[i]) by {
            let r = retain(f, s.drop_last());
            if i < r.len() {
                let w = choose|w: int| 0 <= w < s.drop_last().len() && s.drop_last()[w] == r[i];
                assert(s[w] == r[i]);
            } else {
                assert(s[s.len() - 1] == retain(f, s)[i]);
            }
        }
    }
}

/// What a chain of filters retains of `s` is kept by each filter and taken from `s`.
pub proof fn lemma_retain_all_sound(fs: Seq<Filter>, s: Seq<Seq<Seq<char>>>)
    ensures
        forall|i: int| 0 <= i < retain_all(fs, s).len() ==> kept_by_all(fs, #[trigger] retain_all(fs, s)[i]),
        forall|i: int| 0 <= i < retain_all(fs, s).len() ==> s.contains(#[trigger] retain_all(fs, s)[i]),
    decreases fs.len(),
{
    if fs.len() > 0 {
        let prev = retain_all(fs.drop_last(), s);
        lemma_retain_all_sound(fs.drop_last(), s);
        lemma_retain_sound(fs.last(), prev);
        assert forall|i: int| 0 <= i < retain_all(fs, s).len() implies kept_by_all(fs, #[trigger] retain_all(fs, s)[i]) && s.contains(retain_all(fs, s)[i]) by {
            let x = retain_all(fs, s)[i];
            assert(prev.contains(x));
            let w = choose|w: int| 0 <= w < prev.len() && prev[w] == x;
            assert(kept_by_all(fs.drop_last(), prev[w]));
            assert forall|k: int| 0 <= k < fs.len() implies #[trigger] fs[k].keeps(x) by {
                if k < fs.len() - 1 {
                    assert(fs.drop_last()[k] == fs[k]);
                }
            }
            assert(s.contains(prev[w]));
        }
    }
}

} // verus!
