use vstd::prelude::*;

use crate::contents::{filtered_sub_results, lemma_filters_apply_once, PathContents};
use crate::filter::{
    filter_out_paths_under_folders, filter_paths_with_extension, kept_by_all, lemma_retain_all_same,
    lemma_retain_all_sound, paths_view, retain_all, Filter,
};
use crate::path::{has_segment_in, path_extension, strings_view, EntryPath};
use crate::tree::{dirs_in, files_in, FsTree};

verus! {

/// The number of rows shown when no limit is given.
pub const DEFAULT_TOP: usize = 10;

/// A row to count: the files whose line counts make up the row `label`.
pub struct CountRequest {
    pub label: EntryPath,
    pub files: Vec<EntryPath>,
}

/// The line counts obtained for a row, one for each file that could be read.
pub struct CountResult {
    pub label: EntryPath,
    pub counts: Vec<usize>,
}

/// A row of output: a path and its number of lines.
pub struct LineTotal {
    pub path: EntryPath,
    pub lines: usize,
}

pub open spec fn requests_view(v: Seq<CountRequest>) -> Seq<(Seq<Seq<char>>, Seq<Seq<Seq<char>>>)> {
    v.map_values(|r: CountRequest| (r.label@, paths_view(r.files@)))
}

pub open spec fn results_view(v: Seq<CountResult>) -> Seq<(Seq<Seq<char>>, Seq<usize>)> {
    v.map_values(|r: CountResult| (r.label@, r.counts@))
}

pub open spec fn totals_view(v: Seq<LineTotal>) -> Seq<(Seq<Seq<char>>, int)> {
    v.map_values(|t: LineTotal| (t.path@, t.lines as int))
}

/// The sum of a sequence of counts.
pub open spec fn sum(s: Seq<usize>) -> int
    decreases s.len(),
{
    if s.len() == 0 {
        0
    } else {
        sum(s.drop_last()) + s.last()
    }
}

/// `x`, or the largest `usize` where `x` is larger.
pub open spec fn capped(x: int) -> int {
    if x <= usize::MAX {
        x
    } else {
        usize::MAX as int
    }
}

/// One row per result that holds at least one count, with the sum of its
/// counts, in the order of the results.
pub open spec fn group_totals(rs: Seq<(Seq<Seq<char>>, Seq<usize>)>) -> Seq<(Seq<Seq<char>>, int)>
    decreases rs.len(),
{
    if rs.len() == 0 {
        seq![]
    } else if rs.last().1.len() > 0 {
        group_totals(rs.drop_last()).push((rs.last().0, capped(sum(rs.last().1))))
    } else {
        group_totals(rs.drop_last())
    }
}

/// `s` with `x` placed after every row with at least as many lines.
pub open spec fn insert_desc(s: Seq<(Seq<Seq<char>>, int)>, x: (Seq<Seq<char>>, int)) -> Seq<
    (Seq<Seq<char>>, int),
>
    decreases s.len(),
{
    if s.len() == 0 {
        seq![x]
    } else if s[0].1 < x.1 {
        seq![x] + s
    } else {
        seq![s[0]] + insert_desc(s.skip(1), x)
    }
}

/// The rows of `s` by decreasing number of lines; rows with equal numbers
/// keep their order.
pub open spec fn sort_desc(s: Seq<(Seq<Seq<char>>, int)>) -> Seq<(Seq<Seq<char>>, int)>
    decreases s.len(),
{
    if s.len() == 0 {
        s
    } else {
        insert_desc(sort_desc(s.drop_last()), s.last())
    }
}

/// Whether the rows are in order of decreasing number of lines.
pub open spec fn is_sorted_desc(s: Seq<(Seq<Seq<char>>, int)>) -> bool {
    forall|a: int, b: int| 0 <= a < b < s.len() ==> s[a].1 >= s[b].1
}

proof fn lemma_insert_at(s: Seq<(Seq<Seq<char>>, int)>, x: (Seq<Seq<char>>, int), p: int)
    requires
        0 <= p <= s.len(),
        forall|q: int| 0 <= q < p ==> s[q].1 >= x.1,
        p < s.len() ==> s[p].1 < x.1,
    ensures
        insert_desc(s, x) == s.take(p) + seq![x] + s.skip(p),
    decreases p,
{
    if p == 0 {
        if s.len() == 0 {
            assert(s.take(p) + seq![x] + s.skip(p) =~= seq![x]);
        } else {
            assert(s.take(p) + seq![x] + s.skip(p) =~= seq![x] + s);
        }
    } else {
        let t = s.skip(1);
        assert forall|q: int| 0 <= q < p - 1 implies t[q].1 >= x.1 by {
            assert(t[q] == s[q + 1]);
        }
        if p - 1 < t.len() {
            assert(t[p - 1] == s[p]);
        }
        lemma_insert_at(t, x, p - 1);
        assert(s.take(p) + seq![x] + s.skip(p) =~= seq![s[0]] + (t.take(p - 1) + seq![x] + t.skip(p - 1)));
    }
}

proof fn lemma_insert_sorted(s: Seq<(Seq<Seq<char>>, int)>, x: (Seq<Seq<char>>, int))
    requires
        is_sorted_desc(s),
    ensures
        is_sorted_desc(insert_desc(s, x)),
        insert_desc(s, x).len() == s.len() + 1,
        insert_desc(s, x).to_multiset() == s.to_multiset().insert(x),
    decreases s.len(),
{
    broadcast use vstd::seq_lib::group_to_multiset_ensures;
    if s.len() == 0 {
        assert(seq![x] =~= s.push(x));
    } else if s[0].1 < x.1 {
        assert(seq![x] + s =~= s.insert(0, x));
    } else {
        let t = s.skip(1);
        lemma_insert_sorted(t, x);
        let r = insert_desc(t, x);
        assert forall|q: int| 0 <= q < r.len() implies r[q].1 <= s[0].1 by {
            assert(r.to_multiset().count(r[q]) > 0);
            if r[q] != x {
                assert(t.to_multiset().count(r[q]) > 0);
                assert(t.contains(r[q]));
                let w = choose|w: int| 0 <= w < t.len() && t[w] == r[q];
                assert(s[w + 1] == r[q]);
            }
        }
        assert(s =~= seq![s[0]] + t);
        assert((seq![s[0]] + r).to_multiset() =~= r.to_multiset().insert(s[0])) by {
            assert(seq![s[0]] + r =~= r.insert(0, s[0]));
        }
        assert(s.to_multiset() =~= t.to_multiset().insert(s[0])) by {
            assert(s =~= t.insert(0, s[0]));
        }
        let res = seq![s[0]] + r;
        assert forall|a: int, b: int| 0 <= a < b < res.len() implies res[a].1 >= res[b].1 by {
            if a > 0 {
                assert(res[a] == r[a - 1]);
                assert(res[b] == r[b - 1]);
            } else {
                assert(res[b] == r[b - 1]);
            }
        }
    }
}

/// Sorting yields the rows by decreasing number of lines, and the same rows.
pub proof fn lemma_sort_desc(s: Seq<(Seq<Seq<char>>, int)>)
    ensures
        is_sorted_desc(sort_desc(s)),
        sort_desc(s).to_multiset() == s.to_multiset(),
        sort_desc(s).len() == s.len(),
    decreases s.len(),
{
    broadcast use vstd::seq_lib::group_to_multiset_ensures;
    if s.len() == 0 {
        assert(sort_desc(s).to_multiset() =~= s.to_multiset());
    } else {
        lemma_sort_desc(s.drop_last());
        lemma_insert_sorted(sort_desc(s.drop_last()), s.last());
        assert(s =~= s.drop_last().push(s.last()));
    }
}

/// One row per file, each counting that file alone.
pub open spec fn per_file(files: Seq<Seq<Seq<char>>>) -> Seq<(Seq<Seq<char>>, Seq<Seq<Seq<char>>>)> {
    files.map_values(|f: Seq<Seq<char>>| (f, seq![f]))
}

proof fn lemma_sum_nonneg(s: Seq<usize>)
    ensures
        sum(s) >= 0,
    decreases s.len(),
{
    if s.len() > 0 {
        lemma_sum_nonneg(s.drop_last());
    }
}

/// The sum of `counts`, or the largest `usize` where the sum is larger.
fn capped_sum(counts: &Vec<usize>) -> (r: usize)
    ensures
        r == capped(sum(counts@)),
{
    let mut acc: usize = 0;
    let mut i: usize = 0;
    while i < counts.len()
        invariant
            i <= counts.len(),
            acc == capped(sum(counts@.take(i as int))),
        decreases counts.len() - i,
    {
        proof {
            assert(counts@.take(i + 1).drop_last() =~= counts@.take(i as int));
            lemma_sum_nonneg(counts@.take(i as int));
        }
        acc = acc.saturating_add(counts[i]);
        i = i + 1;
    }
    assert(counts@.take(i as int) =~= counts@);
    acc
}

/// The rows by decreasing number of lines, rows with equal numbers in their
/// order.
fn sort_rows(rows: &Vec<LineTotal>) -> (r: Vec<LineTotal>)
    ensures
        totals_view(r@) == sort_desc(totals_view(rows@)),
{
    let ghost src = totals_view(rows@);
    let mut sorted: Vec<LineTotal> = Vec::new();
    let mut i: usize = 0;
    while i < rows.len()
        invariant
            i <= rows.len(),
            src == totals_view(rows@),
            src.len() == rows@.len(),
            totals_view(sorted@) == sort_desc(src.take(i as int)),
            sorted@.len() == totals_view(sorted@).len(),
        decreases rows.len() - i,
    {
        let lines = rows[i].lines;
        let mut p: usize = 0;
        while p < sorted.len() && sorted[p].lines >= lines
            invariant
                p <= sorted.len(),
                sorted@.len() == totals_view(sorted@).len(),
                forall|q: int| 0 <= q < p ==> totals_view(sorted@)[q].1 >= lines,
            decreases sorted.len() - p,
        {
            p = p + 1;
        }
        let ghost before = totals_view(sorted@);
        let ghost x = src[i as int];
        let row = LineTotal { path: rows[i].path.duplicate(), lines };
        assert((row.path@, row.lines as int) == x);
        sorted.insert(p, row);
        proof {
            lemma_insert_at(before, x, p as int);
            assert(totals_view(sorted@) =~= before.take(p as int) + seq![x] + before.skip(p as int));
            assert(src.take(i + 1).drop_last() =~= src.take(i as int));
        }
        i = i + 1;
    }
    assert(src.take(i as int) =~= src);
    sorted
}

/// The number of lines over all rows.
pub open spec fn total(s: Seq<(Seq<Seq<char>>, int)>) -> int
    decreases s.len(),
{
    if s.len() == 0 {
        0
    } else {
        total(s.drop_last()) + s.last().1
    }
}

/// The counts of every result, one result after the other.
pub open spec fn all_counts(rs: Seq<(Seq<Seq<char>>, Seq<usize>)>) -> Seq<usize>
    decreases rs.len(),
{
    if rs.len() == 0 {
        seq![]
    } else {
        all_counts(rs.drop_last()) + rs.last().1
    }
}

proof fn lemma_sum_concat(a: Seq<usize>, b: Seq<usize>)
    ensures
        sum(a + b) == sum(a) + sum(b),
    decreases b.len(),
{
    if b.len() == 0 {
        assert(a + b =~= a);
    } else {
        lemma_sum_concat(a, b.drop_last());
        assert((a + b).drop_last() =~= a + b.drop_last());
    }
}

proof fn lemma_sum_empty_counts(s: Seq<usize>)
    requires
        s.len() == 0,
    ensures
        sum(s) == 0,
{
}

/// Summing by group loses no line: where no group's sum exceeds a `usize`,
/// the totals of the rows add up to the sum of all counts, since a group
/// with no count contributes nothing either way.
pub proof fn lemma_grouped_total(rs: Seq<(Seq<Seq<char>>, Seq<usize>)>)
    requires
        forall|k: int| 0 <= k < rs.len() ==> sum(#[trigger] rs[k].1) <= usize::MAX,
    ensures
        total(group_totals(rs)) == sum(all_counts(rs)),
    decreases rs.len(),
{
    if rs.len() > 0 {
        assert forall|k: int| 0 <= k < rs.len() - 1 implies sum(#[trigger] rs.drop_last()[k].1) <= usize::MAX by {
            assert(rs.drop_last()[k] == rs[k]);
        }
        lemma_grouped_total(rs.drop_last());
        lemma_sum_concat(all_counts(rs.drop_last()), rs.last().1);
        assert(sum(rs[rs.len() - 1].1) <= usize::MAX);
        if rs.last().1.len() == 0 {
            lemma_sum_empty_counts(rs.last().1);
        } else {
            let g = group_totals(rs);
            assert(g.drop_last() =~= group_totals(rs.drop_last()));
            assert(g.last().1 == sum(rs.last().1));
        }
    }
}

/// The files of every row, one row after the other.
pub open spec fn rows_files(rows: Seq<(Seq<Seq<char>>, Seq<Seq<Seq<char>>>)>) -> Seq<Seq<Seq<char>>>
    decreases rows.len(),
{
    if rows.len() == 0 {
        seq![]
    } else {
        rows_files(rows.drop_last()) + rows.last().1
    }
}

/// The files that the grouped command counts, subdirectory after
/// subdirectory, are the files that the flat command counts, less the root's
/// own files, which come first there.
pub proof fn lemma_grouped_files_are_flat_files(lc: LineCount, tree: FsTree)
    requires
        tree.wf(),
        tree.complete(),
    ensures
        retain_all(lc.line_filters(), tree.closure(0)) == retain_all(
            lc.line_filters(),
            files_in(tree.entries(0)),
        ) + rows_files(lc.rows_by_directory(tree)),
{
    let rows = lc.rows_by_directory(tree);
    lemma_filters_apply_once(tree, lc.line_filters(), 0);
    lemma_rows_files_prefix(lc, tree, rows.len() as int);
    assert(rows.take(rows.len() as int) =~= rows);
}

proof fn lemma_rows_files_prefix(lc: LineCount, tree: FsTree, k: int)
    requires
        0 <= k <= lc.rows_by_directory(tree).len(),
    ensures
        rows_files(lc.rows_by_directory(tree).take(k)) == filtered_sub_results(tree, lc.line_filters(), 0, k),
    decreases k,
{
    let rows = lc.rows_by_directory(tree);
    if k > 0 {
        lemma_rows_files_prefix(lc, tree, k - 1);
        assert(rows.take(k).drop_last() =~= rows.take(k - 1));
    }
}

fn copy_strings(v: &Vec<String>) -> (r: Vec<String>)
    ensures
        r@ == v@,
{
    let mut r: Vec<String> = Vec::new();
    let mut i: usize = 0;
    while i < v.len()
        invariant
            i <= v.len(),
            r@ == v@.take(i as int),
        decreases v.len() - i,
    {
        r.push(v[i].clone());
        assert(r@ =~= v@.take(i + 1));
        i = i + 1;
    }
    assert(v@.take(i as int) =~= v@);
    r
}

/// Counts the lines of the files with one extension under a directory,
/// file by file or summed by immediate subdirectory.
pub struct LineCount {
    pub path: EntryPath,
    pub file_extension: String,
    pub top: Option<usize>,
    pub excluded_folders: Vec<String>,
    pub grouped: bool,
}

impl LineCount {
    pub fn new(
        path: EntryPath,
        file_extension: String,
        top: Option<usize>,
        excluded_folders: Vec<String>,
        grouped: bool,
    ) -> (r: LineCount)
        ensures
            r == (LineCount { path, file_extension, top, excluded_folders, grouped }),
    {
        LineCount { path, file_extension, top, excluded_folders, grouped }
    }

    /// The filters that the command applies: the extension, then the
    /// excluded folders.
    pub open spec fn line_filters(&self) -> Seq<Filter> {
        seq![
            Filter::Extension(self.file_extension),
            Filter::ExcludedFolders(self.excluded_folders),
        ]
    }

    /// The number of rows shown.
    pub open spec fn limit(&self) -> int {
        match self.top {
            Some(n) => n as int,
            None => DEFAULT_TOP as int,
        }
    }

    /// The files under directory `node` of the tree (the root where `node` is
    /// `None`) that have the extension and lie under none of the excluded
    /// folders, in the order of the walk.
    pub fn get_files(&self, tree: &FsTree, node: Option<usize>) -> (r: Vec<EntryPath>)
        requires
            tree.wf(),
            tree.complete(),
            node matches Some(n) ==> n < tree.listed(),
        ensures
            paths_view(r@) == retain_all(
                self.line_filters(),
                tree.closure(
                    match node {
                        Some(n) => n as int,
                        None => 0,
                    },
                ),
            ),
            forall|i: int|
                0 <= i < r@.len() ==> path_extension(#[trigger] paths_view(r@)[i]) == Some(
                    self.file_extension@,
                ) && !has_segment_in(paths_view(r@)[i], strings_view(self.excluded_folders@)),
    {
        let n = match node {
            Some(n) => n,
            None => 0,
        };
        let mut contents = PathContents::from(tree, n);
        contents.add_filter(filter_paths_with_extension(self.file_extension.clone()));
        contents.add_filter(filter_out_paths_under_folders(copy_strings(&self.excluded_folders)));
        let ghost fs = contents.filters@;
        let r = contents.get_files(tree);
        proof {
            assert forall|k: int, p: Seq<Seq<char>>| 0 <= k < fs.len() implies #[trigger] fs[k].keeps(p)
                == self.line_filters()[k].keeps(p) by {}
            lemma_retain_all_same(fs, self.line_filters(), tree.closure(n as int));
            lemma_retain_all_sound(self.line_filters(), tree.closure(n as int));
            assert forall|i: int| 0 <= i < r@.len() implies path_extension(#[trigger] paths_view(r@)[i])
                == Some(self.file_extension@) && !has_segment_in(
                paths_view(r@)[i],
                strings_view(self.excluded_folders@),
            ) by {
                assert(kept_by_all(self.line_filters(), paths_view(r@)[i]));
                assert(self.line_filters()[0].keeps(paths_view(r@)[i]));
                assert(self.line_filters()[1].keeps(paths_view(r@)[i]));
            }
        }
        r
    }

    /// The rows of the command: one per file, or one per immediate
    /// subdirectory of the root where the command is grouped.
    pub open spec fn rows(&self, tree: FsTree) -> Seq<(Seq<Seq<char>>, Seq<Seq<Seq<char>>>)> {
        if self.grouped {
            self.rows_by_directory(tree)
        } else {
            per_file(retain_all(self.line_filters(), tree.closure(0)))
        }
    }

    /// One row per immediate subdirectory of the root, with the files under it
    /// that the filters keep.
    pub open spec fn rows_by_directory(&self, tree: FsTree) -> Seq<
        (Seq<Seq<char>>, Seq<Seq<Seq<char>>>),
    > {
        let ds = dirs_in(tree.entries(0));
        Seq::new(
            ds.len(),
            |k: int| (ds[k], retain_all(self.line_filters(), tree.closure(tree.first_child(0) + k))),
        )
    }

    /// What the command has to count in `tree`, whose root is directory 0.
    pub fn run(&self, tree: &FsTree) -> (r: Vec<CountRequest>)
        requires
            tree.wf(),
            tree.complete(),
        ensures
            requests_view(r@) == self.rows(*tree),
    {
        if self.grouped {
            self.display_lines_by_directory(tree)
        } else {
            self.display_lines_by_path(tree)
        }
    }

    /// One row per file under the root that the filters keep.
    fn display_lines_by_path(&self, tree: &FsTree) -> (r: Vec<CountRequest>)
        requires
            tree.wf(),
            tree.complete(),
        ensures
            requests_view(r@) == per_file(retain_all(self.line_filters(), tree.closure(0))),
    {
        let files = self.get_files(tree, None);
        let ghost fv = paths_view(files@);
        let mut r: Vec<CountRequest> = Vec::new();
        let mut i: usize = 0;
        while i < files.len()
            invariant
                i <= files.len(),
                fv == paths_view(files@),
                fv.len() == files@.len(),
                requests_view(r@) == per_file(fv.take(i as int)),
            decreases files.len() - i,
        {
            let ghost before = requests_view(r@);
            let mut one: Vec<EntryPath> = Vec::new();
            one.push(files[i].duplicate());
            let req = CountRequest { label: files[i].duplicate(), files: one };
            assert(paths_view(req.files@) =~= seq![fv[i as int]]);
            r.push(req);
            assert(requests_view(r@) =~= before.push((fv[i as int], seq![fv[i as int]])));
            assert(per_file(fv.take(i + 1)) =~= per_file(fv.take(i as int)).push(
                (fv[i as int], seq![fv[i as int]]),
            ));
            i = i + 1;
        }
        assert(fv.take(i as int) =~= fv);
        r
    }

    /// One row per immediate subdirectory of the root, with the files under
    /// it that the filters keep.
    fn display_lines_by_directory(&self, tree: &FsTree) -> (r: Vec<CountRequest>)
        requires
            tree.wf(),
            tree.complete(),
        ensures
            requests_view(r@) == self.rows_by_directory(*tree),
    {
        let contents = PathContents::from(tree, 0);
        let ghost want = self.rows_by_directory(*tree);
        let mut r: Vec<CountRequest> = Vec::new();
        let mut k: usize = 0;
        while k < contents.dir_nodes.len()
            invariant
                tree.wf(),
                tree.complete(),
                contents.matches_tree(*tree),
                contents.node == 0,
                want == self.rows_by_directory(*tree),
                contents.directories@.len() == contents.dir_nodes@.len(),
                k <= contents.dir_nodes.len(),
                requests_view(r@) == want.take(k as int),
            decreases contents.dir_nodes.len() - k,
        {
            let j = contents.dir_nodes[k];
            assert(tree.first_child(0) + dirs_in(tree.entries(0)).len() <= tree.dirs@.len());
            let files = self.get_files(tree, Some(j));
            let req = CountRequest { label: contents.directories[k].duplicate(), files };
            let ghost before = requests_view(r@);
            assert(paths_view(contents.directories@)[k as int] == contents.directories@[k as int]@);
            assert(j == tree.first_child(0) + k);
            assert(want[k as int] == (req.label@, paths_view(req.files@)));
            r.push(req);
            assert(requests_view(r@) =~= before.push(want[k as int]));
            assert(requests_view(r@) =~= want.take(k + 1));
            k = k + 1;
        }
        assert(want.take(k as int) =~= want);
        r
    }

    /// For each result with at least one count, its label and the sum of its
    /// counts, in the order of the results; a row with no count is left out.
    pub fn get_total_lines_per_directory(&self, counted: &Vec<CountResult>) -> (r: Vec<LineTotal>)
        ensures
            totals_view(r@) == group_totals(results_view(counted@)),
    {
        let ghost src = results_view(counted@);
        let mut r: Vec<LineTotal> = Vec::new();
        let mut i: usize = 0;
        while i < counted.len()
            invariant
                i <= counted.len(),
                src == results_view(counted@),
                src.len() == counted@.len(),
                totals_view(r@) == group_totals(src.take(i as int)),
            decreases counted.len() - i,
        {
            assert(src.take(i + 1).drop_last() =~= src.take(i as int));
            let ghost before = totals_view(r@);
            if counted[i].counts.len() > 0 {
                let total = capped_sum(&counted[i].counts);
                r.push(LineTotal { path: counted[i].label.duplicate(), lines: total });
                assert(totals_view(r@) =~= before.push((src[i as int].0, capped(sum(src[i as int].1)))));
            }
            i = i + 1;
        }
        assert(src.take(i as int) =~= src);
        r
    }

    /// The rows to show: the totals by decreasing number of lines, at most
    /// `top` of them (ten where no limit is given).
    pub fn display(&self, counted: &Vec<CountResult>) -> (r: Vec<LineTotal>)
        ensures
            ({
                let all = sort_desc(group_totals(results_view(counted@)));
                totals_view(r@) == all.take(
                    if self.limit() < all.len() {
                        self.limit()
                    } else {
                        all.len() as int
                    },
                )
            }),
    {
        let totals = self.get_total_lines_per_directory(counted);
        let mut sorted = sort_rows(&totals);
        let n = match self.top {
            Some(n) => n,
            None => DEFAULT_TOP,
        };
        let ghost all = totals_view(sorted@);
        proof {
            lemma_sort_desc(group_totals(results_view(counted@)));
        }
        sorted.truncate(n);
        assert(totals_view(sorted@) =~= all.take(
            if self.limit() < all.len() {
                self.limit()
            } else {
                all.len() as int
            },
        ));
        sorted
    }
}

} // verus!
