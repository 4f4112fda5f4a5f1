use pathstats::commands::{App, Command};
use pathstats::content::Content;
use pathstats::contents::PathContents;
use pathstats::filter::{filter_out_paths_under_folders, filter_paths_with_extension, Filter};
use pathstats::line_count::{CountRequest, CountResult, LineCount, LineTotal};
use pathstats::path::EntryPath;
use pathstats::tree::{Entry, EntryKind, FsTree};

fn p(s: &str) -> EntryPath {
    EntryPath { segments: s.split('/').map(|x| x.to_string()).collect() }
}

fn text(e: &EntryPath) -> String {
    e.segments.join("/")
}

fn file(s: &str) -> Entry {
    Entry { path: p(s), kind: EntryKind::File }
}

fn dir(s: &str) -> Entry {
    Entry { path: p(s), kind: EntryKind::Directory }
}

/// Lists the directories of the tree in the order it asks for them, from a
/// table of (directory, entries).
fn build(root: &str, table: Vec<(&str, Vec<Entry>)>) -> FsTree {
    let mut tree = FsTree::new(p(root));
    let mut table = table;
    while let Some(next) = tree.next_unlisted() {
        let name = text(&next);
        let pos = table.iter().position(|(d, _)| *d == name);
        let entries = match pos {
            Some(i) => table.remove(i).1,
            None => Vec::new(),
        };
        tree.record(entries);
    }
    assert!(tree.is_complete());
    tree
}

fn scenario_tree() -> FsTree {
    build(
        "root",
        vec![
            ("root", vec![file("root/a.rs"), dir("root/sub")]),
            ("root/sub", vec![file("root/sub/b.rs"), dir("root/sub/ignore")]),
            ("root/sub/ignore", vec![file("root/sub/ignore/c.rs")]),
        ],
    )
}

fn command(grouped: bool) -> LineCount {
    LineCount::new(p("root"), "rs".to_string(), Some(10), vec!["ignore".to_string()], grouped)
}

fn lines_of(path: &str) -> usize {
    match path {
        "root/a.rs" => 3,
        "root/sub/b.rs" => 5,
        "root/sub/ignore/c.rs" => 2,
        _ => 0,
    }
}

fn count(reqs: &[CountRequest]) -> Vec<CountResult> {
    reqs.iter()
        .map(|r| CountResult {
            label: r.label.clone(),
            counts: r.files.iter().map(|f| lines_of(&text(f))).collect(),
        })
        .collect()
}

fn rows(out: &[LineTotal]) -> Vec<(usize, String)> {
    out.iter().map(|t| (t.lines, text(&t.path))).collect()
}

#[test]
fn flat_scenario_sorted_by_lines() {
    let tree = scenario_tree();
    let cmd = command(false);
    let reqs = cmd.run(&tree);
    let out = cmd.display(&count(&reqs));
    assert_eq!(rows(&out), vec![(5, "root/sub/b.rs".to_string()), (3, "root/a.rs".to_string())]);
}

#[test]
fn grouped_scenario_one_row_per_subdirectory() {
    let tree = scenario_tree();
    let cmd = command(true);
    let reqs = cmd.run(&tree);
    let out = cmd.display(&count(&reqs));
    assert_eq!(rows(&out), vec![(5, "root/sub".to_string())]);
}

#[test]
fn missing_root_gives_no_rows() {
    let tree = build("nowhere", vec![]);
    for grouped in [false, true] {
        let cmd = LineCount::new(p("nowhere"), "rs".to_string(), None, vec![], grouped);
        let reqs = cmd.run(&tree);
        assert!(reqs.is_empty());
        assert!(cmd.display(&count(&reqs)).is_empty());
    }
}

#[test]
fn get_files_walks_whole_tree_then_filters() {
    let tree = scenario_tree();
    let mut c = PathContents::from(&tree, 0);
    assert_eq!(c.directories.iter().map(text).collect::<Vec<_>>(), vec!["root/sub"]);
    assert_eq!(c.files.iter().map(text).collect::<Vec<_>>(), vec!["root/a.rs"]);
    let all = c.get_files(&tree);
    assert_eq!(
        all.iter().map(text).collect::<Vec<_>>(),
        vec!["root/a.rs", "root/sub/b.rs", "root/sub/ignore/c.rs"]
    );
    c.add_filter(filter_out_paths_under_folders(vec!["ignore".to_string()]));
    let kept = c.get_files(&tree);
    assert_eq!(kept.iter().map(text).collect::<Vec<_>>(), vec!["root/a.rs", "root/sub/b.rs"]);
}

#[test]
fn get_files_twice_gives_same_list() {
    let tree = scenario_tree();
    let mut c = PathContents::from(&tree, 0);
    c.add_filter(filter_paths_with_extension("rs".to_string()));
    let first = c.get_files(&tree);
    let second = c.get_files(&tree);
    assert_eq!(first.iter().map(text).collect::<Vec<_>>(), second.iter().map(text).collect::<Vec<_>>());
    let mut d = PathContents::from(&tree, 0);
    d.add_filter(filter_paths_with_extension("rs".to_string()));
    assert_eq!(first.iter().map(text).collect::<Vec<_>>(), d.get_files(&tree).iter().map(text).collect::<Vec<_>>());
}

#[test]
fn filters_once_equals_filters_per_subdirectory() {
    let tree = build(
        "r",
        vec![
            ("r", vec![dir("r/x"), file("r/top.rs"), dir("r/y")]),
            ("r/x", vec![file("r/x/1.rs"), file("r/x/2.txt")]),
            ("r/y", vec![file("r/y/3.rs")]),
        ],
    );
    let mut whole = PathContents::from(&tree, 0);
    whole.add_filter(filter_paths_with_extension("rs".to_string()));
    let whole = whole.get_files(&tree);
    let mut parts: Vec<String> = vec!["r/top.rs".to_string()];
    let root = PathContents::from(&tree, 0);
    for &n in root.dir_nodes.iter() {
        let mut sub = PathContents::from(&tree, n);
        sub.add_filter(filter_paths_with_extension("rs".to_string()));
        parts.extend(sub.get_files(&tree).iter().map(text));
    }
    assert_eq!(whole.iter().map(text).collect::<Vec<_>>(), parts);
}

#[test]
fn extension_filter_is_exact() {
    let f = filter_paths_with_extension("rs".to_string());
    assert!(f.allows(&p("a/b.rs")));
    assert!(!f.allows(&p("a/b.RS")));
    assert!(!f.allows(&p("a/b.rsx")));
    assert!(!f.allows(&p("a/b")));
    assert!(!f.allows(&p("a/.rs")));
    assert!(f.allows(&p("a/x.tar.rs")));
    assert!(!f.allows(&p("a/..")));
    let empty = filter_paths_with_extension(String::new());
    assert!(empty.allows(&p("a/b.")));
    assert!(!empty.allows(&p("a/b")));
}

#[test]
fn excluded_folder_filter_checks_every_segment() {
    let f = filter_out_paths_under_folders(vec!["target".to_string(), "x.rs".to_string()]);
    assert!(f.allows(&p("src/a.rs")));
    assert!(!f.allows(&p("target/a.rs")));
    assert!(!f.allows(&p("/home/target/proj/a.rs")));
    assert!(!f.allows(&p("src/x.rs")));
    assert!(f.allows(&p("src/targets/a.rs")));
}

#[test]
fn apply_keeps_order() {
    let f = Filter::Extension("rs".to_string());
    let mut v = vec![p("c.rs"), p("b.txt"), p("a.rs")];
    f.apply(&mut v);
    assert_eq!(v.iter().map(text).collect::<Vec<_>>(), vec!["c.rs", "a.rs"]);
}

#[test]
fn grouped_totals_add_up_to_flat_total() {
    let tree = build(
        "r",
        vec![
            ("r", vec![file("r/own.rs"), dir("r/x"), dir("r/y"), dir("r/empty")]),
            ("r/x", vec![file("r/x/1.rs"), dir("r/x/deep")]),
            ("r/x/deep", vec![file("r/x/deep/2.rs")]),
            ("r/y", vec![file("r/y/3.rs")]),
            ("r/empty", vec![file("r/empty/readme.md")]),
        ],
    );
    let lines = |s: &str| match s {
        "r/own.rs" => 100,
        "r/x/1.rs" => 4,
        "r/x/deep/2.rs" => 6,
        "r/y/3.rs" => 7,
        _ => 0,
    };
    let counted = |reqs: &[CountRequest]| -> Vec<CountResult> {
        reqs.iter()
            .map(|r| CountResult {
                label: r.label.clone(),
                counts: r.files.iter().map(|f| lines(&text(f))).collect(),
            })
            .collect()
    };
    let grouped = LineCount::new(p("r"), "rs".to_string(), None, vec![], true);
    let out = grouped.display(&counted(&grouped.run(&tree)));
    assert_eq!(rows(&out), vec![(10, "r/x".to_string()), (7, "r/y".to_string())]);
    let flat = LineCount::new(p("r"), "rs".to_string(), None, vec![], false);
    let out_flat = flat.display(&counted(&flat.run(&tree)));
    let flat_total: usize = out_flat.iter().map(|t| t.lines).sum();
    let grouped_total: usize = out.iter().map(|t| t.lines).sum();
    assert_eq!(grouped_total, flat_total - 100);
}

#[test]
fn display_sorts_stably_and_truncates() {
    let cmd = LineCount::new(p("r"), "rs".to_string(), Some(3), vec![], false);
    let res = |s: &str, c: Vec<usize>| CountResult { label: p(s), counts: c };
    let out = cmd.display(&vec![
        res("a", vec![1]),
        res("b", vec![5]),
        res("c", vec![]),
        res("d", vec![1]),
        res("e", vec![2, 3]),
        res("f", vec![0]),
    ]);
    assert_eq!(
        rows(&out),
        vec![(5, "b".to_string()), (5, "e".to_string()), (1, "a".to_string())]
    );
    let totals = cmd.get_total_lines_per_directory(&vec![res("x", vec![usize::MAX, 1]), res("y", vec![])]);
    assert_eq!(rows(&totals), vec![(usize::MAX, "x".to_string())]);
}

#[test]
fn default_top_is_ten() {
    let cmd = LineCount::new(p("r"), "rs".to_string(), None, vec![], false);
    let many: Vec<CountResult> = (0..15).map(|i| CountResult { label: p(&format!("f{}", i)), counts: vec![i] }).collect();
    let out = cmd.display(&many);
    assert_eq!(out.len(), 10);
    assert_eq!(out[0].lines, 14);
    assert_eq!(out[9].lines, 5);
}

#[test]
fn other_entries_are_ignored() {
    let tree = build(
        "r",
        vec![("r", vec![Entry { path: p("r/broken.rs"), kind: EntryKind::Other }, file("r/ok.rs")])],
    );
    let c = PathContents::from(&tree, 0);
    assert!(c.directories.is_empty());
    assert_eq!(c.files.iter().map(text).collect::<Vec<_>>(), vec!["r/ok.rs"]);
}

#[test]
fn content_explores_in_entry_order() {
    let tree = build(
        "r",
        vec![
            ("r", vec![dir("r/x"), file("r/top.rs"), file("r/top.txt")]),
            ("r/x", vec![file("r/x/1.rs")]),
        ],
    );
    let mut c = Content::new();
    c.add_filter(filter_paths_with_extension("rs".to_string()));
    c.explore_path(&tree, 0);
    assert_eq!(c.files.iter().map(text).collect::<Vec<_>>(), vec!["r/x/1.rs", "r/top.rs"]);
    let mut d = Content::new();
    d.add_filter(filter_paths_with_extension("rs".to_string()))
        .add_filter(filter_out_paths_under_folders(vec!["x".to_string()]));
    d.explore_path(&tree, 0);
    assert_eq!(d.files.iter().map(text).collect::<Vec<_>>(), vec!["r/top.rs"]);
}

#[test]
fn app_and_command_dispatch_to_line_count() {
    let tree = scenario_tree();
    let app = App { command: Command::LineCount(command(false)) };
    let reqs = app.run(&tree);
    assert_eq!(reqs.iter().map(|r| text(&r.label)).collect::<Vec<_>>(), vec!["root/a.rs", "root/sub/b.rs"]);
    assert_eq!(reqs[1].files.iter().map(text).collect::<Vec<_>>(), vec!["root/sub/b.rs"]);
    let reqs2 = Command::LineCount(command(true)).eval(&tree);
    assert_eq!(reqs2.len(), 1);
    assert_eq!(reqs2[0].files.iter().map(text).collect::<Vec<_>>(), vec!["root/sub/b.rs"]);
}
