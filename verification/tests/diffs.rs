use std::cell::RefCell;

use unity_reference::diff::{
    compute_path_diff, compute_symbol_diff, ensure_cache_dir, make_symbol_diff, read_excerpt,
    symbol_key, PathDiff, DEFAULT_MAX_SYMBOLS, DEFAULT_VIEW_WINDOW,
};
use unity_reference::error::ReferenceError;
use unity_reference::index::{build_or_update_index, FileStat, WalkEntry};
use unity_reference::names::split_fqn;
use unity_reference::symbols::{IndexedFile, ReferenceSymbolEntry, ReferenceSymbolIndex};

type Files = Vec<(String, String)>;

fn file(path: &str, text: &str) -> (String, String) {
    (path.to_string(), text.to_string())
}

fn v1() -> Files {
    vec![
        file(
            "Runtime/Export/Animator.cs",
            "namespace UnityEngine {\n    public class Animator : Behaviour {\n        public void Play(string name) { }\n    }\n}\n",
        ),
        file(
            "Runtime/Export/LegacyAnimator.cs",
            "namespace UnityEngine {\n    public class LegacyAnimator { }\n}\n",
        ),
        file(
            "Editor/Inspector.cs",
            "namespace UnityEditor {\n    public class Inspector { }\n}\n",
        ),
    ]
}

fn v2() -> Files {
    vec![
        file(
            "Runtime/Export/Animator.cs",
            "namespace UnityEngine {\n    public class Animator : Behaviour {\n        public void Play(int hash) { }\n        public void Stop() { }\n    }\n}\n",
        ),
        file(
            "Runtime/Export/Awaitable.cs",
            "namespace UnityEngine {\n    public class Awaitable { }\n}\n",
        ),
        file(
            "Editor/Inspector.cs",
            "namespace UnityEditor {\n    public class Inspector { }\n}\n",
        ),
    ]
}

fn index_of(files: &Files) -> ReferenceSymbolIndex {
    let entries: Vec<WalkEntry> = files
        .iter()
        .map(|(path, _)| WalkEntry {
            is_file: true,
            extension: Some("cs".to_string()),
            rel: Some(path.clone()),
        })
        .collect();
    build_or_update_index(
        None,
        &entries,
        |i| Some(FileStat { len: files[i].1.len() as u64, modified_ms: Some(1) }),
        |i| Some(files[i].1.clone()),
        || 7,
    )
}

fn show(files: &Files, rel: &str, start: u32, count: u32) -> Result<Vec<String>, String> {
    match files.iter().find(|(path, _)| path == rel) {
        Some((_, text)) => Ok(text
            .lines()
            .skip(start as usize - 1)
            .take(count as usize)
            .map(|line| line.to_string())
            .collect()),
        None => Err(format!("no file {rel}")),
    }
}

fn symbol_diff(
    from: &Files,
    to: &Files,
    symbol: &str,
) -> Result<Option<unity_reference::diff::SymbolDiff>, ReferenceError> {
    compute_symbol_diff(
        &index_of(from),
        &index_of(to),
        symbol,
        &|rel: &str, start: u32, count: u32| show(from, rel, start, count),
        &|rel: &str, start: u32, count: u32| show(to, rel, start, count),
    )
}

fn path_diff(
    from: &Files,
    to: &Files,
    path_filter: Option<&str>,
    max_symbols: Option<usize>,
) -> Result<PathDiff, ReferenceError> {
    compute_path_diff(
        &index_of(from),
        &index_of(to),
        path_filter,
        max_symbols,
        &|rel: &str, start: u32, count: u32| show(from, rel, start, count),
        &|rel: &str, start: u32, count: u32| show(to, rel, start, count),
    )
}

fn entry(path: &str, name: &str, line: u32, fqn: Option<&str>) -> ReferenceSymbolEntry {
    ReferenceSymbolEntry {
        path: path.to_string(),
        name: name.to_string(),
        kind: "class".to_string(),
        line,
        namespace: None,
        container: None,
        fqn: fqn.map(|text| text.to_string()),
    }
}

fn index_with(entries: Vec<ReferenceSymbolEntry>) -> ReferenceSymbolIndex {
    let mut index = ReferenceSymbolIndex::default();
    index.files.insert(
        "all.cs".to_string(),
        IndexedFile { signature: "1:1".to_string(), symbols: entries },
    );
    index
}

#[test]
fn split_fqn_separates_namespace_and_name() {
    assert_eq!(
        split_fqn("UnityEngine.Animator"),
        ("Animator", Some("UnityEngine".to_string()))
    );
    assert_eq!(split_fqn("Animator"), ("Animator", None));
    assert_eq!(
        split_fqn("UnityEngine.Animation.Animator"),
        ("Animator", Some("UnityEngine.Animation".to_string()))
    );
}

#[test]
fn compute_symbol_diff_detects_changed_animator() {
    let diff = symbol_diff(&v1(), &v2(), "UnityEngine.Animator")
        .unwrap()
        .expect("Animator should be present in both versions");
    assert_eq!(diff.symbol, "UnityEngine.Animator");
    assert_eq!(diff.kind, "class");
    assert!(diff.before_path.is_some());
    assert!(diff.after_path.is_some());
    assert!(
        !diff.hunks.is_empty(),
        "Animator changed in v2 should yield hunks"
    );
}

#[test]
fn compute_symbol_diff_returns_none_for_missing_in_both() {
    let result = symbol_diff(&v1(), &v2(), "UnityEngine.DefinitelyNotHere").unwrap();
    assert!(result.is_none());
}

#[test]
fn compute_symbol_diff_returns_diff_when_only_one_side_has_symbol() {
    let added_only = symbol_diff(&v1(), &v2(), "UnityEngine.Awaitable")
        .unwrap()
        .expect("Awaitable should be present in v2");
    assert!(added_only.before_path.is_none());
    assert!(added_only.after_path.is_some());
    let removed_only = symbol_diff(&v1(), &v2(), "UnityEngine.LegacyAnimator")
        .unwrap()
        .expect("LegacyAnimator should be present in v1");
    assert!(removed_only.before_path.is_some());
    assert!(removed_only.after_path.is_none());
}

#[test]
fn compute_path_diff_categorises_runtime_export() {
    let diff = path_diff(&v1(), &v2(), Some("Runtime/Export"), None).unwrap();
    assert!(
        diff.added.iter().any(|s| s.symbol.ends_with("Awaitable")),
        "Awaitable should be added: {:?}",
        diff.added
    );
    assert!(
        diff.removed
            .iter()
            .any(|s| s.symbol.ends_with("LegacyAnimator")),
        "LegacyAnimator should be removed: {:?}",
        diff.removed
    );
    assert!(
        diff.changed
            .iter()
            .any(|s| s.symbol.ends_with("Animator") && !s.symbol.ends_with("LegacyAnimator")),
        "Animator should be changed: {:?}",
        diff.changed
    );
    assert!(!diff.truncated);
}

#[test]
fn compute_path_diff_can_be_truncated() {
    let diff = path_diff(&v1(), &v2(), None, Some(1)).unwrap();
    let total = diff.added.len() + diff.removed.len() + diff.changed.len();
    assert_eq!(total, 1);
    assert!(diff.truncated);
}

#[test]
fn ensure_cache_dir_errors_on_missing() {
    let tmp = tempfile::TempDir::new().unwrap();
    let dir = tmp.path().join("missing");
    let err = ensure_cache_dir(dir.exists(), &dir.display().to_string(), "2023.2.20f1").unwrap_err();
    let msg = err.message();
    assert!(msg.contains("does not exist"));
    assert!(msg.contains("2023.2.20f1"));
}

#[test]
fn ensure_cache_dir_accepts_a_directory_that_is_there() {
    let tmp = tempfile::TempDir::new().unwrap();
    let shown = tmp.path().display().to_string();
    assert_eq!(ensure_cache_dir(tmp.path().exists(), &shown, "6000.0"), Ok(()));
}

#[test]
fn the_message_of_a_missing_cache_names_label_and_directory() {
    let err = ensure_cache_dir(false, "/cache/6000.0", "6000.0").unwrap_err();
    assert_eq!(
        err,
        ReferenceError::CacheMissing {
            label: "6000.0".to_string(),
            dir: "/cache/6000.0".to_string(),
        }
    );
    assert_eq!(
        err.message(),
        "reference cache for 6000.0 (/cache/6000.0) does not exist; run `unity-cli reference fetch --version 6000.0` first"
    );
}

#[test]
fn a_symbol_diff_gives_the_places_and_the_hunks() {
    let diff = symbol_diff(&v1(), &v2(), "UnityEngine.Animator").unwrap().unwrap();
    assert_eq!(diff.before_path, Some("Runtime/Export/Animator.cs".to_string()));
    assert_eq!(diff.after_path, Some("Runtime/Export/Animator.cs".to_string()));
    assert_eq!(diff.before_line, Some(2));
    assert_eq!(diff.after_line, Some(2));
    assert_eq!(diff.hunks.len(), 1);
    assert_eq!(
        diff.hunks[0].before,
        vec!["        public void Play(string name) { }".to_string()]
    );
    assert_eq!(
        diff.hunks[0].after,
        vec![
            "        public void Play(int hash) { }".to_string(),
            "        public void Stop() { }".to_string(),
        ]
    );
    assert_eq!((diff.hunks[0].before_start, diff.hunks[0].after_start), (3, 3));
}

#[test]
fn a_symbol_without_namespace_is_found_in_any() {
    let diff = symbol_diff(&v1(), &v2(), "Inspector").unwrap().unwrap();
    assert_eq!(diff.symbol, "Inspector");
    assert!(diff.hunks.is_empty());
}

#[test]
fn an_added_symbol_has_one_hunk_of_its_lines() {
    let diff = symbol_diff(&v1(), &v2(), "UnityEngine.Awaitable").unwrap().unwrap();
    assert_eq!(diff.kind, "class");
    assert_eq!(diff.before_line, None);
    assert_eq!(diff.after_line, Some(2));
    assert_eq!(diff.hunks.len(), 1);
    assert!(diff.hunks[0].before.is_empty());
    assert_eq!(diff.hunks[0].after.len(), 3);
    assert_eq!((diff.hunks[0].before_start, diff.hunks[0].after_start), (1, 1));
}

#[test]
fn an_excerpt_starts_one_line_before_the_symbol() {
    let asked: RefCell<Vec<(String, u32, u32)>> = RefCell::new(Vec::new());
    let view = |rel: &str, start: u32, count: u32| -> Result<Vec<String>, String> {
        asked.borrow_mut().push((rel.to_string(), start, count));
        Ok(vec!["line".to_string()])
    };
    for line in [0, 1, 2, 3, 40, u32::MAX] {
        assert_eq!(read_excerpt(&view, "a.cs", line), Ok(vec!["line".to_string()]));
    }
    let starts: Vec<u32> = asked.borrow().iter().map(|ask| ask.1).collect();
    assert_eq!(starts, vec![1, 1, 1, 2, 39, u32::MAX - 1]);
    assert!(asked.borrow().iter().all(|ask| ask.0 == "a.cs" && ask.2 == 30));
    assert_eq!(DEFAULT_VIEW_WINDOW, 30);
}

#[test]
fn an_unreadable_excerpt_is_told_with_path_line_and_cause() {
    let view = |_: &str, _: u32, _: u32| -> Result<Vec<String>, String> { Err("gone".to_string()) };
    let err = read_excerpt(&view, "Runtime/A.cs", 12).unwrap_err();
    assert_eq!(
        err,
        ReferenceError::ExcerptUnreadable {
            path: "Runtime/A.cs".to_string(),
            line: 12,
            cause: "gone".to_string(),
        }
    );
    assert_eq!(err.message(), "failed to read excerpt for Runtime/A.cs at line 12");
}

#[test]
fn the_old_version_is_read_first() {
    let from = index_with(vec![entry("old.cs", "A", 5, None)]);
    let to = index_with(vec![entry("new.cs", "A", 6, None)]);
    let fails = |rel: &str, _: u32, _: u32| -> Result<Vec<String>, String> { Err(rel.to_string()) };
    let works = |_: &str, _: u32, _: u32| -> Result<Vec<String>, String> { Ok(Vec::new()) };
    let both = compute_symbol_diff(&from, &to, "A", &fails, &fails).unwrap_err();
    assert_eq!(both.message(), "failed to read excerpt for old.cs at line 5");
    let second = compute_symbol_diff(&from, &to, "A", &works, &fails).unwrap_err();
    assert_eq!(second.message(), "failed to read excerpt for new.cs at line 6");
    let path = compute_path_diff(&from, &to, None, None, &works, &fails).unwrap_err();
    assert_eq!(path, second);
}

#[test]
fn a_full_list_is_not_read_for() {
    let from = index_with(vec![entry("a.cs", "A", 1, None), entry("a.cs", "B", 2, None)]);
    let to = index_with(vec![entry("a.cs", "A", 1, None), entry("a.cs", "C", 2, None)]);
    let fails = |_: &str, _: u32, _: u32| -> Result<Vec<String>, String> { Err("read".to_string()) };
    let diff = compute_path_diff(&from, &to, None, Some(2), &fails, &fails).unwrap();
    assert_eq!(diff.added.len(), 1);
    assert_eq!(diff.removed.len(), 1);
    assert!(diff.changed.is_empty());
    assert!(diff.truncated);
}

#[test]
fn a_made_diff_takes_the_old_kind_and_has_hunks_if_the_lines_differ() {
    let mut old = entry("a.cs", "A", 1, None);
    old.kind = "struct".to_string();
    let new = entry("b.cs", "A", 2, None);
    let one = vec!["one".to_string()];
    let two = vec!["two".to_string()];
    let both = make_symbol_diff("A".to_string(), Some(&old), Some(&new), &one, &two);
    assert_eq!(both.kind, "struct");
    assert_eq!((both.before_line, both.after_line), (Some(1), Some(2)));
    assert_eq!(both.hunks.len(), 1);
    let same = make_symbol_diff("A".to_string(), None, Some(&new), &one, &one);
    assert_eq!(same.kind, "class");
    assert!(same.hunks.is_empty());
    let none = make_symbol_diff("A".to_string(), None, None, &one, &one);
    assert_eq!(none.kind, "");
}

#[test]
fn the_key_of_a_symbol_is_its_qualified_name_or_its_name() {
    assert_eq!(symbol_key(&entry("a.cs", "A", 1, Some("N.A"))), "N.A");
    assert_eq!(symbol_key(&entry("a.cs", "A", 1, None)), "A");
}

#[test]
fn of_symbols_with_one_key_the_first_counts() {
    let from = ReferenceSymbolIndex::default();
    let to = index_with(vec![
        entry("a.cs", "A", 9, Some("N.A")),
        entry("b.cs", "A", 1, Some("N.A")),
    ]);
    let view = |_: &str, _: u32, _: u32| -> Result<Vec<String>, String> { Ok(Vec::new()) };
    let diff = compute_path_diff(&from, &to, None, None, &view, &view).unwrap();
    assert_eq!(diff.added.len(), 1);
    assert_eq!(diff.added[0].path, "a.cs");
}

#[test]
fn added_symbols_come_in_the_order_of_their_keys() {
    let from = ReferenceSymbolIndex::default();
    let to = index_with(vec![
        entry("a.cs", "b", 1, None),
        entry("a.cs", "B", 2, None),
        entry("a.cs", "a", 3, None),
        entry("a.cs", "A", 4, None),
    ]);
    let view = |_: &str, _: u32, _: u32| -> Result<Vec<String>, String> { Ok(Vec::new()) };
    let diff = compute_path_diff(&from, &to, None, None, &view, &view).unwrap();
    let keys: Vec<&str> = diff.added.iter().map(|s| s.symbol.as_str()).collect();
    assert_eq!(keys, vec!["A", "B", "a", "b"]);
}

#[test]
fn a_path_diff_lists_only_what_is_below_the_path() {
    let diff = path_diff(&v1(), &v2(), Some("Editor/"), None).unwrap();
    assert_eq!(diff, PathDiff::default());
}

#[test]
fn the_default_limit_is_fifty_symbols() {
    let entries: Vec<ReferenceSymbolEntry> =
        (0..60).map(|i| entry("a.cs", &format!("T{i:02}"), i + 1, None)).collect();
    let view = |_: &str, _: u32, _: u32| -> Result<Vec<String>, String> { Ok(Vec::new()) };
    let empty = ReferenceSymbolIndex::default();
    let full = index_with(entries);
    let diff = compute_path_diff(&empty, &full, None, None, &view, &view).unwrap();
    assert_eq!(DEFAULT_MAX_SYMBOLS, 50);
    assert_eq!(diff.added.len(), 50);
    assert_eq!(diff.added[49].symbol, "T49");
    assert!(diff.truncated);
    let removed = compute_path_diff(&full, &empty, None, Some(60), &view, &view).unwrap();
    assert_eq!(removed.removed.len(), 60);
    assert!(!removed.truncated);
}

#[test]
fn a_limit_keeps_added_before_removed_before_changed() {
    let counts = |max: usize| {
        let diff = path_diff(&v1(), &v2(), None, Some(max)).unwrap();
        (diff.added.len(), diff.removed.len(), diff.changed.len(), diff.truncated)
    };
    assert_eq!(counts(0), (0, 0, 0, true));
    assert_eq!(counts(1), (1, 0, 0, true));
    assert_eq!(counts(2), (1, 1, 0, true));
    assert_eq!(counts(3), (1, 1, 1, false));
    assert_eq!(counts(4), (1, 1, 1, false));
}

#[test]
fn versions_exchanged_exchange_added_and_removed() {
    let there = path_diff(&v1(), &v2(), None, None).unwrap();
    let back = path_diff(&v2(), &v1(), None, None).unwrap();
    assert_eq!(there.added, back.removed);
    assert_eq!(there.removed, back.added);
    assert_eq!(there.added[0].symbol, "UnityEngine.Awaitable");
    assert_eq!(there.added[0].kind, "class");
    assert_eq!(there.added[0].path, "Runtime/Export/Awaitable.cs");
}

#[test]
fn a_version_has_no_differences_from_itself() {
    assert_eq!(path_diff(&v1(), &v1(), None, None).unwrap(), PathDiff::default());
    let nothing_listed = path_diff(&v1(), &v1(), None, Some(0)).unwrap();
    assert!(nothing_listed.changed.is_empty());
    assert!(nothing_listed.truncated);
}

#[test]
fn common_symbols_with_the_same_lines_are_not_listed() {
    let diff = path_diff(&v1(), &v2(), None, None).unwrap();
    assert_eq!(diff.changed.len(), 1);
    assert_eq!(diff.changed[0].symbol, "UnityEngine.Animator");
    assert!(diff.changed.iter().all(|s| !s.hunks.is_empty()));
}

#[test]
fn a_symbol_is_found_under_its_key() {
    let files = v2();
    let index = index_of(&files);
    for i in 0..index.files.len() {
        for symbol in &index.files.value_at(i).symbols {
            let key = symbol_key(symbol);
            let diff = symbol_diff(&files, &files, &key).unwrap().unwrap();
            assert_eq!(diff.symbol, key);
            assert_eq!(diff.before_path.as_deref(), Some(symbol.path.as_str()));
            assert_eq!(diff.before_line, Some(symbol.line));
        }
    }
}

#[test]
fn a_symbol_compared_the_other_way_round_exchanges_its_places() {
    for symbol in ["UnityEngine.Animator", "UnityEngine.Awaitable", "UnityEditor.Inspector"] {
        let there = symbol_diff(&v1(), &v2(), symbol).unwrap().unwrap();
        let back = symbol_diff(&v2(), &v1(), symbol).unwrap().unwrap();
        assert_eq!(there.symbol, back.symbol);
        assert_eq!((&there.before_path, there.before_line), (&back.after_path, back.after_line));
        assert_eq!((&there.after_path, there.after_line), (&back.before_path, back.before_line));
        assert_eq!(there.hunks.is_empty(), back.hunks.is_empty());
    }
}

#[test]
fn versions_exchanged_have_the_same_changed_symbols() {
    for max in 0..5 {
        let there = path_diff(&v1(), &v2(), None, Some(max)).unwrap();
        let back = path_diff(&v2(), &v1(), None, Some(max)).unwrap();
        assert_eq!(there.truncated, back.truncated);
        if max >= 2 {
            assert_eq!(there.changed.len(), back.changed.len());
            for (a, b) in there.changed.iter().zip(&back.changed) {
                assert_eq!(a.symbol, b.symbol);
                assert_eq!((&a.before_path, a.before_line), (&b.after_path, b.after_line));
                assert_eq!((&a.after_path, a.after_line), (&b.before_path, b.before_line));
            }
        }
    }
}
