use std::cell::RefCell;

use unity_reference::error::ReferenceError;
use unity_reference::extract::{
    extract_symbols_from_text, symbols_from_matches, text_of_group, GroupMatch,
};
use unity_reference::find::{find_first, find_symbol, validate_kind};
use unity_reference::index::{
    build_or_update_index, file_signature, is_indexable, FileStat, WalkEntry,
};
use unity_reference::symbols::{
    IndexedFile, ReferenceSymbolEntry, ReferenceSymbolIndex, INDEX_REL_PATH, INDEX_VERSION,
};

fn source(rel: &str) -> WalkEntry {
    WalkEntry { is_file: true, extension: Some("cs".to_string()), rel: Some(rel.to_string()) }
}

fn symbol(path: &str, name: &str, line: u32, container: Option<&str>) -> ReferenceSymbolEntry {
    ReferenceSymbolEntry {
        path: path.to_string(),
        name: name.to_string(),
        kind: "class".to_string(),
        line,
        namespace: None,
        container: container.map(|text| text.to_string()),
        fqn: None,
    }
}

fn stat(len: u64, modified_ms: u128) -> Option<FileStat> {
    Some(FileStat { len, modified_ms: Some(modified_ms) })
}

#[test]
fn extract_symbols_from_text_finds_class() {
    let text = "namespace UnityEngine {\n    public class Animator : Behaviour {\n    }\n}\n";
    let symbols = extract_symbols_from_text(text, "Runtime/Animator.cs");
    assert!(
        symbols
            .iter()
            .any(|s| s.name == "Animator" && s.kind == "class"),
        "expected to find class Animator: {symbols:?}"
    );
}

#[test]
fn extract_symbols_from_text_captures_namespace() {
    let text = "namespace UnityEditor {\n    public class AnimatorInspector { }\n}\n";
    let symbols = extract_symbols_from_text(text, "Editor/AnimatorInspector.cs");
    let hit = symbols
        .iter()
        .find(|s| s.name == "AnimatorInspector")
        .expect("AnimatorInspector should be indexed");
    assert_eq!(hit.namespace.as_deref(), Some("UnityEditor"));
    assert_eq!(hit.kind, "class");
    assert!(hit.line >= 1);
}

#[test]
fn extract_symbols_from_text_finds_struct_and_interface() {
    let text = "public interface IBar { }\npublic struct Vec3 { }\n";
    let symbols = extract_symbols_from_text(text, "Runtime/Types.cs");
    assert!(symbols
        .iter()
        .any(|s| s.name == "IBar" && s.kind == "interface"));
    assert!(symbols
        .iter()
        .any(|s| s.name == "Vec3" && s.kind == "struct"));
}

#[test]
fn find_symbol_filters_by_kind_and_namespace() {
    let mut index = ReferenceSymbolIndex::default();
    index.files.insert(
        "Runtime/A.cs".to_string(),
        IndexedFile {
            signature: "1:1".to_string(),
            symbols: vec![
                ReferenceSymbolEntry {
                    path: "Runtime/A.cs".to_string(),
                    name: "Foo".to_string(),
                    kind: "class".to_string(),
                    line: 2,
                    namespace: Some("UnityEngine".to_string()),
                    container: None,
                    fqn: Some("UnityEngine.Foo".to_string()),
                },
                ReferenceSymbolEntry {
                    path: "Runtime/A.cs".to_string(),
                    name: "Foo".to_string(),
                    kind: "method".to_string(),
                    line: 10,
                    namespace: Some("UnityEngine".to_string()),
                    container: Some("Animator".to_string()),
                    fqn: Some("UnityEngine.Animator.Foo".to_string()),
                },
            ],
        },
    );
    let hits = find_symbol(&index, "Foo", Some("class"), None);
    assert_eq!(hits.len(), 1);
    assert_eq!(hits[0].kind, "class");
    let ns_hits = find_symbol(&index, "Foo", None, Some("UnityEngine"));
    assert_eq!(ns_hits.len(), 2);
    let nothing = find_symbol(&index, "Bar", None, None);
    assert!(nothing.is_empty());
}

#[test]
fn validate_kind_accepts_known_and_rejects_unknown() {
    validate_kind("class").unwrap();
    validate_kind("method").unwrap();
    let err = validate_kind("alien").unwrap_err();
    assert!(err.message().contains("not allowed"));
}

#[test]
fn every_known_kind_is_accepted_and_nothing_else() {
    for kind in ["class", "interface", "struct", "enum", "method", "property", "field"] {
        assert_eq!(validate_kind(kind), Ok(()));
    }
    for kind in ["", "Class", "classes", "clas", "fields "] {
        assert_eq!(
            validate_kind(kind),
            Err(ReferenceError::KindNotAllowed { kind: kind.to_string() })
        );
    }
    assert_eq!(
        validate_kind("alien").unwrap_err().message(),
        "kind 'alien' is not allowed (expected one of: class, interface, struct, enum, method, property, field)"
    );
}

#[test]
fn every_field_of_an_extracted_symbol_is_set() {
    let text = "// caf\u{e9}\n\nnamespace A.B\n{\n\t[Obsolete] [Flags]\tinternal enum Kind { }\n}\n";
    assert_eq!(
        extract_symbols_from_text(text, "Runtime/K.cs"),
        vec![ReferenceSymbolEntry {
            path: "Runtime/K.cs".to_string(),
            name: "Kind".to_string(),
            kind: "enum".to_string(),
            line: 5,
            namespace: Some("A.B".to_string()),
            container: None,
            fqn: Some("A.B.Kind".to_string()),
        }]
    );
}

#[test]
fn types_without_namespace_have_no_qualified_name() {
    let symbols = extract_symbols_from_text("sealed partial class A { }\r\nstatic class B { }\r\n", "a.cs");
    assert_eq!(symbols.len(), 2);
    assert_eq!((symbols[0].name.as_str(), symbols[0].line), ("A", 1));
    assert_eq!((symbols[1].name.as_str(), symbols[1].line), ("B", 2));
    assert!(symbols.iter().all(|s| s.namespace.is_none() && s.fqn.is_none()));
}

#[test]
fn all_types_are_put_in_the_first_namespace() {
    let text = "namespace One { }\nnamespace Two {\nclass C { }\n}\n";
    let symbols = extract_symbols_from_text(text, "a.cs");
    assert_eq!(symbols.len(), 1);
    assert_eq!(symbols[0].fqn.as_deref(), Some("One.C"));
}

#[test]
fn only_declarations_at_the_start_of_a_line_count() {
    let text = "// class No { }\nvar x = 1; class No { }\nclass\tYes_1 { class No { } }\n";
    let symbols = extract_symbols_from_text(text, "a.cs");
    let names: Vec<&str> = symbols.iter().map(|s| s.name.as_str()).collect();
    assert_eq!(names, vec!["Yes_1"]);
}

#[test]
fn a_match_begins_at_its_attributes() {
    let text = "\n[Multi\nLine] class A { }\n";
    let symbols = extract_symbols_from_text(text, "a.cs");
    assert_eq!(symbols.len(), 1);
    assert_eq!(symbols[0].line, 2);
}

#[test]
fn a_text_without_types_has_no_symbols() {
    assert!(extract_symbols_from_text("", "a.cs").is_empty());
    assert!(extract_symbols_from_text("namespace N { }\n", "a.cs").is_empty());
}

#[test]
fn matches_without_a_name_are_left_out() {
    let group = |start: usize, text: &str| Some(GroupMatch { start, text: text.to_string() });
    let matches = vec![
        vec![group(0, "class"), group(0, "class"), None],
        vec![group(3, "struct S"), group(3, "struct"), group(10, "S")],
        vec![group(3, "T"), None, group(3, "T")],
        vec![],
    ];
    let found = symbols_from_matches("a\nb\nc", "p.cs", &Some("N".to_string()), &matches);
    assert_eq!(found.len(), 2);
    assert_eq!((found[0].kind.as_str(), found[0].name.as_str(), found[0].line), ("struct", "S", 2));
    assert_eq!(found[0].fqn.as_deref(), Some("N.S"));
    assert_eq!((found[1].kind.as_str(), found[1].name.as_str()), ("", "T"));
}

#[test]
fn hits_are_ordered_by_path_and_line_and_ties_stay() {
    let mut index = ReferenceSymbolIndex::default();
    index.files.insert(
        "1.cs".to_string(),
        IndexedFile {
            signature: String::new(),
            symbols: vec![
                symbol("b.cs", "X", 3, Some("first")),
                symbol("b.cs", "X", 1, None),
                symbol("b.cs", "Y", 1, None),
            ],
        },
    );
    index.files.insert(
        "0.cs".to_string(),
        IndexedFile { signature: String::new(), symbols: vec![symbol("c.cs", "X", 1, None)] },
    );
    index.files.insert(
        "2.cs".to_string(),
        IndexedFile {
            signature: String::new(),
            symbols: vec![symbol("b.cs", "X", 3, Some("second")), symbol("a.cs", "X", 9, None)],
        },
    );
    let hits = find_symbol(&index, "X", None, None);
    let places: Vec<(&str, u32, Option<&str>)> = hits
        .iter()
        .map(|hit| (hit.path.as_str(), hit.line, hit.container.as_deref()))
        .collect();
    assert_eq!(
        places,
        vec![
            ("a.cs", 9, None),
            ("b.cs", 1, None),
            ("b.cs", 3, Some("first")),
            ("b.cs", 3, Some("second")),
            ("c.cs", 1, None),
        ]
    );
    assert_eq!(find_first(&index, "X", None), Some(symbol("a.cs", "X", 9, None)));
    assert_eq!(find_first(&index, "Z", None), None);
    assert_eq!(find_first(&index, "X", Some("N")), None);
}

#[test]
fn a_signature_is_length_and_time() {
    assert_eq!(file_signature(5, None), "5:0");
    assert_eq!(file_signature(5, Some(0)), "5:0");
    assert_eq!(file_signature(14, Some(1_700_000_000_123)), "14:1700000000123");
    assert_eq!(
        file_signature(u64::MAX, Some(u128::MAX)),
        "18446744073709551615:340282366920938463463374607431768211455"
    );
}

#[test]
fn a_changed_file_has_another_signature() {
    let first = file_signature("short".len() as u64, Some(1000));
    let second = file_signature("longer content".len() as u64, Some(1015));
    assert_ne!(first, second);
    assert_ne!(file_signature(1, Some(11)), file_signature(11, Some(1)));
}

#[test]
fn only_regular_source_files_are_indexed() {
    assert!(is_indexable(&source("Runtime/A.cs")));
    assert!(!is_indexable(&WalkEntry { is_file: false, ..source("Runtime/A.cs") }));
    assert!(!is_indexable(&WalkEntry { extension: None, ..source("Runtime/A") }));
    assert!(!is_indexable(&WalkEntry { extension: Some("CS".to_string()), ..source("Runtime/A.CS") }));
    assert!(!is_indexable(&WalkEntry { rel: None, ..source("") }));
    assert!(!is_indexable(&source(".unity-cli-index/a.cs")));
    assert!(!is_indexable(&source(".git/a.cs")));
    assert!(!is_indexable(&source(".github/a.cs")));
    assert!(is_indexable(&source("Runtime/.git/a.cs")));
    assert_eq!(INDEX_REL_PATH, ".unity-cli-index/symbols.json");
}

#[test]
fn an_update_indexes_new_files_with_their_signature() {
    let text = "namespace UnityEngine {\n    public class Foo { }\n}\n";
    let entries = vec![
        WalkEntry { is_file: false, extension: None, rel: Some("Runtime".to_string()) },
        source("Runtime/Foo.cs"),
    ];
    let index = build_or_update_index(
        None,
        &entries,
        |_| stat(text.len() as u64, 42),
        |_| Some(text.to_string()),
        || 99,
    );
    assert_eq!(index.version, INDEX_VERSION);
    assert_eq!(index.generated_at_epoch_ms, 99);
    assert_eq!(index.files.len(), 1);
    assert_eq!(index.files.key_at(0), "Runtime/Foo.cs");
    let file = index.files.get("Runtime/Foo.cs").unwrap();
    assert_eq!(file.signature, format!("{}:42", text.len()));
    assert!(file.symbols.iter().any(|s| s.name == "Foo"));
}

#[test]
fn unchanged_files_are_not_read_again() {
    let entries = vec![source("Runtime/X.cs"), source("Runtime/Y.cs")];
    let reads: RefCell<Vec<usize>> = RefCell::new(Vec::new());
    let read = |i: usize| {
        reads.borrow_mut().push(i);
        Some("public class X { }\n".to_string())
    };
    let first = build_or_update_index(None, &entries, |_| stat(19, 1), read, || 1);
    assert_eq!(*reads.borrow(), vec![0, 1]);
    let second = build_or_update_index(Some(first.clone()), &entries, |_| stat(19, 1), read, || 2);
    assert_eq!(*reads.borrow(), vec![0, 1]);
    assert_eq!(second.generated_at_epoch_ms, 2);
    for i in 0..2 {
        assert_eq!(first.files.key_at(i), second.files.key_at(i));
        assert_eq!(first.files.value_at(i), second.files.value_at(i));
    }
    let third = build_or_update_index(Some(second), &entries, |i| stat(19, 1 + i as u128), read, || 3);
    assert_eq!(*reads.borrow(), vec![0, 1, 1]);
    assert_eq!(third.files.get("Runtime/X.cs").unwrap().signature, "19:1");
    assert_eq!(third.files.get("Runtime/Y.cs").unwrap().signature, "19:2");
}

#[test]
fn files_that_are_gone_leave_the_index() {
    let both = vec![source("a.cs"), source("b.cs")];
    let read = |_: usize| Some("class A { }\n".to_string());
    let index = build_or_update_index(None, &both, |_| stat(12, 1), read, || 1);
    assert_eq!(index.files.len(), 2);
    let index = build_or_update_index(Some(index), &vec![source("b.cs")], |_| stat(12, 1), read, || 2);
    assert_eq!(index.files.len(), 1);
    assert!(index.files.contains_key("b.cs"));
}

#[test]
fn files_that_cannot_be_had_keep_what_the_index_has() {
    let entries = vec![source("a.cs")];
    let read = |_: usize| Some("class A { }\n".to_string());
    let index = build_or_update_index(None, &entries, |_| stat(12, 1), read, || 1);
    let index = build_or_update_index(Some(index), &entries, |_| None, read, || 2);
    assert_eq!(index.files.get("a.cs").unwrap().signature, "12:1");
    let index = build_or_update_index(Some(index), &entries, |_| stat(13, 2), |_| None, || 3);
    assert_eq!(index.files.get("a.cs").unwrap().signature, "12:1");
    let fresh = build_or_update_index(None, &entries, |_| stat(13, 2), |_| None, || 4);
    assert_eq!(fresh.files.len(), 0);
}

#[test]
fn an_index_of_another_format_is_built_anew() {
    let mut old = ReferenceSymbolIndex::default();
    old.branch = Some("staging".to_string());
    old.files.insert("a.cs".to_string(), IndexedFile::default());
    let entries = vec![source("a.cs")];
    let kept = build_or_update_index(Some(old.clone()), &entries, |_| None, |_| None, || 1);
    assert_eq!(kept.branch.as_deref(), Some("staging"));
    assert_eq!(kept.files.len(), 1);
    old.version = INDEX_VERSION + 1;
    let anew = build_or_update_index(Some(old), &entries, |_| None, |_| None, || 1);
    assert_eq!(anew.version, INDEX_VERSION);
    assert_eq!(anew.branch, None);
    assert_eq!(anew.files.len(), 0);
}

#[test]
fn indexed_types_are_found() {
    let sources = [
        ("Runtime/Animator.cs", "namespace UnityEngine {\n    public class Animator { }\n}\n"),
        ("Editor/Tool.cs", "namespace UnityEditor {\n    struct Animator { }\n}\n"),
    ];
    let entries: Vec<WalkEntry> = sources.iter().map(|(rel, _)| source(rel)).collect();
    let index = build_or_update_index(
        None,
        &entries,
        |i| stat(sources[i].1.len() as u64, 1),
        |i| Some(sources[i].1.to_string()),
        || 1,
    );
    assert_eq!(index.files.len(), 2);
    let classes = find_symbol(&index, "Animator", Some("class"), None);
    assert_eq!(classes.len(), 1);
    assert_eq!(classes[0].path, "Runtime/Animator.cs");
    assert_eq!(find_symbol(&index, "Animator", None, None)[0].path, "Editor/Tool.cs");
}

#[test]
fn symbols_are_listed_under_their_own_file() {
    let text = "namespace N {\nclass A { }\nenum B { }\n}\n";
    let entries = vec![source("x/1.cs"), source("x/2.cs")];
    let index = build_or_update_index(
        None,
        &entries,
        |_| stat(text.len() as u64, 1),
        |_| Some(text.to_string()),
        || 1,
    );
    for i in 0..index.files.len() {
        let key = index.files.key_at(i);
        let symbols = &index.files.value_at(i).symbols;
        assert_eq!(symbols.len(), 2);
        for symbol in symbols {
            assert_eq!(&symbol.path, key);
            assert_eq!(symbol.fqn, Some(format!("N.{}", symbol.name)));
            assert_eq!(symbol.container, None);
        }
    }
}

#[test]
fn the_text_of_a_group_is_there_if_the_group_took_part() {
    let groups = vec![Some(GroupMatch { start: 4, text: "N.M".to_string() }), None];
    assert_eq!(text_of_group(&groups, 0), Some("N.M".to_string()));
    assert_eq!(text_of_group(&groups, 1), None);
    assert_eq!(text_of_group(&groups, 2), None);
}

#[test]
fn lines_of_symbols_increase_up_to_the_last_line() {
    let text = "class A { } class No { }\n\n  struct B { }\n[X] enum C { }\ninterface D";
    let lines: Vec<u32> = extract_symbols_from_text(text, "a.cs").iter().map(|s| s.line).collect();
    assert_eq!(lines, vec![1, 3, 4, 5]);
    let newlines = text.matches('\n').count() as u32;
    assert!(lines.iter().all(|line| *line <= newlines + 1));
}

#[test]
fn a_blank_line_before_a_text_moves_its_symbols_down() {
    let texts = [
        "",
        "class A { }",
        "\n  namespace N {\n class A { }\nenum B { }\n}",
        " \t\n\n namespace A.B;\r\n[X\nY] struct C { }\nnamespace D { interface E { } }\n",
        "x\nnamespace N { }\nclass \u{e9} { }\npublic static class F { }",
        "\r\nclass G { }\n\u{2028}class H { }",
    ];
    for text in texts {
        let symbols = extract_symbols_from_text(text, "p.cs");
        let moved = extract_symbols_from_text(&format!("\n{text}"), "q.cs");
        let expected: Vec<ReferenceSymbolEntry> = symbols
            .iter()
            .map(|s| ReferenceSymbolEntry { path: "q.cs".to_string(), line: s.line + 1, ..s.clone() })
            .collect();
        assert_eq!(moved, expected);
    }
}

#[test]
fn a_narrower_search_keeps_the_order_of_the_wider_one() {
    let mut index = ReferenceSymbolIndex::default();
    let mut symbols = Vec::new();
    for (i, (kind, namespace)) in
        [("class", "N"), ("enum", "N"), ("class", "M"), ("class", "N")].iter().enumerate()
    {
        let mut entry = symbol("a.cs", "X", 9 - i as u32, None);
        entry.kind = kind.to_string();
        entry.namespace = Some(namespace.to_string());
        symbols.push(entry);
    }
    index.files.insert("a.cs".to_string(), IndexedFile { signature: String::new(), symbols });
    let wide = find_symbol(&index, "X", None, None);
    let narrow = find_symbol(&index, "X", Some("class"), Some("N"));
    let filtered: Vec<ReferenceSymbolEntry> = wide
        .into_iter()
        .filter(|s| s.kind == "class" && s.namespace.as_deref() == Some("N"))
        .collect();
    assert_eq!(narrow, filtered);
    assert_eq!(narrow.iter().map(|s| s.line).collect::<Vec<u32>>(), vec![6, 9]);
}

#[test]
fn a_path_met_twice_settles_after_one_update() {
    let texts = ["class A { }\n", "class B { }\n", "class C { }\n"];
    for times in [[1, 2, 1], [1, 1, 2], [2, 1, 1], [1, 1, 1], [1, 2, 3]] {
        for unreadable in 0..4 {
            let entries = vec![source("x.cs"), source("x.cs"), source("x.cs")];
            let read = |i: usize| if i == unreadable { None } else { Some(texts[i].to_string()) };
            let once = build_or_update_index(None, &entries, |i| stat(12, times[i]), read, || 1);
            let twice =
                build_or_update_index(Some(once.clone()), &entries, |i| stat(12, times[i]), read, || 2);
            assert_eq!(once.files.len(), twice.files.len());
            assert_eq!(once.files.get("x.cs"), twice.files.get("x.cs"));
            assert_eq!((once.version, &once.branch), (twice.version, &twice.branch));
        }
    }
}

#[test]
fn a_second_walk_may_come_upon_more_and_in_another_order() {
    let text_of = |rel: &str| format!("namespace N {{\nclass {} {{ }}\n}}\n", &rel[..1]);
    let other = |rel: &str, is_file: bool| WalkEntry {
        is_file,
        extension: None,
        rel: Some(rel.to_string()),
    };
    let update = |loaded: Option<ReferenceSymbolIndex>, entries: &Vec<WalkEntry>, now: u64| {
        let rel_of = |i: usize| entries[i].rel.clone().unwrap();
        build_or_update_index(
            loaded,
            entries,
            |i| stat(text_of(&rel_of(i)).len() as u64, 5),
            |i| Some(text_of(&rel_of(i))),
            || now,
        )
    };
    let first = vec![other("", false), source("A.cs"), source("B.cs")];
    let mut once = update(None, &first, 1);
    once.unity_version = Some("6000.0".to_string());
    for second in [
        vec![
            other("", false),
            other(".unity-cli-index", false),
            other(".unity-cli-index/symbols.json", true),
            source("A.cs"),
            source(".unity-cli-index/C.cs"),
            source("B.cs"),
        ],
        vec![source("B.cs"), other("", false), source("A.cs")],
    ] {
        let again = update(Some(once.clone()), &second, 2);
        assert_eq!(again.files.len(), 2);
        for i in 0..2 {
            assert_eq!(again.files.key_at(i), once.files.key_at(i));
            assert_eq!(again.files.value_at(i), once.files.value_at(i));
        }
        assert_eq!(again.version, once.version);
        assert_eq!(again.unity_version, once.unity_version);
        assert_eq!(again.branch, once.branch);
        assert_eq!(again.generated_at_epoch_ms, 2);
    }
}
