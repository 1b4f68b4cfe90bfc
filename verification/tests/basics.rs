use unity_reference::names::{qualify, split_fqn};
use unity_reference::order::{standing, Standing};
use unity_reference::table::StringTable;
use unity_reference::text::{begins_with, decimal_text, is_text, line_number, same_text};

fn keys_of<V>(table: &StringTable<V>) -> Vec<&str> {
    (0..table.len()).map(|i| table.key_at(i).as_str()).collect()
}

#[test]
fn texts_stand_as_std_compares_them() {
    let texts = ["", "a", "ab", "b", "B", "a.b", "caf\u{e9}", "\u{ffff}", "\u{10000}", "a\u{0}"];
    for a in texts {
        for b in texts {
            let expected = if a < b {
                Standing::Before
            } else if b < a {
                Standing::After
            } else {
                Standing::Same
            };
            assert_eq!(standing(a, b), expected, "{a:?} and {b:?}");
            assert_eq!(same_text(a, b), a == b);
            assert_eq!(begins_with(a, b), a.starts_with(b));
        }
    }
}

#[test]
fn an_optional_text_is_compared_if_it_is_there() {
    assert!(is_text(&Some("a".to_string()), "a"));
    assert!(!is_text(&Some("a".to_string()), "b"));
    assert!(!is_text(&None, ""));
}

#[test]
fn numbers_are_written_in_decimal() {
    for n in [0, 9, 10, 99, 100, 4_294_967_296, u128::MAX] {
        assert_eq!(decimal_text(n), n.to_string());
    }
}

#[test]
fn lines_are_counted_from_one() {
    let text = "\u{e9}\nb\n\nd";
    let numbers: Vec<u32> = (0..=text.len()).map(|offset| line_number(text, offset)).collect();
    assert_eq!(numbers, vec![1, 1, 1, 2, 2, 3, 4, 4]);
}

#[test]
fn names_split_at_the_last_dot() {
    assert_eq!(split_fqn(""), ("", None));
    assert_eq!(split_fqn("."), ("", Some(String::new())));
    assert_eq!(split_fqn("a."), ("", Some("a".to_string())));
    assert_eq!(split_fqn(".b"), ("b", Some(String::new())));
    assert_eq!(split_fqn("a..b"), ("b", Some("a.".to_string())));
    assert_eq!(split_fqn("\u{e9}.\u{10000}x"), ("\u{10000}x", Some("\u{e9}".to_string())));
}

#[test]
fn qualified_names_split_into_their_parts() {
    assert_eq!(qualify("A.B", "C"), "A.B.C");
    let fqn = qualify("N", "T");
    assert_eq!(split_fqn(&fqn), ("T", Some("N".to_string())));
}

#[test]
fn a_table_holds_its_rows_in_key_order() {
    let mut table: StringTable<u32> = StringTable::new();
    assert_eq!(table.len(), 0);
    for (i, key) in ["m", "z", "a", "M", "mm"].iter().enumerate() {
        assert_eq!(table.insert(key.to_string(), i as u32), None);
    }
    assert_eq!(keys_of(&table), vec!["M", "a", "m", "mm", "z"]);
    assert_eq!(*table.value_at(1), 2);
    assert_eq!(table.insert("a".to_string(), 20), Some(2));
    assert_eq!(table.get("a"), Some(&20));
    assert_eq!(table.get("b"), None);
    assert!(table.contains_key("mm"));
    assert_eq!(table.len(), 5);
}

#[test]
fn a_table_keeps_the_first_value_of_a_key() {
    let mut table: StringTable<u32> = StringTable::new();
    table.insert_if_absent("k".to_string(), 1);
    table.insert_if_absent("k".to_string(), 2);
    table.insert_if_absent("j".to_string(), 3);
    assert_eq!(keys_of(&table), vec!["j", "k"]);
    assert_eq!(table.get("k"), Some(&1));
}

#[test]
fn a_table_keeps_the_rows_of_another() {
    let mut table: StringTable<u32> = StringTable::new();
    let mut other: StringTable<()> = StringTable::new();
    for key in ["a", "b", "c", "d"] {
        table.insert(key.to_string(), 1);
    }
    for key in ["d", "b", "x"] {
        other.insert(key.to_string(), ());
    }
    let copy = table.clone();
    table.retain_keys_of(&other);
    assert_eq!(keys_of(&table), vec!["b", "d"]);
    assert_eq!(keys_of(&copy), vec!["a", "b", "c", "d"]);
}
