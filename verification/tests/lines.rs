use unity_reference::hunks::{compute_line_diff, group_changes, Hunk, LineChange, LineTag};

fn lines(text: &str) -> Vec<String> {
    text.chars().map(|c| c.to_string()).collect()
}

fn patch(lines: &[String], hunks: &[Hunk]) -> Vec<String> {
    let mut result: Vec<String> = lines.to_vec();
    for hunk in hunks.iter().rev() {
        let start = hunk.before_start as usize - 1;
        result.splice(start..start + hunk.before.len(), hunk.after.iter().cloned());
    }
    result
}

fn turned(hunks: &[Hunk]) -> Vec<Hunk> {
    hunks
        .iter()
        .map(|hunk| Hunk {
            before: hunk.after.clone(),
            after: hunk.before.clone(),
            before_start: hunk.after_start,
            after_start: hunk.before_start,
        })
        .collect()
}

fn change(tag: LineTag, value: &str) -> LineChange {
    LineChange { tag, value: value.to_string() }
}

#[test]
fn compute_line_diff_empty_for_identical_lines() {
    let lines = vec!["a".to_string(), "b".to_string()];
    assert!(compute_line_diff(&lines, &lines).is_empty());
}

#[test]
fn compute_line_diff_replacement_isolates_changed_lines() {
    let before = vec!["a".to_string(), "b".to_string()];
    let after = vec!["a".to_string(), "c".to_string()];
    let hunks = compute_line_diff(&before, &after);
    assert_eq!(hunks.len(), 1);
    assert_eq!(hunks[0].before, vec!["b".to_string()]);
    assert_eq!(hunks[0].after, vec!["c".to_string()]);
    assert_eq!(hunks[0].before_start, 2);
    assert_eq!(hunks[0].after_start, 2);
}

#[test]
fn compute_line_diff_for_inserts_only_returns_addition_hunk() {
    let before = vec!["a".to_string(), "b".to_string()];
    let after = vec!["a".to_string(), "b".to_string(), "c".to_string()];
    let hunks = compute_line_diff(&before, &after);
    assert_eq!(hunks.len(), 1);
    assert!(hunks[0].before.is_empty());
    assert_eq!(hunks[0].after, vec!["c".to_string()]);
    assert_eq!(hunks[0].after_start, 3);
    assert_eq!(hunks[0].before_start, 3);
}

#[test]
fn compute_line_diff_for_deletes_only_returns_removal_hunk() {
    let before = vec!["a".to_string(), "b".to_string(), "c".to_string()];
    let after = vec!["a".to_string(), "c".to_string()];
    let hunks = compute_line_diff(&before, &after);
    assert_eq!(hunks.len(), 1);
    assert_eq!(hunks[0].before, vec!["b".to_string()]);
    assert!(hunks[0].after.is_empty());
    assert_eq!(hunks[0].before_start, 2);
    assert_eq!(hunks[0].after_start, 2);
}

#[test]
fn compute_line_diff_for_separate_changes_produces_multiple_hunks() {
    let before = vec![
        "a".to_string(),
        "b".to_string(),
        "c".to_string(),
        "d".to_string(),
        "e".to_string(),
    ];
    let after = vec![
        "X".to_string(),
        "b".to_string(),
        "c".to_string(),
        "d".to_string(),
        "Y".to_string(),
    ];
    let hunks = compute_line_diff(&before, &after);
    assert!(
        hunks.len() >= 2,
        "expected at least 2 hunks for two separate changes: {hunks:?}"
    );
    // First hunk: a -> X at line 1
    assert_eq!(hunks.first().unwrap().before_start, 1);
    // Last hunk: e -> Y at line 5
    assert_eq!(hunks.last().unwrap().before_start, 5);
}

#[test]
fn hunks_lead_to_the_new_lines_and_back() {
    let texts = ["", "a", "abc", "abcabba", "cbabac", "xaybzc", "aaaa", "abcdefgh", "hgfedcba"];
    for before in texts {
        for after in texts {
            let (before, after) = (lines(before), lines(after));
            let hunks = compute_line_diff(&before, &after);
            assert_eq!(hunks.is_empty(), before == after);
            assert_eq!(patch(&before, &hunks), after);
            assert_eq!(patch(&after, &turned(&hunks)), before);
        }
    }
}

#[test]
fn hunks_of_mixed_lists_lead_to_the_new_lines_and_back() {
    let mut seed: u32 = 12345;
    let mut next = |below: u32| {
        seed = seed.wrapping_mul(1_664_525).wrapping_add(1_013_904_223);
        (seed >> 16) % below
    };
    for _ in 0..300 {
        let before: Vec<String> = (0..next(30)).map(|_| next(4).to_string()).collect();
        let after: Vec<String> = (0..next(30)).map(|_| next(4).to_string()).collect();
        let hunks = compute_line_diff(&before, &after);
        assert_eq!(hunks.is_empty(), before == after);
        assert_eq!(patch(&before, &hunks), after);
        assert_eq!(patch(&after, &turned(&hunks)), before);
    }
}

#[test]
fn long_lists_differ_only_where_they_were_edited() {
    let before: Vec<String> = (0..250).map(|i| format!("line {}", i % 97)).collect();
    let mut after = before.clone();
    after[200] = "edited".to_string();
    after.remove(50);
    let hunks = compute_line_diff(&before, &after);
    assert_eq!(hunks.len(), 2);
    assert_eq!((hunks[0].before_start, hunks[0].after_start), (51, 51));
    assert_eq!((hunks[1].before_start, hunks[1].after_start), (201, 200));
    assert_eq!(hunks[1].after, vec!["edited".to_string()]);
    assert_eq!(patch(&before, &hunks), after);
}

#[test]
fn hunks_stand_where_they_say_and_apart() {
    let (before, after) = (lines("abcabba"), lines("cbabac"));
    let hunks = compute_line_diff(&before, &after);
    for hunk in &hunks {
        let (b, a) = (hunk.before_start as usize - 1, hunk.after_start as usize - 1);
        assert_eq!(hunk.before, before[b..b + hunk.before.len()].to_vec());
        assert_eq!(hunk.after, after[a..a + hunk.after.len()].to_vec());
        assert!(hunk.before.len() + hunk.after.len() > 0);
    }
    for pair in hunks.windows(2) {
        assert!(pair[0].before_start + (pair[0].before.len() as u32) < pair[1].before_start);
        assert!(pair[0].after_start + (pair[0].after.len() as u32) < pair[1].after_start);
    }
}

#[test]
fn changes_are_grouped_by_runs_of_edits() {
    let changes = vec![
        change(LineTag::Insert, "new"),
        change(LineTag::Equal, "same"),
        change(LineTag::Delete, "old"),
        change(LineTag::Insert, "other"),
        change(LineTag::Delete, "older"),
        change(LineTag::Equal, "end"),
    ];
    assert_eq!(
        group_changes(&changes),
        vec![
            Hunk { before: vec![], after: vec!["new".to_string()], before_start: 1, after_start: 1 },
            Hunk {
                before: vec!["old".to_string(), "older".to_string()],
                after: vec!["other".to_string()],
                before_start: 2,
                after_start: 3,
            },
        ]
    );
    assert!(group_changes(&vec![change(LineTag::Equal, "same")]).is_empty());
    assert!(group_changes(&Vec::new()).is_empty());
}

#[test]
fn a_diff_from_nothing_is_one_hunk() {
    let hunks = compute_line_diff(&[], &lines("ab"));
    assert_eq!(
        hunks,
        vec![Hunk { before: vec![], after: lines("ab"), before_start: 1, after_start: 1 }]
    );
}

#[test]
fn lines_outside_of_the_hunks_are_the_same() {
    let (before, after) = (lines("abcdefgh"), lines("aXcdYZgh"));
    let hunks = compute_line_diff(&before, &after);
    assert_eq!(hunks.len(), 2);
    let (mut b, mut a) = (0, 0);
    for hunk in &hunks {
        let (b_start, a_start) = (hunk.before_start as usize - 1, hunk.after_start as usize - 1);
        assert_eq!(before[b..b_start], after[a..a_start]);
        b = b_start + hunk.before.len();
        a = a_start + hunk.after.len();
    }
    assert_eq!(before[b..], after[a..]);
}
