use angelo::diff::{added_range, base_candidates, merge_base_range, ChangedLines, Scope};
use angelo::mutate::Mutant;

const DIFF: &str = "\
diff --git a/calc.py b/calc.py
index 1234567..89abcde 100644
--- a/calc.py
+++ b/calc.py
@@ -4,0 +5,2 @@ def add(a, b):
+def sub(a, b):
+    return a - b
@@ -20 +21 @@ def other():
-    return 1
+    return 2
diff --git a/untouched.py b/untouched.py
--- a/untouched.py
+++ b/untouched.py
@@ -1,3 +1,0 @@
-gone
";

fn mutant(file: &str, line: u32) -> Mutant {
    Mutant {
        id: 0,
        file: file.to_string(),
        line,
        byte_start: 0,
        byte_end: 1,
        original: "+".to_string(),
        replacement: "-".to_string(),
    }
}

#[test]
fn diff_reads_added_line_numbers_from_hunks() {
    let changed = ChangedLines::parse(DIFF);
    assert!(changed.contains(&mutant("calc.py", 5)));
    assert!(changed.contains(&mutant("calc.py", 6)));
    assert!(changed.contains(&mutant("calc.py", 21)));
    assert!(!changed.contains(&mutant("calc.py", 7)));
    assert!(!changed.contains(&mutant("other.py", 5)));
}

#[test]
fn diff_a_pure_deletion_contributes_no_lines() {
    let changed = ChangedLines::parse(DIFF);
    assert!(!changed.contains(&mutant("untouched.py", 1)));
}

#[test]
fn diff_single_line_hunks_have_no_comma() {
    assert_eq!(added_range("-20 +21 @@ def other():"), Some((21, 1)));
    assert_eq!(added_range("-4,0 +5,2 @@"), Some((5, 2)));
}

#[test]
fn a_hunk_that_names_no_lines_is_passed_over() {
    assert_eq!(added_range("-20 21 @@"), None);
    assert_eq!(added_range("+x,2 @@"), None);
    assert_eq!(added_range("+5,y @@"), None);
    assert_eq!(added_range("+-5 @@"), None);
    assert_eq!(added_range("+4294967296 @@"), None);
}

#[test]
fn diff_filter_keeps_only_touched_mutants() {
    let changed = ChangedLines::parse(DIFF);
    let kept = changed.filter(vec![
        mutant("calc.py", 5),
        mutant("calc.py", 99),
        mutant("elsewhere.py", 5),
    ]);
    assert_eq!(kept.len(), 1);
    assert_eq!(kept[0].line, 5);
}

#[test]
fn diff_an_empty_diff_keeps_nothing() {
    let changed = ChangedLines::parse("");
    assert!(changed.filter(vec![mutant("calc.py", 5)]).is_empty());
}

#[test]
fn a_renamed_file_is_read_under_its_new_path() {
    let changed = ChangedLines::parse(
        "\
diff --git a/old.py b/new.py
similarity index 88%
rename from old.py
rename to new.py
index 1234567..89abcde 100644
--- a/old.py
+++ b/new.py
@@ -3 +3 @@ def f():
-    return 1
+    return 2
",
    );
    assert!(changed.contains(&mutant("new.py", 3)));
    assert!(!changed.contains(&mutant("old.py", 3)));
}

#[test]
fn no_flag_means_the_whole_codebase() {
    assert!(Scope::from_flags(None, None).is_none());
}

#[test]
fn a_plain_revision_is_diffed_as_given() {
    let scope = Scope::from_flags(Some("HEAD".to_string()), None).expect("a scope");
    assert_eq!(scope.range(false, &None).unwrap(), "HEAD");
}

#[test]
fn a_base_is_diffed_from_the_merge_base() {
    let scope = Scope::from_flags(None, Some(Some("main".to_string()))).expect("a scope");
    assert_eq!(scope.range(false, &None).unwrap(), "main...HEAD");
    assert!(matches!(scope, Scope::Branch(Some(base)) if base == "main"));
    assert_eq!(merge_base_range("main"), "main...HEAD");
}

#[test]
fn a_bare_diff_base_carries_no_revision() {
    let scope = Scope::from_flags(None, Some(None)).expect("a scope");
    assert!(matches!(scope, Scope::Branch(None)));
}

#[test]
fn a_branch_needs_its_history_and_a_base() {
    let scope = Scope::Branch(None);
    assert!(scope.range(true, &None).unwrap_err().contains("shallow"));
    assert!(scope
        .range(false, &None)
        .unwrap_err()
        .contains("no base branch found"));
    assert_eq!(
        scope.range(false, &Some("origin/main".to_string())).unwrap(),
        "origin/main...HEAD"
    );
}

#[test]
fn the_pull_request_target_is_asked_first() {
    assert_eq!(
        base_candidates(Some("dev"), Some("refs/remotes/origin/trunk\n")),
        ["origin/dev", "dev", "origin/trunk", "origin/main", "main", "master"]
    );
    assert_eq!(
        base_candidates(Some(""), Some("nonsense")),
        ["origin/main", "main", "master"]
    );
}
