use umber::{apply_hunk, line_changes_from_diff, parse_hunk_header, Hunk, LineChange};

fn hunk(old_start: usize, old_count: usize, new_start: usize, new_count: usize) -> Hunk {
    Hunk { old_start, old_count, new_start, new_count }
}

#[test]
fn reads_hunk_headers() {
    assert_eq!(parse_hunk_header("@@ -3,2 +4,5 @@ fn main() {"), Some(hunk(3, 2, 4, 5)));
    assert_eq!(parse_hunk_header("@@ -7 +7 @@"), Some(hunk(7, 1, 7, 1)));
    assert_eq!(parse_hunk_header("@@ -0,0 +1,3 @@"), Some(hunk(0, 0, 1, 3)));
    assert_eq!(parse_hunk_header("+@@ -1 +1 @@"), None);
    assert_eq!(parse_hunk_header("@@ -1 +x @@"), None);
    assert_eq!(parse_hunk_header("@@ -1 +1"), None);
}

#[test]
fn marks_added_modified_and_removed_lines() {
    let mut marks = vec![None; 6];
    apply_hunk(&mut marks, hunk(1, 0, 2, 2));
    apply_hunk(&mut marks, hunk(4, 1, 5, 1));
    apply_hunk(&mut marks, hunk(9, 2, 6, 0));
    assert_eq!(
        marks,
        vec![None, Some(LineChange::Added), Some(LineChange::Added), None, Some(LineChange::Modified), Some(LineChange::RemovedBelow)]
    );
    let mut marks = vec![None; 2];
    apply_hunk(&mut marks, hunk(1, 3, 0, 0));
    assert_eq!(marks, vec![Some(LineChange::RemovedAbove), None]);
}

#[test]
fn reads_marks_from_a_diff() {
    let diff = "diff --git a/f b/f\nindex 1..2 100644\n--- a/f\n+++ b/f\n@@ -1,0 +2 @@ x\n+new\n@@ -3 +4 @@\n-old\n+changed\n";
    let marks = line_changes_from_diff(diff, 5);
    assert_eq!(marks, vec![None, Some(LineChange::Added), None, Some(LineChange::Modified), None]);
    assert_eq!(line_changes_from_diff("", 2), vec![None, None]);
}
