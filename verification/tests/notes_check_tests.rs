use git_ai::notes_check::{commits_with_notes, note_check_request};

fn strs(v: &[&str]) -> Vec<String> {
    v.iter().map(|s| s.to_string()).collect()
}

#[test]
fn note_check_request_lists_note_paths() {
    let (checked, input) = note_check_request(&strs(&["51be7584", "ab", "0123abc"]));
    assert_eq!(checked, strs(&["51be7584", "0123abc"]));
    assert_eq!(
        input,
        "refs/notes/ai:51/be7584\nrefs/notes/ai:51be7584\nrefs/notes/ai:01/23abc\nrefs/notes/ai:0123abc"
    );
    let (none, empty) = note_check_request(&[]);
    assert!(none.is_empty());
    assert_eq!(empty, "");
}

#[test]
fn commits_with_notes_reads_the_answer_in_order() {
    let checked = strs(&["aaa1", "bbb2", "ccc3", "ddd4"]);
    let stdout = "f00d\nrefs/notes/ai:aaa1 missing\nrefs/notes/ai:bb/b2 missing\nrefs/notes/ai:bbb2 missing\nrefs/notes/ai:cc/c3 missing\nbeef\n\n";
    assert_eq!(commits_with_notes(&checked, stdout), strs(&["aaa1", "ccc3"]));
    let stdout2 = "1\n2\n3\n4\n5\n6\n7\n8\n";
    assert_eq!(commits_with_notes(&checked, stdout2), checked);
}
