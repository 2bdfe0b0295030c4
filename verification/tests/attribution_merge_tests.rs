use git_ai::attribution::{build_diff_catalog, merge_attributions, Attribution, DiffOp};

fn chars(s: &str) -> Vec<char> {
    s.chars().collect()
}

#[test]
fn merge_attributions_sorts_by_start_end_author() {
    let input = vec![
        Attribution::new(10, 20, "bob".to_string(), 1),
        Attribution::new(0, 5, "carol".to_string(), 2),
        Attribution::new(0, 5, "alice".to_string(), 3),
        Attribution::new(0, 3, "zed".to_string(), 4),
    ];
    let out = merge_attributions(input);
    let keys: Vec<(usize, usize, String)> =
        out.iter().map(|a| (a.start, a.end, a.author_id.clone())).collect();
    assert_eq!(
        keys,
        vec![
            (0, 3, "zed".to_string()),
            (0, 5, "alice".to_string()),
            (0, 5, "carol".to_string()),
            (10, 20, "bob".to_string()),
        ]
    );
}

#[test]
fn merge_attributions_drops_exact_duplicates_only() {
    let input = vec![
        Attribution::new(0, 5, "alice".to_string(), 7),
        Attribution::new(0, 5, "alice".to_string(), 7),
        Attribution::new(0, 5, "alice".to_string(), 8),
    ];
    let out = merge_attributions(input);
    assert_eq!(out.len(), 2);
    assert_eq!(out[0].ts, 7);
    assert_eq!(out[1].ts, 8);
}

#[test]
fn merge_attributions_keeps_order_of_equal_keys() {
    // Same key, different timestamps: the sort is stable, so the order of
    // the input survives.
    let input = vec![
        Attribution::new(4, 9, "bob".to_string(), 30),
        Attribution::new(4, 9, "bob".to_string(), 10),
        Attribution::new(4, 9, "bob".to_string(), 20),
    ];
    let out = merge_attributions(input);
    let ts: Vec<u128> = out.iter().map(|a| a.ts).collect();
    assert_eq!(ts, vec![30, 10, 20]);
}

#[test]
fn merge_attributions_empty() {
    assert!(merge_attributions(Vec::new()).is_empty());
}

#[test]
fn build_diff_catalog_positions() {
    // old: "abcXYdef", new: "abcdefGH" with diff
    // Equal "abc", Delete "XY", Equal "def", Insert "GH"
    let diffs = vec![
        (DiffOp::Equal, chars("abc")),
        (DiffOp::Delete, chars("XY")),
        (DiffOp::Equal, chars("def")),
        (DiffOp::Insert, chars("GH")),
    ];
    let (dels, ins) = build_diff_catalog(&diffs);
    assert_eq!(dels.len(), 1);
    assert_eq!((dels[0].start, dels[0].end), (3, 5));
    assert_eq!(dels[0].text, chars("XY"));
    assert_eq!(ins.len(), 1);
    assert_eq!((ins[0].start, ins[0].end), (6, 8));
    assert_eq!(ins[0].text, chars("GH"));
}

#[test]
fn build_diff_catalog_replacement() {
    // A replacement: the deletion is counted in old positions, the
    // insertion in new positions.
    let diffs = vec![
        (DiffOp::Delete, chars("hello")),
        (DiffOp::Insert, chars("hi")),
        (DiffOp::Equal, chars(" there")),
        (DiffOp::Delete, chars("!")),
    ];
    let (dels, ins) = build_diff_catalog(&diffs);
    assert_eq!(dels.len(), 2);
    assert_eq!((dels[0].start, dels[0].end), (0, 5));
    assert_eq!((dels[1].start, dels[1].end), (11, 12));
    assert_eq!(ins.len(), 1);
    assert_eq!((ins[0].start, ins[0].end), (0, 2));
}

#[test]
fn build_diff_catalog_empty() {
    let (dels, ins) = build_diff_catalog(&Vec::new());
    assert!(dels.is_empty());
    assert!(ins.is_empty());
}
