use git_ai::attribution::{
    attributions_to_line_attributions, diff_catalog, DiffOp, line_attributions_to_attributions, Attribution,
    LineAttribution,
};

// Test timestamp constant for consistent testing
const TEST_TS: u128 = 1234567890000;

#[test]
fn test_attribution_overlap() {
    let attr = Attribution::new(10, 20, "Alice".to_string(), TEST_TS);

    assert!(attr.overlaps(15, 25));
    assert!(attr.overlaps(5, 15));
    assert!(attr.overlaps(5, 25));
    assert!(attr.overlaps(12, 18));
    assert!(!attr.overlaps(0, 10));
    assert!(!attr.overlaps(20, 30));
}

#[test]
fn test_attribution_intersection() {
    let attr = Attribution::new(10, 20, "Alice".to_string(), TEST_TS);

    assert_eq!(attr.intersection(15, 25), Some((15, 20)));
    assert_eq!(attr.intersection(5, 15), Some((10, 15)));
    assert_eq!(attr.intersection(5, 25), Some((10, 20)));
    assert_eq!(attr.intersection(12, 18), Some((12, 18)));
    assert_eq!(attr.intersection(0, 10), None);
    assert_eq!(attr.intersection(20, 30), None);
}

#[test]
fn test_line_to_char_attribution_single_range() {
    let content = "line 1\nline 2\nline 3\n";
    let line_attrs = vec![LineAttribution::new(1, 3, "Alice".to_string())];

    let char_attrs = line_attributions_to_attributions(&line_attrs, content, TEST_TS);

    assert_eq!(char_attrs.len(), 1);
    assert_eq!(char_attrs[0].start, 0);
    assert_eq!(char_attrs[0].end, 21); // entire content
    assert_eq!(char_attrs[0].author_id, "Alice");
}

#[test]
fn test_line_to_char_attribution_multiple_ranges() {
    let content = "line 1\nline 2\nline 3\nline 4\n";
    let line_attrs = vec![
        LineAttribution::new(1, 2, "Alice".to_string()),
        LineAttribution::new(3, 4, "Bob".to_string()),
    ];

    let char_attrs = line_attributions_to_attributions(&line_attrs, content, TEST_TS);

    assert_eq!(char_attrs.len(), 2);
    assert_eq!(char_attrs[0].start, 0);
    assert_eq!(char_attrs[0].end, 14); // lines 1-2
    assert_eq!(char_attrs[0].author_id, "Alice");
    assert_eq!(char_attrs[1].start, 14);
    assert_eq!(char_attrs[1].end, 28); // lines 3-4
    assert_eq!(char_attrs[1].author_id, "Bob");
}

#[test]
fn test_line_to_char_attribution_single_line() {
    let content = "line 1\nline 2\nline 3\n";
    let line_attrs = vec![LineAttribution::new(2, 2, "Bob".to_string())];

    let char_attrs = line_attributions_to_attributions(&line_attrs, content, TEST_TS);

    assert_eq!(char_attrs.len(), 1);
    assert_eq!(char_attrs[0].start, 7);
    assert_eq!(char_attrs[0].end, 14); // just line 2
    assert_eq!(char_attrs[0].author_id, "Bob");
}

#[test]
fn test_line_to_char_attribution_no_trailing_newline() {
    let content = "line 1\nline 2";
    let line_attrs = vec![LineAttribution::new(1, 2, "Alice".to_string())];

    let char_attrs = line_attributions_to_attributions(&line_attrs, content, TEST_TS);

    assert_eq!(char_attrs.len(), 1);
    assert_eq!(char_attrs[0].start, 0);
    assert_eq!(char_attrs[0].end, 13); // entire content
    assert_eq!(char_attrs[0].author_id, "Alice");
}

#[test]
fn test_line_to_char_attribution_empty_input() {
    let content = "line 1\nline 2\n";
    let line_attrs = vec![];

    let char_attrs = line_attributions_to_attributions(&line_attrs, content, TEST_TS);

    assert_eq!(char_attrs.len(), 0);
}

#[test]
fn test_line_to_char_attribution_empty_content() {
    let content = "";
    let line_attrs = vec![LineAttribution::new(1, 1, "Alice".to_string())];

    let char_attrs = line_attributions_to_attributions(&line_attrs, content, TEST_TS);

    assert_eq!(char_attrs.len(), 0);
}

#[test]
fn test_line_to_char_attribution_invalid_line_numbers() {
    let content = "line 1\nline 2\n";
    // Line 5 doesn't exist (only 2 lines)
    let line_attrs = vec![LineAttribution::new(5, 10, "Alice".to_string())];

    let char_attrs = line_attributions_to_attributions(&line_attrs, content, TEST_TS);

    // Should skip invalid line ranges
    assert_eq!(char_attrs.len(), 0);
}

#[test]
fn test_line_to_char_attribution_realistic_code() {
    let content = r#"fn main() {
    println!("hello");
}

fn test() {
    assert!(true);
}
"#;
    let line_attrs = vec![
        LineAttribution::new(1, 3, "Alice".to_string()),
        LineAttribution::new(5, 7, "Bob".to_string()),
    ];

    let char_attrs = line_attributions_to_attributions(&line_attrs, content, TEST_TS);

    assert_eq!(char_attrs.len(), 2);
    assert_eq!(char_attrs[0].author_id, "Alice");
    assert_eq!(char_attrs[1].author_id, "Bob");

    // Verify the character ranges map to correct content
    assert!(content[char_attrs[0].start..char_attrs[0].end].contains("fn main()"));
    assert!(content[char_attrs[1].start..char_attrs[1].end].contains("fn test()"));
}

#[test]
fn test_line_to_char_attribution_preserves_author_order() {
    let content = "a\nb\nc\nd\ne\n";
    let line_attrs = vec![
        LineAttribution::new(1, 1, "Alice".to_string()),
        LineAttribution::new(2, 2, "Bob".to_string()),
        LineAttribution::new(3, 3, "Charlie".to_string()),
        LineAttribution::new(4, 4, "Dave".to_string()),
        LineAttribution::new(5, 5, "Eve".to_string()),
    ];

    let char_attrs = line_attributions_to_attributions(&line_attrs, content, TEST_TS);

    assert_eq!(char_attrs.len(), 5);
    assert_eq!(char_attrs[0].author_id, "Alice");
    assert_eq!(char_attrs[1].author_id, "Bob");
    assert_eq!(char_attrs[2].author_id, "Charlie");
    assert_eq!(char_attrs[3].author_id, "Dave");
    assert_eq!(char_attrs[4].author_id, "Eve");
}

#[test]
fn test_line_to_char_round_trip() {
    // Test that converting to line attributions and back preserves information
    let content = "line 1\nline 2\nline 3\n";
    let original_char_attrs = vec![
        Attribution::new(0, 7, "Alice".to_string(), TEST_TS),
        Attribution::new(7, 14, "Bob".to_string(), TEST_TS),
        Attribution::new(14, 21, "Charlie".to_string(), TEST_TS),
    ];

    // Convert to line attributions
    let line_attrs = attributions_to_line_attributions(&original_char_attrs, content);

    // Convert back to character attributions
    let round_trip_char_attrs = line_attributions_to_attributions(&line_attrs, content, TEST_TS);

    // Should have same number of attributions
    assert_eq!(round_trip_char_attrs.len(), 3);

    // Should have same authors in same order
    assert_eq!(round_trip_char_attrs[0].author_id, "Alice");
    assert_eq!(round_trip_char_attrs[1].author_id, "Bob");
    assert_eq!(round_trip_char_attrs[2].author_id, "Charlie");

    // Character ranges should match original (line boundaries)
    assert_eq!(round_trip_char_attrs[0].start, 0);
    assert_eq!(round_trip_char_attrs[0].end, 7);
    assert_eq!(round_trip_char_attrs[1].start, 7);
    assert_eq!(round_trip_char_attrs[1].end, 14);
    assert_eq!(round_trip_char_attrs[2].start, 14);
    assert_eq!(round_trip_char_attrs[2].end, 21);
}

#[test]
fn test_line_attribution_simple_single_author() {
    let content = "line 1\nline 2\nline 3\n";
    let attributions = vec![Attribution::new(0, content.len(), "Alice".to_string(), TEST_TS)];

    let line_attrs = attributions_to_line_attributions(&attributions, content);

    assert_eq!(line_attrs.len(), 1);
    assert_eq!(line_attrs[0].start_line, 1);
    assert_eq!(line_attrs[0].end_line, 3);
    assert_eq!(line_attrs[0].author_id, "Alice");
}

#[test]
fn test_line_attribution_multiple_authors_distinct_lines() {
    let content = "line 1\nline 2\nline 3\n";
    // Alice: line 1, Bob: line 2, Charlie: line 3
    let attributions = vec![
        Attribution::new(0, 7, "Alice".to_string(), TEST_TS),     // "line 1\n"
        Attribution::new(7, 14, "Bob".to_string(), TEST_TS),      // "line 2\n"
        Attribution::new(14, 21, "Charlie".to_string(), TEST_TS), // "line 3\n"
    ];

    let line_attrs = attributions_to_line_attributions(&attributions, content);

    assert_eq!(line_attrs.len(), 3);
    assert_eq!(line_attrs[0].start_line, 1);
    assert_eq!(line_attrs[0].end_line, 1);
    assert_eq!(line_attrs[0].author_id, "Alice");
    assert_eq!(line_attrs[1].start_line, 2);
    assert_eq!(line_attrs[1].end_line, 2);
    assert_eq!(line_attrs[1].author_id, "Bob");
    assert_eq!(line_attrs[2].start_line, 3);
    assert_eq!(line_attrs[2].end_line, 3);
    assert_eq!(line_attrs[2].author_id, "Charlie");
}

#[test]
fn test_line_attribution_whitespace_doesnt_count() {
    // Test that whitespace is ignored when determining dominant author
    let content = "    code\n";
    let attributions = vec![
        Attribution::new(0, 4, "Alice".to_string(), TEST_TS),  // "    " (4 spaces)
        Attribution::new(4, 9, "Bob".to_string(), TEST_TS),    // "code\n"
    ];

    let line_attrs = attributions_to_line_attributions(&attributions, content);

    // Alice has 0 non-ws chars, Bob has 4 non-ws chars
    assert_eq!(line_attrs.len(), 1);
    assert_eq!(line_attrs[0].author_id, "Bob");
}

#[test]
fn test_line_attribution_merging_consecutive_lines() {
    let content = "line 1\nline 2\nline 3\nline 4\n";
    let attributions = vec![
        Attribution::new(0, 7, "Alice".to_string(), TEST_TS),     // line 1
        Attribution::new(7, 14, "Alice".to_string(), TEST_TS),    // line 2
        Attribution::new(14, 21, "Bob".to_string(), TEST_TS),     // line 3
        Attribution::new(21, 28, "Bob".to_string(), TEST_TS),     // line 4
    ];

    let line_attrs = attributions_to_line_attributions(&attributions, content);

    // Should merge consecutive lines with same author
    assert_eq!(line_attrs.len(), 2);
    assert_eq!(line_attrs[0].start_line, 1);
    assert_eq!(line_attrs[0].end_line, 2);
    assert_eq!(line_attrs[0].author_id, "Alice");
    assert_eq!(line_attrs[1].start_line, 3);
    assert_eq!(line_attrs[1].end_line, 4);
    assert_eq!(line_attrs[1].author_id, "Bob");
}

#[test]
fn test_line_attribution_overlapping_attributions() {
    let content = "hello world\n";
    let attributions = vec![
        Attribution::new(0, 12, "Alice".to_string(), TEST_TS), // entire line
        Attribution::new(6, 11, "Bob".to_string(), TEST_TS),   // "world"
    ];

    let line_attrs = attributions_to_line_attributions(&attributions, content);

    // Alice has "hello world\n" = 10 non-ws chars (hello=5, world=5)
    // Bob has "world" = 5 non-ws chars
    // Alice should win with 10 > 5
    assert_eq!(line_attrs.len(), 1);
    assert_eq!(line_attrs[0].author_id, "Alice");
}

#[test]
fn test_line_attribution_empty_content() {
    let content = "";
    let attributions = vec![];

    let line_attrs = attributions_to_line_attributions(&attributions, content);

    assert_eq!(line_attrs.len(), 0);
}

#[test]
fn test_line_attribution_no_trailing_newline() {
    let content = "line 1\nline 2";
    let attributions = vec![
        Attribution::new(0, 7, "Alice".to_string(), TEST_TS),
        Attribution::new(7, 13, "Bob".to_string(), TEST_TS),
    ];

    let line_attrs = attributions_to_line_attributions(&attributions, content);

    assert_eq!(line_attrs.len(), 2);
    assert_eq!(line_attrs[0].author_id, "Alice");
    assert_eq!(line_attrs[1].author_id, "Bob");
}

#[test]
fn test_line_attribution_realistic_code() {
    let content = r#"fn calculate_sum(a: i32, b: i32) -> i32 {
    let result = a + b;
    println!("Sum: {}", result);
    result
}

fn main() {
    let x = 5;
    let y = 10;
    let sum = calculate_sum(x, y);
    println!("Total: {}", sum);
}
"#;

    // Alice wrote calculate_sum function (lines 1-5)
    // Bob wrote main function (lines 7-12)
    let attributions = vec![
        Attribution::new(0, 89, "Alice".to_string(), TEST_TS),
        Attribution::new(91, content.len(), "Bob".to_string(), TEST_TS),
    ];

    let line_attrs = attributions_to_line_attributions(&attributions, content);

    // Should have Alice's block, then Bob's block
    assert!(line_attrs.len() >= 2);

    // First attribution should be Alice
    assert_eq!(line_attrs[0].author_id, "Alice");
    assert_eq!(line_attrs[0].start_line, 1);

    // Should have a Bob attribution
    let bob_attrs: Vec<_> = line_attrs.iter().filter(|a| a.author_id == "Bob").collect();
    assert!(bob_attrs.len() > 0);
}

#[test]
fn test_line_attribution_mixed_authorship_per_line() {
    let content = "let x = foo() + bar();\n";
    let attributions = vec![
        Attribution::new(0, 8, "Alice".to_string(), TEST_TS),   // "let x = "
        Attribution::new(8, 13, "Bob".to_string(), TEST_TS),    // "foo()"
        Attribution::new(13, 16, "Alice".to_string(), TEST_TS), // " + "
        Attribution::new(16, 21, "Charlie".to_string(), TEST_TS), // "bar()"
        Attribution::new(21, 23, "Alice".to_string(), TEST_TS), // ";\n"
    ];

    let line_attrs = attributions_to_line_attributions(&attributions, content);

    // Alice: "let x = " (6) + " + " (1) + ";\n" (1) = 8 non-ws chars
    // Bob: "foo()" (5) = 5 non-ws chars
    // Charlie: "bar()" (5) = 5 non-ws chars
    // Alice should win
    assert_eq!(line_attrs.len(), 1);
    assert_eq!(line_attrs[0].author_id, "Alice");
}

#[test]
fn test_line_attribution_all_whitespace_line() {
    let content = "code\n    \nmore code\n";
    let attributions = vec![
        Attribution::new(0, 5, "Alice".to_string(), TEST_TS),     // "code\n"
        Attribution::new(5, 10, "Bob".to_string(), TEST_TS),      // "    \n" (whitespace line)
        Attribution::new(10, 20, "Charlie".to_string(), TEST_TS), // "more code\n"
    ];

    let line_attrs = attributions_to_line_attributions(&attributions, content);

    // Line 2 has only whitespace from Bob, which after trimming becomes empty and is ignored
    // So line 2 should have no attribution, and we only get attributions for lines 1 and 3
    assert_eq!(line_attrs.len(), 2);
    assert_eq!(line_attrs[0].start_line, 1);
    assert_eq!(line_attrs[0].end_line, 1);
    assert_eq!(line_attrs[0].author_id, "Alice");
    assert_eq!(line_attrs[1].start_line, 3);
    assert_eq!(line_attrs[1].end_line, 3);
    assert_eq!(line_attrs[1].author_id, "Charlie");
}

#[test]
fn test_line_attribution_helper_methods() {
    let line_attr = LineAttribution::new(5, 10, "Alice".to_string());

    assert_eq!(line_attr.line_count(), 6);
    assert!(!line_attr.is_empty());
    assert!(line_attr.overlaps(8, 12));
    assert!(!line_attr.overlaps(1, 4));
    assert_eq!(line_attr.intersection(8, 12), Some((8, 10)));
    assert_eq!(line_attr.intersection(1, 4), None);
}

#[test]
fn test_line_attribution_strips_leading_trailing_whitespace() {
    // Test that leading and trailing whitespace is stripped from attribution ranges
    let content = "    code    \n";
    let attributions = vec![
        Attribution::new(0, 4, "Alice".to_string(), TEST_TS),   // "    " (only whitespace)
        Attribution::new(4, 8, "Bob".to_string(), TEST_TS),     // "code"
        Attribution::new(8, 12, "Charlie".to_string(), TEST_TS), // "    " (only whitespace)
    ];

    let line_attrs = attributions_to_line_attributions(&attributions, content);

    // Only Bob should be attributed (Alice and Charlie have only whitespace)
    assert_eq!(line_attrs.len(), 1);
    assert_eq!(line_attrs[0].author_id, "Bob");
}

#[test]
fn test_line_attribution_ignores_whitespace_only_ranges() {
    // Test that ranges containing only whitespace are completely ignored
    let content = "a b c\n";
    let attributions = vec![
        Attribution::new(0, 1, "Alice".to_string(), TEST_TS),   // "a"
        Attribution::new(1, 2, "Bob".to_string(), TEST_TS),     // " " (only whitespace)
        Attribution::new(2, 3, "Charlie".to_string(), TEST_TS), // "b"
        Attribution::new(3, 4, "Dave".to_string(), TEST_TS),    // " " (only whitespace)
        Attribution::new(4, 5, "Eve".to_string(), TEST_TS),     // "c"
    ];

    let line_attrs = attributions_to_line_attributions(&attributions, content);

    // Bob and Dave should be ignored (only whitespace)
    // Alice: 1 char, Charlie: 1 char, Eve: 1 char (tie, Alice wins alphabetically)
    assert_eq!(line_attrs.len(), 1);
    assert_eq!(line_attrs[0].author_id, "Alice");
}

#[test]
fn test_line_attribution_trims_edges_before_counting() {
    // Test that we trim whitespace from edges before counting
    let content = "  code  \n";
    let attributions = vec![
        Attribution::new(0, 8, "Alice".to_string(), TEST_TS),  // "  code  " -> trimmed to "code"
        Attribution::new(2, 6, "Bob".to_string(), TEST_TS),    // "code"
    ];

    let line_attrs = attributions_to_line_attributions(&attributions, content);

    // Both Alice and Bob have "code" (4 chars each) after trimming
    // Alphabetically, Alice comes first
    assert_eq!(line_attrs.len(), 1);
    assert_eq!(line_attrs[0].author_id, "Alice");
}

#[test]
fn test_line_attribution_mixed_with_surrounding_whitespace() {
    // Test with attribution that has whitespace in the middle but not on edges after trim
    let content = "  a b c  \n";
    let attributions = vec![
        Attribution::new(0, 3, "Alice".to_string(), TEST_TS),   // "  a" -> trimmed to "a"
        Attribution::new(3, 5, "Bob".to_string(), TEST_TS),     // " b" -> trimmed to "b"
        Attribution::new(5, 9, "Charlie".to_string(), TEST_TS), // " c  " -> trimmed to "c"
    ];

    let line_attrs = attributions_to_line_attributions(&attributions, content);

    // All three have 1 char after trimming, Alice wins alphabetically
    assert_eq!(line_attrs.len(), 1);
    assert_eq!(line_attrs[0].author_id, "Alice");
}

#[test]
fn test_line_attribution_whitespace_between_words() {
    // Test that internal whitespace is properly handled but not counted
    let content = "foo   bar\n";
    let attributions = vec![
        Attribution::new(0, 3, "Alice".to_string(), TEST_TS),  // "foo"
        Attribution::new(3, 6, "Bob".to_string(), TEST_TS),    // "   " (only whitespace)
        Attribution::new(6, 9, "Charlie".to_string(), TEST_TS), // "bar"
    ];

    let line_attrs = attributions_to_line_attributions(&attributions, content);

    // Alice: 3 non-ws chars, Bob: 0 (ignored), Charlie: 3 non-ws chars
    // Tie between Alice and Charlie, Alice wins alphabetically
    assert_eq!(line_attrs.len(), 1);
    assert_eq!(line_attrs[0].author_id, "Alice");
}

#[test]
fn test_line_attribution_indentation_only() {
    // Test a line that starts with attribution of only indentation
    let content = "    if (true) {\n";
    let attributions = vec![
        Attribution::new(0, 4, "Alice".to_string(), TEST_TS),   // "    " (only whitespace)
        Attribution::new(4, 15, "Bob".to_string(), TEST_TS),    // "if (true) {"
    ];

    let line_attrs = attributions_to_line_attributions(&attributions, content);

    // Alice's whitespace-only range should be ignored, Bob should win
    assert_eq!(line_attrs.len(), 1);
    assert_eq!(line_attrs[0].author_id, "Bob");
}

#[test]
fn test_line_attribution_trim_tabs_and_spaces() {
    // Test that both tabs and spaces are trimmed
    let content = "\t  code  \t\n";
    let attributions = vec![
        Attribution::new(0, 10, "Alice".to_string(), TEST_TS), // "\t  code  \t" -> trimmed to "code"
    ];

    let line_attrs = attributions_to_line_attributions(&attributions, content);

    assert_eq!(line_attrs.len(), 1);
    assert_eq!(line_attrs[0].author_id, "Alice");
}

#[test]
fn test_line_attribution_empty_after_trim() {
    // Test range that becomes empty after trimming (edge case)
    let content = "a   b\n";
    let attributions = vec![
        Attribution::new(0, 1, "Alice".to_string(), TEST_TS),   // "a"
        Attribution::new(1, 4, "Bob".to_string(), TEST_TS),     // "   " (only whitespace)
        Attribution::new(4, 5, "Charlie".to_string(), TEST_TS), // "b"
    ];

    let line_attrs = attributions_to_line_attributions(&attributions, content);

    // Bob's range should be ignored after trimming
    // Alice: 1 char, Charlie: 1 char, Alice wins alphabetically
    assert_eq!(line_attrs.len(), 1);
    assert_eq!(line_attrs[0].author_id, "Alice");
}


#[test]
fn dominant_author_covers_most_non_whitespace() {
    let content = "hello world\n";
    let ts = 1000;
    let attrs = vec![
        Attribution::new(6, 11, "Bob".to_string(), ts),
        Attribution::new(0, 12, "Alice".to_string(), ts),
    ];
    assert_eq!(
        attributions_to_line_attributions(&attrs, content),
        vec![LineAttribution::new(1, 1, "Alice".to_string())]
    );
    let attrs = vec![
        Attribution::new(0, 5, "Bob".to_string(), ts),
        Attribution::new(6, 11, "Alice".to_string(), ts + 5),
    ];
    assert_eq!(
        attributions_to_line_attributions(&attrs, content),
        vec![LineAttribution::new(1, 1, "Bob".to_string())]
    );
}

#[test]
fn diff_catalog_describes_both_contents() {
    let old = "fn a() {}\nlet x = 1;\n";
    let new = "fn a() {}\nlet y = 2;\nmore\n";
    let (diffs, dels, ins) = diff_catalog(old, new).unwrap();
    let old_side: String = diffs
        .iter()
        .filter(|d| d.0 != DiffOp::Insert)
        .flat_map(|d| d.1.iter())
        .collect();
    let new_side: String = diffs
        .iter()
        .filter(|d| d.0 != DiffOp::Delete)
        .flat_map(|d| d.1.iter())
        .collect();
    assert_eq!(old_side, old);
    assert_eq!(new_side, new);
    assert!(!dels.is_empty() && !ins.is_empty());
    for d in &dels {
        let t: String = d.text.iter().collect();
        assert_eq!(&old[d.start..d.end], t);
    }
    for i in &ins {
        let t: String = i.text.iter().collect();
        assert_eq!(&new[i.start..i.end], t);
    }
    let (same, dels, ins) = diff_catalog("abc", "abc").unwrap();
    assert!(dels.is_empty() && ins.is_empty());
    assert_eq!(same.len(), 1);
}

#[test]
fn transform_carries_equal_runs_and_found_insertions() {
    use_transform();
}

fn chars(s: &str) -> Vec<char> {
    s.chars().collect()
}

fn use_transform() {
    let old = "hello world";
    let attrs = vec![
        Attribution::new(0, 5, "Bob".to_string(), 1),
        Attribution::new(6, 11, "Alice".to_string(), 2),
    ];
    let diffs = vec![
        (DiffOp::Equal, chars("hello ")),
        (DiffOp::Delete, chars("world")),
        (DiffOp::Insert, chars("there")),
    ];
    let r = git_ai::attribution::transform_attributions(&diffs, old, &attrs, "Carol", &[], &[], 9);
    assert_eq!(
        r,
        vec![Attribution::new(0, 5, "Bob".to_string(), 1), Attribution::new(6, 11, "Carol".to_string(), 9)]
    );
    let moved = vec![vec![Attribution::new(20, 25, "Alice".to_string(), 2)]];
    let r = git_ai::attribution::transform_attributions(&diffs, old, &attrs, "Carol", &[true], &moved, 9);
    assert_eq!(
        r,
        vec![Attribution::new(0, 5, "Bob".to_string(), 1), Attribution::new(20, 25, "Alice".to_string(), 2)]
    );

    let body: String = (0..120).map(|i| char::from(b'a' + (i % 26) as u8)).collect();
    let old = format!("PREFIX{}", body);
    let attrs = vec![Attribution::new(6, 126, "Bob".to_string(), 1)];
    let diffs = vec![(DiffOp::Delete, chars("PREFIX")), (DiffOp::Insert, chars(&format!("{}tail", body)))];
    let r = git_ai::attribution::transform_attributions(&diffs, &old, &attrs, "Carol", &[], &[], 7);
    assert_eq!(
        r,
        vec![Attribution::new(0, 120, "Bob".to_string(), 7), Attribution::new(120, 124, "Carol".to_string(), 7)]
    );
}
