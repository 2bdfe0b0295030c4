use git_ai::attribution::{attribute_unattributed_ranges, Attribution};

const TEST_TS: u128 = 1234567890000;

#[test]
fn test_attribute_unattributed_lines_empty_content() {
    let content = "";
    let prev_attributions = vec![];

    let result = attribute_unattributed_ranges(content, &prev_attributions, "Alice", TEST_TS);

    assert_eq!(result.len(), 0);
}

#[test]
fn test_attribute_unattributed_lines_no_previous_attributions() {
    let content = "Hello world";
    let prev_attributions = vec![];

    let result = attribute_unattributed_ranges(content, &prev_attributions, "Alice", TEST_TS);

    assert_eq!(result.len(), 1);
    assert_eq!(result[0].start, 0);
    assert_eq!(result[0].end, 11);
    assert_eq!(result[0].author_id, "Alice");
    assert_eq!(result[0].ts, TEST_TS);
}

#[test]
fn test_attribute_unattributed_lines_partially_attributed() {
    let content = "Hello beautiful world";
    let prev_attributions = vec![
        Attribution::new(0, 6, "Bob".to_string(), TEST_TS),     // "Hello "
        Attribution::new(15, 21, "Charlie".to_string(), TEST_TS), // " world"
    ];

    let result = attribute_unattributed_ranges(content, &prev_attributions, "Alice", TEST_TS + 1);

    // Should have original attributions plus one new attribution for "beautiful"
    assert_eq!(result.len(), 3);

    // Check that "beautiful" (chars 6-15) is attributed to Alice
    let alice_attrs: Vec<_> = result.iter().filter(|a| a.author_id == "Alice").collect();
    assert_eq!(alice_attrs.len(), 1);
    assert_eq!(alice_attrs[0].start, 6);
    assert_eq!(alice_attrs[0].end, 15);
    assert_eq!(alice_attrs[0].ts, TEST_TS + 1);

    // Check that original attributions are preserved
    let bob_attrs: Vec<_> = result.iter().filter(|a| a.author_id == "Bob").collect();
    let charlie_attrs: Vec<_> = result.iter().filter(|a| a.author_id == "Charlie").collect();
    assert_eq!(bob_attrs.len(), 1);
    assert_eq!(charlie_attrs.len(), 1);
}

#[test]
fn test_attribute_unattributed_lines_multiple_gaps() {
    let content = "A B C D E F";
    let prev_attributions = vec![
        Attribution::new(0, 1, "Bob".to_string(), TEST_TS),     // "A"
        Attribution::new(4, 5, "Charlie".to_string(), TEST_TS), // "C"
        Attribution::new(8, 9, "Dave".to_string(), TEST_TS),    // "E"
    ];

    let result = attribute_unattributed_ranges(content, &prev_attributions, "Alice", TEST_TS + 1);

    // Should have 3 original attributions + 3 new Alice attributions for gaps
    assert_eq!(result.len(), 6);

    // Check Alice attributions for the gaps
    let alice_attrs: Vec<_> = result.iter().filter(|a| a.author_id == "Alice").collect();
    assert_eq!(alice_attrs.len(), 3);

    // Gap 1: " B " (chars 1-4)
    // Gap 2: " D " (chars 5-8) 
    // Gap 3: " F" (chars 9-11)
    let gap_ranges: Vec<_> = alice_attrs.iter().map(|a| (a.start, a.end)).collect();
    assert!(gap_ranges.contains(&(1, 4)), "Should have gap 1-4");
    assert!(gap_ranges.contains(&(5, 8)), "Should have gap 5-8");
    assert!(gap_ranges.contains(&(9, 11)), "Should have gap 9-11");
}

#[test]
fn test_attribute_unattributed_lines_contiguous_gaps() {
    let content = "ABC";
    let prev_attributions = vec![
        Attribution::new(0, 1, "Bob".to_string(), TEST_TS),     // "A"
    ];

    let result = attribute_unattributed_ranges(content, &prev_attributions, "Alice", TEST_TS + 1);

    // Should have 1 original attribution + 1 new attribution for "BC"
    assert_eq!(result.len(), 2);

    let alice_attrs: Vec<_> = result.iter().filter(|a| a.author_id == "Alice").collect();
    assert_eq!(alice_attrs.len(), 1);
    assert_eq!(alice_attrs[0].start, 1);
    assert_eq!(alice_attrs[0].end, 3);
}

#[test]
fn test_attribute_unattributed_lines_fully_attributed() {
    let content = "Hello";
    let prev_attributions = vec![
        Attribution::new(0, 5, "Bob".to_string(), TEST_TS),
    ];

    let result = attribute_unattributed_ranges(content, &prev_attributions, "Alice", TEST_TS + 1);

    // Should have only the original attribution, no new ones
    assert_eq!(result.len(), 1);
    assert_eq!(result[0].author_id, "Bob");
}

#[test]
fn test_attribute_unattributed_lines_multiline_content() {
    let content = "Line 1\nLine 2\nLine 3\n";
    let prev_attributions = vec![
        Attribution::new(0, 7, "Bob".to_string(), TEST_TS),     // "Line 1\n"
        // Line 2 is unattributed
        Attribution::new(14, 21, "Charlie".to_string(), TEST_TS), // "Line 3\n"
    ];

    let result = attribute_unattributed_ranges(content, &prev_attributions, "Alice", TEST_TS + 1);

    // Should have 2 original attributions + 1 new attribution for "Line 2\n"
    assert_eq!(result.len(), 3);

    let alice_attrs: Vec<_> = result.iter().filter(|a| a.author_id == "Alice").collect();
    assert_eq!(alice_attrs.len(), 1);
    assert_eq!(alice_attrs[0].start, 7);
    assert_eq!(alice_attrs[0].end, 14);
}

#[test]
fn test_attribute_unattributed_lines_preserves_timestamps() {
    let content = "Hello world";
    let prev_attributions = vec![
        Attribution::new(0, 6, "Bob".to_string(), 1000),
    ];

    let result = attribute_unattributed_ranges(content, &prev_attributions, "Alice", 2000);

    assert_eq!(result.len(), 2);

    // Check that original timestamp is preserved
    let bob_attr = result.iter().find(|a| a.author_id == "Bob").unwrap();
    assert_eq!(bob_attr.ts, 1000);

    // Check that new attribution has correct timestamp
    let alice_attr = result.iter().find(|a| a.author_id == "Alice").unwrap();
    assert_eq!(alice_attr.ts, 2000);
}

#[test]
fn test_attribute_unattributed_lines_complex_overlapping() {
    let content = "ABCDEFGHIJ";
    let prev_attributions = vec![
        Attribution::new(1, 3, "Bob".to_string(), TEST_TS),     // "BC"
        Attribution::new(4, 6, "Charlie".to_string(), TEST_TS), // "EF"
        Attribution::new(7, 9, "Dave".to_string(), TEST_TS),    // "HI"
    ];

    let result = attribute_unattributed_ranges(content, &prev_attributions, "Alice", TEST_TS + 1);

    // Should have 3 original attributions + 4 new Alice attributions for gaps
    assert_eq!(result.len(), 7);

    let alice_attrs: Vec<_> = result.iter().filter(|a| a.author_id == "Alice").collect();
    assert_eq!(alice_attrs.len(), 4);

    // Gap 1: "A" (char 0)
    // Gap 2: "D" (char 3) 
    // Gap 3: "G" (char 6)
    // Gap 4: "J" (char 9)
    let gap_ranges: Vec<_> = alice_attrs.iter().map(|a| (a.start, a.end)).collect();
    assert!(gap_ranges.contains(&(0, 1)), "Should have gap 0-1");
    assert!(gap_ranges.contains(&(3, 4)), "Should have gap 3-4");
    assert!(gap_ranges.contains(&(6, 7)), "Should have gap 6-7");
    assert!(gap_ranges.contains(&(9, 10)), "Should have gap 9-10");
}
