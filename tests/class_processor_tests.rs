use tailwind_extractor::compiler::ClassCompiler;

fn processor() -> ClassCompiler {
    ClassCompiler::new(false)
}

#[test]
fn test_process_with_fallback_all_custom_classes() {
    let mut processor = processor();
    let result = processor.process_with_fallback("my-custom-class another-class test-component", false);
    assert_eq!(result, "my-custom-class another-class test-component");
}

#[test]
fn test_process_with_fallback_all_tailwind_classes() {
    let mut processor = processor();
    let result = processor.process_with_fallback("p-4 bg-blue-500 text-white", false);
    assert!(!result.is_empty());
}

#[test]
fn test_process_with_fallback_mixed_custom_first() {
    let mut processor = processor();
    let result = processor.process_with_fallback("my-custom-class bg-blue-500 text-white", false);
    assert!(result.starts_with("my-custom-class"));
}

#[test]
fn test_process_with_fallback_mixed_custom_last() {
    let mut processor = processor();
    let result = processor.process_with_fallback("bg-blue-500 text-white my-custom-class", false);
    assert!(result.ends_with("my-custom-class"));
}

#[test]
fn test_process_with_fallback_mixed_custom_middle() {
    let mut processor = processor();
    let result = processor.process_with_fallback("bg-blue-500 my-custom-class text-white", false);
    assert!(result.contains("my-custom-class"));
}

#[test]
fn test_process_with_fallback_single_class() {
    let mut processor = processor();
    let result = processor.process_with_fallback("single-class", false);
    assert_eq!(result, "single-class");
    let result = processor.process_with_fallback("p-4", false);
    assert!(!result.is_empty());
}

#[test]
fn test_process_with_fallback_empty() {
    let mut processor = processor();
    let result = processor.process_with_fallback("", false);
    assert_eq!(result, "");
}

#[test]
fn test_process_with_fallback_whitespace_handling() {
    let mut processor = processor();
    let result = processor.process_with_fallback("class1    class2     class3", false);
    let parts: Vec<&str> = result.split_whitespace().collect();
    assert_eq!(parts.len(), 3);
}

#[test]
fn test_process_with_fallback_preserves_order() {
    let mut processor = processor();
    let result = processor.process_with_fallback("first-custom bg-blue-500 middle-custom text-white last-custom", false);
    let first_pos = result.find("first-custom").expect("first-custom not found");
    let middle_pos = result.find("middle-custom").expect("middle-custom not found");
    let last_pos = result.find("last-custom").expect("last-custom not found");
    assert!(first_pos < middle_pos, "Order not preserved: first should come before middle");
    assert!(middle_pos < last_pos, "Order not preserved: middle should come before last");
}

#[test]
fn test_process_with_fallback_with_obfuscation_all_tailwind() {
    let mut processor = processor();
    let result = processor.process_with_fallback("p-4 bg-blue-500 text-white", true);
    assert!(!result.is_empty());
}

#[test]
fn test_process_with_fallback_with_obfuscation_mixed() {
    let mut processor = processor();
    let result = processor.process_with_fallback("my-custom-class bg-blue-500 text-white", true);
    assert!(result.starts_with("my-custom-class"), "Custom class should be preserved at start");
    let result = processor.process_with_fallback("bg-blue-500 text-white my-custom-class", true);
    assert!(result.ends_with("my-custom-class"), "Custom class should be preserved at end");
}

#[test]
fn test_process_with_fallback_obfuscation_preserves_custom() {
    let mut processor = processor();
    let result = processor.process_with_fallback("custom1 custom2 custom3", true);
    assert_eq!(result, "custom1 custom2 custom3", "Custom classes should not be obfuscated");
}

#[test]
fn test_process_with_fallback_obfuscation_fallback() {
    let mut processor = processor();
    let result = processor.process_with_fallback("bg-blue-500 my-custom text-white another-custom p-4", true);
    assert!(result.contains("my-custom"), "First custom class should be preserved");
    assert!(result.contains("another-custom"), "Second custom class should be preserved");
    let custom1_pos = result.find("my-custom").expect("my-custom not found");
    let custom2_pos = result.find("another-custom").expect("another-custom not found");
    assert!(custom1_pos < custom2_pos, "Custom class order should be preserved");
}

#[test]
fn test_preserves_leading_space() {
    let mut processor = processor();
    let result = processor.process_with_fallback(" p-4 bg-blue-500", false);
    assert!(result.starts_with(" "), "Should preserve single leading space");
    let result = processor.process_with_fallback("   custom-class text-white", false);
    assert!(result.starts_with("   "), "Should preserve multiple leading spaces");
}

#[test]
fn test_preserves_trailing_space() {
    let mut processor = processor();
    let result = processor.process_with_fallback("p-4 bg-blue-500 ", false);
    assert!(result.ends_with(" "), "Should preserve single trailing space");
    let result = processor.process_with_fallback("custom-class text-white   ", false);
    assert!(result.ends_with("   "), "Should preserve multiple trailing spaces");
}

#[test]
fn test_preserves_both_leading_and_trailing_spaces() {
    let mut processor = processor();
    let result = processor.process_with_fallback(" p-4 bg-blue-500 ", false);
    assert!(result.starts_with(" "), "Should preserve leading space");
    assert!(result.ends_with(" "), "Should preserve trailing space");
    assert!(result.contains("p-4"), "Should preserve content");
    let result = processor.process_with_fallback("  custom-class text-white  ", false);
    assert!(result.starts_with("  "), "Should preserve multiple leading spaces");
    assert!(result.ends_with("  "), "Should preserve multiple trailing spaces");
}

#[test]
fn test_preserves_spaces_with_single_class() {
    let mut processor = processor();
    let result = processor.process_with_fallback(" single-class", false);
    assert_eq!(result, " single-class");
    let result = processor.process_with_fallback("single-class ", false);
    assert_eq!(result, "single-class ");
    let result = processor.process_with_fallback(" single-class ", false);
    assert_eq!(result, " single-class ");
}

#[test]
fn test_empty_string_with_spaces() {
    let mut processor = processor();
    let result = processor.process_with_fallback("   ", false);
    assert_eq!(result, "   ", "Should preserve spaces even with no classes");
    let result = processor.process_with_fallback(" ", false);
    assert_eq!(result, " ", "Should preserve single space");
    let result = processor.process_with_fallback("     ", false);
    assert_eq!(result, "     ", "Should preserve multiple spaces");
}

#[test]
fn test_mixed_tailwind_and_custom_with_spaces() {
    let mut processor = processor();
    let result = processor.process_with_fallback(" custom-class p-4 bg-blue-500", false);
    assert!(result.starts_with(" "), "Should preserve leading space with mixed classes");
    assert!(result.contains("custom-class"), "Should preserve custom class");
    let result = processor.process_with_fallback("p-4 custom-class bg-blue-500 ", false);
    assert!(result.ends_with(" "), "Should preserve trailing space with mixed classes");
    assert!(result.contains("custom-class"), "Should preserve custom class");
    let result = processor.process_with_fallback("  bg-blue-500 custom-class p-4  ", false);
    assert!(result.starts_with("  "), "Should preserve leading spaces");
    assert!(result.ends_with("  "), "Should preserve trailing spaces");
    assert!(result.contains("custom-class"), "Should preserve custom class");
}

#[test]
fn test_spaces_with_obfuscation() {
    let mut processor = processor();
    let result = processor.process_with_fallback(" p-4 bg-blue-500", true);
    assert!(result.starts_with(" "), "Should preserve leading space with obfuscation");
    let result = processor.process_with_fallback("p-4 bg-blue-500 ", true);
    assert!(result.ends_with(" "), "Should preserve trailing space with obfuscation");
    let result = processor.process_with_fallback(" p-4 bg-blue-500 ", true);
    assert!(result.starts_with(" ") && result.ends_with(" "), "Should preserve both spaces with obfuscation");
}

#[test]
fn test_edge_cases_with_spaces() {
    let mut processor = processor();
    let result = processor.process_with_fallback("\tp-4 bg-blue-500\t", false);
    assert!(result.starts_with("\t"), "Should preserve tab at start");
    assert!(result.ends_with("\t"), "Should preserve tab at end");
    let result = processor.process_with_fallback("\np-4 bg-blue-500\n", false);
    assert!(result.starts_with("\n"), "Should preserve newline at start");
    assert!(result.ends_with("\n"), "Should preserve newline at end");
    let result = processor.process_with_fallback(" \tp-4 bg-blue-500 \n", false);
    assert!(result.starts_with(" \t"), "Should preserve mixed whitespace at start");
    assert!(result.ends_with(" \n"), "Should preserve mixed whitespace at end");
}

#[test]
fn test_internal_space_normalization() {
    let mut processor = processor();
    let result = processor.process_with_fallback(" class1    class2     class3 ", false);
    assert!(result.starts_with(" "), "Should preserve leading space");
    assert!(result.ends_with(" "), "Should preserve trailing space");
    let trimmed = result.trim();
    let parts: Vec<&str> = trimmed.split_whitespace().collect();
    assert_eq!(parts.len(), 3, "Should have 3 classes after normalization");
    assert!(trimmed.contains("class1") && trimmed.contains("class2") && trimmed.contains("class3"));
    let normalized_internal = parts.join(" ");
    assert_eq!(trimmed, normalized_internal, "Internal spaces should be normalized");
}

#[test]
fn test_extreme_space_cases() {
    let mut processor = processor();
    let long_spaces = " ".repeat(10);
    let input = format!("{}p-4{}", &long_spaces, &long_spaces);
    let result = processor.process_with_fallback(&input, false);
    assert!(result.starts_with(&long_spaces), "Should preserve long leading spaces");
    assert!(result.ends_with(&long_spaces), "Should preserve long trailing spaces");
    let result = processor.process_with_fallback("", false);
    assert_eq!(result, "", "Empty string should remain empty");
    let result = processor.process_with_fallback("class1    class2", false);
    assert!(!result.starts_with(" "), "Should not add leading space");
    assert!(!result.ends_with(" "), "Should not add trailing space");
}

#[test]
fn test_spaces_preserved_after_processing_errors() {
    let mut processor = processor();
    let result = processor.process_with_fallback("  invalid!@# class$%^ ", false);
    assert!(result.starts_with("  "), "Should preserve leading spaces even with invalid classes");
    assert!(result.ends_with(" "), "Should preserve trailing space even with invalid classes");
    assert!(result.contains("invalid!@#"), "Should preserve invalid class names");
    assert!(result.contains("class$%^"), "Should preserve invalid class names");
}

#[test]
fn test_multiple_spaces_at_beginning_and_end() {
    let mut processor = processor();
    for num_spaces in 2..=5 {
        let spaces = " ".repeat(num_spaces);
        let input = format!("{}text-white{}", &spaces, &spaces);
        let result = processor.process_with_fallback(&input, false);
        assert!(result.starts_with(&spaces), "Should preserve {} leading spaces", num_spaces);
        assert!(result.ends_with(&spaces), "Should preserve {} trailing spaces", num_spaces);
    }
}

#[test]
fn test_whitespace_only_strings() {
    let mut processor = processor();
    for num_spaces in 1..=10 {
        let input = " ".repeat(num_spaces);
        let result = processor.process_with_fallback(&input, false);
        assert_eq!(result, input, "Should preserve whitespace-only string with {} spaces", num_spaces);
    }
}

#[test]
fn test_normal_case_no_spaces() {
    let mut processor = processor();
    let result = processor.process_with_fallback("p-4 bg-blue-500 text-white", false);
    assert!(!result.starts_with(" "), "Should not add leading space when not present");
    assert!(!result.ends_with(" "), "Should not add trailing space when not present");
    let result = processor.process_with_fallback("custom-class another-custom", false);
    assert_eq!(result, "custom-class another-custom", "Should return unchanged when no spaces at edges");
}

#[test]
fn test_process_with_fallback_preserves_mixed_class_order() {
    let mut processor = processor();
    let input = "custom-a bg-blue-500 custom-b text-white custom-c";
    let result = processor.process_with_fallback(input, false);
    let result_classes: Vec<&str> = result.split_whitespace().collect();
    let custom_a_pos = result_classes.iter().position(|&c| c == "custom-a");
    let custom_b_pos = result_classes.iter().position(|&c| c == "custom-b");
    let custom_c_pos = result_classes.iter().position(|&c| c == "custom-c");
    assert!(custom_a_pos.is_some(), "custom-a should be present");
    assert!(custom_b_pos.is_some(), "custom-b should be present");
    assert!(custom_c_pos.is_some(), "custom-c should be present");
    assert!(custom_a_pos.unwrap() < custom_b_pos.unwrap(), "custom-a should come before custom-b");
    assert!(custom_b_pos.unwrap() < custom_c_pos.unwrap(), "custom-b should come before custom-c");

    let input2 = "prefix-1 p-4 middle-1 bg-red-600 middle-2 text-lg suffix-1";
    let result2 = processor.process_with_fallback(input2, false);
    let pos_prefix = result2.find("prefix-1").expect("prefix-1 not found");
    let pos_middle1 = result2.find("middle-1").expect("middle-1 not found");
    let pos_middle2 = result2.find("middle-2").expect("middle-2 not found");
    let pos_suffix = result2.find("suffix-1").expect("suffix-1 not found");
    assert!(pos_prefix < pos_middle1, "prefix-1 should come before middle-1");
    assert!(pos_middle1 < pos_middle2, "middle-1 should come before middle-2");
    assert!(pos_middle2 < pos_suffix, "middle-2 should come before suffix-1");

    let input3 = "my-custom bg-blue-500 another-custom";
    let result3 = processor.process_with_fallback(input3, false);
    let result3_classes: Vec<&str> = result3.split_whitespace().collect();
    assert_eq!(result3_classes[0], "my-custom", "First class should be my-custom");
    assert_eq!(result3_classes[result3_classes.len() - 1], "another-custom", "Last class should be another-custom");
}

#[test]
fn test_exact_order_preservation_with_mixed_classes() {
    let mut processor = processor();
    let input = "custom-first p-4 custom-second bg-blue-500 custom-third text-white custom-fourth";
    let result = processor.process_with_fallback(input, false);
    let input_classes: Vec<&str> = input.split_whitespace().collect();
    let result_classes: Vec<&str> = result.split_whitespace().collect();
    assert_eq!(input_classes.len(), result_classes.len(), "Number of classes should remain the same");
    assert_eq!(result_classes[0], "custom-first", "Position 0: custom-first should remain at index 0");
    assert_eq!(result_classes[2], "custom-second", "Position 2: custom-second should remain at index 2");
    assert_eq!(result_classes[4], "custom-third", "Position 4: custom-third should remain at index 4");
    assert_eq!(result_classes[6], "custom-fourth", "Position 6: custom-fourth should remain at index 6");
    assert!(!result_classes[1].is_empty(), "Position 1 should have content (Tailwind class)");
    assert!(!result_classes[3].is_empty(), "Position 3 should have content (Tailwind class)");
    assert!(!result_classes[5].is_empty(), "Position 5 should have content (Tailwind class)");
    for i in 0..input_classes.len() {
        if input_classes[i].starts_with("custom-") {
            assert_eq!(result_classes[i], input_classes[i], "Custom class at position {} should be unchanged", i);
        }
    }
}

#[test]
fn test_process_preserves_all_spaces() {
    let mut processor = processor();
    let test_cases = vec![
        "transition-colors text-gray-600",
        "font-bold transition-colors text-gray-600",
        "px-4 transition-colors text-gray-600 py-2",
    ];
    for input in test_cases {
        let result = processor.process_with_fallback(input, false);
        let input_spaces = input.chars().filter(|&c| c == ' ').count();
        let result_spaces = result.chars().filter(|&c| c == ' ').count();
        assert!(
            result_spaces >= input_spaces,
            "Whitespace count mismatch for '{}'. Input has {} spaces, result has {} spaces. Result: '{}'",
            input,
            input_spaces,
            result_spaces,
            result
        );
    }
}
