use tailwind_extractor::compiler::ClassCompiler;
use tailwind_extractor::registry::{dedup_located, tokens_at, ClassRegistry, ExtractedString};
use tailwind_extractor::text::split_tokens;
use tailwind_extractor::transformer::{TailwindTransformer, TransformConfig};
use tailwind_extractor::visitor::TailwindAstMutator;
use tailwind_extractor::extractor::TailwindExtractor;
use tailwind_extractor::config::TailwindConfig;

fn occurrences(file: &str, values: &[&str]) -> Vec<ExtractedString> {
    values
        .iter()
        .enumerate()
        .map(|(i, v)| ExtractedString { value: v.to_string(), file_path: file.to_string(), line: i + 1, column: 0 })
        .collect()
}

#[test]
fn dedup_two_files_merge() {
    let mut registry = ClassRegistry::new();
    for file in ["a.jsx", "b.jsx"] {
        registry.merge_tokens(&occurrences(file, &["flex", "flex", "flex", "p-4"]));
    }
    assert_eq!(registry.len(), 2);
    let flex = registry.get("flex").unwrap();
    assert_eq!(flex.count, 6);
    assert_eq!(flex.files, vec!["a.jsx".to_string(), "b.jsx".to_string()]);
    let padding = registry.get("p-4").unwrap();
    assert_eq!(padding.count, 2);
    assert_eq!(padding.files, vec!["a.jsx".to_string(), "b.jsx".to_string()]);
}

#[test]
fn same_place_occurrences_collapse() {
    let mut v = tokens_at("flex p-4", "a.jsx", 3, 7);
    v.extend(tokens_at("flex", "a.jsx", 3, 7));
    v.extend(tokens_at("flex", "a.jsx", 4, 7));
    let d = dedup_located(&v);
    let keys: Vec<(String, usize)> = d.iter().map(|e| (e.value.clone(), e.line)).collect();
    assert_eq!(keys, vec![("flex".to_string(), 3), ("p-4".to_string(), 3), ("flex".to_string(), 4)]);
}

#[test]
fn end_to_end_class_attribute() {
    let value = "flex items-center hover:bg-blue-500";
    let mut mutator = TailwindAstMutator::new(ClassCompiler::new(true), false);
    assert!(mutator.enter_jsx_attr("className"));
    let _ = mutator.visit_class_value(value);
    mutator.leave_scope();
    let tokens = tokens_at(value, "component.jsx", 1, 12);
    assert_eq!(tokens.len(), 3);
    let names: Vec<&str> = tokens.iter().map(|t| t.value.as_str()).collect();
    assert_eq!(names, vec!["flex", "items-center", "hover:bg-blue-500"]);
    let mut extractor = TailwindExtractor::with_config_and_preflight(TailwindConfig::default(), true);
    for t in &tokens {
        extractor.add_class(&t.value, &t.file_path).unwrap();
    }
    assert_eq!(extractor.class_count(), 3);
    let css = extractor.generate_css(false, "0.1.0", "now").unwrap();
    assert!(css.contains("flex") || css.contains("items-center") || css.contains("hover"));
}

#[test]
fn mixed_custom_first_position_kept() {
    let mut compiler = ClassCompiler::new(false);
    let result = compiler.process_with_fallback("my-custom-class bg-blue-500 text-white", false);
    let parts: Vec<&str> = result.split_whitespace().collect();
    assert_eq!(parts.len(), 3);
    assert_eq!(parts[0], "my-custom-class");
}

#[test]
fn rewrite_keeps_outer_whitespace_and_count() {
    let mut compiler = ClassCompiler::new(false);
    for input in ["\t p-4  m-2\n", "  x-1 y-2 z-3  ", " \u{a0}flex\u{3000}"] {
        let result = compiler.process_with_fallback(input, true);
        let lead: String = input.chars().take_while(|c| c.is_whitespace()).collect();
        let trail: String = input.chars().rev().take_while(|c| c.is_whitespace()).collect();
        assert!(result.starts_with(&lead));
        assert!(result.ends_with(&trail.chars().rev().collect::<String>()));
        assert_eq!(result.split_whitespace().count(), input.split_whitespace().count());
    }
}

#[test]
fn plain_transform_collects_tokens() {
    let mut t = TailwindTransformer::new(ClassCompiler::new(false), TransformConfig::default());
    let _ = t.process_string("flex justify-between");
    let _ = t.process_string("flex lg:w-80");
    let m = t.metadata();
    assert_eq!(m.classes, vec!["flex".to_string(), "justify-between".to_string(), "lg:w-80".to_string()]);
    assert_eq!(m.original_count, 4);
}

#[test]
fn splitting_on_unicode_whitespace() {
    let chars: Vec<char> = "a\u{2003}b\n c".chars().collect();
    assert_eq!(split_tokens(&chars), vec!["a".to_string(), "b".to_string(), "c".to_string()]);
}

#[test]
fn compiler_renames_known_utilities() {
    let mut compiler = ClassCompiler::new(false);
    assert_eq!(compiler.process_with_fallback("rounded-lg", false), "rounded-[0rem]");
    assert_eq!(compiler.process_with_fallback(" rounded-lg custom-x ", false), " rounded-[0rem] custom-x ");
}

#[test]
fn unicode_letters_count_as_class_characters() {
    assert!(tailwind_extractor::extractor::is_valid_class("größe-4"));
    assert!(!tailwind_extractor::extractor::is_valid_class("a$b"));
}

#[test]
fn prose_styles_are_never_asked() {
    let mut compiler = ClassCompiler::new(false);
    assert_eq!(compiler.classify("prose", false), None);
    assert_eq!(compiler.process_with_fallback(" prose lg:prose ", false), " prose lg:prose ");
    let mut extractor = TailwindExtractor::new();
    extractor.add_class("prose", "a.jsx").unwrap();
    assert_eq!(extractor.class_count(), 0);
    let mut mutator = TailwindAstMutator::new(ClassCompiler::new(false), false);
    assert!(mutator.enter_jsx_attr("className"));
    assert_eq!(mutator.visit_class_value("prose"), None);
    mutator.leave_scope();
}

#[test]
fn plain_transform_counts_before_dedup() {
    let mut t = TailwindTransformer::new(ClassCompiler::new(false), TransformConfig::default());
    let _ = t.process_string("flex flex");
    let _ = t.process_string("flex items-center");
    let m = t.metadata();
    assert_eq!(m.classes, vec!["flex".to_string(), "items-center".to_string()]);
    assert_eq!(m.original_count, 4);
}

#[test]
fn sheet_for_listed_classes() {
    let css = tailwind_extractor::extractor::generate_tailwind_css(&vec!["flex".to_string()], true, false);
    assert!(css.contains("flex"));
    assert_eq!(tailwind_extractor::extractor::sheet_or_empty(None), "");
}
