use std::hash::{Hash, Hasher};
use tailwind_extractor::config::{ObfuscationConfig, TailwindConfig};
use tailwind_extractor::css::{generate_css_header, minify_css};
use tailwind_extractor::extractor::{finish_css, is_valid_class, obfuscate_class, to_base62, TailwindExtractor};
use tailwind_extractor::errors::ExtractorError;

#[test]
fn test_extractor_creation() {
    let extractor = TailwindExtractor::new();
    assert_eq!(extractor.class_count(), 0);
}

#[test]
fn test_class_validation() {
    assert!(is_valid_class("bg-blue-500"));
    assert!(is_valid_class("hover:text-white"));
    assert!(is_valid_class("md:p-4"));
    assert!(is_valid_class("w-1/2"));
    assert!(is_valid_class("text-[#1a73e8]"));

    assert!(!is_valid_class("<script>"));
    assert!(!is_valid_class("class{bad}"));
    assert!(!is_valid_class("semi;colon"));
}

#[test]
fn extractor_test_add_class() {
    let mut extractor = TailwindExtractor::new();
    extractor.add_class("p-4", "test.js").unwrap();
    extractor.add_class("bg-blue-500", "test.js").unwrap();
    extractor.add_class("p-4", "other.js").unwrap();
    assert_eq!(extractor.class_count(), 2);
    let padding_info = extractor.class_info("p-4").unwrap();
    assert_eq!(padding_info.count, 2);
    assert_eq!(padding_info.files.len(), 2);
}

#[test]
fn test_obfuscation() {
    let mut config = TailwindConfig::default();
    config.obfuscation.enabled = true;
    config.obfuscation.prefix = "c".to_string();

    let obfuscated1 = obfuscate_class("bg-blue-500", &config.obfuscation);
    let obfuscated2 = obfuscate_class("bg-blue-500", &config.obfuscation);
    assert_eq!(obfuscated1, obfuscated2);
    assert!(obfuscated1.starts_with("c"));
    let obfuscated3 = obfuscate_class("text-white", &config.obfuscation);
    assert_ne!(obfuscated1, obfuscated3);
}

#[test]
fn test_base62_conversion() {
    assert_eq!(to_base62(0), "0");
    assert_eq!(to_base62(61), "z");
    assert_eq!(to_base62(62), "10");
    assert_eq!(to_base62(3843), "zz");
}

#[test]
fn base62_of_largest_value() {
    assert_eq!(to_base62(u64::MAX), "LygHa16AHYF");
    assert_eq!(to_base62(10), "A");
    assert_eq!(to_base62(36), "a");
}

#[test]
fn alias_matches_std_hashing_of_seed_and_class() {
    let config = ObfuscationConfig { enabled: true, prefix: "tw".to_string(), seed: 42 };
    let mut hasher = std::collections::hash_map::DefaultHasher::new();
    config.seed.hash(&mut hasher);
    "flex".hash(&mut hasher);
    let expected = format!("tw{}", to_base62(hasher.finish()));
    assert_eq!(obfuscate_class("flex", &config), expected);
}

#[test]
fn deterministic_obfuscation_across_calls() {
    let config = ObfuscationConfig { enabled: true, prefix: "x".to_string(), seed: 7 };
    let a = obfuscate_class("hover:bg-blue-500", &config);
    let b = obfuscate_class("hover:bg-blue-500", &config);
    assert_eq!(a, b);
    assert!(a.len() > 1);
    let other_seed = ObfuscationConfig { enabled: true, prefix: "x".to_string(), seed: 8 };
    assert_ne!(a, obfuscate_class("hover:bg-blue-500", &other_seed));
}

#[test]
fn test_css_minification() {
    let css = r#"
            .class1 {
                color: blue;
                padding: 10px;
            }
            
            .class2 {
                background: red;
            }
        "#;
    let minified = minify_css(css);
    assert!(!minified.contains('\n'));
    assert!(!minified.contains("  "));
    assert!(minified.contains(".class1{"));
    assert!(minified.contains("color:blue;"));
}

#[test]
fn minify_exact_output() {
    assert_eq!(minify_css(".a {\n  color: red;\n}\n"), ".a{color:red;}");
    assert_eq!(minify_css(".a b  c{x:y}"), ".a b c{x:y}");
    assert_eq!(minify_css("/* banner */\n.a{}/* gone */.b{}"), "/* banner */.a{}.b{}");
    assert_eq!(minify_css("  /* kept */ .a{}"), "/* kept */.a{}");
    assert_eq!(minify_css(""), "");
}

#[test]
fn header_texts() {
    assert_eq!(generate_css_header(true, true, "1.0", "t"), "/* tailwind-extractor-cli: No classes found */");
    assert_eq!(generate_css_header(false, true, "1.0", "now"), "/* Generated by tailwind-extractor-cli v1.0 at now */");
    assert_eq!(
        generate_css_header(true, false, "2.1", "then"),
        "/**\n * Generated by tailwind-extractor-cli v2.1\n * Generation time: then\n * \n * No Tailwind classes found\n */\n"
    );
}

#[test]
fn finish_css_joins_and_reports_failure() {
    let r = finish_css("/* h */", Some(".a { }".to_string()), false).unwrap();
    assert_eq!(r, "/* h */.a { }");
    let r = finish_css("/* h */", Some(".a { }".to_string()), true).unwrap();
    assert_eq!(r, "/* h */.a{}");
    assert!(matches!(finish_css("x", None, false), Err(ExtractorError::TailwindError(_))));
}

#[test]
fn generate_css_without_classes_is_banner_only() {
    let mut extractor = TailwindExtractor::new();
    let css = extractor.generate_css(true, "0.1.0", "2024-01-01 00:00:00 UTC").unwrap();
    assert_eq!(css, "/* tailwind-extractor-cli: No classes found */");
}

#[test]
fn generate_css_with_classes() {
    let mut extractor = TailwindExtractor::with_config_and_preflight(TailwindConfig::default(), true);
    extractor.add_class("flex", "a.js").unwrap();
    let css = extractor.generate_css(false, "0.1.0", "now").unwrap();
    assert!(css.starts_with("/**\n * Generated by tailwind-extractor-cli v0.1.0"));
    assert!(css.contains("flex"));
}

#[test]
fn invalid_classes_are_skipped() {
    let mut extractor = TailwindExtractor::new();
    extractor.add_class("", "a.js").unwrap();
    extractor.add_class("<div>", "a.js").unwrap();
    extractor.add_class(&"a".repeat(101), "a.js").unwrap();
    assert_eq!(extractor.class_count(), 0);
    extractor.reset();
    assert_eq!(extractor.class_count(), 0);
}

#[test]
fn manifest_from_extractor() {
    let mut config = TailwindConfig::default();
    config.obfuscation.enabled = true;
    let mut extractor = TailwindExtractor::with_config(config);
    extractor.add_class("flex", "a.jsx").unwrap();
    extractor.add_class("flex", "b.jsx").unwrap();
    extractor.add_class("p-4", "a.jsx").unwrap();
    let m = extractor.generate_manifest_with_stats(2, 100, None, "t".to_string(), "0.1.0".to_string(), None);
    assert_eq!(m.metadata.files_processed, 2);
    assert_eq!(m.metadata.classes_extracted, 2);
    assert!(m.metadata.obfuscation_enabled);
    assert_eq!(m.mappings.as_ref().unwrap().len(), 2);
    assert_eq!(m.class_info("flex").unwrap().files, vec!["a.jsx".to_string(), "b.jsx".to_string()]);
    let stats = m.statistics.unwrap();
    assert_eq!(stats.files_with_classes, 2);
    assert_eq!(stats.top_classes.unwrap()[0].name, "flex");
}
