use tailwind_extractor::manifest::{path_of_location, top_classes, Manifest, ManifestBuilder, TopClass};

fn manifest() -> Manifest {
    Manifest::new("2024-01-01T00:00:00Z".to_string(), "0.1.0".to_string())
}

#[test]
fn test_manifest_creation() {
    let manifest = manifest();
    assert_eq!(manifest.metadata.version, "1.0.0");
    assert_eq!(manifest.class_count(), 0);
    assert!(!manifest.metadata.obfuscation_enabled);
}

#[test]
fn manifest_test_add_class() {
    let mut manifest = manifest();
    manifest.add_class("bg-blue-500".to_string(), "src/app.js:10:15".to_string());
    manifest.add_class("bg-blue-500".to_string(), "src/app.js:20:10".to_string());
    manifest.add_class("text-white".to_string(), "src/app.js:10:30".to_string());
    assert_eq!(manifest.class_count(), 2);
    assert_eq!(manifest.class_info("bg-blue-500").unwrap().count, 2);
    assert_eq!(manifest.class_info("text-white").unwrap().count, 1);
}

#[test]
fn test_manifest_builder() {
    let classes = vec![
        ("p-4".to_string(), vec!["src/app.js:1:1".to_string(), "src/app.js:2:1".to_string()]),
        ("m-2".to_string(), vec!["src/other.js:5:10".to_string()]),
    ];
    let manifest = ManifestBuilder::new("2024-01-01T00:00:00Z".to_string(), "0.1.0".to_string())
        .with_build_mode("production".to_string())
        .with_files_processed(10)
        .with_classes_extracted(50)
        .with_class_info(classes)
        .build(1024, Some(512), None);
    assert_eq!(manifest.metadata.files_processed, 10);
    assert_eq!(manifest.metadata.classes_extracted, 50);
    assert_eq!(manifest.metadata.build_mode, Some("production".to_string()));
    assert!(manifest.statistics.is_some());
    assert_eq!(manifest.class_info("p-4").unwrap().count, 2);
    let stats = manifest.statistics.unwrap();
    assert_eq!(stats.css_size_bytes, 1024);
    assert_eq!(stats.minified_size_bytes, Some(512));
    assert_eq!(stats.files_with_classes, 2);
}

#[test]
fn test_top_classes() {
    let mut manifest = manifest();
    for i in 0..5 {
        manifest.add_class("frequent".to_string(), format!("file{}:1:1", i));
    }
    for i in 0..3 {
        manifest.add_class("moderate".to_string(), format!("file{}:1:1", i));
    }
    manifest.add_class("rare".to_string(), "file1:1:1".to_string());
    manifest.calculate_statistics(1000, None, None);
    let stats = manifest.statistics.unwrap();
    let top_classes = stats.top_classes.unwrap();
    assert_eq!(top_classes[0].name, "frequent");
    assert_eq!(top_classes[0].count, 5);
    assert_eq!(top_classes[1].name, "moderate");
    assert_eq!(top_classes[1].count, 3);
    assert_eq!(stats.files_with_classes, 5);
}

#[test]
fn top_classes_ties_keep_order_and_limit() {
    let mut candidates = Vec::new();
    for i in 0..12 {
        candidates.push(TopClass { name: format!("c{}", i), count: if i == 5 { 9 } else { 1 }, file_count: 1 });
    }
    let top = top_classes(&candidates);
    let names: Vec<&str> = top.iter().map(|t| t.name.as_str()).collect();
    assert_eq!(names, vec!["c5", "c0", "c1", "c2", "c3", "c4", "c6", "c7", "c8", "c9"]);
    assert!(top_classes(&Vec::new()).is_empty());
}

#[test]
fn location_paths() {
    assert_eq!(path_of_location("src/app.js:10:15"), "src/app.js");
    assert_eq!(path_of_location("plain"), "plain");
    assert_eq!(path_of_location(":1"), "");
}

#[test]
fn mappings_enable_obfuscation() {
    let mut manifest = manifest();
    manifest.set_mappings(vec![("flex".to_string(), "tw1".to_string())]);
    assert!(manifest.metadata.obfuscation_enabled);
    assert_eq!(manifest.mappings.as_ref().unwrap().len(), 1);
}
