use tailwind_extractor::config::{ConfigFormat, KeyedMap, TailwindConfig};
use tailwind_extractor::errors::ExtractorError;

#[test]
fn test_default_config() {
    let config = TailwindConfig::default();
    assert!(!config.content.is_empty());
    assert!(!config.obfuscation.enabled);
}

#[test]
fn test_config_merge() {
    let mut base = TailwindConfig::default();
    base.theme.extend.colors.insert("primary".to_string(), "#111".to_string());

    let mut other = TailwindConfig::default();
    other.content = vec!["./custom/**/*.js".to_string()];
    other.theme.extend.colors.insert("primary".to_string(), "#222".to_string());
    other.theme.extend.colors.insert("secondary".to_string(), "#333".to_string());

    let merged = base.merge(other);
    assert!(merged.content.contains(&"./custom/**/*.js".to_string()));
    assert_eq!(merged.theme.extend.colors.get("primary"), Some(&"#222".to_string()));
    assert_eq!(merged.theme.extend.colors.get("secondary"), Some(&"#333".to_string()));
}

#[test]
fn default_config_values() {
    let config = TailwindConfig::default();
    assert_eq!(
        config.content,
        vec!["./src/**/*.res.mjs".to_string(), "./src/**/*.js".to_string(), "./src/**/*.jsx".to_string()]
    );
    assert_eq!(config.obfuscation.prefix, "tw");
    assert_eq!(config.obfuscation.seed, 0x1337_BEEF_CAFE_BABE);
    assert_eq!(config.theme.extend.colors.len(), 0);
}

#[test]
fn merge_keeps_content_order_without_repeats() {
    let base = TailwindConfig::default();
    let mut other = TailwindConfig::default();
    other.content = vec![
        "./src/**/*.js".to_string(),
        "./lib/**/*.js".to_string(),
        "./lib/**/*.js".to_string(),
    ];
    let merged = base.merge(other);
    assert_eq!(
        merged.content,
        vec![
            "./src/**/*.res.mjs".to_string(),
            "./src/**/*.js".to_string(),
            "./src/**/*.jsx".to_string(),
            "./lib/**/*.js".to_string(),
        ]
    );
}

#[test]
fn merge_takes_obfuscation_only_when_enabled() {
    let mut base = TailwindConfig::default();
    base.obfuscation.prefix = "base".to_string();
    let mut other = TailwindConfig::default();
    other.obfuscation.prefix = "other".to_string();
    let merged = base.clone().merge(other.clone());
    assert_eq!(merged.obfuscation.prefix, "base");
    other.obfuscation.enabled = true;
    let merged = base.merge(other);
    assert!(merged.obfuscation.enabled);
    assert_eq!(merged.obfuscation.prefix, "other");
}

#[test]
fn keyed_map_insert_replaces_and_returns_old() {
    let mut m: KeyedMap<String> = KeyedMap::new();
    assert_eq!(m.insert("a".to_string(), "1".to_string()), None);
    assert_eq!(m.insert("a".to_string(), "2".to_string()), Some("1".to_string()));
    assert_eq!(m.len(), 1);
    assert_eq!(m.get("a"), Some(&"2".to_string()));
    assert_eq!(m.get("b"), None);
}

#[test]
fn config_format_by_extension() {
    assert!(matches!(TailwindConfig::from_file("conf/tailwind.yaml"), Ok(ConfigFormat::Yaml)));
    assert!(matches!(TailwindConfig::from_file("tailwind.yml"), Ok(ConfigFormat::Yaml)));
    assert!(matches!(TailwindConfig::from_file("a.b/tailwind.json"), Ok(ConfigFormat::Json)));
    match TailwindConfig::from_file("tailwind.toml") {
        Err(ExtractorError::ConfigError { message }) => {
            assert_eq!(message, "Unsupported config file format: tailwind.toml. Use .yaml, .yml, or .json")
        }
        _ => panic!("expected a configuration error"),
    }
    assert!(TailwindConfig::from_file("dir.json/config").is_err());
    assert!(TailwindConfig::from_file(".json").is_err());
}
