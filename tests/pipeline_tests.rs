use tailwind_extractor::args::{paths_equal, ExtractArgs};
use tailwind_extractor::errors::ExtractorError;
use tailwind_extractor::pipeline::{
    admitted_files, check_output_path, compile_patterns, exclusion_flags, is_within, select_paths, validate_file,
    FileFacts, Rejection, SecurityPolicy,
};

fn args() -> ExtractArgs {
    ExtractArgs {
        input: vec!["*.mjs".to_string()],
        output_css: "output.css".into(),
        output_manifest: "classes.json".into(),
        config: None,
        obfuscate: false,
        minify: false,
        watch: false,
        verbose: false,
        jobs: None,
        exclude: vec![],
        dry_run: false,
        no_preflight: false,
    }
}

#[test]
fn test_extract_args_validate() {
    let mut args = args();
    assert!(args.validate().is_ok());
    args.input.clear();
    assert!(args.validate().is_err());
    args.input.push("*.mjs".to_string());
    args.output_manifest = args.output_css.clone();
    assert!(args.validate().is_err());
    args.output_manifest = "classes.json".into();
    args.jobs = Some(0);
    assert!(args.validate().is_err());
    args.jobs = Some(4);
    assert!(args.validate().is_ok());
}

#[test]
fn validate_messages() {
    let mut a = args();
    a.input.clear();
    assert_eq!(a.validate(), Err("At least one input pattern must be provided".to_string()));
    let mut a = args();
    a.output_manifest = "output.css".to_string();
    assert_eq!(a.validate(), Err("Output CSS and manifest paths must be different".to_string()));
    let mut a = args();
    a.jobs = Some(0);
    assert_eq!(a.validate(), Err("Number of jobs must be at least 1".to_string()));
}

fn policy() -> SecurityPolicy {
    SecurityPolicy { max_file_size: 10 * 1024 * 1024, allow_symlinks: true, root: "/work".to_string() }
}

#[test]
fn security_check_verdicts() {
    let p = policy();
    let plain = FileFacts { is_symlink: false, size: 100, resolved: None };
    assert_eq!(validate_file(&plain, &p), None);
    let big = FileFacts { is_symlink: false, size: 11 * 1024 * 1024, resolved: None };
    assert_eq!(validate_file(&big, &p), Some(Rejection::TooLarge));
    let inside = FileFacts { is_symlink: true, size: 1, resolved: Some("/work/src/a.jsx".to_string()) };
    assert_eq!(validate_file(&inside, &p), None);
    let outside = FileFacts { is_symlink: true, size: 1, resolved: Some("/workshop/a.jsx".to_string()) };
    assert_eq!(validate_file(&outside, &p), Some(Rejection::OutsideRoot));
    let mut strict = policy();
    strict.allow_symlinks = false;
    assert_eq!(validate_file(&inside, &strict), Some(Rejection::Symlink));
}

#[test]
fn oversized_file_is_skipped_and_siblings_kept() {
    let paths = vec!["/work/large_file.jsx".to_string(), "/work/normal_file.jsx".to_string()];
    let facts = vec![
        FileFacts { is_symlink: false, size: 11 * 1024 * 1024, resolved: None },
        FileFacts { is_symlink: false, size: 70, resolved: None },
    ];
    let kept = admitted_files(&paths, &facts, &policy());
    assert_eq!(kept, vec!["/work/normal_file.jsx".to_string()]);
}

#[test]
fn containment() {
    assert!(is_within("/work", "/work"));
    assert!(is_within("/work/a", "/work"));
    assert!(is_within("/work/a", "/work/"));
    assert!(!is_within("/workshop", "/work"));
    assert!(!is_within("/other", "/work"));
    assert!(check_output_path("/work/out.css", "/work").is_ok());
    assert!(matches!(check_output_path("/tmp/out.css", "/work"), Err(ExtractorError::SecurityError(_))));
}

#[test]
fn discovery_excludes_and_dedups() {
    let candidates = vec![
        "src/a.js".to_string(),
        "src/vendor/b.js".to_string(),
        "src/a.js".to_string(),
        "src/c.js".to_string(),
    ];
    let patterns = compile_patterns(&vec!["**/vendor/**".to_string()]).unwrap();
    let flags = exclusion_flags(&candidates, &patterns);
    assert_eq!(flags, vec![false, true, false, false]);
    let chosen = select_paths(&candidates, &flags);
    assert_eq!(chosen, vec!["src/a.js".to_string(), "src/c.js".to_string()]);
}

#[test]
fn malformed_pattern_is_an_error() {
    assert!(matches!(compile_patterns(&vec!["[".to_string()]), Err(ExtractorError::Pattern(_))));
}

#[test]
fn path_comparison_matches_std_paths() {
    let paths = [
        "out/a.css", "out//a.css", "out/./a.css", "./out/a.css", "out/a.css/", "/out/a.css", "//out/a.css",
        "out/b.css", ".", "./", "", "/", "a/../a.css", "a.css",
    ];
    for x in paths {
        for y in paths {
            assert_eq!(
                paths_equal(x, y),
                std::path::Path::new(x) == std::path::Path::new(y),
                "{:?} vs {:?}",
                x,
                y
            );
        }
    }
}

#[test]
fn same_output_written_differently_is_refused() {
    let mut a = args();
    a.output_css = "out//site.css".to_string();
    a.output_manifest = "out/./site.css".to_string();
    assert_eq!(a.validate(), Err("Output CSS and manifest paths must be different".to_string()));
}
