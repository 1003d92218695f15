use cpd::config::{
    build_ignore_matcher, ConfigError, CpdConfig, CpdConfigContents, DEFAULT_MIN_LINES,
};
use cpd::index::FileEntry;

#[test]
fn default_configuration_has_a_window_of_four_lines_and_ignores_nothing() {
    let config = CpdConfig::default();
    assert_eq!(DEFAULT_MIN_LINES, 4);
    assert_eq!(config.get_min_lines(), 4);
    assert!(!config.should_file_be_ignored("src/vendor/lib.rs"));
}

#[test]
fn default_contents_configure_nothing() {
    let contents = CpdConfigContents::default();
    assert_eq!(contents.min_lines, None);
    assert_eq!(contents.ignored_globs, None);
    assert_eq!(CpdConfig::new(contents).unwrap().get_min_lines(), 4);
}

#[test]
fn configured_window_size_is_used() {
    let config = CpdConfig::new(CpdConfigContents { min_lines: Some(9), ignored_globs: None }).unwrap();
    assert_eq!(config.get_min_lines(), 9);
}

#[test]
fn window_of_zero_lines_is_refused() {
    let r = CpdConfig::new(CpdConfigContents { min_lines: Some(0), ignored_globs: None });
    assert!(matches!(r, Err(ConfigError::ZeroMinLines)));
}

#[test]
fn pattern_that_is_no_glob_is_refused_and_named() {
    let r = CpdConfig::new(CpdConfigContents {
        min_lines: None,
        ignored_globs: Some(vec!["*.rs".to_string(), "src/[a-".to_string(), "{a".to_string()]),
    });
    match r {
        Err(ConfigError::InvalidGlob(pattern)) => assert_eq!(pattern, "src/[a-"),
        _ => panic!("the second pattern is no glob"),
    }
}

#[test]
fn zero_window_is_reported_before_a_bad_glob() {
    let r = CpdConfig::new(CpdConfigContents {
        min_lines: Some(0),
        ignored_globs: Some(vec!["[".to_string()]),
    });
    assert!(matches!(r, Err(ConfigError::ZeroMinLines)));
}

#[test]
fn empty_list_of_globs_ignores_nothing() {
    let config =
        CpdConfig::new(CpdConfigContents { min_lines: None, ignored_globs: Some(Vec::new()) }).unwrap();
    assert!(!config.should_file_be_ignored("anything/at/all.rs"));
}

#[test]
fn path_is_ignored_if_any_glob_matches_it() {
    let config = CpdConfig::new(CpdConfigContents {
        min_lines: None,
        ignored_globs: Some(vec!["**/vendor/**".to_string(), "*.min.js".to_string()]),
    })
    .unwrap();
    assert!(config.should_file_be_ignored("a/vendor/b/c.rs"));
    assert!(config.should_file_be_ignored("vendor/c.rs"));
    assert!(config.should_file_be_ignored("app.min.js"));
    assert!(!config.should_file_be_ignored("a/vendored/c.rs"));
    assert!(!config.should_file_be_ignored("src/main.rs"));
}

#[test]
fn matcher_is_built_from_all_the_globs() {
    let set = build_ignore_matcher(&vec!["*.lock".to_string(), "target/**".to_string()]).unwrap();
    assert_eq!(set.len(), 2);
    assert!(set.is_match("Cargo.lock"));
    assert!(set.is_match("target/debug/build"));
    assert!(!set.is_match("src/lib.rs"));
    assert!(build_ignore_matcher(&Vec::new()).unwrap().is_empty());
}

#[test]
fn globs_too_large_to_compile_together_are_refused() {
    let huge = "[ab]".repeat(400_000);
    let r = CpdConfig::new(CpdConfigContents { min_lines: None, ignored_globs: Some(vec![huge]) });
    assert!(matches!(r, Err(ConfigError::InvalidGlobSet)));
}

#[test]
fn entries_are_kept_exactly_where_no_glob_matches_their_path() {
    let config = CpdConfig::new(CpdConfigContents {
        min_lines: None,
        ignored_globs: Some(vec!["**/gen/**".to_string(), "*.lock".to_string()]),
    })
    .unwrap();
    let paths = ["src/a.rs", "src/gen/b.rs", "Cargo.lock", "gen", "x/gen/y/z.rs", "lock"];
    let entries: Vec<FileEntry> = paths
        .iter()
        .map(|p| FileEntry { path: p.to_string(), is_dir: false, contents: None })
        .collect();
    let kept: Vec<String> = config.retain_included(&entries).into_iter().map(|e| e.path).collect();
    let expected: Vec<String> = paths
        .iter()
        .filter(|p| !config.should_file_be_ignored(p))
        .map(|p| p.to_string())
        .collect();
    assert_eq!(kept, expected);
    assert_eq!(kept, vec!["src/a.rs".to_string(), "gen".to_string(), "lock".to_string()]);
}

#[test]
fn same_path_gets_the_same_answer_every_time() {
    let config = CpdConfig::new(CpdConfigContents {
        min_lines: None,
        ignored_globs: Some(vec!["**/vendor/**".to_string()]),
    })
    .unwrap();
    for path in ["a/vendor/b.rs", "a/b.rs"] {
        let first = config.should_file_be_ignored(path);
        for _ in 0..3 {
            assert_eq!(config.should_file_be_ignored(path), first);
        }
    }
}

#[test]
fn list_with_a_pattern_that_is_no_glob_gives_no_matcher() {
    match build_ignore_matcher(&vec!["*.rs".to_string(), "[".to_string(), "*.c".to_string()]) {
        Err(ConfigError::InvalidGlob(pattern)) => assert_eq!(pattern, "["),
        _ => panic!("the second pattern is no glob"),
    }
    assert!(build_ignore_matcher(&vec!["*.rs".to_string(), "*.c".to_string()]).is_ok());
}
