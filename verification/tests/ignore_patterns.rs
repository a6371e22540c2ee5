use lazy_svn::glob::matches_ignore_pattern;

#[test]
fn test_ignore_exact_match() {
    assert!(matches_ignore_pattern("src/main.rs", "src/main.rs"));
    assert!(!matches_ignore_pattern("src/app.rs", "src/main.rs"));
}

#[test]
fn test_ignore_basename_match() {
    // A pattern without a `/` matches as a trailing basename.
    assert!(matches_ignore_pattern("src/main.rs", "main.rs"));
    assert!(matches_ignore_pattern("main.rs", "main.rs"));
    assert!(!matches_ignore_pattern("src/app.rs", "main.rs"));
}

#[test]
fn test_ignore_wildcard_extension() {
    // Pattern without `/` matches against the basename at any depth.
    assert!(matches_ignore_pattern("src/main.rs", "*.rs"));
    assert!(matches_ignore_pattern("main.rs", "*.rs"));
    assert!(!matches_ignore_pattern("src/main.rs", "*.txt"));
}

#[test]
fn test_ignore_wildcard_no_cross_dir() {
    // Pattern with `/`: `*` must not cross directory boundaries.
    assert!(matches_ignore_pattern("src/main.rs", "src/*.rs"));
    assert!(!matches_ignore_pattern("src/sub/main.rs", "src/*.rs"));
}

#[test]
fn test_ignore_double_star() {
    // `**` should match across directory boundaries.
    assert!(matches_ignore_pattern("src/sub/main.rs", "src/**/*.rs"));
    assert!(matches_ignore_pattern("a/b/c/d.txt", "**/*.txt"));
}

#[test]
fn test_ignore_empty_pattern_never_matches() {
    assert!(!matches_ignore_pattern("anything", ""));
}

#[test]
fn test_ignore_double_star_alone_matches_any_basename() {
    // `**` without a `/` is treated as basename-only matching.
    assert!(matches_ignore_pattern("a/b/c.rs", "**"));
    assert!(matches_ignore_pattern("file.rs", "**"));
}

#[test]
fn test_ignore_double_star_prefix_matches_at_any_depth() {
    // `**/foo.txt` matches `something/foo.txt` and deeper paths.
    assert!(matches_ignore_pattern("a/foo.txt", "**/foo.txt"));
    assert!(matches_ignore_pattern("a/b/foo.txt", "**/foo.txt"));
    assert!(!matches_ignore_pattern("a/bar.txt", "**/foo.txt"));
}

#[test]
fn test_ignore_basename_only_does_not_match_mid_component() {
    // Pattern `bar.txt` must match at a directory boundary, not mid-component.
    assert!(matches_ignore_pattern("foo/bar.txt", "bar.txt"));
    assert!(!matches_ignore_pattern("foobar.txt", "bar.txt"));
}
