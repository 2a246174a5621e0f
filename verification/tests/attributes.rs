use std::sync::Arc;

use gfs::attributes::{is_lfs, resolve_filter, strip_components, AttributeFile, FilterState};
use gfs::glob::Glob;

fn file(content: &str) -> Arc<AttributeFile> {
    Arc::new(AttributeFile::parse(content.as_bytes()))
}

#[test]
fn the_git_lfs_line_shape_resolves_to_lfs() {
    let stack = vec![file("*.psd filter=lfs diff=lfs merge=lfs -text\n")];
    assert!(is_lfs(resolve_filter(&stack, b"art/hero.psd")));
    assert!(!is_lfs(resolve_filter(&stack, b"art/hero.png")));
}

#[test]
fn later_lines_override_earlier_ones_within_a_file() {
    let stack = vec![file("*.bin filter=lfs\nlegacy/*.bin -filter\n")];
    assert!(is_lfs(resolve_filter(&stack, b"data.bin")));
    assert_eq!(
        resolve_filter(&stack, b"legacy/old.bin"),
        Some(&FilterState::Unset)
    );
}

#[test]
fn a_deeper_file_overrides_a_shallower_one() {
    // Root says *.bin is LFS; vendored/ opts out; !filter forces unspecified.
    let stack = vec![file("*.bin filter=lfs\n"), file("*.bin !filter\n")];
    assert_eq!(
        resolve_filter(&stack, b"vendored/blob.bin"),
        Some(&FilterState::Unspecified)
    );
    assert!(!is_lfs(resolve_filter(&stack, b"vendored/blob.bin")));
}

#[test]
fn slash_patterns_anchor_to_the_attributing_directory() {
    let stack = vec![
        Arc::new(AttributeFile::empty()),
        // The file of `assets/`: matched against the path below `assets/`.
        file("models/*.onnx filter=lfs\n"),
    ];
    assert!(is_lfs(resolve_filter(&stack, b"assets/models/net.onnx")));
    assert!(!is_lfs(resolve_filter(&stack, b"assets/other/net.onnx")));
}

#[test]
fn a_slash_free_pattern_matches_the_basename_not_a_directory_component() {
    let stack = vec![file("*.psd filter=lfs\n")];
    assert!(!is_lfs(resolve_filter(&stack, b"weird.psd/readme.txt")));
}

#[test]
fn comments_negations_and_directory_patterns_are_ignored() {
    let f = AttributeFile::parse(b"# comment\n!x.bin filter=lfs\nbuild/ filter=lfs\n");
    assert!(f.is_empty());
}

#[test]
fn a_filter_without_a_value_is_not_lfs() {
    let f = AttributeFile::parse(b"*.a filter\n*.b filter=other\n*.c text\n");
    assert_eq!(f.filter_for(b"x.a"), Some(&FilterState::Plain));
    assert_eq!(
        f.filter_for(b"x.b"),
        Some(&FilterState::Value("other".to_owned()))
    );
    assert_eq!(f.filter_for(b"x.c"), None);
    assert!(!is_lfs(f.filter_for(b"x.a")));
    assert!(!is_lfs(f.filter_for(b"x.b")));
    assert!(!is_lfs(None));
}

#[test]
fn a_star_does_not_cross_a_slash() {
    let star = Glob::from_bytes(b"*.rs");
    assert!(star.matches(b"main.rs"));
    assert!(!star.matches(b"src/main.rs"));
    assert!(!star.matches(b"main.rsx"));
}

#[test]
fn stripping_adds_up_and_ends_at_a_slash() {
    let path = b"a/bc/d/e.txt";
    assert_eq!(strip_components(path, 0), path);
    assert_eq!(strip_components(path, 2), b"d/e.txt");
    for m in 0..6 {
        for n in 0..6 {
            assert_eq!(
                strip_components(&strip_components(path, m), n),
                strip_components(path, m + n),
                "{m} then {n}"
            );
        }
    }
}

#[test]
fn joined_texts_answer_as_the_later_one_where_it_answers() {
    let first = "*.bin filter=lfs\n*.txt filter=other\n";
    let second = "*.bin -filter\n";
    let joined = AttributeFile::parse(format!("{first}{second}").as_bytes());
    assert_eq!(joined.filter_for(b"x.bin"), Some(&FilterState::Unset));
    assert_eq!(
        joined.filter_for(b"x.txt"),
        AttributeFile::parse(first.as_bytes()).filter_for(b"x.txt")
    );
}
