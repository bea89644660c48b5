use bake::error::ErrorKind;
use bake::sources::{expand_sources, expand_with_matches, pattern_entries_of, readable_paths};
use bake::template::{expand_tokens, format_arguments, include_flags, substitute_arguments, TemplateContext};

const NOWHERE: &str = "/nonexistent-bake-test-root";

fn strings(v: &[&str]) -> Vec<String> {
    v.iter().map(|s| s.to_string()).collect()
}

fn ctx(sources: &[&str], flags: &[&str]) -> TemplateContext {
    TemplateContext {
        sources: strings(sources),
        output_dir: "/r/build/x".to_string(),
        include_flags: strings(flags),
    }
}

#[test]
fn placeholders_are_filled() {
    let args = strings(&["-c", "{sources}", "-o", "{output_dir}/{output_file_stem}.o"]);
    let r = substitute_arguments(&args, &ctx(&["/r/src/a.c", "/r/src/b.c"], &[])).expect("fills");
    assert_eq!(r, strings(&["-c", "/r/src/a.c /r/src/b.c", "-o", "/r/build/x/a.o"]));
}

#[test]
fn stem_drops_directory_and_extension() {
    let args = strings(&["{output_file_stem}"]);
    let r = substitute_arguments(&args, &ctx(&["/r/src/lib.tar.gz"], &[])).expect("fills");
    assert_eq!(r, strings(&["lib.tar"]));
}

#[test]
fn stem_without_sources_fails() {
    let args = strings(&["-o", "{output_file_stem}.o"]);
    let err = substitute_arguments(&args, &ctx(&[], &[])).err().expect("fails");
    assert!(matches!(err.kind, ErrorKind::MissingSourceStem));
    let err = format_arguments(&args, &ctx(&[], &[])).err().expect("fails");
    assert!(matches!(err.kind, ErrorKind::MissingSourceStem));
}

#[test]
fn no_sources_without_stem_is_fine() {
    let args = strings(&["{sources}", "{output_dir}"]);
    let r = substitute_arguments(&args, &ctx(&[], &[])).expect("fills");
    assert_eq!(r, strings(&["", "/r/build/x"]));
}

#[test]
fn includes_fan_out() {
    let flags = include_flags("/r", &strings(&["inc", "/abs/inc"]));
    assert_eq!(flags, strings(&["-I/r/inc", "-I/abs/inc"]));
    let args = strings(&["cc", "{includes}", "{sources}"]);
    let r = substitute_arguments(&args, &ctx(&["/r/a.c"], &["-I/r/inc", "-I/abs/inc"])).expect("fills");
    assert_eq!(r, strings(&["cc", "-I/r/inc", "-I/abs/inc", "/r/a.c"]));
    let r = substitute_arguments(&args, &ctx(&["/r/a.c"], &[])).expect("fills");
    assert_eq!(r, strings(&["cc", "/r/a.c"]));
}

#[test]
fn unmatched_wildcard_argument_is_kept() {
    let pattern = format!("{}/*.txt", NOWHERE);
    let args = strings(&["{sources}"]);
    let r = format_arguments(&args, &ctx(&[pattern.as_str()], &[])).expect("formats");
    assert_eq!(r, vec![pattern]);
}

#[test]
fn malformed_wildcard_argument_fails() {
    let args = strings(&["/nowhere/a**b"]);
    let err = format_arguments(&args, &ctx(&["/r/a.c"], &[])).err().expect("fails");
    match err.kind {
        ErrorKind::SourceExpansion { pattern } => assert_eq!(pattern, "/nowhere/a**b"),
        other => panic!("unexpected error {:?}", other),
    }
}

#[test]
fn wildcard_tokens_split_into_matches() {
    let tokens = strings(&["inc/*.h", "plain", "none/*.h"]);
    let found = vec![strings(&["inc/a.h", "inc/b.h"]), vec![], vec![]];
    assert_eq!(expand_tokens(&tokens, &found), strings(&["inc/a.h", "inc/b.h", "plain", "none/*.h"]));
}

#[test]
fn matches_of_a_plain_token_are_ignored() {
    let tokens = strings(&["plain"]);
    let found = vec![strings(&["other"])];
    assert_eq!(expand_tokens(&tokens, &found), strings(&["plain"]));
}

#[test]
fn unmatched_source_pattern_yields_joined_literal() {
    let r = expand_sources(&strings(&["*.txt", "src/main.c"]), NOWHERE).expect("expands");
    assert_eq!(r, vec![format!("{}/*.txt", NOWHERE), format!("{}/src/main.c", NOWHERE)]);
}

#[test]
fn source_expansion_is_repeatable() {
    let patterns = strings(&["*.txt", "a/*.c", "b.c"]);
    let first = expand_sources(&patterns, NOWHERE).expect("expands");
    let second = expand_sources(&patterns, NOWHERE).expect("expands");
    assert_eq!(first, second);
    let found = vec![strings(&["/x/1.txt"]), vec![], vec![]];
    let a = expand_with_matches(&patterns, "/x", &found);
    let b = expand_with_matches(&patterns, "/x", &found);
    assert_eq!(a, b);
    assert_eq!(a, strings(&["/x/1.txt", "/x/a/*.c", "/x/b.c"]));
}

#[test]
fn malformed_source_pattern_fails() {
    let err = expand_sources(&strings(&["ok.c", "a**b"]), NOWHERE).err().expect("fails");
    match err.kind {
        ErrorKind::SourceExpansion { pattern } => assert_eq!(pattern, format!("{}/a**b", NOWHERE)),
        other => panic!("unexpected error {:?}", other),
    }
}

#[test]
fn entries_of_one_pattern() {
    let joined = "/r/x*.c".to_string();
    assert_eq!(pattern_entries_of(&joined, vec![]), strings(&["/r/x*.c"]));
    assert_eq!(pattern_entries_of(&joined, strings(&["/r/x1.c"])), strings(&["/r/x1.c"]));
    let found = vec![Some("/a".to_string()), None, Some("/b".to_string())];
    assert_eq!(readable_paths(found), strings(&["/a", "/b"]));
}

#[test]
fn templating_is_repeatable() {
    let args = strings(&["{sources}", "-o", "{output_dir}/{output_file_stem}"]);
    let c = ctx(&["/r/a.c"], &[]);
    assert_eq!(format_arguments(&args, &c).expect("formats"), format_arguments(&args, &c).expect("formats"));
}

#[test]
fn wildcard_source_lists_real_files() {
    // the root directory of any system has entries: the pattern is replaced by them
    let r = expand_sources(&strings(&["*"]), "/").expect("expands");
    assert!(!r.is_empty());
    assert!(!r.contains(&"/*".to_string()));
    assert!(r.iter().all(|p| p.starts_with('/')));
}

#[test]
fn filled_values_are_not_scanned_again() {
    let args = strings(&["{sources}"]);
    let r = substitute_arguments(&args, &ctx(&["/r/{output_dir}.c"], &[])).expect("fills");
    assert_eq!(r, strings(&["/r/{output_dir}.c"]));
    let args = strings(&["{includes}"]);
    let r = substitute_arguments(&args, &ctx(&["/r/a.c"], &["-I/r/{sources}"])).expect("fills");
    assert_eq!(r, strings(&["-I/r/{sources}"]));
    let args = strings(&["{output_dir}/{output_file_stem}-{output_file_stem}"]);
    let r = substitute_arguments(&args, &ctx(&["/r/{sources}.c"], &[])).expect("fills");
    assert_eq!(r, strings(&["/r/build/x/{sources}-{sources}"]));
}

#[test]
fn stem_needed_even_inside_an_include_template() {
    let args = strings(&["{includes}{output_file_stem}"]);
    let err = substitute_arguments(&args, &ctx(&[], &[])).err().expect("fails");
    assert!(matches!(err.kind, ErrorKind::MissingSourceStem));
}

#[test]
fn placeholders_inside_a_token() {
    let args = strings(&["--out={output_dir}/{output_file_stem}.o", "{unknown}"]);
    let r = substitute_arguments(&args, &ctx(&["/r/main.c"], &[])).expect("fills");
    assert_eq!(r, strings(&["--out=/r/build/x/main.o", "{unknown}"]));
}
