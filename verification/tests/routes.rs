use server_rendered_source::regular_expression::PatternError;
use server_rendered_source::route::{
    regular_expression_for_path, regular_expression_from, regular_expression_source, PathError,
    RegularExpressionError,
};

fn source(path: &str) -> String {
    regular_expression_source(Some(path)).unwrap()
}

#[test]
fn static_path() {
    assert_eq!(source("about/index.html"), "^about$");
    assert_eq!(source("blog/first/index.html"), "^blog/first$");
}

#[test]
fn root_index_keeps_its_name() {
    assert_eq!(source("index.html"), "^index$");
}

#[test]
fn only_the_last_index_is_dropped() {
    assert_eq!(source("a/index/index.html"), "^a/index$");
    assert_eq!(source("a/myindex.html"), "^a/myindex$");
}

#[test]
fn only_the_last_extension_is_dropped() {
    assert_eq!(source("a.b/c.d.html"), r"^a\.b/c\.d$");
    assert_eq!(source("a.b/c"), "^a$");
}

#[test]
fn empty_stem() {
    assert_eq!(source(".html"), "^$");
    assert_eq!(source("/index.html"), "^$");
}

#[test]
fn slashes_at_the_beginning_do_not_count() {
    assert_eq!(source("/a.html"), "^a$");
    assert_eq!(source("///a/b.html"), "^a/b$");
    assert_eq!(source("//.html"), "^$");
    assert_eq!(source("a//b/.html"), "^a//b/$");
}

#[test]
fn parameter() {
    assert_eq!(source("[id]/index.html"), "^(?P<id>[^?/]+)$");
    assert_eq!(
        source("posts/[id]/comments/[comment].html"),
        "^posts/(?P<id>[^?/]+)/comments/(?P<comment>[^?/]+)$"
    );
}

#[test]
fn catch_all() {
    assert_eq!(
        source("docs/[...slug]/index.html"),
        "^docs/(?P<slug>[^?]+)$"
    );
}

#[test]
fn text_behind_a_placeholder_is_quoted() {
    assert_eq!(source("[id].json.html"), r"^(?P<id>[^?/]+)\.json$");
    assert_eq!(source("[id][x].html"), r"^(?P<id>[^?/]+)\[x\]$");
}

#[test]
fn bracket_inside_of_a_segment_is_text() {
    assert_eq!(source("a[id].html"), r"^a\[id\]$");
}

#[test]
fn all_meta_characters_are_quoted() {
    assert_eq!(
        source("\\+*?()|]{}^$#&-~.html"),
        r"^\\\+\*\?\(\)\|\]\{\}\^\$\#\&\-\~$"
    );
    assert_eq!(source("grüße<>.html"), "^grüße<>$");
}

#[test]
fn not_in_server_root() {
    let error = regular_expression_source(None).unwrap_err();
    assert!(matches!(error, PathError::NotInServerRoot));
    assert_eq!(
        error.message("[project]/x", "[project]/y"),
        "server_path ([project]/x) is not in server_root ([project]/y)"
    );
}

#[test]
fn no_extension() {
    let error = regular_expression_source(Some("a/b")).unwrap_err();
    assert!(matches!(&error, PathError::NoExtension { path } if path == "a/b"));
    assert_eq!(error.message("", ""), "path (a/b) has no extension");
}

#[test]
fn unmatched_bracket() {
    let error = regular_expression_source(Some("a/[id/index.html")).unwrap_err();
    assert!(matches!(&error, PathError::UnmatchedBracket { path } if path == "a/[id"));
    assert_eq!(
        error.message("", ""),
        "path (a/[id) contains '[' without matching ']'"
    );
    let first = regular_expression_source(Some("[a/b]/index.html")).unwrap_err();
    assert!(matches!(&first, PathError::UnmatchedBracket { path } if path == "[a/b]"));
}

#[test]
fn compiled_expression_keeps_its_source() {
    let regex = regular_expression_for_path(Some("a.b/[id].html")).unwrap();
    assert_eq!(regex.source(), r"^a\.b/(?P<id>[^?/]+)$");
    assert_eq!(regex.as_regex().as_str(), regex.source());
}

#[test]
fn static_path_is_matched_literally() {
    let regex = regular_expression_for_path(Some("a+b/index.html")).unwrap();
    assert!(regex.as_regex().is_match("a+b"));
    assert!(!regex.as_regex().is_match("aab"));
    assert!(!regex.as_regex().is_match("a+b/c"));
    assert!(!regex.as_regex().is_match("/a+b"));
}

#[test]
fn parameter_captures_one_segment() {
    let regex = regular_expression_for_path(Some("posts/[id]/index.html")).unwrap();
    let captures = regex.as_regex().captures("posts/42").unwrap();
    assert_eq!(&captures["id"], "42");
    assert!(!regex.as_regex().is_match("posts/4/2"));
    assert!(!regex.as_regex().is_match("posts/"));
    assert!(!regex.as_regex().is_match("posts/4?2"));
}

#[test]
fn catch_all_captures_several_segments() {
    let regex = regular_expression_for_path(Some("docs/[...slug]/index.html")).unwrap();
    let captures = regex.as_regex().captures("docs/a/b/c").unwrap();
    assert_eq!(&captures["slug"], "a/b/c");
    assert!(!regex.as_regex().is_match("docs/a?b"));
}

#[test]
fn every_dynamic_segment_has_a_group() {
    let regex = regular_expression_for_path(Some("[a]/x/[b]/[...c].html")).unwrap();
    let names: Vec<&str> = regex.as_regex().capture_names().flatten().collect();
    assert_eq!(names, vec!["a", "b", "c"]);
}

#[test]
fn repeated_name_is_malformed() {
    assert!(matches!(
        regular_expression_for_path(Some("[id]/[id].html")),
        Err(RegularExpressionError::Pattern(PatternError::Syntax(_)))
    ));
}

#[test]
fn name_that_is_no_identifier_is_malformed() {
    assert!(matches!(
        regular_expression_for_path(Some("[my-id].html")),
        Err(RegularExpressionError::Pattern(PatternError::Syntax(_)))
    ));
    assert!(matches!(
        regular_expression_for_path(Some("[[...slug]].html")),
        Err(RegularExpressionError::Pattern(PatternError::Syntax(_)))
    ));
    assert!(matches!(
        regular_expression_for_path(Some("[].html")),
        Err(RegularExpressionError::Pattern(PatternError::Syntax(_)))
    ));
}

#[test]
fn name_can_have_dots_and_digits() {
    let regex = regular_expression_for_path(Some("[_a.b2].html")).unwrap();
    assert_eq!(&regex.as_regex().captures("x").unwrap()["_a.b2"], "x");
    assert!(matches!(
        regular_expression_for_path(Some("[2a].html")),
        Err(RegularExpressionError::Pattern(PatternError::Syntax(_)))
    ));
}

#[test]
fn name_can_be_alphabetic_beyond_ascii() {
    let regex = regular_expression_for_path(Some("[größe]/index.html")).unwrap();
    assert_eq!(regex.source(), "^(?P<größe>[^?/]+)$");
    assert_eq!(&regex.as_regex().captures("xl").unwrap()["größe"], "xl");
    for path in [
        "[größe]/[größe].html",
        "[größe]/[].html",
        "[größe-x].html",
        "[größe]/[a]/[a].html",
        "[→].html",
        "[a→].html",
    ] {
        assert!(matches!(
            regular_expression_for_path(Some(path)),
            Err(RegularExpressionError::Pattern(PatternError::Syntax(_)))
        ));
    }
}

#[test]
fn short_expression_is_not_too_big() {
    let mut path = String::new();
    for i in 0..1100 {
        path.push_str(&format!("[p{:04}]/", i));
    }
    path.push_str("index.html");
    let regex = regular_expression_for_path(Some(&path)).unwrap();
    assert!(regex.source().len() <= 20_000);
    assert!(regex.source().len() > 19_000);

    let wide = "\u{10ffff}".repeat(19_990) + ".html";
    assert!(regular_expression_for_path(Some(&wide)).is_ok());
}

#[test]
fn expression_can_be_too_big() {
    let mut path = String::new();
    for i in 0..40000 {
        path.push_str(&format!("[p{}]/", i));
    }
    path.push_str("index.html");
    assert!(matches!(
        regular_expression_for_path(Some(&path)),
        Err(RegularExpressionError::Pattern(PatternError::TooBig(_)))
    ));
}

#[test]
fn path_faults_come_before_the_pattern() {
    assert!(matches!(
        regular_expression_for_path(None),
        Err(RegularExpressionError::Path(PathError::NotInServerRoot))
    ));
    assert!(matches!(
        regular_expression_for_path(Some("a")),
        Err(RegularExpressionError::Path(PathError::NoExtension { .. }))
    ));
    assert!(matches!(
        regular_expression_for_path(Some("[my-id]/[b.html")),
        Err(RegularExpressionError::Path(PathError::UnmatchedBracket { .. }))
    ));
}

#[test]
fn outcome_of_compiling_is_handed_on() {
    let compiled = regular_expression_for_path(Some("a.html")).unwrap();
    assert_eq!(regular_expression_from(Ok(compiled)).unwrap().source(), "^a$");
    let refused = PatternError::Syntax(regex::Error::Syntax("x".to_string()));
    assert!(matches!(
        regular_expression_from(Err(refused)),
        Err(RegularExpressionError::Pattern(PatternError::Syntax(_)))
    ));
}

#[test]
fn quoting_keeps_texts_apart() {
    assert_ne!(source("a.b.html"), source(r"a\.b.html"));
    assert_ne!(source("ab.html"), source("a.b.html"));
}

#[test]
fn extension_does_not_matter() {
    assert_eq!(source("a/[b].html"), source("a/[b].txt"));
}

#[test]
fn index_page_stands_for_its_directory() {
    assert_eq!(source("a/[b]/index.html"), source("a/[b].html"));
    assert_ne!(source("a/index/index.html"), source("a/index.html"));
}
