//! The regular expression that the path of a page is served under.
use crate::path_laws::{law_only_an_unmatched_bracket_is_refused, law_page_stem};
use crate::regular_expression::{
    are_group_names, are_unbroken, compile, is_short, malformed, quoted, PathRegex, PatternError,
};
use crate::text::{
    begins_with, cut_first, cut_last, join, lemma_find, lemma_join_len, rsplit_once, split,
    split_once, strip_prefix, strip_suffix, trim_start, without_suffix,
};
use vstd::prelude::*;

verus! {

/// One segment of the path of a page.
pub enum Segment {
    /// Text that stands for itself.
    Static(Seq<char>),
    /// `[name]rest`: one segment of a request, under a name, before `rest`.
    Param { name: Seq<char>, rest: Seq<char> },
    /// `[...name]rest`: one or more segments of a request, under a name, before
    /// `rest`.
    CatchAll { name: Seq<char>, rest: Seq<char> },
}

/// What the text of a segment stands for; `None` where a `[` at its beginning
/// has no matching `]`.
pub open spec fn read_segment(text: Seq<char>) -> Option<Segment> {
    if text.len() > 0 && text[0] == '[' {
        match cut_first(text.skip(1), ']') {
            Some((placeholder, rest)) => if begins_with(placeholder, "..."@) {
                Some(Segment::CatchAll { name: placeholder.skip(3), rest })
            } else {
                Some(Segment::Param { name: placeholder, rest })
            },
            None => None,
        }
    } else {
        Some(Segment::Static(text))
    }
}

/// The pattern of one segment: a named group for a placeholder, and all other
/// text quoted. A parameter stops at a slash, a catch-all does not, and both
/// stop at the query of a request.
pub open spec fn segment_pattern(segment: Segment) -> Seq<char> {
    match segment {
        Segment::Static(text) => quoted(text),
        Segment::Param { name, rest } => "(?P<"@ + name + ">[^?/]+)"@ + quoted(rest),
        Segment::CatchAll { name, rest } => "(?P<"@ + name + ">[^?]+)"@ + quoted(rest),
    }
}

/// The patterns of the segments in order, with slashes between them.
pub open spec fn body(segments: Seq<Segment>) -> Seq<char> {
    join(segments.map_values(|segment: Segment| segment_pattern(segment)), '/')
}

/// The pattern of a whole path: that of its segments, from the beginning to
/// the end of the text matched.
pub open spec fn pattern(segments: Seq<Segment>) -> Seq<char> {
    "^"@ + body(segments) + "$"@
}

/// The names that a pattern is written with for its groups: one for each
/// segment with a placeholder, in order. They are the names of the groups where
/// none of them has a `>`; one that has names its group only up to there.
pub open spec fn group_names(segments: Seq<Segment>) -> Seq<Seq<char>>
    decreases segments.len(),
{
    if segments.len() == 0 {
        Seq::empty()
    } else {
        let rest = group_names(segments.drop_first());
        match segments[0] {
            Segment::Static(_) => rest,
            Segment::Param { name, .. } => seq![name] + rest,
            Segment::CatchAll { name, .. } => seq![name] + rest,
        }
    }
}

/// The part of a path that decides under what a page is served: without the
/// extension, and without a last segment `index` behind a slash. `None` where
/// there is no extension.
pub open spec fn page_stem(path: Seq<char>) -> Option<Seq<char>> {
    match cut_last(path, '.') {
        Some((before, _)) => Some(without_suffix(before, "/index"@)),
        None => None,
    }
}

/// The texts between the slashes, where those at the beginning do not count.
pub open spec fn segment_texts(stem: Seq<char>) -> Seq<Seq<char>> {
    split(trim_start(stem, '/'), '/')
}

/// Whether each `[` at the beginning of a segment has its `]`.
pub open spec fn brackets_match(texts: Seq<Seq<char>>) -> bool {
    forall|i: int| 0 <= i < texts.len() ==> read_segment(#[trigger] texts[i]) is Some
}

/// What the texts stand for.
pub open spec fn read_segments(texts: Seq<Seq<char>>) -> Seq<Segment> {
    texts.map_values(|text: Seq<char>| read_segment(text)->0)
}

/// Why no pattern is written for a path.
pub enum PathFault {
    NotInServerRoot,
    NoExtension(Seq<char>),
    UnmatchedBracket(Seq<char>),
}

/// The segments of the path of a page, seen from the server root (`None` for a
/// page outside of it), or the reason why it has none.
pub open spec fn route(path: Option<Seq<char>>) -> Result<Seq<Segment>, PathFault> {
    match path {
        None => Err(PathFault::NotInServerRoot),
        Some(path) => match page_stem(path) {
            None => Err(PathFault::NoExtension(path)),
            Some(stem) => if brackets_match(segment_texts(stem)) {
                Ok(read_segments(segment_texts(stem)))
            } else {
                Err(PathFault::UnmatchedBracket(stem))
            },
        },
    }
}

/// The text of an optional string.
pub open spec fn text_of(path: Option<&str>) -> Option<Seq<char>> {
    match path {
        Some(path) => Some(path@),
        None => None,
    }
}

/// Why no regular expression can be written for the path of a page.
#[derive(Debug)]
pub enum PathError {
    /// The page is not in the server root.
    NotInServerRoot,
    /// The path has no extension.
    NoExtension { path: String },
    /// A segment of the path begins with a `[` that has no `]`.
    UnmatchedBracket { path: String },
}

impl View for PathError {
    type V = PathFault;

    open spec fn view(&self) -> PathFault {
        match self {
            PathError::NotInServerRoot => PathFault::NotInServerRoot,
            PathError::NoExtension { path } => PathFault::NoExtension(path@),
            PathError::UnmatchedBracket { path } => PathFault::UnmatchedBracket(path@),
        }
    }
}

/// Appends the pattern of one segment; appends nothing where a `[` at its
/// beginning has no matching `]`.
fn push_segment(source: &mut String, segment: &str) -> (pushed: bool)
    ensures
        pushed == (read_segment(segment@) is Some),
        final(source)@ == if pushed {
            old(source)@ + segment_pattern(read_segment(segment@)->0)
        } else {
            old(source)@
        },
        pushed <==> !(segment@.len() > 0 && segment@[0] == '[' && !segment@.contains(']')),
        segment@.len() == 0 || segment@[0] != '[' ==> final(source)@ == old(source)@ + quoted(
            segment@,
        ),
{
    proof {
        law_only_an_unmatched_bracket_is_refused(segment@);
        reveal_strlit("[");
        reveal_strlit("...");
    }
    if let Some(inner) = strip_prefix(segment, "[") {
        assert(segment@[0] == segment@.take(1)[0]);
        if let Some((placeholder, rest)) = split_once(inner, ']') {
            source.append("(?P<");
            if let Some(name) = strip_prefix(placeholder, "...") {
                source.append(name);
                source.append(">[^?]+)");
            } else {
                source.append(placeholder);
                source.append(">[^?/]+)");
            }
            source.append(regex::escape(rest).as_str());
            assert(source@ =~= old(source)@ + segment_pattern(read_segment(segment@)->0));
            true
        } else {
            false
        }
    } else {
        proof {
            if segment@.len() > 0 && segment@[0] == '[' {
                assert(segment@.take(1) =~= "["@);
            }
        }
        source.append(regex::escape(segment).as_str());
        true
    }
}

proof fn lemma_quoted_len(text: Seq<char>)
    ensures
        quoted(text).len() >= text.len(),
    decreases text.len(),
{
    if text.len() > 0 {
        lemma_quoted_len(text.drop_first());
    }
}

/// Only the empty text has an empty pattern.
proof fn lemma_segment_pattern_len(text: Seq<char>)
    requires
        read_segment(text) is Some,
    ensures
        segment_pattern(read_segment(text)->0).len() == 0 <==> text.len() == 0,
{
    reveal_strlit("(?P<");
    lemma_quoted_len(text);
}

/// The pattern of a first segment stands before those of the others.
proof fn lemma_body_cons(text: Seq<char>, texts: Seq<Seq<char>>)
    requires
        texts.len() > 0,
    ensures
        body(read_segments(seq![text] + texts)) == segment_pattern(read_segment(text)->0) + seq![
            '/',
        ] + body(read_segments(texts)),
{
    let all = seq![text] + texts;
    let patterns = read_segments(all).map_values(|segment: Segment| segment_pattern(segment));
    let others = read_segments(texts).map_values(|segment: Segment| segment_pattern(segment));
    assert(patterns.drop_first() =~= others);
    assert(patterns[0] == segment_pattern(read_segment(text)->0));
}

/// The pattern of a single segment.
proof fn lemma_body_single(text: Seq<char>)
    ensures
        body(read_segments(seq![text])) == segment_pattern(read_segment(text)->0),
{
}

/// Whether the brackets match is decided segment by segment.
proof fn lemma_brackets_cons(text: Seq<char>, texts: Seq<Seq<char>>)
    ensures
        brackets_match(seq![text] + texts) <==> read_segment(text) is Some && brackets_match(texts),
{
    let all = seq![text] + texts;
    assert(all[0] == text);
    assert forall|i: int| 0 <= i < texts.len() implies #[trigger] texts[i] == all[i + 1] by {}
    if brackets_match(all) {
        assert forall|i: int| 0 <= i < texts.len() implies read_segment(
            #[trigger] texts[i],
        ) is Some by {
            assert(read_segment(all[i + 1]) is Some);
        }
    }
}

/// Slashes at the beginning have no part in whether the brackets match.
proof fn lemma_brackets_trim(s: Seq<char>)
    ensures
        brackets_match(split(trim_start(s, '/'), '/')) <==> brackets_match(split(s, '/')),
    decreases s.len(),
{
    if s.len() > 0 && s[0] == '/' {
        lemma_brackets_trim(s.drop_first());
        assert(s.skip(1) =~= s.drop_first());
        lemma_brackets_cons(s.take(0), split(s.drop_first(), '/'));
    }
}

/// The pattern that is complete once the segments of `rest` follow `done`.
spec fn completed(done: Seq<char>, rest: Seq<char>) -> Seq<char> {
    if done.len() == 0 {
        body(read_segments(segment_texts(rest)))
    } else {
        done + seq!['/'] + body(read_segments(split(rest, '/')))
    }
}

/// One step over a segment that others follow.
proof fn lemma_completed_step(done: Seq<char>, rest: Seq<char>)
    requires
        cut_first(rest, '/') is Some,
        read_segment((cut_first(rest, '/')->0).0) is Some,
    ensures
        ({
            let (text, others) = cut_first(rest, '/')->0;
            let own = segment_pattern(read_segment(text)->0);
            completed(done, rest) == completed(
                if done.len() == 0 {
                    own
                } else {
                    done + seq!['/'] + own
                },
                others,
            )
        }),
{
    let (text, others) = cut_first(rest, '/')->0;
    let own = segment_pattern(read_segment(text)->0);
    lemma_find(rest, '/');
    lemma_segment_pattern_len(text);
    lemma_body_cons(text, split(others, '/'));
    if done.len() == 0 {
        if text.len() == 0 {
            assert(rest.skip(1) =~= rest.drop_first());
        }
    } else {
        assert(completed(done, rest) =~= completed(done + seq!['/'] + own, others));
    }
}

/// The last step.
proof fn lemma_completed_last(done: Seq<char>, rest: Seq<char>)
    requires
        cut_first(rest, '/') is None,
        read_segment(rest) is Some,
    ensures
        completed(done, rest) == if done.len() == 0 {
            segment_pattern(read_segment(rest)->0)
        } else {
            done + seq!['/'] + segment_pattern(read_segment(rest)->0)
        },
{
    lemma_find(rest, '/');
    lemma_body_single(rest);
}

/// The regular expression, as text, that a page is served under. `path` is the
/// path of the page seen from the server root, if it is in there.
pub fn regular_expression_source(path: Option<&str>) -> (source: Result<String, PathError>)
    ensures
        match route(text_of(path)) {
            Ok(segments) => source matches Ok(text) && text@ == pattern(segments),
            Err(fault) => source matches Err(error) && error@ == fault,
        },
        (source matches Err(PathError::NotInServerRoot)) <==> path is None,
        (source matches Err(PathError::NoExtension { .. })) <==> (path is Some
            && !path->0@.contains('.')),
        source matches Err(PathError::NoExtension { path: held }) ==> held@ == path->0@,
{
    proof {
        if let Some(full) = path {
            law_page_stem(full@, full@, Seq::empty());
        }
    }
    let full: &str = match path {
        Some(full) => full,
        None => return Err(PathError::NotInServerRoot),
    };
    let before: &str = match rsplit_once(full, '.') {
        Some((before, _)) => before,
        None => return Err(PathError::NoExtension { path: full.to_owned() }),
    };
    let stem: &str = match strip_suffix(before, "/index") {
        Some(shorter) => shorter,
        None => before,
    };
    let mut source: String = "^".to_owned();
    let mut rest: &str = stem;
    let ghost mut done: Seq<char> = Seq::empty();
    let ghost texts = segment_texts(stem@);
    proof {
        reveal_strlit("^");
        reveal_strlit("/");
        lemma_brackets_trim(stem@);
        assert(source@ =~= "^"@ + done);
    }
    loop
        invariant_except_break
            "^"@.len() == 1,
            "/"@ == seq!['/'],
            source@ == "^"@ + done,
            brackets_match(texts) <==> brackets_match(split(rest@, '/')),
            body(read_segments(texts)) == completed(done, rest@),
        invariant
            path is Some,
            path->0@.contains('.'),
            page_stem(path->0@) == Some(stem@),
            texts == segment_texts(stem@),
        ensures
            brackets_match(texts),
            source@ == "^"@ + body(read_segments(texts)),
        decreases rest@.len(),
    {
        let (segment, others): (&str, Option<&str>) = match split_once(rest, '/') {
            Some((segment, others)) => (segment, Some(others)),
            None => (rest, None),
        };
        proof {
            lemma_find(rest@, '/');
            match others {
                Some(others) => lemma_brackets_cons(segment@, split(others@, '/')),
                None => {
                    lemma_brackets_cons(segment@, Seq::empty());
                    assert(seq![segment@] + Seq::<Seq<char>>::empty() =~= seq![segment@]);
                },
            }
        }
        if source.as_str().unicode_len() > 1 {
            source.append("/");
        }
        if !push_segment(&mut source, segment) {
            return Err(PathError::UnmatchedBracket { path: stem.to_owned() });
        }
        proof {
            let own = segment_pattern(read_segment(segment@)->0);
            match others {
                Some(_) => lemma_completed_step(done, rest@),
                None => lemma_completed_last(done, rest@),
            }
            done = if done.len() == 0 {
                own
            } else {
                done + seq!['/'] + own
            };
            assert(source@ =~= "^"@ + done);
        }
        match others {
            Some(others) => {
                rest = others;
            },
            None => {
                break;
            },
        }
    }
    source.append("$");
    Ok(source)
}

/// What is said of a fault, given the server path of the page and the server
/// root as they are shown to a reader.
pub open spec fn fault_message(
    fault: PathFault,
    server_path: Seq<char>,
    server_root: Seq<char>,
) -> Seq<char> {
    match fault {
        PathFault::NotInServerRoot => "server_path ("@ + server_path + ") is not in server_root ("@
            + server_root + ")"@,
        PathFault::NoExtension(path) => "path ("@ + path + ") has no extension"@,
        PathFault::UnmatchedBracket(path) => "path ("@ + path
            + ") contains '[' without matching ']'"@,
    }
}

impl PathError {
    /// What is said of the error.
    pub fn message(&self, server_path: &str, server_root: &str) -> (message: String)
        ensures
            message@ == fault_message(self@, server_path@, server_root@),
            match self {
                PathError::NotInServerRoot => message@ == "server_path ("@ + server_path@
                    + ") is not in server_root ("@ + server_root@ + ")"@,
                PathError::NoExtension { path } => message@ == "path ("@ + path@
                    + ") has no extension"@,
                PathError::UnmatchedBracket { path } => message@ == "path ("@ + path@
                    + ") contains '[' without matching ']'"@,
            },
    {
        match self {
            PathError::NotInServerRoot => {
                let mut message: String = "server_path (".to_owned();
                message.append(server_path);
                message.append(") is not in server_root (");
                message.append(server_root);
                message.append(")");
                message
            },
            PathError::NoExtension { path } => {
                let mut message: String = "path (".to_owned();
                message.append(path.as_str());
                message.append(") has no extension");
                message
            },
            PathError::UnmatchedBracket { path } => {
                let mut message: String = "path (".to_owned();
                message.append(path.as_str());
                message.append(") contains '[' without matching ']'");
                message
            },
        }
    }
}

/// Why a page has no regular expression.
#[derive(Debug)]
pub enum RegularExpressionError {
    /// None can be written for its path.
    Path(PathError),
    /// The one that is written does not compile.
    Pattern(PatternError),
}

/// What comes of a page, given what came of compiling its pattern.
pub fn regular_expression_from(
    compiled: Result<PathRegex, PatternError>,
) -> (regex: Result<PathRegex, RegularExpressionError>)
    ensures
        regex == match compiled {
            Ok(compiled) => Ok(compiled),
            Err(error) => Err(RegularExpressionError::Pattern(error)),
        },
{
    match compiled {
        Ok(compiled) => Ok(compiled),
        Err(error) => Err(RegularExpressionError::Pattern(error)),
    }
}

/// There is a slash between any two segments.
proof fn lemma_pattern_len(segments: Seq<Segment>)
    ensures
        segments.len() <= pattern(segments).len() + 1,
{
    let patterns = segments.map_values(|segment: Segment| segment_pattern(segment));
    lemma_join_len(patterns, '/');
}

/// Whether the expression of a page was refused as no pattern at all.
pub open spec fn is_malformed(regex: Result<PathRegex, RegularExpressionError>) -> bool {
    regex matches Err(RegularExpressionError::Pattern(PatternError::Syntax(_)))
}

/// Converts a filename within the server root to a regular expression with
/// named capture groups for every dynamic segment. `path` is the path of the
/// file seen from the server root, if it is in there.
///
/// Where no name of a dynamic segment has a `>`, the expression is refused as
/// malformed exactly if groups cannot have these names side by side; and a
/// short expression with names that they can have is never refused. Whether a
/// longer one compiles within the limit of the `regex` crate is left unsaid:
/// that rests on the machine.
pub fn regular_expression_for_path(path: Option<&str>) -> (regex: Result<
    PathRegex,
    RegularExpressionError,
>)
    ensures
        match route(text_of(path)) {
            Err(fault) => regex matches Err(RegularExpressionError::Path(error)) && error@ == fault,
            Ok(segments) => {
                &&& !(regex matches Err(RegularExpressionError::Path(_)))
                &&& regex matches Ok(compiled) ==> compiled@ == pattern(segments)
                &&& is_malformed(regex) <==> malformed(pattern(segments))
                &&& are_unbroken(group_names(segments)) && segments.len() <= u32::MAX ==> (
                is_malformed(regex) <==> !are_group_names(group_names(segments)))
                &&& are_unbroken(group_names(segments)) && is_short(pattern(segments)) ==> (
                regex is Ok <==> are_group_names(group_names(segments)))
                &&& (regex matches Err(RegularExpressionError::Pattern(PatternError::Syntax(_))))
                    <==> malformed(pattern(segments))
                &&& are_unbroken(group_names(segments)) && pattern(segments).len() <= 20_000 ==> (
                regex is Ok <==> are_group_names(group_names(segments)))
            },
        },
        (regex matches Err(RegularExpressionError::Path(PathError::NotInServerRoot)))
            <==> path is None,
        (regex matches Err(RegularExpressionError::Path(PathError::NoExtension { .. }))) <==> (
        path is Some && !path->0@.contains('.')),
{
    proof {
        if let Ok(segments) = route(text_of(path)) {
            lemma_pattern_len(segments);
        }
    }
    match regular_expression_source(path) {
        Ok(source) => regular_expression_from(compile(source.as_str())),
        Err(error) => Err(RegularExpressionError::Path(error)),
    }
}

} // verus!
