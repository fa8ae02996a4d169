//! The `regex` crate: quoting of text and compiling of patterns.
use crate::route::{group_names, pattern, Segment};
use regex::Regex;
use vstd::prelude::*;

verus! {

/// Whether `c` means something in a pattern, so that it stands for itself only
/// behind a backslash.
pub open spec fn is_meta(c: char) -> bool {
    ||| c == '\\'
    ||| c == '.'
    ||| c == '+'
    ||| c == '*'
    ||| c == '?'
    ||| c == '('
    ||| c == ')'
    ||| c == '|'
    ||| c == '['
    ||| c == ']'
    ||| c == '{'
    ||| c == '}'
    ||| c == '^'
    ||| c == '$'
    ||| c == '#'
    ||| c == '&'
    ||| c == '-'
    ||| c == '~'
}

/// `text` with a backslash before each character that means something in a
/// pattern.
pub open spec fn quoted(text: Seq<char>) -> Seq<char>
    decreases text.len(),
{
    if text.len() == 0 {
        Seq::empty()
    } else if is_meta(text[0]) {
        seq!['\\', text[0]] + quoted(text.drop_first())
    } else {
        seq![text[0]] + quoted(text.drop_first())
    }
}

/// `regex::escape` copies the text and puts a backslash before each of the
/// characters that mean something in a pattern.
pub assume_specification[ regex::escape ](literal: &str) -> (escaped: String)
    ensures
        escaped@ == quoted(literal@),
;

#[verifier::external_type_specification]
#[verifier::external_body]
pub struct ExRegex(Regex);

#[verifier::external_type_specification]
#[verifier::external_body]
pub struct ExRegexError(regex::Error);

/// The text that a regular expression was compiled from.
pub uninterp spec fn regex_text(regex: Regex) -> Seq<char>;

/// `regex::Regex::as_str` gives the text that the expression was compiled from.
pub assume_specification[ Regex::as_str ](regex: &Regex) -> (text: &str)
    ensures
        text@ == regex_text(*regex),
;

/// Whether `regex::Regex::new` refuses the text as no pattern at all. A
/// pattern that is read, but compiles to more than the crate's limit, is not
/// refused in this sense.
pub uninterp spec fn malformed(source: Seq<char>) -> bool;

/// Whether `c` is one of the letters a to z, in either case.
pub open spec fn is_letter(c: char) -> bool {
    'a' <= c <= 'z' || 'A' <= c <= 'Z'
}

/// The pattern of one parameter that is alone in its path.
pub open spec fn lone_parameter(name: Seq<char>) -> Seq<char> {
    pattern(seq![Segment::Param { name, rest: Seq::empty() }])
}

/// Whether the name of a group can begin with `c`: a letter or an underscore
/// can. What else is alphabetic beyond ASCII is for the `regex` crate to say,
/// in what it makes of a group with the name `c`.
pub open spec fn can_begin_name(c: char) -> bool {
    if c as int <= 127 {
        is_letter(c) || c == '_'
    } else {
        !malformed(lone_parameter(seq![c]))
    }
}

/// Whether the name of a group can go on with `c`: a letter, a digit, an
/// underscore, a dot or a bracket can. What else is alphanumeric beyond ASCII
/// is for the `regex` crate to say, in what it makes of a group with the name
/// `a` and `c`.
pub open spec fn can_continue_name(c: char) -> bool {
    if c as int <= 127 {
        ||| is_letter(c)
        ||| '0' <= c <= '9'
        ||| c == '_'
        ||| c == '.'
        ||| c == '['
        ||| c == ']'
    } else {
        !malformed(lone_parameter(seq!['a', c]))
    }
}

/// Whether a group can have this name.
pub open spec fn is_group_name(name: Seq<char>) -> bool {
    &&& name.len() > 0
    &&& can_begin_name(name[0])
    &&& forall|i: int| 1 <= i < name.len() ==> can_continue_name(#[trigger] name[i])
}

/// Whether groups can have these names side by side: each of them is one that
/// a group can have, and none occurs twice.
pub open spec fn are_group_names(names: Seq<Seq<char>>) -> bool {
    &&& forall|i: int| 0 <= i < names.len() ==> is_group_name(#[trigger] names[i])
    &&& forall|i: int, j: int| 0 <= i < j < names.len() ==> names[i] != names[j]
}

/// Whether none of the names has the `>` that ends the name of a group.
pub open spec fn are_unbroken(names: Seq<Seq<char>>) -> bool {
    forall|i: int| 0 <= i < names.len() ==> !(#[trigger] names[i]).contains('>')
}

/// Whether a pattern of quoted text and groups is short enough to compile
/// within the limit of the `regex` crate on every machine.
pub open spec fn is_short(source: Seq<char>) -> bool {
    source.len() <= 20_000
}

/// A compiled pattern. Its view is the text that it was compiled from.
#[derive(Debug)]
pub struct PathRegex {
    regex: Regex,
}

impl View for PathRegex {
    type V = Seq<char>;

    closed spec fn view(&self) -> Seq<char> {
        regex_text(self.regex)
    }
}

impl PathRegex {
    /// The text of the pattern.
    pub fn source(&self) -> (source: &str)
        ensures
            source@ == self@,
    {
        self.regex.as_str()
    }

    /// The compiled pattern, for matching.
    pub fn as_regex(&self) -> (regex: &Regex)
        ensures
            regex_text(*regex) == self@,
    {
        &self.regex
    }
}

/// Why a pattern was not compiled.
#[derive(Debug)]
pub enum PatternError {
    /// The text is no pattern.
    Syntax(regex::Error),
    /// The pattern compiles to more than the limit of the `regex` crate.
    TooBig(regex::Error),
}

/// Compiles a pattern with `regex::Regex::new`.
///
/// What is compiled has the text that was given. Whether the text is refused as
/// malformed depends on the text alone.
///
/// The other clauses are on a text that `pattern` writes, with names that have
/// no `>`. All in it but the names is quoted text, or one of two fixed classes
/// of characters. So it is malformed exactly where groups cannot have these
/// names side by side, as long as there are no more of them than can be
/// numbered. And it is not too big where it is short. In each of the two
/// automata that are built, a character of quoted text takes at most four
/// states, and a group of at least twelve characters takes less than fifty, of
/// 32 bytes at most and with a few bytes for each transition; so a character
/// takes less than 200 bytes, and the limit is ten megabytes. When a longer
/// pattern is too big is left unsaid: that rests on the size of a state in
/// memory.
#[verifier::external_body]
pub(crate) fn compile(source: &str) -> (compiled: Result<PathRegex, PatternError>)
    ensures
        compiled matches Ok(regex) ==> regex@ == source@,
        (compiled matches Err(PatternError::Syntax(_))) <==> malformed(source@),
        forall|segments: Seq<Segment>|
            source@ == #[trigger] pattern(segments) && are_unbroken(group_names(segments))
                && segments.len() <= u32::MAX ==> ((compiled matches Err(PatternError::Syntax(_)))
                <==> !are_group_names(group_names(segments))),
        forall|segments: Seq<Segment>|
            source@ == #[trigger] pattern(segments) && are_unbroken(group_names(segments))
                && is_short(source@) ==> !(compiled matches Err(PatternError::TooBig(_))),
{
    match Regex::new(source) {
        Ok(regex) => Ok(PathRegex { regex }),
        Err(error @ regex::Error::Syntax(_)) => Err(PatternError::Syntax(error)),
        Err(error) => Err(PatternError::TooBig(error)),
    }
}

} // verus!
