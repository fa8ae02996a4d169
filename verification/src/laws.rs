//! What holds of the patterns and sources of all pages.
use crate::pages::{
    directory_sources, entry_source, entry_sources, is_page_extension, page_directory, page_name,
    page_source, DirectoryContent, DirectoryEntry, PageView, SourceView,
};
use crate::path_laws::{
    law_catch_all_segment_is_read, law_parameter_segment_is_read, law_reading_keeps_the_text,
    law_text_segment_is_static, law_trim_start,
};
use crate::regular_expression::{is_meta, quoted};
use crate::route::{
    body, brackets_match, group_names, page_stem, pattern, read_segment, read_segments, route,
    segment_pattern, segment_texts, PathFault, Segment,
};
use crate::text::{
    cut_last, ends_with, find, join, lemma_find, lemma_find_is, lemma_rfind, lemma_rfind_is, split,
    trim_start,
};
use vstd::prelude::*;

verus! {

/// Quoting goes piece by piece.
pub proof fn lemma_quoted_add(a: Seq<char>, b: Seq<char>)
    ensures
        quoted(a + b) == quoted(a) + quoted(b),
    decreases a.len(),
{
    if a.len() == 0 {
        assert(a + b =~= b);
        assert(quoted(a) + quoted(b) =~= quoted(b));
    } else {
        lemma_quoted_add(a.drop_first(), b);
        assert((a + b).drop_first() =~= a.drop_first() + b);
        assert(quoted(a + b) =~= quoted(a) + quoted(b));
    }
}

/// Two texts are the same where they are once quoted.
pub proof fn law_quoting_keeps_texts_apart(a: Seq<char>, b: Seq<char>)
    requires
        quoted(a) == quoted(b),
    ensures
        a == b,
    decreases a.len(),
{
    if a.len() == 0 {
        if b.len() > 0 {
            assert(quoted(b).len() > 0);
        }
        assert(a =~= b);
    } else if b.len() == 0 {
        assert(quoted(a).len() > 0);
    } else {
        let qa = quoted(a);
        let qb = quoted(b);
        let ra = quoted(a.drop_first());
        let rb = quoted(b.drop_first());
        assert(qa[0] == qb[0]);
        assert(is_meta(a[0]) == is_meta(b[0]));
        if is_meta(a[0]) {
            assert(qa[1] == qb[1]);
            assert(ra =~= qa.skip(2));
            assert(rb =~= qb.skip(2));
        } else {
            assert(ra =~= qa.skip(1));
            assert(rb =~= qb.skip(1));
        }
        law_quoting_keeps_texts_apart(a.drop_first(), b.drop_first());
        assert(a =~= seq![a[0]] + a.drop_first());
        assert(b =~= seq![b[0]] + b.drop_first());
    }
}

/// Joining the parts of a text gives the text back.
pub proof fn lemma_join_split(s: Seq<char>, c: char)
    ensures
        split(s, c).len() > 0,
        join(split(s, c), c) == s,
    decreases s.len(),
{
    lemma_find(s, c);
    let at = find(s, c);
    if at < s.len() {
        lemma_join_split(s.skip(at + 1), c);
        let parts = split(s, c);
        assert(parts.drop_first() =~= split(s.skip(at + 1), c));
        assert(join(parts, c) =~= s);
    }
}

/// Quoting goes part by part where the parts are joined with slashes.
proof fn lemma_join_quoted(parts: Seq<Seq<char>>)
    ensures
        join(parts.map_values(|part: Seq<char>| quoted(part)), '/') == quoted(join(parts, '/')),
    decreases parts.len(),
{
    let each = parts.map_values(|part: Seq<char>| quoted(part));
    if parts.len() > 1 {
        lemma_join_quoted(parts.drop_first());
        assert(each.drop_first() =~= parts.drop_first().map_values(
            |part: Seq<char>| quoted(part),
        ));
        lemma_quoted_add(parts[0] + seq!['/'], join(parts.drop_first(), '/'));
        lemma_quoted_add(parts[0], seq!['/']);
        assert(seq!['/'].drop_first() =~= Seq::<char>::empty());
        assert(quoted(Seq::<char>::empty()) =~= Seq::<char>::empty());
        assert(quoted(seq!['/']) =~= seq!['/']);
    }
}

/// Whether no segment has a placeholder.
pub open spec fn is_static(segments: Seq<Segment>) -> bool {
    forall|i: int| 0 <= i < segments.len() ==> #[trigger] segments[i] is Static
}

/// No part of a text begins with a bracket where none stands at the beginning of
/// the text or behind a separator.
proof fn lemma_parts_without_bracket(s: Seq<char>, c: char)
    requires
        s.len() == 0 || s[0] != '[',
        forall|i: int, j: int| 0 <= i < j < s.len() && j == i + 1 && s[i] == c ==> s[j] != '[',
    ensures
        forall|i: int|
            0 <= i < split(s, c).len() ==> (#[trigger] split(s, c)[i]).len() == 0 || split(
                s,
                c,
            )[i][0] != '[',
    decreases s.len(),
{
    lemma_find(s, c);
    let at = find(s, c);
    if at < s.len() {
        let rest = s.skip(at + 1);
        assert(s[at] == c);
        if rest.len() > 0 {
            assert(rest[0] == s[at + 1]);
        }
        assert forall|i: int, j: int|
            0 <= i < j < rest.len() && j == i + 1 && rest[i] == c implies rest[j] != '[' by {
            assert(s[at + 1 + i] == c);
            assert(s[at + 1 + j] == rest[j]);
        }
        lemma_parts_without_bracket(rest, c);
        let others = split(rest, c);
        assert(split(s, c) == seq![s.take(at)] + others);
        assert forall|i: int| 0 <= i < split(s, c).len() implies (#[trigger] split(
            s,
            c,
        )[i]).len() == 0 || split(s, c)[i][0] != '[' by {
            if i > 0 {
                assert(split(s, c)[i] == others[i - 1]);
            }
        }
    }
}

/// A path of which no segment begins with a bracket is matched literally: it has
/// an expression, which is its text, without the slashes at the beginning,
/// quoted as a whole, from beginning to end, and has no groups.
pub proof fn law_static_path_is_matched_literally(path: Seq<char>)
    requires
        page_stem(path) is Some,
        (page_stem(path)->0).len() == 0 || (page_stem(path)->0)[0] != '[',
        forall|i: int, j: int|
            0 <= i < j < (page_stem(path)->0).len() && j == i + 1 && (page_stem(path)->0)[i] == '/'
                ==> (page_stem(path)->0)[j] != '[',
    ensures
        route(Some(path)) is Ok,
        is_static(route(Some(path))->Ok_0),
        pattern(route(Some(path))->Ok_0) == "^"@ + quoted(trim_start(page_stem(path)->0, '/'))
            + "$"@,
        group_names(route(Some(path))->Ok_0) == Seq::<Seq<char>>::empty(),
{
    let stem = page_stem(path)->0;
    let text = trim_start(stem, '/');
    law_trim_start(stem, '/');
    let skipped = stem.len() - text.len();
    if text.len() > 0 {
        assert(text[0] == stem[skipped]);
        if skipped > 0 {
            assert(stem[skipped - 1] == '/');
        }
    }
    assert forall|i: int, j: int|
        0 <= i < j < text.len() && j == i + 1 && text[i] == '/' implies text[j] != '[' by {
        assert(text[i] == stem[skipped + i]);
        assert(text[j] == stem[skipped + j]);
    }
    lemma_parts_without_bracket(text, '/');
    let texts = split(text, '/');
    let segments = read_segments(texts);
    assert forall|i: int| 0 <= i < texts.len() implies read_segment(#[trigger] texts[i]) == Some(
        Segment::Static(texts[i]),
    ) by {
        law_text_segment_is_static(texts[i]);
    }
    assert(brackets_match(texts));
    assert(route(Some(path)) == Ok::<Seq<Segment>, PathFault>(segments));
    assert(segments.map_values(|segment: Segment| segment_pattern(segment)) =~= texts.map_values(
        |part: Seq<char>| quoted(part),
    ));
    lemma_join_quoted(texts);
    lemma_join_split(text, '/');
    lemma_static_segments_have_no_groups(segments);
}

/// Segments of text have no groups.
proof fn lemma_static_segments_have_no_groups(segments: Seq<Segment>)
    requires
        is_static(segments),
    ensures
        group_names(segments) == Seq::<Seq<char>>::empty(),
    decreases segments.len(),
{
    if segments.len() > 0 {
        let tail = segments.drop_first();
        assert forall|i: int| 0 <= i < tail.len() implies #[trigger] tail[i] is Static by {
            assert(tail[i] == segments[i + 1]);
        }
        lemma_static_segments_have_no_groups(tail);
    }
}

/// Where a bracket stands at the beginning of a text, or behind a separator,
/// there is a part that begins with it.
proof fn lemma_part_with_bracket(s: Seq<char>, c: char, j: int) -> (part: int)
    requires
        c != '[',
        0 <= j < s.len(),
        s[j] == '[',
        j == 0 || s[j - 1] == c,
    ensures
        0 <= part < split(s, c).len(),
        split(s, c)[part].len() > 0,
        split(s, c)[part][0] == '[',
    decreases s.len(),
{
    lemma_find(s, c);
    let at = find(s, c);
    if j == 0 {
        assert(split(s, c)[0][0] == s[0]);
        0
    } else {
        let rest = s.skip(at + 1);
        let behind = j - at - 1;
        assert(rest[behind] == s[j]);
        if behind > 0 {
            assert(rest[behind - 1] == s[j - 1]);
        }
        let part: int = lemma_part_with_bracket(rest, c, behind);
        assert(split(s, c)[part + 1] == split(rest, c)[part]);
        part + 1
    }
}

/// A path has a placeholder exactly where a bracket stands at the beginning of
/// a segment.
pub proof fn law_placeholders_begin_segments(path: Seq<char>)
    requires
        route(Some(path)) is Ok,
    ensures
        ({
            let stem = page_stem(path)->0;
            is_static(route(Some(path))->Ok_0) <==> {
                &&& stem.len() == 0 || stem[0] != '['
                &&& forall|i: int, j: int|
                    0 <= i < j < stem.len() && j == i + 1 && stem[i] == '/' ==> stem[j] != '['
            }
        }),
{
    let stem = page_stem(path)->0;
    let text = trim_start(stem, '/');
    let texts = split(text, '/');
    let segments = route(Some(path))->Ok_0;
    law_trim_start(stem, '/');
    let skipped = stem.len() - text.len();
    if is_static(segments) {
        assert forall|j: int|
            0 <= j < stem.len() && (j == 0 || stem[j - 1] == '/') implies #[trigger] stem[j]
            != '[' by {
            if stem[j] == '[' {
                assert(j >= skipped);
                let at = j - skipped;
                assert(text[at] == stem[j]);
                if at > 0 {
                    assert(text[at - 1] == stem[j - 1]);
                }
                let part: int = lemma_part_with_bracket(text, '/', at);
                assert(segments[part] == read_segment(texts[part])->0);
                assert(segments[part] is Static);
                law_reading_keeps_the_text(texts[part]);
            }
        }
    }
    if (stem.len() == 0 || stem[0] != '[') && forall|i: int, j: int|
        0 <= i < j < stem.len() && j == i + 1 && stem[i] == '/' ==> stem[j] != '[' {
        law_static_path_is_matched_literally(path);
    }
}

/// Two paths of which no segment begins with a bracket have the same pattern
/// only where they are the same but for the extension, a last `/index` and
/// slashes at the beginning.
pub proof fn law_static_paths_are_kept_apart(a: Seq<char>, b: Seq<char>)
    requires
        page_stem(a) is Some,
        page_stem(b) is Some,
        (page_stem(a)->0).len() == 0 || (page_stem(a)->0)[0] != '[',
        forall|i: int, j: int|
            0 <= i < j < (page_stem(a)->0).len() && j == i + 1 && (page_stem(a)->0)[i] == '/' ==> (
            page_stem(a)->0)[j] != '[',
        (page_stem(b)->0).len() == 0 || (page_stem(b)->0)[0] != '[',
        forall|i: int, j: int|
            0 <= i < j < (page_stem(b)->0).len() && j == i + 1 && (page_stem(b)->0)[i] == '/' ==> (
            page_stem(b)->0)[j] != '[',
        pattern(route(Some(a))->Ok_0) == pattern(route(Some(b))->Ok_0),
    ensures
        trim_start(page_stem(a)->0, '/') == trim_start(page_stem(b)->0, '/'),
{
    law_static_path_is_matched_literally(a);
    law_static_path_is_matched_literally(b);
    let qa = quoted(trim_start(page_stem(a)->0, '/'));
    let qb = quoted(trim_start(page_stem(b)->0, '/'));
    reveal_strlit("^");
    reveal_strlit("$");
    let whole = "^"@ + qa + "$"@;
    assert(whole == "^"@ + qb + "$"@);
    assert(qa =~= whole.subrange(1, whole.len() - 1));
    assert(qb =~= whole.subrange(1, whole.len() - 1));
    law_quoting_keeps_texts_apart(
        trim_start(page_stem(a)->0, '/'),
        trim_start(page_stem(b)->0, '/'),
    );
}

/// The pattern of the segments before the one at `at`.
pub open spec fn pattern_before(segments: Seq<Segment>, at: int) -> Seq<char> {
    if at == 0 {
        "^"@
    } else {
        "^"@ + body(segments.take(at)) + seq!['/']
    }
}

/// The pattern of the segments after the one at `at`.
pub open spec fn pattern_after(segments: Seq<Segment>, at: int) -> Seq<char> {
    if at == segments.len() - 1 {
        "$"@
    } else {
        seq!['/'] + body(segments.skip(at + 1)) + "$"@
    }
}

/// Joining can be done up to some part, and from there on.
pub proof fn lemma_join_at(parts: Seq<Seq<char>>, c: char, at: int)
    requires
        0 < at < parts.len(),
    ensures
        join(parts, c) == join(parts.take(at), c) + seq![c] + join(parts.skip(at), c),
    decreases parts.len(),
{
    let tail = parts.drop_first();
    if at == 1 {
        assert(parts.skip(1) =~= tail);
        assert(parts.take(1)[0] == parts[0]);
    } else {
        lemma_join_at(tail, c, at - 1);
        assert(parts.take(at).drop_first() =~= tail.take(at - 1));
        assert(parts.skip(at) =~= tail.skip(at - 1));
        assert(join(parts, c) =~= join(parts.take(at), c) + seq![c] + join(parts.skip(at), c));
    }
}

/// The pattern of each segment stands in the pattern of the whole path,
/// between those of the segments before it and those of the segments after it.
pub proof fn law_pattern_is_that_of_each_segment_in_order(segments: Seq<Segment>, at: int)
    requires
        0 <= at < segments.len(),
    ensures
        pattern(segments) == pattern_before(segments, at) + segment_pattern(segments[at])
            + pattern_after(segments, at),
{
    let pattern_of = |segment: Segment| segment_pattern(segment);
    let parts = segments.map_values(pattern_of);
    assert(segments.take(at).map_values(pattern_of) =~= parts.take(at));
    assert(segments.skip(at + 1).map_values(pattern_of) =~= parts.skip(at + 1));
    let own = seq![parts[at]];
    if at > 0 {
        lemma_join_at(parts, '/', at);
    } else {
        assert(parts.skip(0) =~= parts);
    }
    let from = parts.skip(at);
    if at < segments.len() - 1 {
        lemma_join_at(from, '/', 1);
        assert(from.take(1) =~= own);
        assert(from.skip(1) =~= parts.skip(at + 1));
    } else {
        assert(from =~= own);
    }
    assert(pattern(segments) =~= pattern_before(segments, at) + segment_pattern(segments[at])
        + pattern_after(segments, at));
}

/// The name in the placeholder of a segment.
pub open spec fn placeholder(segment: Segment) -> Option<Seq<char>> {
    match segment {
        Segment::Static(_) => None,
        Segment::Param { name, .. } => Some(name),
        Segment::CatchAll { name, .. } => Some(name),
    }
}

/// The groups of a pattern are written with the names of the placeholders, and
/// only with them. (A name that has a `>` ends there for the group.)
pub proof fn law_groups_are_named_after_placeholders(segments: Seq<Segment>, name: Seq<char>)
    ensures
        group_names(segments).contains(name) <==> exists|i: int|
            0 <= i < segments.len() && #[trigger] placeholder(segments[i]) == Some(name),
    decreases segments.len(),
{
    if segments.len() > 0 {
        let tail = segments.drop_first();
        let names = group_names(segments);
        let others = group_names(tail);
        law_groups_are_named_after_placeholders(tail, name);
        match placeholder(segments[0]) {
            None => {
                assert(names == others);
            },
            Some(first) => {
                assert(names == seq![first] + others);
                assert(names[0] == first);
                if others.contains(name) {
                    let k = choose|k: int| 0 <= k < others.len() && others[k] == name;
                    assert(names[k + 1] == name);
                }
                if names.contains(name) && first != name {
                    let k = choose|k: int| 0 <= k < names.len() && names[k] == name;
                    assert(others[k - 1] == name);
                }
            },
        }
        if others.contains(name) {
            let i = choose|i: int|
                0 <= i < tail.len() && #[trigger] placeholder(tail[i]) == Some(name);
            assert(placeholder(segments[i + 1]) == Some(name));
        }
        if exists|i: int|
            0 <= i < segments.len() && #[trigger] placeholder(segments[i]) == Some(name) {
            let i = choose|i: int|
                0 <= i < segments.len() && #[trigger] placeholder(segments[i]) == Some(name);
            if i > 0 {
                assert(placeholder(tail[i - 1]) == Some(name));
            }
        }
    }
}

/// Every segment of a path that begins with a bracket has a group written with
/// its own name, at its place in the pattern. The text of the segment decides
/// which: one that captures up to the next slash, or, behind three dots, over
/// slashes too. (A name that has a `>` ends there for the group, and what
/// follows is read as part of the pattern.)
pub proof fn law_dynamic_segments_are_captured(
    path: Seq<char>,
    at: int,
    name: Seq<char>,
    rest: Seq<char>,
)
    requires
        route(Some(path)) is Ok,
        0 <= at < segment_texts(page_stem(path)->0).len(),
        !name.contains(']'),
    ensures
        ({
            let text = segment_texts(page_stem(path)->0)[at];
            let segments = route(Some(path))->Ok_0;
            &&& text == seq!['['] + name + seq![']'] + rest && !(name.len() >= 3 && name[0] == '.'
                && name[1] == '.' && name[2] == '.') ==> {
                &&& group_names(segments).contains(name)
                &&& pattern(segments) == pattern_before(segments, at) + ("(?P<"@ + name
                    + ">[^?/]+)"@ + quoted(rest)) + pattern_after(segments, at)
            }
            &&& text == seq!['[', '.', '.', '.'] + name + seq![']'] + rest ==> {
                &&& group_names(segments).contains(name)
                &&& pattern(segments) == pattern_before(segments, at) + ("(?P<"@ + name
                    + ">[^?]+)"@ + quoted(rest)) + pattern_after(segments, at)
            }
        }),
{
    let segments = route(Some(path))->Ok_0;
    let text = segment_texts(page_stem(path)->0)[at];
    assert(segments[at] == read_segment(text)->0);
    law_pattern_is_that_of_each_segment_in_order(segments, at);
    law_groups_are_named_after_placeholders(segments, name);
    law_catch_all_segment_is_read(name, rest);
    if !(name.len() >= 3 && name[0] == '.' && name[1] == '.' && name[2] == '.') {
        law_parameter_segment_is_read(name, rest);
    }
    if text == seq!['[', '.', '.', '.'] + name + seq![']'] + rest || (text == seq!['['] + name
        + seq![']'] + rest && !(name.len() >= 3 && name[0] == '.' && name[1] == '.' && name[2]
        == '.')) {
        assert(placeholder(segments[at]) == Some(name));
    }
}

/// What stands before the last dot is what stands before an extension that has
/// none.
pub proof fn lemma_cut_extension(before: Seq<char>, extension: Seq<char>)
    requires
        !extension.contains('.'),
    ensures
        cut_last(before + seq!['.'] + extension, '.') == Some((before, extension)),
{
    let whole = before + seq!['.'] + extension;
    assert forall|i: int| before.len() < i < whole.len() implies whole[i] != '.' by {
        assert(extension[i - before.len() - 1] == whole[i]);
    }
    lemma_rfind_is(whole, '.', before.len() as int);
    assert(whole.take(before.len() as int) =~= before);
    assert(whole.skip(before.len() as int + 1) =~= extension);
}

/// Which extension a page has does not matter for where it is served.
pub proof fn law_extension_does_not_matter(name: Seq<char>, a: Seq<char>, b: Seq<char>)
    requires
        !a.contains('.'),
        !b.contains('.'),
    ensures
        route(Some(name + seq!['.'] + a)) == route(Some(name + seq!['.'] + b)),
{
    lemma_cut_extension(name, a);
    lemma_cut_extension(name, b);
}

/// An index page is served where the page would be that has the name of its
/// directory. (A directory that is itself called `index`, inside of another,
/// is left out: the page of that name is served for the outer one.)
pub proof fn law_index_page_stands_for_its_directory(
    directory: Seq<char>,
    a: Seq<char>,
    b: Seq<char>,
)
    requires
        !ends_with(directory, "/index"@),
        !a.contains('.'),
        !b.contains('.'),
    ensures
        route(Some(directory + "/index"@ + seq!['.'] + a)) == route(
            Some(directory + seq!['.'] + b),
        ),
{
    lemma_cut_extension(directory + "/index"@, a);
    lemma_cut_extension(directory, b);
    let longer = directory + "/index"@;
    assert(longer.skip(longer.len() - "/index"@.len()) =~= "/index"@);
    assert(longer.take(longer.len() - "/index"@.len()) =~= directory);
}

/// A file that is named after a page has its name, whichever of the extensions
/// it has.
proof fn lemma_page_name(name: Seq<char>, extension: Seq<char>)
    requires
        is_page_extension(extension),
    ensures
        page_name(name + seq!['.'] + extension) == Some(name),
{
    reveal_strlit("js");
    reveal_strlit("ts");
    reveal_strlit("jsx");
    reveal_strlit("tsx");
    lemma_cut_extension(name, extension);
}

/// A page in a directory is served and built exactly where the index page of a
/// sub directory of its name would be. (A page called `index` is left out: it
/// stands for the directory itself.)
pub proof fn law_page_is_served_like_index_of_sub_directory<F, D>(
    page_file: F,
    name: Seq<char>,
    a: Seq<char>,
    b: Seq<char>,
    server_path: Seq<Seq<char>>,
    intermediate_output_path: Seq<Seq<char>>,
)
    requires
        name != "index"@,
        is_page_extension(a),
        is_page_extension(b),
    ensures
        entry_source(
            name + seq!['.'] + a,
            DirectoryEntry::<F, D>::File(page_file),
            server_path,
            intermediate_output_path,
        ) == entry_source(
            "index"@ + seq!['.'] + b,
            DirectoryEntry::<F, D>::File(page_file),
            server_path.push(name),
            intermediate_output_path.push(name),
        ),
{
    lemma_page_name(name, a);
    lemma_page_name("index"@, b);
}

/// The sources of some entries and of those that follow them are the sources of
/// both, one after the other: no entry has a part in the source of another.
pub proof fn law_entries_do_not_disturb_each_other<F, D>(
    a: Seq<(String, DirectoryEntry<F, D>)>,
    b: Seq<(String, DirectoryEntry<F, D>)>,
    server_path: Seq<Seq<char>>,
    intermediate_output_path: Seq<Seq<char>>,
)
    ensures
        entry_sources(a + b, server_path, intermediate_output_path) == entry_sources(
            a,
            server_path,
            intermediate_output_path,
        ) + entry_sources(b, server_path, intermediate_output_path),
    decreases b.len(),
{
    let of_a = entry_sources(a, server_path, intermediate_output_path);
    let of_b = entry_sources(b, server_path, intermediate_output_path);
    if b.len() == 0 {
        assert(a + b =~= a);
        assert(of_a + of_b =~= of_a);
    } else {
        law_entries_do_not_disturb_each_other(
            a,
            b.drop_last(),
            server_path,
            intermediate_output_path,
        );
        assert((a + b).drop_last() =~= a + b.drop_last());
        assert((a + b).last() == b.last());
        assert(entry_sources(a + b, server_path, intermediate_output_path) =~= of_a + of_b);
    }
}

/// An entry alone in a directory has at most one source: its own.
pub proof fn law_entry_has_one_source<F, D>(
    name: String,
    entry: DirectoryEntry<F, D>,
    server_path: Seq<Seq<char>>,
    intermediate_output_path: Seq<Seq<char>>,
)
    ensures
        entry_sources(seq![(name, entry)], server_path, intermediate_output_path)
            == match entry_source(name@, entry, server_path, intermediate_output_path) {
            Some(source) => seq![source],
            None => Seq::empty(),
        },
{
    let alone = seq![(name, entry)];
    assert(alone.drop_last() =~= Seq::empty());
    assert(alone.last() == (name, entry));
    let none = entry_sources(alone.drop_last(), server_path, intermediate_output_path);
    assert(none =~= Seq::empty());
    if let Some(source) = entry_source(name@, entry, server_path, intermediate_output_path) {
        assert(none.push(source) =~= seq![source]);
    }
}

/// Whether `source` is the source of one of the entries.
pub open spec fn is_source_of_entry<F, D>(
    source: SourceView<F, D>,
    entries: Seq<(String, DirectoryEntry<F, D>)>,
    server_path: Seq<Seq<char>>,
    intermediate_output_path: Seq<Seq<char>>,
) -> bool {
    exists|i: int|
        0 <= i < entries.len() && entry_source(
            (#[trigger] entries[i]).0@,
            entries[i].1,
            server_path,
            intermediate_output_path,
        ) == Some(source)
}

/// Each entry that has a source puts it among the sources of the directory,
/// and nothing else is among them.
pub proof fn law_sources_are_those_of_entries<F, D>(
    entries: Seq<(String, DirectoryEntry<F, D>)>,
    server_path: Seq<Seq<char>>,
    intermediate_output_path: Seq<Seq<char>>,
    source: SourceView<F, D>,
)
    ensures
        entry_sources(entries, server_path, intermediate_output_path).contains(source)
            <==> is_source_of_entry(source, entries, server_path, intermediate_output_path),
    decreases entries.len(),
{
    if entries.len() > 0 {
        let others = entries.drop_last();
        let last = entries.last();
        let all = entry_sources(entries, server_path, intermediate_output_path);
        let before = entry_sources(others, server_path, intermediate_output_path);
        law_sources_are_those_of_entries(others, server_path, intermediate_output_path, source);
        let own = entry_source(last.0@, last.1, server_path, intermediate_output_path);
        assert(entries[entries.len() - 1] == last);
        if own is Some {
            assert(all == before.push(own->0));
            assert(all[all.len() - 1] == own->0);
            if before.contains(source) {
                let k = choose|k: int| 0 <= k < before.len() && before[k] == source;
                assert(all[k] == source);
            }
            if all.contains(source) && own->0 != source {
                let k = choose|k: int| 0 <= k < all.len() && all[k] == source;
                assert(before[k] == source);
            }
        }
        if is_source_of_entry(source, others, server_path, intermediate_output_path) {
            let i = choose|i: int|
                0 <= i < others.len() && entry_source(
                    (#[trigger] others[i]).0@,
                    others[i].1,
                    server_path,
                    intermediate_output_path,
                ) == Some(source);
            assert(entries[i] == others[i]);
        }
        if is_source_of_entry(source, entries, server_path, intermediate_output_path) {
            let i = choose|i: int|
                0 <= i < entries.len() && entry_source(
                    (#[trigger] entries[i]).0@,
                    entries[i].1,
                    server_path,
                    intermediate_output_path,
                ) == Some(source);
            if i < entries.len() - 1 {
                assert(others[i] == entries[i]);
            }
        }
    }
}

/// Whether `page` is served once the directories among the sources are read,
/// and those in them, down to the given depth. `reads` is what comes of reading
/// a directory; one that cannot be read has no pages.
pub open spec fn has_page<F, D, E>(
    sources: Seq<SourceView<F, D>>,
    reads: spec_fn(D) -> Result<DirectoryContent<F, D>, E>,
    depth: nat,
    page: PageView<F>,
) -> bool
    decreases depth, 1nat,
{
    exists|i: int|
        0 <= i < sources.len() && source_has_page(#[trigger] sources[i], reads, depth, page)
}

/// Whether `page` is served by this one source in that way.
pub open spec fn source_has_page<F, D, E>(
    source: SourceView<F, D>,
    reads: spec_fn(D) -> Result<DirectoryContent<F, D>, E>,
    depth: nat,
    page: PageView<F>,
) -> bool
    decreases depth, 0nat,
{
    match source {
        SourceView::Page(own) => own == page,
        SourceView::Directory(directory) => depth > 0 && match reads(directory.input_dir) {
            Ok(content) => has_page(
                directory_sources(
                    content,
                    directory.server_path,
                    directory.intermediate_output_path,
                ),
                reads,
                (depth - 1) as nat,
                page,
            ),
            Err(_) => false,
        },
    }
}

/// All pages that the sources serve once the directories are read, down to the
/// given depth, in order.
pub open spec fn pages_served<F, D, E>(
    sources: Seq<SourceView<F, D>>,
    reads: spec_fn(D) -> Result<DirectoryContent<F, D>, E>,
    depth: nat,
) -> Seq<PageView<F>>
    decreases depth, sources.len(),
{
    if sources.len() == 0 {
        Seq::empty()
    } else {
        pages_served(sources.drop_last(), reads, depth) + match sources.last() {
            SourceView::Page(page) => seq![page],
            SourceView::Directory(directory) => if depth == 0 {
                Seq::empty()
            } else {
                match reads(directory.input_dir) {
                    Ok(content) => pages_served(
                        directory_sources(
                            content,
                            directory.server_path,
                            directory.intermediate_output_path,
                        ),
                        reads,
                        (depth - 1) as nat,
                    ),
                    Err(_) => Seq::empty(),
                }
            },
        }
    }
}

/// A page for each file that is one, among the entries of a directory and of
/// the directories in it that can be read, down to the given depth, in order.
pub open spec fn page_files<F, D, E>(
    entries: Seq<(String, DirectoryEntry<F, D>)>,
    server_path: Seq<Seq<char>>,
    intermediate_output_path: Seq<Seq<char>>,
    reads: spec_fn(D) -> Result<DirectoryContent<F, D>, E>,
    depth: nat,
) -> Seq<PageView<F>>
    decreases depth, entries.len(),
{
    if entries.len() == 0 {
        Seq::empty()
    } else {
        let name = entries.last().0@;
        page_files(entries.drop_last(), server_path, intermediate_output_path, reads, depth)
            + match entries.last().1 {
            DirectoryEntry::File(file) => match page_name(name) {
                Some(page) => seq![
                    page_source(
                        file,
                        page_directory(server_path, page).push("index.html"@),
                        page_directory(intermediate_output_path, page),
                    ),
                ],
                None => Seq::empty(),
            },
            DirectoryEntry::Directory(input_dir) => if depth == 0 {
                Seq::empty()
            } else {
                match reads(input_dir) {
                    Ok(DirectoryContent::Entries(inner)) => page_files(
                        inner@,
                        server_path.push(name),
                        intermediate_output_path.push(name),
                        reads,
                        (depth - 1) as nat,
                    ),
                    _ => Seq::empty(),
                }
            },
            DirectoryEntry::Other => Seq::empty(),
        }
    }
}

/// Each page file of a directory, and of the directories in it that can be
/// read, at any depth, is served exactly once, and nothing else is.
pub proof fn law_each_page_file_is_served_once<F, D, E>(
    entries: Seq<(String, DirectoryEntry<F, D>)>,
    server_path: Seq<Seq<char>>,
    intermediate_output_path: Seq<Seq<char>>,
    reads: spec_fn(D) -> Result<DirectoryContent<F, D>, E>,
    depth: nat,
)
    ensures
        pages_served(
            entry_sources(entries, server_path, intermediate_output_path),
            reads,
            depth,
        ) == page_files(entries, server_path, intermediate_output_path, reads, depth),
    decreases depth, entries.len(),
{
    if entries.len() > 0 {
        let others = entries.drop_last();
        let (name, entry) = entries.last();
        let before = entry_sources(others, server_path, intermediate_output_path);
        law_each_page_file_is_served_once(
            others,
            server_path,
            intermediate_output_path,
            reads,
            depth,
        );
        let files = page_files(entries, server_path, intermediate_output_path, reads, depth);
        match entry_source(name@, entry, server_path, intermediate_output_path) {
            None => {
                assert(files =~= pages_served(before, reads, depth));
            },
            Some(own) => {
                assert(before.push(own).drop_last() =~= before);
                if let SourceView::Directory(directory) = own {
                    if depth > 0 && reads(directory.input_dir) is Ok {
                        match reads(directory.input_dir)->Ok_0 {
                            DirectoryContent::Entries(inner) => {
                                law_each_page_file_is_served_once(
                                    inner@,
                                    directory.server_path,
                                    directory.intermediate_output_path,
                                    reads,
                                    (depth - 1) as nat,
                                );
                            },
                            DirectoryContent::NotFound => {
                                assert(pages_served(
                                    Seq::<SourceView<F, D>>::empty(),
                                    reads,
                                    (depth - 1) as nat,
                                ) =~= Seq::empty());
                            },
                        }
                    }
                }
                assert(files =~= pages_served(before.push(own), reads, depth));
            },
        }
    }
}

/// A page is served exactly where it is among all pages that are served.
pub proof fn law_pages_served_are_all_pages<F, D, E>(
    sources: Seq<SourceView<F, D>>,
    reads: spec_fn(D) -> Result<DirectoryContent<F, D>, E>,
    depth: nat,
    page: PageView<F>,
)
    ensures
        has_page(sources, reads, depth, page) <==> pages_served(sources, reads, depth).contains(
            page,
        ),
    decreases depth, sources.len(),
{
    let all = pages_served(sources, reads, depth);
    if sources.len() > 0 {
        let others = sources.drop_last();
        let last = sources.last();
        let before = pages_served(others, reads, depth);
        let own = all.skip(before.len() as int);
        law_pages_served_are_all_pages(others, reads, depth, page);
        if let SourceView::Directory(directory) = last {
            if depth > 0 && reads(directory.input_dir) is Ok {
                law_pages_served_are_all_pages(
                    directory_sources(
                        reads(directory.input_dir)->Ok_0,
                        directory.server_path,
                        directory.intermediate_output_path,
                    ),
                    reads,
                    (depth - 1) as nat,
                    page,
                );
            }
        }
        assert(all =~= before + own);
        lemma_contains_in_either(before, own, page);
        match last {
            SourceView::Page(last_page) => {
                assert(own =~= seq![last_page]);
                assert(own.contains(page) <==> last_page == page) by {
                    assert(seq![last_page][0] == last_page);
                }
            },
            SourceView::Directory(directory) => {
                if depth > 0 && reads(directory.input_dir) is Ok {
                    assert(own =~= pages_served(
                        directory_sources(
                            reads(directory.input_dir)->Ok_0,
                            directory.server_path,
                            directory.intermediate_output_path,
                        ),
                        reads,
                        (depth - 1) as nat,
                    ));
                } else {
                    assert(own =~= Seq::empty());
                }
            },
        }
        assert(own.contains(page) <==> source_has_page(last, reads, depth, page));
        assert(sources[sources.len() - 1] == last);
        if has_page(others, reads, depth, page) {
            let i = choose|i: int|
                0 <= i < others.len() && source_has_page(
                    #[trigger] others[i],
                    reads,
                    depth,
                    page,
                );
            assert(source_has_page(sources[i], reads, depth, page));
        }
        if has_page(sources, reads, depth, page) {
            let i = choose|i: int|
                0 <= i < sources.len() && source_has_page(
                    #[trigger] sources[i],
                    reads,
                    depth,
                    page,
                );
            if i < sources.len() - 1 {
                assert(source_has_page(others[i], reads, depth, page));
            }
        }
    }
}

/// What two sequences hold one after the other is what either holds.
proof fn lemma_contains_in_either<A>(a: Seq<A>, b: Seq<A>, x: A)
    ensures
        (a + b).contains(x) <==> a.contains(x) || b.contains(x),
{
    if a.contains(x) {
        let i = choose|i: int| 0 <= i < a.len() && a[i] == x;
        assert((a + b)[i] == x);
    }
    if b.contains(x) {
        let i = choose|i: int| 0 <= i < b.len() && b[i] == x;
        assert((a + b)[a.len() + i] == x);
    }
    if (a + b).contains(x) {
        let i = choose|i: int| 0 <= i < (a + b).len() && (a + b)[i] == x;
        if i < a.len() {
            assert(a[i] == x);
        } else {
            assert(b[i - a.len()] == x);
        }
    }
}

/// Whether a page is served below `server_path` just where it is built below
/// `intermediate_output_path`.
pub open spec fn is_built_where_served<F>(
    page: PageView<F>,
    server_path: Seq<Seq<char>>,
    intermediate_output_path: Seq<Seq<char>>,
) -> bool {
    let built = page.intermediate_output_path;
    let depth = intermediate_output_path.len() as int;
    &&& depth <= built.len()
    &&& built.take(depth) == intermediate_output_path
    &&& page.server_path == (server_path + built.skip(depth)).push("index.html"@)
    &&& page.chunk_path == built.push("chunks"@)
    &&& !page.hot_module_replacement
}

/// Every page of a directory, and of the directories in it at any depth, is
/// served in the directory, below the server path, that it is built in, below
/// the output path: as its `index.html`.
pub proof fn law_pages_are_built_where_served<F, D, E>(
    content: DirectoryContent<F, D>,
    server_path: Seq<Seq<char>>,
    intermediate_output_path: Seq<Seq<char>>,
    reads: spec_fn(D) -> Result<DirectoryContent<F, D>, E>,
    depth: nat,
    page: PageView<F>,
)
    requires
        has_page(
            directory_sources(content, server_path, intermediate_output_path),
            reads,
            depth,
            page,
        ),
    ensures
        is_built_where_served(page, server_path, intermediate_output_path),
    decreases depth,
{
    let (source, name, entry) = lemma_source_with_page(
        content,
        server_path,
        intermediate_output_path,
        reads,
        depth,
        page,
    );
    let built = page.intermediate_output_path;
    let at = intermediate_output_path.len() as int;
    match source {
        SourceView::Page(_) => {
            let own = page_name(name)->0;
            if own == "index"@ {
                assert(server_path + built.skip(at) =~= server_path);
            } else {
                assert(server_path + built.skip(at) =~= server_path.push(own));
            }
            assert(built.take(at) =~= intermediate_output_path);
        },
        SourceView::Directory(directory) => {
            let below = directory.server_path;
            law_pages_are_built_where_served(
                reads(directory.input_dir)->Ok_0,
                below,
                directory.intermediate_output_path,
                reads,
                (depth - 1) as nat,
                page,
            );
            assert(built[at] == built.take(at + 1)[at]);
            assert(built.take(at) =~= built.take(at + 1).take(at));
            assert(built.take(at) =~= intermediate_output_path);
            assert(server_path + built.skip(at) =~= below + built.skip(at + 1));
        },
    }
}

/// A page that is served below a directory comes from the source of one of its
/// entries: the page itself, or a directory that can be read.
proof fn lemma_source_with_page<F, D, E>(
    content: DirectoryContent<F, D>,
    server_path: Seq<Seq<char>>,
    intermediate_output_path: Seq<Seq<char>>,
    reads: spec_fn(D) -> Result<DirectoryContent<F, D>, E>,
    depth: nat,
    page: PageView<F>,
) -> (found: (SourceView<F, D>, Seq<char>, DirectoryEntry<F, D>))
    requires
        has_page(
            directory_sources(content, server_path, intermediate_output_path),
            reads,
            depth,
            page,
        ),
    ensures
        entry_source(found.1, found.2, server_path, intermediate_output_path) == Some(found.0),
        content matches DirectoryContent::Entries(entries) && exists|i: int|
            0 <= i < entries@.len() && (#[trigger] entries@[i]).0@ == found.1 && entries@[i].1
                == found.2,
        source_has_page(found.0, reads, depth, page),
{
    let sources = directory_sources(content, server_path, intermediate_output_path);
    let i = choose|i: int|
        0 <= i < sources.len() && source_has_page(#[trigger] sources[i], reads, depth, page);
    let source = sources[i];
    let entries = content->Entries_0@;
    law_sources_are_those_of_entries(entries, server_path, intermediate_output_path, source);
    assert(sources.contains(source));
    let k = choose|k: int|
        0 <= k < entries.len() && entry_source(
            (#[trigger] entries[k]).0@,
            entries[k].1,
            server_path,
            intermediate_output_path,
        ) == Some(source);
    (source, entries[k].0@, entries[k].1)
}

/// A directory that cannot be read leaves the pages of all other sources as
/// they are, and has none itself.
pub proof fn law_unreadable_directory_leaves_other_sources<F, D, E>(
    sources: Seq<SourceView<F, D>>,
    at: int,
    reads: spec_fn(D) -> Result<DirectoryContent<F, D>, E>,
    depth: nat,
    page: PageView<F>,
)
    requires
        0 <= at < sources.len(),
        sources[at] matches SourceView::Directory(directory) && reads(directory.input_dir) is Err,
    ensures
        has_page(sources, reads, depth, page) <==> has_page(
            sources.remove(at),
            reads,
            depth,
            page,
        ),
{
    let others = sources.remove(at);
    assert forall|i: int| 0 <= i < others.len() implies #[trigger] others[i] == sources[if i < at {
        i
    } else {
        i + 1
    }] by {}
    assert forall|i: int| 0 <= i < sources.len() && i != at implies #[trigger] sources[i]
        == others[if i < at {
        i
    } else {
        i - 1
    }] by {}
}

/// Whether `name` can be one step of a path: it is not empty and has no slash.
pub open spec fn is_step(name: Seq<char>) -> bool {
    name.len() > 0 && !name.contains('/')
}

/// Whether each of the names can be one step of a path.
pub open spec fn are_steps(names: Seq<Seq<char>>) -> bool {
    forall|i: int| 0 <= i < names.len() ==> is_step(#[trigger] names[i])
}

/// Whether all that is in a directory has a name that can be a step of a path,
/// also without the extension of a page.
pub open spec fn is_named_content<F, D>(content: DirectoryContent<F, D>) -> bool {
    content matches DirectoryContent::Entries(entries) ==> forall|i: int|
        0 <= i < entries@.len() ==> {
            &&& is_step((#[trigger] entries@[i]).0@)
            &&& entries@[i].1 is File ==> (page_name(entries@[i].0@) matches Some(page)
                ==> page.len() > 0)
        }
}

/// Whether that holds of every directory that can be read.
pub open spec fn are_named_contents<F, D, E>(
    reads: spec_fn(D) -> Result<DirectoryContent<F, D>, E>,
) -> bool {
    forall|input_dir: D|
        (#[trigger] reads(input_dir)) matches Ok(content) ==> is_named_content(content)
}

/// A page is built in steps.
proof fn lemma_pages_are_built_in_steps<F, D, E>(
    content: DirectoryContent<F, D>,
    server_path: Seq<Seq<char>>,
    intermediate_output_path: Seq<Seq<char>>,
    reads: spec_fn(D) -> Result<DirectoryContent<F, D>, E>,
    depth: nat,
    page: PageView<F>,
)
    requires
        is_named_content(content),
        are_named_contents(reads),
        are_steps(intermediate_output_path),
        has_page(
            directory_sources(content, server_path, intermediate_output_path),
            reads,
            depth,
            page,
        ),
    ensures
        are_steps(page.intermediate_output_path),
    decreases depth,
{
    let (source, name, entry) = lemma_source_with_page(
        content,
        server_path,
        intermediate_output_path,
        reads,
        depth,
        page,
    );
    match source {
        SourceView::Page(_) => {
            let own = page_name(name)->0;
            lemma_rfind(name, '.');
            assert forall|i: int| 0 <= i < own.len() implies own[i] != '/' by {
                assert(name[i] == own[i]);
            }
        },
        SourceView::Directory(directory) => {
            let inner = reads(directory.input_dir)->Ok_0;
            assert(is_named_content(inner));
            lemma_pages_are_built_in_steps(
                inner,
                directory.server_path,
                directory.intermediate_output_path,
                reads,
                (depth - 1) as nat,
                page,
            );
        },
    }
}

/// The parts of a path are the steps that it was joined from.
proof fn lemma_split_join(steps: Seq<Seq<char>>)
    requires
        steps.len() > 0,
        are_steps(steps),
    ensures
        split(join(steps, '/'), '/') == steps,
        trim_start(join(steps, '/'), '/') == join(steps, '/'),
    decreases steps.len(),
{
    let first = steps[0];
    assert(is_step(first));
    let path = join(steps, '/');
    let end = first.len() as int;
    assert forall|i: int| 0 <= i < end implies path[i] != '/' by {
        assert(path[i] == first[i]);
    }
    assert(path[0] != '/');
    lemma_find_is(path, '/', end);
    if steps.len() == 1 {
        assert(seq![path] =~= steps);
    } else {
        let others = steps.drop_first();
        assert(are_steps(others)) by {
            assert forall|i: int| 0 <= i < others.len() implies is_step(#[trigger] others[i]) by {
                assert(is_step(steps[i + 1]));
            }
        }
        lemma_split_join(others);
        assert(path.take(end) =~= first);
        assert(path.skip(end + 1) =~= join(others, '/'));
        assert(seq![first] + others =~= steps);
    }
}

/// The route of an `index.html` in the directory that the steps lead to: a
/// segment for each of them. Without any, it is the page that the server root
/// itself has, under its name.
pub open spec fn index_route(steps: Seq<Seq<char>>) -> Result<Seq<Segment>, PathFault> {
    if steps.len() == 0 {
        Ok(seq![Segment::Static("index"@)])
    } else if brackets_match(steps) {
        Ok(read_segments(steps))
    } else {
        Err(PathFault::UnmatchedBracket(join(steps, '/')))
    }
}

/// An `index.html` is served under the steps that lead to its directory, where
/// its path is the steps with slashes between them.
pub proof fn law_index_file_is_served_under_its_steps(steps: Seq<Seq<char>>)
    requires
        are_steps(steps),
    ensures
        route(Some(join(steps.push("index.html"@), '/'))) == index_route(steps),
{
    reveal_strlit("index.html");
    reveal_strlit("index");
    reveal_strlit("/index");
    let all = steps.push("index.html"@);
    let html = seq!['h', 't', 'm', 'l'];
    let directory = join(steps, '/');
    let path = join(all, '/');
    if steps.len() == 0 {
        assert(path == "index.html"@);
        assert(path =~= "index"@ + seq!['.'] + html);
        lemma_cut_extension("index"@, html);
        assert("index"@[0] == 'i');
        lemma_find_is("index"@, '/', 5);
        assert(page_stem(path) == Some("index"@));
        assert(segment_texts("index"@) =~= seq!["index"@]);
        assert(read_segments(seq!["index"@]) =~= seq![Segment::Static("index"@)]);
    } else {
        lemma_join_at(all, '/', steps.len() as int);
        assert(all.take(steps.len() as int) =~= steps);
        assert(all.skip(steps.len() as int) =~= seq!["index.html"@]);
        let before = directory + "/index"@;
        assert(path =~= before + seq!['.'] + html);
        lemma_cut_extension(before, html);
        assert(before.skip(before.len() - "/index"@.len()) =~= "/index"@);
        assert(before.take(before.len() - "/index"@.len()) =~= directory);
        assert(page_stem(path) == Some(directory));
        lemma_split_join(steps);
    }
}

/// Every page of a project is served under its directories and its own name,
/// and nothing but an unmatched bracket in one of these stands in the way. Its
/// path is the steps of its server path, with slashes between them.
pub proof fn law_pages_are_served_under_their_names<F, D, E>(
    content: DirectoryContent<F, D>,
    reads: spec_fn(D) -> Result<DirectoryContent<F, D>, E>,
    depth: nat,
    page: PageView<F>,
)
    requires
        is_named_content(content),
        are_named_contents(reads),
        has_page(
            directory_sources(content, Seq::<Seq<char>>::empty(), Seq::<Seq<char>>::empty()),
            reads,
            depth,
            page,
        ),
    ensures
        page.server_path == page.intermediate_output_path.push("index.html"@),
        route(Some(join(page.server_path, '/'))) == index_route(page.intermediate_output_path),
{
    let start = Seq::<Seq<char>>::empty();
    law_pages_are_built_where_served(content, start, start, reads, depth, page);
    let built = page.intermediate_output_path;
    assert(start + built.skip(0) =~= built);
    lemma_pages_are_built_in_steps(content, start, start, reads, depth, page);
    law_index_file_is_served_under_its_steps(built);
}

} // verus!
