//! What holds of the text of paths, and of the patterns that are written for
//! them, said of their characters.
use crate::laws::{lemma_cut_extension, lemma_join_at, lemma_join_split, lemma_quoted_add};
use crate::regular_expression::{
    are_group_names, are_unbroken, can_continue_name, is_group_name, is_meta, lone_parameter, quoted,
};
use crate::route::{
    brackets_match, group_names, page_stem, pattern, read_segment, read_segments, route,
    segment_pattern, segment_texts, text_of, PathError, PathFault, Segment,
};
use crate::text::{
    begins_with, cut_first, cut_last, ends_with, find, join, lemma_find, lemma_find_is, lemma_rfind,
    lemma_rfind_is, rfind, split, trim_start, without_suffix,
};
use vstd::prelude::*;

verus! {

/// A text is cut at the first `c` into what is before it, which has no `c`, and
/// what is behind it; and it is not cut only where it has no `c`.
pub proof fn law_cut_first(s: Seq<char>, c: char, before: Seq<char>, after: Seq<char>)
    ensures
        cut_first(s, c) == Some((before, after)) <==> s == before + seq![c] + after
            && !before.contains(c),
        cut_first(s, c) is None <==> !s.contains(c),
{
    lemma_find(s, c);
    let at = find(s, c);
    if at < s.len() {
        assert(s =~= s.take(at) + seq![c] + s.skip(at + 1));
        assert(s[at] == c);
    }
    if s == before + seq![c] + after && !before.contains(c) {
        assert forall|i: int| 0 <= i < before.len() implies s[i] != c by {
            assert(before[i] == s[i]);
        }
        lemma_find_is(s, c, before.len() as int);
        assert(s.take(before.len() as int) =~= before);
        assert(s.skip(before.len() as int + 1) =~= after);
    }
}

/// A text is cut at the last `c` into what is before it, and what is behind it,
/// which has no `c`; and it is not cut only where it has no `c`.
pub proof fn law_cut_last(s: Seq<char>, c: char, before: Seq<char>, after: Seq<char>)
    ensures
        cut_last(s, c) == Some((before, after)) <==> s == before + seq![c] + after
            && !after.contains(c),
        cut_last(s, c) is None <==> !s.contains(c),
{
    lemma_rfind(s, c);
    let at = rfind(s, c);
    if at >= 0 {
        let behind = s.skip(at + 1);
        assert(s =~= s.take(at) + seq![c] + behind);
        assert(s[at] == c);
        assert forall|i: int| 0 <= i < behind.len() implies behind[i] != c by {
            assert(behind[i] == s[at + 1 + i]);
        }
    }
    if s == before + seq![c] + after && !after.contains(c) {
        let n = before.len() as int;
        assert forall|i: int| n < i < s.len() implies s[i] != c by {
            assert(after[i - n - 1] == s[i]);
        }
        lemma_rfind_is(s, c, n);
        assert(s.take(n) =~= before);
        assert(s.skip(n + 1) =~= after);
    }
}

/// A text begins with `p` exactly where it is `p` and some other text.
pub proof fn law_begins_with(s: Seq<char>, p: Seq<char>, r: Seq<char>)
    ensures
        begins_with(p + r, p),
        begins_with(s, p) ==> s == p + s.skip(p.len() as int),
{
    assert((p + r).take(p.len() as int) =~= p);
    if begins_with(s, p) {
        assert(s =~= s.take(p.len() as int) + s.skip(p.len() as int));
    }
}

/// A text ends with `p` exactly where it is some other text and `p`.
pub proof fn law_ends_with(s: Seq<char>, p: Seq<char>, r: Seq<char>)
    ensures
        ends_with(r + p, p),
        ends_with(s, p) ==> s == s.take(s.len() - p.len()) + p,
{
    assert((r + p).skip(r.len() as int) =~= p);
    if ends_with(s, p) {
        assert(s =~= s.take(s.len() - p.len()) + s.skip(s.len() - p.len()));
    }
}

/// A suffix is taken off once, and a text that has none stays as it is.
pub proof fn law_without_suffix(s: Seq<char>, p: Seq<char>)
    ensures
        without_suffix(s + p, p) == s,
        !(p.len() <= s.len() && s.skip(s.len() - p.len()) == p) ==> without_suffix(s, p) == s,
{
    assert((s + p).skip(s.len() as int) =~= p);
    assert((s + p).take(s.len() as int) =~= s);
}

/// What is trimmed at the beginning is nothing but `c`, and all of it.
pub proof fn law_trim_start(s: Seq<char>, c: char)
    ensures
        trim_start(s, c).len() <= s.len(),
        trim_start(s, c) == s.skip(s.len() - trim_start(s, c).len()),
        forall|i: int| 0 <= i < s.len() - trim_start(s, c).len() ==> s[i] == c,
        trim_start(s, c).len() == 0 || trim_start(s, c)[0] != c,
    decreases s.len(),
{
    let t = trim_start(s, c);
    if s.len() > 0 && s[0] == c {
        let tail = s.drop_first();
        law_trim_start(tail, c);
        assert(t =~= s.skip(s.len() - t.len()));
        assert forall|i: int| 0 <= i < s.len() - t.len() implies s[i] == c by {
            if i > 0 {
                assert(s[i] == tail[i - 1]);
            }
        }
    } else {
        assert(s.skip(0) =~= s);
    }
}

/// Joined parts have `c` between neighbours and nowhere else added.
pub proof fn law_join(parts: Seq<Seq<char>>, c: char, last: Seq<char>)
    ensures
        join(Seq::<Seq<char>>::empty(), c) == Seq::<char>::empty(),
        join(seq![last], c) == last,
        parts.len() > 0 ==> join(parts.push(last), c) == join(parts, c) + seq![c] + last,
{
    if parts.len() > 0 {
        let all = parts.push(last);
        let n = parts.len() as int;
        lemma_join_at(all, c, n);
        assert(all.take(n) =~= parts);
        assert(all.skip(n) =~= seq![last]);
    }
}

/// The parts of a text have no `c`, and give the text back when joined.
pub proof fn law_split(s: Seq<char>, c: char)
    ensures
        split(s, c).len() > 0,
        join(split(s, c), c) == s,
        forall|i: int| 0 <= i < split(s, c).len() ==> !(#[trigger] split(s, c)[i]).contains(c),
    decreases s.len(),
{
    lemma_join_split(s, c);
    lemma_find(s, c);
    let at = find(s, c);
    if at < s.len() {
        law_split(s.skip(at + 1), c);
        let others = split(s.skip(at + 1), c);
        assert forall|i: int| 0 <= i < split(s, c).len() implies !(#[trigger] split(
            s,
            c,
        )[i]).contains(c) by {
            if i > 0 {
                assert(split(s, c)[i] == others[i - 1]);
            }
        }
    }
}

/// Parts that have no `c` are got back from the text that they are joined to.
pub proof fn law_split_undoes_join(parts: Seq<Seq<char>>, c: char)
    requires
        parts.len() > 0,
        forall|i: int| 0 <= i < parts.len() ==> !(#[trigger] parts[i]).contains(c),
    ensures
        split(join(parts, c), c) == parts,
    decreases parts.len(),
{
    let first = parts[0];
    let s = join(parts, c);
    let end = first.len() as int;
    assert(!first.contains(c));
    assert forall|i: int| 0 <= i < end implies s[i] != c by {
        assert(s[i] == first[i]);
    }
    lemma_find_is(s, c, end);
    if parts.len() == 1 {
        assert(seq![s] =~= parts);
    } else {
        let others = parts.drop_first();
        assert forall|i: int| 0 <= i < others.len() implies !(#[trigger] others[i]).contains(c) by {
            assert(!parts[i + 1].contains(c));
        }
        law_split_undoes_join(others, c);
        assert(s.take(end) =~= first);
        assert(s.skip(end + 1) =~= join(others, c));
        assert(seq![first] + others =~= parts);
    }
}

/// Quoting goes character by character: it puts a backslash before each of
/// eighteen characters, and leaves all others as they are.
pub proof fn law_quoting(a: Seq<char>, b: Seq<char>, c: char)
    ensures
        quoted(Seq::<char>::empty()) == Seq::<char>::empty(),
        quoted(a + b) == quoted(a) + quoted(b),
        quoted(seq![c]) == if seq![
            '\\', '.', '+', '*', '?', '(', ')', '|', '[', ']', '{', '}', '^', '$', '#', '&', '-',
            '~',
        ].contains(c) {
            seq!['\\', c]
        } else {
            seq![c]
        },
{
    lemma_quoted_add(a, b);
    let meta = seq![
        '\\', '.', '+', '*', '?', '(', ')', '|', '[', ']', '{', '}', '^', '$', '#', '&', '-', '~',
    ];
    assert(is_meta(c) <==> meta.contains(c)) by {
        if is_meta(c) {
            assert(meta[0] == '\\' && meta[1] == '.' && meta[2] == '+' && meta[3] == '*' && meta[4]
                == '?' && meta[5] == '(' && meta[6] == ')' && meta[7] == '|' && meta[8] == '['
                && meta[9] == ']' && meta[10] == '{' && meta[11] == '}' && meta[12] == '^'
                && meta[13] == '$' && meta[14] == '#' && meta[15] == '&' && meta[16] == '-'
                && meta[17] == '~');
        }
    }
    assert(seq![c].drop_first() =~= Seq::<char>::empty());
    assert(quoted(Seq::<char>::empty()) =~= Seq::<char>::empty());
    assert(quoted(seq![c]) =~= if is_meta(c) {
        seq!['\\', c]
    } else {
        seq![c]
    });
}

/// A segment that does not begin with a bracket stands for its own text.
pub proof fn law_text_segment_is_static(text: Seq<char>)
    requires
        text.len() == 0 || text[0] != '[',
    ensures
        read_segment(text) == Some(Segment::Static(text)),
{
}

/// A segment is refused exactly where it begins with a bracket that is never
/// closed.
pub proof fn law_only_an_unmatched_bracket_is_refused(text: Seq<char>)
    ensures
        read_segment(text) is None <==> text.len() > 0 && text[0] == '[' && !text.contains(']'),
{
    if text.len() > 0 && text[0] == '[' {
        let inner = text.skip(1);
        law_cut_first(inner, ']', Seq::empty(), Seq::empty());
        if inner.contains(']') {
            let i = choose|i: int| 0 <= i < inner.len() && inner[i] == ']';
            assert(text[i + 1] == ']');
        }
        if text.contains(']') {
            let i = choose|i: int| 0 <= i < text.len() && text[i] == ']';
            assert(inner[i - 1] == ']');
        }
    }
}

/// A bracketed name that does not begin with three dots is a parameter.
pub proof fn law_parameter_segment_is_read(name: Seq<char>, rest: Seq<char>)
    requires
        !name.contains(']'),
        !(name.len() >= 3 && name[0] == '.' && name[1] == '.' && name[2] == '.'),
    ensures
        read_segment(seq!['['] + name + seq![']'] + rest) == Some(Segment::Param { name, rest }),
{
    let text = seq!['['] + name + seq![']'] + rest;
    assert(text[0] == '[');
    assert(text.skip(1) =~= name + seq![']'] + rest);
    law_cut_first(text.skip(1), ']', name, rest);
    reveal_strlit("...");
    if begins_with(name, "..."@) {
        assert(name.take(3)[0] == '.' && name.take(3)[1] == '.' && name.take(3)[2] == '.');
    }
}

/// A bracketed name behind three dots is a catch-all.
pub proof fn law_catch_all_segment_is_read(name: Seq<char>, rest: Seq<char>)
    requires
        !name.contains(']'),
    ensures
        read_segment(seq!['[', '.', '.', '.'] + name + seq![']'] + rest) == Some(
            Segment::CatchAll { name, rest },
        ),
{
    let text = seq!['[', '.', '.', '.'] + name + seq![']'] + rest;
    let held = seq!['.', '.', '.'] + name;
    assert(text[0] == '[');
    assert(text.skip(1) =~= held + seq![']'] + rest);
    assert(!held.contains(']')) by {
        if held.contains(']') {
            let i = choose|i: int| 0 <= i < held.len() && held[i] == ']';
            assert(i >= 3);
            assert(name[i - 3] == ']');
        }
    }
    law_cut_first(text.skip(1), ']', held, rest);
    reveal_strlit("...");
    assert(held.take(3) =~= "..."@);
    assert(held.skip(3) =~= name);
}

/// No parameter is read with a name that begins with three dots, and no name is
/// read with a closing bracket in it; what is read gives the text back.
pub proof fn law_reading_keeps_the_text(text: Seq<char>)
    requires
        read_segment(text) is Some,
    ensures
        match read_segment(text)->0 {
            Segment::Static(same) => same == text && (text.len() == 0 || text[0] != '['),
            Segment::Param { name, rest } => {
                &&& text == seq!['['] + name + seq![']'] + rest
                &&& !name.contains(']')
                &&& !(name.len() >= 3 && name[0] == '.' && name[1] == '.' && name[2] == '.')
            },
            Segment::CatchAll { name, rest } => {
                &&& text == seq!['[', '.', '.', '.'] + name + seq![']'] + rest
                &&& !name.contains(']')
            },
        },
{
    reveal_strlit("...");
    if text.len() > 0 && text[0] == '[' {
        let inner = text.skip(1);
        let (held, rest) = cut_first(inner, ']')->0;
        law_cut_first(inner, ']', held, rest);
        assert(text =~= seq!['['] + inner);
        assert(text =~= seq!['['] + held + seq![']'] + rest);
        if begins_with(held, "..."@) {
            let name = held.skip(3);
            assert(held =~= held.take(3) + name);
            assert(text =~= seq!['[', '.', '.', '.'] + name + seq![']'] + rest);
            assert(!name.contains(']')) by {
                if name.contains(']') {
                    let i = choose|i: int| 0 <= i < name.len() && name[i] == ']';
                    assert(held[i + 3] == ']');
                }
            }
        } else if held.len() >= 3 && held[0] == '.' && held[1] == '.' && held[2] == '.' {
            assert(held.take(3) =~= "..."@);
        }
    }
}

/// A parameter captures what has neither a slash nor a question mark, a
/// catch-all what has no question mark, each under its name, and text is quoted.
pub proof fn law_segment_patterns(text: Seq<char>, name: Seq<char>)
    ensures
        segment_pattern(Segment::Static(text)) == quoted(text),
        segment_pattern(Segment::Param { name, rest: text }) == seq!['(', '?', 'P', '<'] + name
            + seq!['>', '[', '^', '?', '/', ']', '+', ')'] + quoted(text),
        segment_pattern(Segment::CatchAll { name, rest: text }) == seq!['(', '?', 'P', '<'] + name
            + seq!['>', '[', '^', '?', ']', '+', ')'] + quoted(text),
{
    reveal_strlit("(?P<");
    reveal_strlit(">[^?/]+)");
    reveal_strlit(">[^?]+)");
    assert("(?P<"@ =~= seq!['(', '?', 'P', '<']);
    assert(">[^?/]+)"@ =~= seq!['>', '[', '^', '?', '/', ']', '+', ')']);
    assert(">[^?]+)"@ =~= seq!['>', '[', '^', '?', ']', '+', ')']);
}

/// The pattern of one segment spans the whole of what is matched; one more
/// segment is added behind a slash, before the end.
pub proof fn law_pattern_grows_by_segments(segments: Seq<Segment>, last: Segment)
    ensures
        pattern(Seq::<Segment>::empty()) == seq!['^', '$'],
        pattern(seq![last]) == seq!['^'] + segment_pattern(last) + seq!['$'],
        segments.len() > 0 ==> pattern(segments.push(last)) == pattern(segments).drop_last() + seq![
            '/',
        ] + segment_pattern(last) + seq!['$'],
{
    reveal_strlit("^");
    reveal_strlit("$");
    let pattern_of = |segment: Segment| segment_pattern(segment);
    let parts = segments.map_values(pattern_of);
    assert("^"@ =~= seq!['^']);
    assert("$"@ =~= seq!['$']);
    law_join(parts, '/', segment_pattern(last));
    assert(Seq::<Segment>::empty().map_values(pattern_of) =~= Seq::<Seq<char>>::empty());
    assert(pattern(Seq::<Segment>::empty()) =~= seq!['^', '$']);
    assert(seq![last].map_values(pattern_of) =~= seq![segment_pattern(last)]);
    assert(pattern(seq![last]) =~= seq!['^'] + segment_pattern(last) + seq!['$']);
    if segments.len() > 0 {
        assert(segments.push(last).map_values(pattern_of) =~= parts.push(segment_pattern(last)));
        assert(pattern(segments.push(last)) =~= pattern(segments).drop_last() + seq!['/']
            + segment_pattern(last) + seq!['$']);
    }
}

/// Each placeholder adds its name to the names of the groups, and text adds
/// none.
pub proof fn law_group_names_grow_by_placeholders(
    segments: Seq<Segment>,
    name: Seq<char>,
    text: Seq<char>,
)
    ensures
        group_names(Seq::<Segment>::empty()) == Seq::<Seq<char>>::empty(),
        group_names(segments.push(Segment::Static(text))) == group_names(segments),
        group_names(segments.push(Segment::Param { name, rest: text })) == group_names(
            segments,
        ).push(name),
        group_names(segments.push(Segment::CatchAll { name, rest: text })) == group_names(
            segments,
        ).push(name),
    decreases segments.len(),
{
    let plain = Segment::Static(text);
    let param = Segment::Param { name, rest: text };
    let catch_all = Segment::CatchAll { name, rest: text };
    let none = Seq::<Segment>::empty();
    assert(group_names(none) =~= Seq::<Seq<char>>::empty());
    if segments.len() == 0 {
        assert(segments =~= none);
        assert(segments.push(plain).drop_first() =~= none);
        assert(segments.push(param).drop_first() =~= none);
        assert(segments.push(catch_all).drop_first() =~= none);
        assert(seq![name] + Seq::<Seq<char>>::empty() =~= Seq::<Seq<char>>::empty().push(name));
    } else {
        let tail = segments.drop_first();
        law_group_names_grow_by_placeholders(tail, name, text);
        assert(segments.push(plain).drop_first() =~= tail.push(plain));
        assert(segments.push(param).drop_first() =~= tail.push(param));
        assert(segments.push(catch_all).drop_first() =~= tail.push(catch_all));
        let names = group_names(segments);
        assert(group_names(segments.push(param)) =~= names.push(name));
        assert(group_names(segments.push(catch_all)) =~= names.push(name));
        assert(group_names(segments.push(plain)) =~= names);
    }
}

/// The pattern of a parameter that is alone has its group and nothing else.
pub proof fn law_lone_parameter(name: Seq<char>)
    ensures
        lone_parameter(name) == seq!['^', '(', '?', 'P', '<'] + name + seq![
            '>',
            '[',
            '^',
            '?',
            '/',
            ']',
            '+',
            ')',
            '$',
        ],
{
    let none = Seq::<char>::empty();
    law_pattern_grows_by_segments(Seq::empty(), Segment::Param { name, rest: none });
    law_segment_patterns(none, name);
    law_quoting(none, none, 'a');
    assert(lone_parameter(name) =~= seq!['^', '(', '?', 'P', '<'] + name + seq![
        '>',
        '[',
        '^',
        '?',
        '/',
        ']',
        '+',
        ')',
        '$',
    ]);
}

/// Among names of ASCII characters, those that a group can have begin with a
/// letter or an underscore and go on with letters, digits, underscores, dots
/// and brackets.
pub proof fn law_group_names_in_ascii(name: Seq<char>)
    requires
        forall|i: int| 0 <= i < name.len() ==> (#[trigger] name[i]) as int <= 127,
    ensures
        is_group_name(name) <==> {
            &&& name.len() > 0
            &&& 'a' <= name[0] <= 'z' || 'A' <= name[0] <= 'Z' || name[0] == '_'
            &&& forall|i: int|
                1 <= i < name.len() ==> {
                    ||| 'a' <= #[trigger] name[i] <= 'z'
                    ||| 'A' <= name[i] <= 'Z'
                    ||| '0' <= name[i] <= '9'
                    ||| seq!['_', '.', '[', ']'].contains(name[i])
                }
        },
{
    let marks = seq!['_', '.', '[', ']'];
    assert(marks[0] == '_' && marks[1] == '.' && marks[2] == '[' && marks[3] == ']');
    if is_group_name(name) {
        assert forall|i: int| 1 <= i < name.len() implies {
            ||| 'a' <= #[trigger] name[i] <= 'z'
            ||| 'A' <= name[i] <= 'Z'
            ||| '0' <= name[i] <= '9'
            ||| marks.contains(name[i])
        } by {
            assert(can_continue_name(name[i]));
        }
    }
}

/// One more group can have a name beside others where it is one that a group
/// can have, and none of the others has it.
pub proof fn law_group_names_side_by_side(names: Seq<Seq<char>>, name: Seq<char>)
    ensures
        are_group_names(Seq::<Seq<char>>::empty()),
        are_group_names(names.push(name)) <==> are_group_names(names) && is_group_name(name)
            && !names.contains(name),
        are_unbroken(Seq::<Seq<char>>::empty()),
        are_unbroken(names.push(name)) <==> are_unbroken(names) && !name.contains('>'),
{
    let all = names.push(name);
    let n = names.len() as int;
    assert(all[n] == name);
    assert forall|i: int| 0 <= i < n implies all[i] == #[trigger] names[i] by {}
    if are_group_names(all) {
        assert forall|i: int| 0 <= i < n implies is_group_name(#[trigger] names[i]) by {
            assert(is_group_name(all[i]));
        }
        assert forall|i: int, j: int| 0 <= i < j < n implies names[i] != names[j] by {
            assert(all[i] != all[j]);
        }
        assert forall|i: int| 0 <= i < n implies names[i] != name by {
            assert(all[i] != all[n]);
        }
    }
    if are_unbroken(all) {
        assert forall|i: int| 0 <= i < n implies !(#[trigger] names[i]).contains('>') by {
            assert(!all[i].contains('>'));
        }
    }
}

/// A path without a dot has no stem. The stem is what stands before the last
/// dot, less one `/index` at the end.
pub proof fn law_page_stem(path: Seq<char>, before: Seq<char>, extension: Seq<char>)
    requires
        !extension.contains('.'),
    ensures
        page_stem(path) is None <==> !path.contains('.'),
        page_stem(before + seq!['/', 'i', 'n', 'd', 'e', 'x', '.'] + extension) == Some(before),
        !(before.len() >= 6 && before.skip(before.len() - 6) == seq!['/', 'i', 'n', 'd', 'e', 'x'])
            ==> page_stem(before + seq!['.'] + extension) == Some(before),
{
    reveal_strlit("/index");
    assert("/index"@ =~= seq!['/', 'i', 'n', 'd', 'e', 'x']);
    law_cut_last(path, '.', Seq::empty(), Seq::empty());
    lemma_cut_extension(before, extension);
    lemma_cut_extension(before + "/index"@, extension);
    assert(before + seq!['/', 'i', 'n', 'd', 'e', 'x', '.'] + extension =~= before + "/index"@
        + seq!['.'] + extension);
    law_without_suffix(before, "/index"@);
}

/// Slashes at the beginning are trimmed off whatever does not begin with one.
proof fn lemma_trim_slashes(n: nat, text: Seq<char>)
    requires
        text.len() == 0 || text[0] != '/',
    ensures
        trim_start(Seq::new(n, |i: int| '/') + text, '/') == text,
    decreases n,
{
    let whole = Seq::new(n, |i: int| '/') + text;
    if n == 0 {
        assert(whole =~= text);
    } else {
        lemma_trim_slashes((n - 1) as nat, text);
        assert(whole.drop_first() =~= Seq::new((n - 1) as nat, |i: int| '/') + text);
    }
}

/// What a path is read as, said of its characters. Take segments that have no
/// slash, joined with slashes, behind any number of slashes (and the first of
/// them not empty, unless it is the only one). As the path of an index page, or
/// of a page of that name if it is not `index` itself, this has an expression
/// exactly where each segment that begins with `[` has a `]`. It has one segment
/// for each, in order: text for one that does not begin with `[`, a parameter
/// for `[name]`, and a catch-all for `[...name]`. Where it has none, the segments
/// as they were joined are what is said to be wrong.
pub proof fn law_path_is_read_by_segments(
    slashes: nat,
    texts: Seq<Seq<char>>,
    extension: Seq<char>,
)
    requires
        texts.len() > 0,
        forall|i: int| 0 <= i < texts.len() ==> !(#[trigger] texts[i]).contains('/'),
        texts.len() == 1 || texts[0].len() > 0,
        !extension.contains('.'),
    ensures
        ({
            let whole = Seq::new(slashes, |i: int| '/') + join(texts, '/');
            let index = whole + seq!['/', 'i', 'n', 'd', 'e', 'x', '.'] + extension;
            let named = whole + seq!['.'] + extension;
            &&& match route(Some(index)) {
                Ok(segments) => {
                    &&& forall|i: int|
                        0 <= i < texts.len() && (#[trigger] texts[i]).len() > 0 && texts[i][0]
                            == '[' ==> texts[i].contains(']')
                    &&& segments.len() == texts.len()
                    &&& forall|i: int|
                        0 <= i < texts.len() ==> match #[trigger] segments[i] {
                            Segment::Static(text) => text == texts[i] && (text.len() == 0 || text[0]
                                != '['),
                            Segment::Param { name, rest } => {
                                &&& texts[i] == seq!['['] + name + seq![']'] + rest
                                &&& !name.contains(']')
                                &&& !(name.len() >= 3 && name[0] == '.' && name[1] == '.' && name[2]
                                    == '.')
                            },
                            Segment::CatchAll { name, rest } => {
                                &&& texts[i] == seq!['[', '.', '.', '.'] + name + seq![']'] + rest
                                &&& !name.contains(']')
                            },
                        }
                },
                Err(fault) => {
                    &&& fault == PathFault::UnmatchedBracket(whole)
                    &&& exists|i: int|
                        0 <= i < texts.len() && (#[trigger] texts[i]).len() > 0 && texts[i][0]
                            == '[' && !texts[i].contains(']')
                },
            }
            &&& !(whole.len() >= 6 && whole.skip(whole.len() - 6) == seq![
                '/',
                'i',
                'n',
                'd',
                'e',
                'x',
            ]) ==> route(Some(named)) == route(Some(index))
        }),
{
    let joined = join(texts, '/');
    let whole = Seq::new(slashes, |i: int| '/') + joined;
    law_page_stem(whole, whole, extension);
    assert(joined.len() == 0 || joined[0] != '/') by {
        assert(!texts[0].contains('/'));
        if texts[0].len() > 0 {
            assert(joined[0] == texts[0][0]);
        } else {
            assert(joined =~= texts[0]);
        }
    }
    lemma_trim_slashes(slashes, joined);
    law_split_undoes_join(texts, '/');
    assert(segment_texts(whole) == texts);
    assert forall|i: int| 0 <= i < texts.len() implies (read_segment(#[trigger] texts[i]) is None
        <==> texts[i].len() > 0 && texts[i][0] == '[' && !texts[i].contains(']')) by {
        law_only_an_unmatched_bracket_is_refused(texts[i]);
    }
    if brackets_match(texts) {
        let segments = read_segments(texts);
        assert forall|i: int| 0 <= i < texts.len() implies match #[trigger] segments[i] {
            Segment::Static(text) => text == texts[i] && (text.len() == 0 || text[0] != '['),
            Segment::Param { name, rest } => {
                &&& texts[i] == seq!['['] + name + seq![']'] + rest
                &&& !name.contains(']')
                &&& !(name.len() >= 3 && name[0] == '.' && name[1] == '.' && name[2] == '.')
            },
            Segment::CatchAll { name, rest } => {
                &&& texts[i] == seq!['[', '.', '.', '.'] + name + seq![']'] + rest
                &&& !name.contains(']')
            },
        } by {
            assert(read_segment(texts[i]) is Some);
            law_reading_keeps_the_text(texts[i]);
        }
    }
}

/// A path outside of the server root is not read, nor is one without a dot; it
/// is said which.
pub proof fn law_unreadable_paths(path: Seq<char>)
    ensures
        route(None) == Err::<Seq<Segment>, PathFault>(PathFault::NotInServerRoot),
        !path.contains('.') <==> route(Some(path)) == Err::<Seq<Segment>, PathFault>(
            PathFault::NoExtension(path),
        ),
{
    law_page_stem(path, path, Seq::empty());
}

/// The fault that an error stands for, and the text of a path, are what they
/// hold.
pub proof fn law_views_of_paths(error: PathError, path: &str)
    ensures
        match error {
            PathError::NotInServerRoot => error@ == PathFault::NotInServerRoot,
            PathError::NoExtension { path: held } => error@ == PathFault::NoExtension(held@),
            PathError::UnmatchedBracket { path: held } => error@ == PathFault::UnmatchedBracket(
                held@,
            ),
        },
        text_of(Some(path)) == Some(path@),
        text_of(None) is None,
{
}

} // verus!
