//! Names inside path text: the final segment of a path and its stem.
//!
//! A path is read as plain text in which `/` separates the segments. What
//! stands behind the last named segment is set aside: separators, and
//! segments that are a single dot. So `a/b`, `a/b/` and `a/b/.` all end in the
//! segment `b`. A path has a name where that final segment is not empty and is
//! not the parent segment `..`.

use vstd::prelude::*;
use vstd::std_specs::iter::IteratorSpec;

verus! {

/// Whether the text ends in a segment that is a single dot: a dot that is the
/// whole text or follows a separator.
pub open spec fn ends_in_dot_segment(text: Seq<char>) -> bool {
    text.len() > 0 && text.last() == '.' && (text.len() == 1 || text[text.len() - 2] == '/')
}

/// The path without the separators and the single-dot segments at its end.
pub open spec fn trimmed(path: Seq<char>) -> Seq<char>
    decreases path.len(),
{
    if path.len() > 0 && (path.last() == '/' || ends_in_dot_segment(path)) {
        trimmed(path.drop_last())
    } else {
        path
    }
}

/// The longest tail of the text that holds no `/`.
pub open spec fn last_segment(text: Seq<char>) -> Seq<char>
    decreases text.len(),
{
    if text.len() == 0 || text.last() == '/' {
        Seq::empty()
    } else {
        last_segment(text.drop_last()).push(text.last())
    }
}

/// The final segment of a path, once the separators and the single-dot
/// segments at its end are set aside.
pub open spec fn final_segment(path: Seq<char>) -> Seq<char> {
    last_segment(trimmed(path))
}

/// Whether a segment is the parent segment `..`.
pub open spec fn is_parent(segment: Seq<char>) -> bool {
    segment.len() == 2 && segment[0] == '.' && segment[1] == '.'
}

/// Whether a path has a name: its final segment is not empty and is not the
/// parent segment. The empty path, `/`, `.` and every path that ends in `..`
/// have none.
pub open spec fn has_name(path: Seq<char>) -> bool {
    final_segment(path).len() > 0 && !is_parent(final_segment(path))
}

/// The name by which an entry is filtered: the final segment of its path, or
/// a single dot for a path that has no name.
pub open spec fn entry_name(path: Seq<char>) -> Seq<char> {
    if has_name(path) {
        final_segment(path)
    } else {
        seq!['.']
    }
}

/// The index of the last dot of a name, or `-1` where it holds none.
pub open spec fn last_dot(name: Seq<char>) -> int
    decreases name.len(),
{
    if name.len() == 0 {
        -1
    } else if name.last() == '.' {
        name.len() - 1
    } else {
        last_dot(name.drop_last())
    }
}

/// The stem of a file name: the name up to its last dot. A name without a dot,
/// and one whose only dot is its first character, is its own stem.
pub open spec fn stem(name: Seq<char>) -> Seq<char> {
    if last_dot(name) <= 0 {
        name
    } else {
        name.take(last_dot(name))
    }
}

/// The normalized name of a path: the stem of its final segment.
pub open spec fn normalized_name(path: Seq<char>) -> Seq<char> {
    stem(final_segment(path))
}

fn characters(path: &str) -> (chars: Vec<char>)
    ensures
        chars@ == path@,
{
    let mut rest = path.chars();
    let mut chars: Vec<char> = Vec::new();
    assert(path@.skip(0) =~= path@);
    assert(path@.take(0) =~= chars@);
    loop
        invariant
            chars@.len() <= path@.len(),
            chars@ == path@.take(chars@.len() as int),
            rest.remaining() == path@.skip(chars@.len() as int),
        ensures
            chars@ == path@,
        decreases path@.len() - chars@.len(),
    {
        let ghost seen = chars@.len() as int;
        match rest.next() {
            None => {
                assert(path@.take(seen) =~= path@);
                break ;
            },
            Some(c) => {
                chars.push(c);
                proof {
                    assert(c == path@[seen]);
                    assert(path@.skip(seen).drop_first() =~= path@.skip(seen + 1));
                    assert(path@.take(seen + 1) =~= path@.take(seen).push(c));
                }
            },
        }
    }
    chars
}

/// Whether the character before `end` is set aside: a separator, or the dot
/// of a single-dot segment.
fn set_aside(chars: &Vec<char>, end: usize) -> (aside: bool)
    requires
        end <= chars.len(),
    ensures
        aside == (end > 0 && (chars@[end - 1] == '/' || ends_in_dot_segment(
            chars@.take(end as int),
        ))),
{
    if end == 0 {
        false
    } else if chars[end - 1] == '/' {
        true
    } else if chars[end - 1] == '.' {
        end == 1 || chars[end - 2] == '/'
    } else {
        false
    }
}

/// Where the final segment of a path stands, counted in characters: from
/// `start` up to `end`.
struct Marks {
    start: usize,
    end: usize,
}

fn final_marks(chars: &Vec<char>) -> (m: Marks)
    ensures
        m.start <= m.end <= chars.len(),
        final_segment(chars@) == chars@.subrange(m.start as int, m.end as int),
{
    let mut end = chars.len();
    assert(chars@.take(end as int) =~= chars@);
    while set_aside(chars, end)
        invariant
            end <= chars.len(),
            trimmed(chars@) == trimmed(chars@.take(end as int)),
        decreases end,
    {
        assert(chars@.take(end as int).drop_last() =~= chars@.take(end - 1));
        end = end - 1;
    }
    let ghost kept = chars@.take(end as int);
    assert(trimmed(chars@) == kept);
    let mut start = end;
    assert(kept.take(start as int) =~= kept);
    assert(last_segment(kept) + kept.subrange(start as int, end as int) =~= last_segment(kept));
    while start > 0 && chars[start - 1] != '/'
        invariant
            start <= end <= chars.len(),
            kept == chars@.take(end as int),
            last_segment(kept) == last_segment(kept.take(start as int)) + kept.subrange(
                start as int,
                end as int,
            ),
        decreases start,
    {
        proof {
            let front = kept.take(start as int);
            assert(front.drop_last() =~= kept.take(start - 1));
            assert(last_segment(front.drop_last()).push(front.last()) + kept.subrange(
                start as int,
                end as int,
            ) =~= last_segment(front.drop_last()) + kept.subrange(start - 1, end as int));
        }
        start = start - 1;
    }
    proof {
        assert(last_segment(kept.take(start as int)) =~= Seq::<char>::empty());
        assert(last_segment(kept) =~= kept.subrange(start as int, end as int));
        assert(kept.subrange(start as int, end as int) =~= chars@.subrange(
            start as int,
            end as int,
        ));
    }
    Marks { start, end }
}

/// Whether the segment between the marks is a name.
fn named(chars: &Vec<char>, m: &Marks) -> (yes: bool)
    requires
        m.start <= m.end <= chars.len(),
    ensures
        yes == (m.end > m.start && !is_parent(chars@.subrange(m.start as int, m.end as int))),
{
    let length = m.end - m.start;
    if length == 0 {
        false
    } else if length == 2 {
        !(chars[m.start] == '.' && chars[m.start + 1] == '.')
    } else {
        true
    }
}

/// Where the stem of the segment between the marks ends.
fn stem_end(chars: &Vec<char>, m: &Marks) -> (end: usize)
    requires
        m.start <= m.end <= chars.len(),
    ensures
        m.start <= end <= m.end,
        stem(chars@.subrange(m.start as int, m.end as int)) == chars@.subrange(
            m.start as int,
            end as int,
        ),
{
    let ghost name = chars@.subrange(m.start as int, m.end as int);
    let mut at = m.end;
    assert(name.take(at - m.start) =~= name);
    while at > m.start && chars[at - 1] != '.'
        invariant
            m.start <= at <= m.end <= chars.len(),
            name == chars@.subrange(m.start as int, m.end as int),
            last_dot(name) == last_dot(name.take(at - m.start)),
        decreases at,
    {
        assert(name.take(at - m.start).drop_last() =~= name.take(at - 1 - m.start));
        at = at - 1;
    }
    if at > m.start && at - 1 > m.start {
        assert(name.take(at - 1 - m.start) =~= chars@.subrange(m.start as int, at - 1));
        at - 1
    } else {
        m.end
    }
}

/// The final segment of `path`, as a string of its own; `None` where the
/// path has no name.
pub fn file_name(path: &str) -> (name: Option<String>)
    ensures
        match name {
            Some(text) => has_name(path@) && text@ == final_segment(path@),
            None => !has_name(path@),
        },
{
    let chars = characters(path);
    let m = final_marks(&chars);
    if named(&chars, &m) {
        Some(path.substring_char(m.start, m.end).to_owned())
    } else {
        None
    }
}

/// The normalized name of `path`, its final segment without the extension;
/// `None` where the path has no name.
pub fn file_stem(path: &str) -> (name: Option<String>)
    ensures
        match name {
            Some(text) => has_name(path@) && text@ == normalized_name(path@),
            None => !has_name(path@),
        },
{
    let chars = characters(path);
    let m = final_marks(&chars);
    if named(&chars, &m) {
        let end = stem_end(&chars, &m);
        Some(path.substring_char(m.start, end).to_owned())
    } else {
        None
    }
}

} // verus!
