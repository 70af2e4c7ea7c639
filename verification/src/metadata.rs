use crate::text::{chars_of, find_char, find_from, piece, split, split_ranges, stretch};
use vstd::prelude::*;

verus! {

/// What the first line of a post says of it: its title, the slug that names
/// it in addresses, and its date as written.
#[derive(Clone, Debug, PartialEq, Eq)]
pub struct SourceMetadata {
    pub title: String,
    pub slug: String,
    pub date: String,
}

/// A first line with fewer than three fields.
#[derive(Clone, Copy, Debug, PartialEq, Eq, Structural)]
pub struct MetadataFormatError;

/// A line without the line break that may end it.
pub open spec fn without_line_break(line: Seq<char>) -> Seq<char> {
    if line.len() > 0 && line.last() == '\n' {
        line.drop_last()
    } else {
        line
    }
}

/// The title, slug and date of a first line: its first three fields between
/// vertical bars, exactly as they stand, once the line break at its end is
/// left off. Further fields count for nothing; with fewer than three there is
/// no answer.
pub open spec fn header_fields(line: Seq<char>) -> Option<(Seq<char>, Seq<char>, Seq<char>)> {
    let fields = split(without_line_break(line), '|');
    if fields.len() >= 3 {
        Some((fields[0], fields[1], fields[2]))
    } else {
        None
    }
}

/// Reads title, slug and date from the first line of a post.
pub fn extract(first_line: &str) -> (r: Result<SourceMetadata, MetadataFormatError>)
    ensures
        match r {
            Ok(meta) => header_fields(first_line@) == Some((meta.title@, meta.slug@, meta.date@)),
            Err(_) => header_fields(first_line@) is None,
        },
{
    let mut chars = chars_of(first_line);
    if chars.len() > 0 && chars[chars.len() - 1] == '\n' {
        chars.pop();
    }
    assert(chars@ == without_line_break(first_line@));
    let fields = split_ranges(&chars, '|');
    if fields.len() < 3 {
        return Err(MetadataFormatError);
    }
    let (title_from, title_to) = fields[0];
    let (slug_from, slug_to) = fields[1];
    let (date_from, date_to) = fields[2];
    proof {
        let ghost parts = split(chars@, '|');
        assert(stretch(chars@, fields@[0]) == parts[0]);
        assert(stretch(chars@, fields@[1]) == parts[1]);
        assert(stretch(chars@, fields@[2]) == parts[2]);
        assert(first_line@.subrange(title_from as int, title_to as int) == parts[0]);
        assert(first_line@.subrange(slug_from as int, slug_to as int) == parts[1]);
        assert(first_line@.subrange(date_from as int, date_to as int) == parts[2]);
    }
    Ok(
        SourceMetadata {
            title: piece(first_line, title_from, title_to),
            slug: piece(first_line, slug_from, slug_to),
            date: piece(first_line, date_from, date_to),
        },
    )
}

/// Where the first line of `text` ends: behind its first line break, or at
/// the end of the text where it has none.
pub open spec fn first_line_end(text: Seq<char>) -> int {
    let at = find_char(text, '\n', 0);
    if at < text.len() {
        at + 1
    } else {
        text.len() as int
    }
}

/// The first line of `text`, with its line break.
pub open spec fn first_line(text: Seq<char>) -> Seq<char> {
    text.take(first_line_end(text))
}

/// What follows the first line of `text`.
pub open spec fn body(text: Seq<char>) -> Seq<char> {
    text.skip(first_line_end(text))
}

/// Parts a post into its first line and its body.
pub fn split_source(text: &str) -> (r: (String, String))
    ensures
        r.0@ == first_line(text@),
        r.1@ == body(text@),
        r.0@ + r.1@ == text@,
{
    let chars = chars_of(text);
    let at = find_from(&chars, '\n', 0);
    let end: usize = if at < chars.len() {
        at + 1
    } else {
        chars.len()
    };
    let head = piece(text, 0, end);
    let rest = piece(text, end, chars.len());
    assert(head@ =~= first_line(text@));
    assert(rest@ =~= body(text@));
    assert(head@ + rest@ =~= text@);
    (head, rest)
}

} // verus!
