use crate::date::{parse_date, Date};
use crate::markup::{convert, markdown_html};
use crate::math::{has_math, math_rendered, render_math};
use crate::metadata::{body, extract, first_line, header_fields, split_source};
use crate::text::{chars_of, find_last, last_occurrence, lemma_last_occurrence, piece};
use vstd::prelude::*;
use vstd::string::StringExecFns;

verus! {

/// A post as it comes in: the name of its file, without directories, and
/// all that the file holds.
#[derive(Clone, Debug, PartialEq, Eq)]
pub struct SourceFile {
    pub name: String,
    pub text: String,
}

/// A post ready to be published: what its first line said of it, its body as
/// HTML, and the place where its page goes.
#[derive(Clone, Debug, PartialEq, Eq)]
pub struct BlogEntry {
    pub title: String,
    pub path: String,
    pub slug: String,
    pub date: Date,
    pub content: String,
}

/// A post as contracts speak of it.
pub struct EntryView {
    pub title: Seq<char>,
    pub path: Seq<char>,
    pub slug: Seq<char>,
    pub date: Date,
    pub content: Seq<char>,
}

impl View for BlogEntry {
    type V = EntryView;

    open spec fn view(&self) -> EntryView {
        EntryView {
            title: self.title@,
            path: self.path@,
            slug: self.slug@,
            date: self.date,
            content: self.content@,
        }
    }
}

/// Why a post could not be made ready.
#[derive(Clone, Copy, Debug, PartialEq, Eq, Structural)]
pub enum BuildError {
    /// Its first line has fewer than three fields.
    MetadataFormat,
    /// The third field of its first line writes no date.
    DateParse,
    /// The mathematics engine refused one of its expressions.
    MathRender,
}

/// The position of the last full stop in `name`, or -1 where it has none.
pub open spec fn last_dot(name: Seq<char>) -> int {
    last_occurrence(name, seq!['.'], 0, name.len() - 1)
}

/// The extension of a file's name: what follows its last full stop, unless
/// that full stop begins the name.
pub open spec fn extension(name: Seq<char>) -> Option<Seq<char>> {
    if last_dot(name) > 0 {
        Some(name.skip(last_dot(name) + 1))
    } else {
        None
    }
}

/// A file's name without its extension and the full stop before it.
pub open spec fn stem(name: Seq<char>) -> Seq<char> {
    if last_dot(name) > 0 {
        name.take(last_dot(name))
    } else {
        name
    }
}

/// Whether a file of this name holds a post: its extension is `md`.
pub open spec fn is_source_name(name: Seq<char>) -> bool {
    extension(name) == Some(seq!['m', 'd'])
}

/// The name of the page made from the file named `name`: the same name with
/// `html` for its extension.
pub open spec fn page_name(name: Seq<char>) -> Seq<char> {
    stem(name) + ".html"@
}

/// The place of the file named `file` in the directory `dir`.
pub open spec fn joined(dir: Seq<char>, file: Seq<char>) -> Seq<char> {
    if dir.len() == 0 || dir.last() == '/' {
        dir + file
    } else {
        dir + "/"@ + file
    }
}

/// The place of the page made from the file named `name`, in the directory
/// `dir`.
pub open spec fn page_path(dir: Seq<char>, name: Seq<char>) -> Seq<char> {
    joined(dir, page_name(name))
}

/// Finds the last full stop of a name.
fn find_last_dot(chars: &Vec<char>) -> (r: Option<usize>)
    ensures
        match r {
            Some(q) => q == last_dot(chars@) && q < chars.len(),
            None => last_dot(chars@) == -1,
        },
{
    let mut dot: Vec<char> = Vec::new();
    dot.push('.');
    assert(dot@ =~= seq!['.']);
    proof {
        lemma_last_occurrence(chars@, seq!['.'], 0, chars@.len() - 1);
    }
    find_last(chars, &dot, 0, chars.len())
}

/// Whether a file of this name holds a post.
pub fn has_source_name(name: &str) -> (r: bool)
    ensures
        r == is_source_name(name@),
{
    let chars = chars_of(name);
    match find_last_dot(&chars) {
        Some(q) => {
            let found = q > 0 && chars.len() - q == 3 && chars[q + 1] == 'm' && chars[q + 2] == 'd';
            proof {
                if q > 0 {
                    let ghost ext = chars@.skip(q + 1);
                    if found {
                        assert(ext =~= seq!['m', 'd']);
                    } else if ext == seq!['m', 'd'] {
                        assert(ext.len() == 2);
                        assert(ext[0] == 'm' && ext[1] == 'd');
                    }
                }
            }
            found
        },
        None => false,
    }
}

/// The place of the page made from the file named `name`, in the directory
/// `dir`.
pub fn page_path_of(dir: &str, name: &str) -> (r: String)
    ensures
        r@ == page_path(dir@, name@),
{
    let chars = chars_of(name);
    let end: usize = match find_last_dot(&chars) {
        Some(q) => if q > 0 {
            q
        } else {
            chars.len()
        },
        None => chars.len(),
    };
    let dir_chars = chars_of(dir);
    let mut out = String::from_str(dir);
    if dir_chars.len() > 0 && dir_chars[dir_chars.len() - 1] != '/' {
        out.append("/");
    }
    out.append(piece(name, 0, end).as_str());
    out.append(".html");
    proof {
        assert(name@.subrange(0, end as int) =~= stem(name@));
        assert(out@ =~= page_path(dir@, name@));
    }
    out
}

/// The post that the file named `name` with the contents `text` makes, to be
/// published under `dir`, provided that the mathematics engine accepts what
/// the post hands it; or the reason why the first line allows none.
pub open spec fn planned_entry(dir: Seq<char>, name: Seq<char>, text: Seq<char>) -> Result<
    EntryView,
    BuildError,
> {
    match header_fields(first_line(text)) {
        None => Err(BuildError::MetadataFormat),
        Some(fields) => match parse_date(fields.2) {
            None => Err(BuildError::DateParse),
            Some(date) => Ok(
                EntryView {
                    title: fields.0,
                    path: page_path(dir, name),
                    slug: fields.1,
                    date,
                    content: markdown_html(math_rendered(body(text))),
                },
            ),
        },
    }
}

/// Makes a post ready: reads its first line, renders the mathematics of its
/// body and converts the body to HTML. A first line that will not do is
/// reported before the body is looked at. The engine's refusal is the only
/// other way to fail, and a body without mathematics never meets it.
pub fn build_entry(dir: &str, source: &SourceFile) -> (r: Result<BlogEntry, BuildError>)
    ensures
        match r {
            Ok(entry) => planned_entry(dir@, source.name@, source.text@) == Ok::<
                EntryView,
                BuildError,
            >(entry@),
            Err(BuildError::MathRender) => planned_entry(dir@, source.name@, source.text@) is Ok
                && has_math(body(source.text@)),
            Err(e) => planned_entry(dir@, source.name@, source.text@) == Err::<
                EntryView,
                BuildError,
            >(e),
        },
{
    let (head, rest) = split_source(source.text.as_str());
    let meta = match extract(head.as_str()) {
        Ok(meta) => meta,
        Err(_) => {
            return Err(BuildError::MetadataFormat);
        },
    };
    let date = match Date::from_str(meta.date.as_str()) {
        Ok(date) => date,
        Err(_) => {
            return Err(BuildError::DateParse);
        },
    };
    let with_math = match render_math(rest.as_str()) {
        Ok(text) => text,
        Err(_) => {
            return Err(BuildError::MathRender);
        },
    };
    let content = convert(with_math.as_str());
    let path = page_path_of(dir, source.name.as_str());
    Ok(BlogEntry { title: meta.title, path, slug: meta.slug, date, content })
}

} // verus!
