//! Telling by its name whether a file can be ingested, and how.

use crate::strings::{after_last, find_after_last, from_chars, lower, lower_equals, to_chars};
use vstd::prelude::*;

verus! {

/// The kinds of file that text can be extracted from.
#[derive(Debug, Clone, Copy, PartialEq, Eq, Structural)]
pub enum FileKind {
    /// Plain text.
    Text,
    /// Markdown, read as plain text.
    Markdown,
    /// A PDF document.
    Pdf,
}

/// Where a path ends once the separators and `.` components at its end
/// are passed over: `a/b/`, `a/b/.` and `a/b` all name `b`.
pub open spec fn name_end(path: Seq<char>) -> int
    decreases path.len(),
{
    if path.len() > 0 && path.last() == '/' {
        name_end(path.drop_last())
    } else if path.len() >= 2 && path.last() == '.' && path[path.len() - 2] == '/' {
        name_end(path.drop_last())
    } else {
        path.len() as int
    }
}

/// The file name of a path: its last component, separators and `.`
/// components at the end aside. A path that ends in `..`, and one that is
/// nothing but separators and `.`, has none.
pub open spec fn file_name(path: Seq<char>) -> Option<Seq<char>> {
    let kept = path.take(name_end(path));
    let name = kept.skip(after_last(kept, '/'));
    if name.len() == 0 || name == seq!['.'] || name == seq!['.', '.'] {
        None
    } else {
        Some(name)
    }
}

/// The extension of the file that `path` names: what follows the last `.`
/// of the file name. A name without a `.`, or with its only `.` in front
/// (a hidden file), has none.
pub open spec fn extension(path: Seq<char>) -> Option<Seq<char>> {
    match file_name(path) {
        None => None,
        Some(name) => {
            let dot = after_last(name, '.');
            if dot <= 1 {
                None
            } else {
                Some(name.skip(dot))
            }
        },
    }
}

/// The kind of the file that `path` names, told by its extension without
/// regard to the case of ASCII letters.
pub open spec fn kind_of(path: Seq<char>) -> Option<FileKind> {
    match extension(path) {
        None => None,
        Some(ext) => if lower(ext) == "txt"@ {
            Some(FileKind::Text)
        } else if lower(ext) == "md"@ {
            Some(FileKind::Markdown)
        } else if lower(ext) == "pdf"@ {
            Some(FileKind::Pdf)
        } else {
            None
        },
    }
}

/// Where in the characters of a path the file name begins and ends, if it
/// has one.
fn file_name_bounds(chars: &Vec<char>) -> (bounds: Option<(usize, usize)>)
    ensures
        match bounds {
            Some((start, end)) => start <= end <= chars@.len() && file_name(chars@) == Some(
                chars@.subrange(start as int, end as int),
            ),
            None => file_name(chars@) is None,
        },
{
    let mut end: usize = chars.len();
    assert(chars@.take(end as int) =~= chars@);
    while end > 0 && (chars[end - 1] == '/' || (end >= 2 && chars[end - 1] == '.' && chars[end
        - 2] == '/'))
        invariant
            end <= chars@.len(),
            name_end(chars@) == name_end(chars@.take(end as int)),
        decreases end,
    {
        assert(chars@.take(end as int).drop_last() =~= chars@.take(end - 1));
        end -= 1;
    }
    let ghost kept = chars@.take(end as int);
    assert(name_end(kept) == end);
    assert(kept =~= chars@.subrange(0, end as int));
    let start = find_after_last(chars, 0, end, '/');
    assert(kept.skip(start as int) =~= chars@.subrange(start as int, end as int));
    let len = end - start;
    if len == 0 || (len == 1 && chars[start] == '.') || (len == 2 && chars[start] == '.'
        && chars[start + 1] == '.') {
        proof {
            let name = chars@.subrange(start as int, end as int);
            if len == 1 {
                assert(name =~= seq!['.']);
            }
            if len == 2 {
                assert(name =~= seq!['.', '.']);
            }
        }
        None
    } else {
        proof {
            let name = chars@.subrange(start as int, end as int);
            if name == seq!['.'] {
                assert(name[0] == '.');
            }
            if name == seq!['.', '.'] {
                assert(name[0] == '.' && name[1] == '.');
            }
        }
        Some((start, end))
    }
}

/// Where in the characters of a path the extension begins and ends, if it
/// has one.
fn extension_bounds(chars: &Vec<char>) -> (bounds: Option<(usize, usize)>)
    ensures
        match bounds {
            Some((start, end)) => start <= end <= chars@.len() && extension(chars@) == Some(
                chars@.subrange(start as int, end as int),
            ),
            None => extension(chars@) is None,
        },
{
    match file_name_bounds(chars) {
        None => None,
        Some((start, end)) => {
            let dot = find_after_last(chars, start, end, '.');
            if dot - start <= 1 {
                None
            } else {
                assert(chars@.subrange(start as int, end as int).skip(dot - start)
                    =~= chars@.subrange(dot as int, end as int));
                Some((dot, end))
            }
        },
    }
}

/// The file name of `path`.
pub fn file_name_of(path: &str) -> (name: Option<String>)
    ensures
        match name {
            Some(n) => file_name(path@) == Some(n@),
            None => file_name(path@) is None,
        },
{
    let chars = to_chars(path);
    match file_name_bounds(&chars) {
        Some((start, end)) => Some(from_chars(&chars, start, end)),
        None => None,
    }
}

/// The extension of the file that `path` names.
pub fn extension_of(path: &str) -> (ext: Option<String>)
    ensures
        match ext {
            Some(e) => extension(path@) == Some(e@),
            None => extension(path@) is None,
        },
{
    let chars = to_chars(path);
    match extension_bounds(&chars) {
        Some((start, end)) => Some(from_chars(&chars, start, end)),
        None => None,
    }
}

/// Whether the file that `path` names has the extension `word`, where
/// `word` is in lower case and the case of ASCII letters does not count.
pub fn has_extension(path: &str, word: &str) -> (yes: bool)
    ensures
        yes == match extension(path@) {
            Some(ext) => lower(ext) == word@,
            None => false,
        },
{
    let chars = to_chars(path);
    match extension_bounds(&chars) {
        Some((start, end)) => lower_equals(&chars, start, end, word),
        None => false,
    }
}

/// The kind of the file that `path` names.
pub fn file_kind(path: &str) -> (kind: Option<FileKind>)
    ensures
        kind == kind_of(path@),
{
    let chars = to_chars(path);
    match extension_bounds(&chars) {
        None => None,
        Some((start, end)) => {
            if lower_equals(&chars, start, end, "txt") {
                Some(FileKind::Text)
            } else if lower_equals(&chars, start, end, "md") {
                Some(FileKind::Markdown)
            } else if lower_equals(&chars, start, end, "pdf") {
                Some(FileKind::Pdf)
            } else {
                None
            }
        },
    }
}

/// Whether text can be extracted from the file that `path` names: whether
/// its extension is `txt`, `md` or `pdf`, in any case of letters.
pub fn is_supported_file(path: &str) -> (yes: bool)
    ensures
        yes == (kind_of(path@) is Some),
{
    file_kind(path).is_some()
}

} // verus!
