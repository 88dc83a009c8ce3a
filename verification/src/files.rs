//! The game file browser: which files can be viewed, and the filter of the
//! file list.

use vstd::prelude::*;

use crate::outside::{decimal_size, format_decimal_size, glob_match, glob_matches, glob_valid, GlobFilter};
use crate::text::{chars_of, concat_text, contains_chars, has_substring, same_chars, sub_chars, utf8_len, utf8_len_exceeds};

verus! {

/// `s` ends with `suffix`.
pub open spec fn ends_with(s: Seq<char>, suffix: Seq<char>) -> bool {
    s.len() >= suffix.len() && s.skip(s.len() - suffix.len()) == suffix
}

fn ends_with_text(s: &Vec<char>, suffix: &str) -> (r: bool)
    ensures
        r == ends_with(s@, suffix@),
{
    let suf = chars_of(suffix);
    if suf.len() > s.len() {
        return false;
    }
    let tail = sub_chars(s, s.len() - suf.len(), s.len());
    assert(tail@ =~= s@.skip(s@.len() - suf@.len()));
    same_chars(&tail, &suf)
}

/// How a file's contents can be shown.
#[derive(Debug, Copy, Clone, PartialEq, Eq, Structural)]
pub enum ViewableKind {
    PlainText,
    Image,
}

/// The plain-text extension the name ends with, among ".xml", ".json" and
/// ".txt", in that order.
pub open spec fn plaintext_extension(name: Seq<char>) -> Option<Seq<char>> {
    if ends_with(name, ".xml"@) {
        Some(".xml"@)
    } else if ends_with(name, ".json"@) {
        Some(".json"@)
    } else if ends_with(name, ".txt"@) {
        Some(".txt"@)
    } else {
        None
    }
}

/// The image extension the name ends with, among ".jpg", ".png" and ".svg",
/// in that order.
pub open spec fn image_extension(name: Seq<char>) -> Option<Seq<char>> {
    if ends_with(name, ".jpg"@) {
        Some(".jpg"@)
    } else if ends_with(name, ".png"@) {
        Some(".png"@)
    } else if ends_with(name, ".svg"@) {
        Some(".svg"@)
    } else {
        None
    }
}

/// No file name is both a plain-text file and an image: the extensions
/// differ in their last character.
pub proof fn law_viewable_kinds_exclusive(name: Seq<char>)
    ensures
        !(plaintext_extension(name) is Some && image_extension(name) is Some),
{
    reveal_strlit(".xml");
    reveal_strlit(".json");
    reveal_strlit(".txt");
    reveal_strlit(".jpg");
    reveal_strlit(".png");
    reveal_strlit(".svg");
    if plaintext_extension(name) is Some && image_extension(name) is Some {
        let p = plaintext_extension(name)->0;
        let i = image_extension(name)->0;
        assert(name.last() == p.last()) by {
            assert(name.skip(name.len() - p.len())[p.len() - 1] == p[p.len() - 1]);
        }
        assert(name.last() == i.last()) by {
            assert(name.skip(name.len() - i.len())[i.len() - 1] == i[i.len() - 1]);
        }
    }
}

/// Whether and how a file with this name can be viewed, with the extension
/// that decided it.
pub fn viewable_file(name: &str) -> (r: Option<(ViewableKind, &'static str)>)
    ensures
        match r {
            Some((ViewableKind::PlainText, ext)) => plaintext_extension(name@) == Some(ext@),
            Some((ViewableKind::Image, ext)) => plaintext_extension(name@) is None && image_extension(name@) == Some(
                ext@,
            ),
            None => plaintext_extension(name@) is None && image_extension(name@) is None,
        },
{
    let chars = chars_of(name);
    if ends_with_text(&chars, ".xml") {
        Some((ViewableKind::PlainText, ".xml"))
    } else if ends_with_text(&chars, ".json") {
        Some((ViewableKind::PlainText, ".json"))
    } else if ends_with_text(&chars, ".txt") {
        Some((ViewableKind::PlainText, ".txt"))
    } else if ends_with_text(&chars, ".jpg") {
        Some((ViewableKind::Image, ".jpg"))
    } else if ends_with_text(&chars, ".png") {
        Some((ViewableKind::Image, ".png"))
    } else if ends_with_text(&chars, ".svg") {
        Some((ViewableKind::Image, ".svg"))
    } else {
        None
    }
}

/// Whether a path stays in the list under a filter: a filter with a '*'
/// that `glob` accepts is matched as a glob pattern, any other filter as a
/// substring.
pub open spec fn kept_by_filter(filter: Seq<char>, path: Seq<char>) -> bool {
    if filter.contains('*') && glob_valid(filter) {
        glob_matches(filter, path)
    } else {
        has_substring(path, filter)
    }
}

/// The indices of the first `n` paths the filter keeps, in order.
pub open spec fn kept_indices(filter: Seq<char>, paths: Seq<Seq<char>>, n: int) -> Seq<usize>
    decreases n,
{
    if n <= 0 {
        Seq::empty()
    } else {
        let rest = kept_indices(filter, paths, n - 1);
        if kept_by_filter(filter, paths[n - 1]) {
            rest.push((n - 1) as usize)
        } else {
            rest
        }
    }
}

/// The file list under a filter, as indices into `paths`: `None` (no list)
/// for a filter shorter than three bytes, otherwise the paths it keeps, in
/// order.
pub fn filter_file_list(filter: &str, paths: &Vec<String>) -> (r: Option<Vec<usize>>)
    ensures
        r is None <==> utf8_len(filter@) < 3,
        r matches Some(v) ==> v@ == kept_indices(
            filter@,
            paths@.map_values(|p: String| p@),
            paths@.len() as int,
        ),
{
    let f = chars_of(filter);
    if !utf8_len_exceeds(&f, 2) {
        return None;
    }
    let star = chars_of("*");
    let has_star = contains_chars(&f, &star);
    proof {
        reveal_strlit("*");
        if has_star {
            let i = choose|i: int| 0 <= i && i + 1 <= f@.len() && #[trigger] f@.subrange(i, i + 1) == star@;
            assert(f@[i] == f@.subrange(i, i + 1)[0]);
        } else if filter@.contains('*') {
            let i = choose|i: int| 0 <= i < filter@.len() && filter@[i] == '*';
            assert(f@.subrange(i, i + 1) =~= star@);
        }
        assert(has_star == filter@.contains('*'));
    }
    let glob = if has_star {
        GlobFilter::compile(filter)
    } else {
        None
    };
    assert(has_star && glob is Some <==> (filter@.contains('*') && glob_valid(filter@)));
    let ghost views = paths@.map_values(|p: String| p@);
    let mut kept: Vec<usize> = Vec::new();
    let mut i: usize = 0;
    while i < paths.len()
        invariant
            i <= paths@.len(),
            views == paths@.map_values(|p: String| p@),
            f@ == filter@,
            (glob is Some) <==> (filter@.contains('*') && glob_valid(filter@)),
            glob matches Some(g) ==> g.spec_text() == filter@,
            kept@ == kept_indices(filter@, views, i as int),
        decreases paths@.len() - i,
    {
        assert(views[i as int] == paths@[i as int]@);
        let keep = match &glob {
            Some(g) => glob_match(g, paths[i].as_str()),
            None => {
                let path = chars_of(paths[i].as_str());
                contains_chars(&path, &f)
            },
        };
        if keep {
            kept.push(i);
        }
        i = i + 1;
    }
    Some(kept)
}


/// The hover text of an entry of the file list: a file with its size, or a
/// folder.
pub open spec fn spec_entry_hover_text(is_file: bool, size: u64) -> Seq<char> {
    if is_file {
        "File ("@ + decimal_size(size) + ")"@
    } else {
        "Folder"@
    }
}

/// Renders the hover text of an entry of the file list.
pub fn entry_hover_text(is_file: bool, size: u64) -> (r: String)
    ensures
        r@ == spec_entry_hover_text(is_file, size),
{
    if is_file {
        let formatted = format_decimal_size(size);
        let open = concat_text("File (", formatted.as_str());
        concat_text(open.as_str(), ")")
    } else {
        "Folder".to_owned()
    }
}

} // verus!
