//! Paths, as far as the statistics look into them.
//!
//! A path is seen as the sequence of its components; that is what paths are
//! compared by. File types are told apart by the upper-cased extension.
use vstd::prelude::*;
use vstd::utf8::{decode_utf8, decode_utf8_encode_utf8, valid_utf8};
use std::path::{Path, PathBuf};

verus! {

#[verifier::external_type_specification]
#[verifier::external_body]
pub struct ExPath(Path);

#[verifier::external_type_specification]
#[verifier::external_body]
pub struct ExPathBuf(PathBuf);

/// The components of a path, in order, as the standard library compares them.
pub uninterp spec fn path_components(p: PathBuf) -> Seq<Seq<u8>>;

/// The components of a path, in order, as they are written in it. Components that
/// compare as equal may be written differently, such as drive letters.
pub uninterp spec fn written_components(p: PathBuf) -> Seq<Seq<u8>>;

/// The bytes of a path as it was written, as `OsStr::as_encoded_bytes` gives them.
pub uninterp spec fn path_bytes(p: PathBuf) -> Seq<u8>;

/// The text of the file name of a path with these components, as
/// `Path::file_name` finds it: the final component when that names a file or
/// directory, with whatever is not Unicode replaced.
pub uninterp spec fn file_name_text(components: Seq<Seq<u8>>) -> Option<Seq<char>>;

/// The Unicode upper case of a text.
pub uninterp spec fn uppercase_of(text: Seq<char>) -> Seq<char>;

/// `path` lies at or below `base`: the components of `base` are the first
/// components of `path`.
pub open spec fn starts_with(path: PathBuf, base: PathBuf) -> bool {
    path_components(base).is_prefix_of(path_components(path))
}

/// Two paths name the same place: their components agree.
pub open spec fn same_path(a: PathBuf, b: PathBuf) -> bool {
    path_components(a) == path_components(b)
}

/// What follows the last dot of a file name. A name without a dot, or whose
/// only dot is its first character, has no extension.
pub open spec fn extension_of(name: Option<Seq<char>>) -> Option<Seq<char>> {
    match name {
        None => None,
        Some(n) => match n.index_of_last('.') {
            None => None,
            Some(k) => if k > 0 {
                Some(n.skip(k + 1))
            } else {
                None
            },
        },
    }
}

/// The text of an optional string.
pub open spec fn text_of(s: Option<String>) -> Option<Seq<char>> {
    match s {
        Some(t) => Some(t@),
        None => None,
    }
}

/// The text that these bytes encode, if they are Unicode text.
pub open spec fn unicode_text(bytes: Seq<u8>) -> Option<Seq<char>> {
    if valid_utf8(bytes) {
        Some(decode_utf8(bytes))
    } else {
        None
    }
}

/// The name under which files with this extension are counted.
pub open spec fn type_key(extension: Option<Seq<char>>) -> Option<Seq<char>> {
    match extension {
        Some(e) => Some(uppercase_of(e)),
        None => None,
    }
}

/// The name under which the file at this path is counted.
pub open spec fn file_type_of(p: PathBuf) -> Option<Seq<char>> {
    type_key(extension_of(file_name_text(path_components(p))))
}

/// Every character of the text is an ASCII character.
pub open spec fn all_ascii(text: Seq<char>) -> bool {
    forall|i: int| 0 <= i < text.len() ==> (#[trigger] text[i] as u32) < 128
}

/// The upper case of an ASCII character.
pub open spec fn ascii_upper(c: char) -> char {
    if 'a' <= c && c <= 'z' {
        ((c as u32) - 32) as char
    } else {
        c
    }
}

/// Compares two paths through `PathBuf`'s `==`, which compares component by
/// component.
#[verifier::external_body]
pub(crate) fn path_eq(a: &PathBuf, b: &PathBuf) -> (equal: bool)
    ensures
        equal == same_path(*a, *b),
{
    a == b
}

/// Calls `Path::starts_with`, which tells whether the components of `base` are
/// the first components of `path`, whole components only.
#[verifier::external_body]
pub(crate) fn path_starts_with(path: &PathBuf, base: &PathBuf) -> (below: bool)
    ensures
        below == starts_with(*path, *base),
{
    path.starts_with(base)
}

/// Calls `PathBuf`'s `clone`, which gives the same path.
#[verifier::external_body]
pub(crate) fn path_clone(p: &PathBuf) -> (copy: PathBuf)
    ensures
        copy == *p,
{
    p.clone()
}

/// Calls `Path::to_str`, which gives the path as text if it is Unicode.
#[verifier::external_body]
pub(crate) fn path_text(p: &PathBuf) -> (text: Option<String>)
    ensures
        text_of(text) == unicode_text(path_bytes(*p)),
{
    p.to_str().map(String::from)
}

/// Calls `Path::components` and takes each component as text if it is Unicode, as
/// `OsStr::to_str` does.
#[verifier::external_body]
pub(crate) fn component_texts(p: &PathBuf) -> (texts: Vec<Option<String>>)
    ensures
        texts@.map_values(|t: Option<String>| text_of(t)) == written_components(*p).map_values(
            |c: Seq<u8>| unicode_text(c),
        ),
{
    p.components().map(|c| c.as_os_str().to_str().map(String::from)).collect()
}

/// Calls `Path::extension`, which gives the part of the file name after its
/// last dot, and takes it as text with whatever is not Unicode replaced.
#[verifier::external_body]
pub(crate) fn path_extension(p: &PathBuf) -> (extension: Option<String>)
    ensures
        text_of(extension) == extension_of(file_name_text(path_components(*p))),
{
    match p.extension() {
        Some(e) => Some(String::from(e.to_string_lossy())),
        None => None,
    }
}

/// Calls `str::to_uppercase`. Beyond the name for its result, only what it does
/// to ASCII text is said: the letters `a` to `z` become `A` to `Z`.
#[verifier::external_body]
pub(crate) fn str_to_uppercase(s: &str) -> (upper: String)
    ensures
        upper@ == uppercase_of(s@),
        all_ascii(s@) ==> upper@ == s@.map_values(|c: char| ascii_upper(c)),
{
    s.to_uppercase()
}

/// The name under which files with this extension are counted: the extension in
/// upper case.
pub fn type_label(extension: Option<String>) -> (name: Option<String>)
    ensures
        text_of(name) == type_key(text_of(extension)),
        extension matches Some(e) ==> all_ascii(e@) ==> text_of(name) == Some(
            e@.map_values(|c: char| ascii_upper(c)),
        ),
        extension is Some <==> name is Some,
        extension matches Some(e) ==> name matches Some(t) ==> {
            &&& t@ == uppercase_of(e@)
            &&& (forall|i: int| 0 <= i < e@.len() ==> (#[trigger] e@[i] as u32) < 128) ==> {
                &&& t@.len() == e@.len()
                &&& forall|i: int|
                    0 <= i < e@.len() ==> (#[trigger] t@[i]) == if 'a' <= e@[i] && e@[i] <= 'z' {
                        ((e@[i] as u32) - 32) as char
                    } else {
                        e@[i]
                    }
            }
        },
{
    match extension {
        Some(e) => Some(str_to_uppercase(e.as_str())),
        None => None,
    }
}

/// The name under which the file at `path` is counted.
pub fn file_type(path: &PathBuf) -> (name: Option<String>)
    ensures
        text_of(name) == file_type_of(*path),
        match file_name_text(path_components(*path)) {
            None => name is None,
            Some(n) => {
                &&& name is None <==> forall|i: int| 1 <= i < n.len() ==> #[trigger] n[i] != '.'
                &&& name matches Some(t) ==> forall|i: int|
                    1 <= i < n.len() && (#[trigger] n[i]) == '.' && !n.skip(i + 1).contains('.')
                        ==> t@ == uppercase_of(n.skip(i + 1)) && ((forall|j: int|
                        i < j < n.len() ==> (#[trigger] n[j] as u32) < 128) ==> {
                        &&& t@.len() == n.len() - i - 1
                        &&& forall|j: int|
                            i < j < n.len() ==> t@[j - i - 1] == if 'a' <= (#[trigger] n[j]) && n[j]
                                <= 'z' {
                                ((n[j] as u32) - 32) as char
                            } else {
                                n[j]
                            }
                    })
            },
        },
{
    let extension = path_extension(path);
    let ghost found = extension;
    let name = type_label(extension);
    proof {
        law_text_of(found);
        law_text_of(name);
        if let Some(n) = file_name_text(path_components(*path)) {
            lemma_last_dot(n);
            assert forall|i: int|
                1 <= i < n.len() && (#[trigger] n[i]) == '.' && !n.skip(i + 1).contains(
                    '.',
                ) implies found is Some && found->0@ == n.skip(i + 1) by {
                law_extension_follows_last_dot(n.take(i), n.skip(i + 1));
                assert(n =~= n.take(i) + seq!['.'] + n.skip(i + 1));
            }
            if name is Some {
                let t = name->0;
                assert forall|i: int|
                    1 <= i < n.len() && (#[trigger] n[i]) == '.' && !n.skip(i + 1).contains('.') && (
                    forall|j: int| i < j < n.len() ==> (#[trigger] n[j] as u32) < 128) implies {
                    &&& t@.len() == n.len() - i - 1
                    &&& forall|j: int|
                        i < j < n.len() ==> t@[j - i - 1] == if 'a' <= (#[trigger] n[j]) && n[j]
                            <= 'z' {
                            ((n[j] as u32) - 32) as char
                        } else {
                            n[j]
                        }
                } by {
                    let e = n.skip(i + 1);
                    assert(found->0@ == e);
                    assert forall|q: int| 0 <= q < e.len() implies (#[trigger] e[q] as u32) < 128 by {
                        assert(e[q] == n[i + 1 + q]);
                    }
                    assert forall|j: int| i < j < n.len() implies t@[j - i - 1] == if 'a' <= (
                    #[trigger] n[j]) && n[j] <= 'z' {
                        ((n[j] as u32) - 32) as char
                    } else {
                        n[j]
                    } by {
                        assert(e[j - i - 1] == n[j]);
                    }
                }
            }
        }
    }
    name
}

/// Paths with the same components have the same file type.
pub proof fn law_same_path_same_type(a: PathBuf, b: PathBuf)
    requires
        same_path(a, b),
    ensures
        file_type_of(a) == file_type_of(b),
{
}

/// An extension never holds a dot: only what follows the last one counts.
pub proof fn law_extension_has_no_dot(name: Option<Seq<char>>)
    ensures
        extension_of(name) matches Some(e) ==> !e.contains('.'),
{
    if let Some(n) = name {
        n.index_of_last_ensures('.');
    }
}

/// The text of an optional string is there when the string is, and is its text.
pub proof fn law_text_of(s: Option<String>)
    ensures
        s is Some <==> text_of(s) is Some,
        s matches Some(t) ==> text_of(s) == Some(t@),
{
}

/// A name that is not empty before a dot, and has no dot after it, has what follows
/// that dot as its extension.
pub proof fn law_extension_follows_last_dot(stem: Seq<char>, end: Seq<char>)
    requires
        stem.len() > 0,
        !end.contains('.'),
    ensures
        extension_of(Some(stem + seq!['.'] + end)) == Some(end),
{
    let n = stem + seq!['.'] + end;
    let k = stem.len() as int;
    assert(n[k] == '.');
    assert(n.contains('.'));
    n.index_of_last_ensures('.');
    let last = n.index_of_last('.')->0;
    assert(n[last] == '.');
    if last > k {
        assert(end[last - k - 1] == '.');
    }
    if last < k {
        assert(n[k] != '.');
    }
    assert(n.skip(k + 1) =~= end);
}

/// A name with no dot after its first character has no extension.
pub proof fn law_no_dot_no_extension(n: Seq<char>)
    requires
        forall|i: int| 1 <= i < n.len() ==> #[trigger] n[i] != '.',
    ensures
        extension_of(Some(n)) is None,
        extension_of(None) is None,
{
    n.index_of_last_ensures('.');
}

/// Where a name has a dot after its first character, it has a last one.
proof fn lemma_last_dot(n: Seq<char>)
    ensures
        extension_of(Some(n)) is None <==> forall|i: int| 1 <= i < n.len() ==> #[trigger] n[i] != '.',
{
    n.index_of_last_ensures('.');
    if extension_of(Some(n)) is None {
        assert forall|i: int| 1 <= i < n.len() implies #[trigger] n[i] != '.' by {
            if n[i] == '.' {
                assert(n.contains('.'));
            }
        }
    } else {
        let last = n.index_of_last('.')->0;
        assert(n[last as int] == '.');
    }
}

/// A file is counted under the upper case of what follows the last dot of its name,
/// however long that is.
pub proof fn law_counted_under_extension(path: PathBuf, stem: Seq<char>, end: Seq<char>)
    requires
        file_name_text(path_components(path)) == Some(stem + seq!['.'] + end),
        stem.len() > 0,
        !end.contains('.'),
    ensures
        file_type_of(path) == Some(uppercase_of(end)),
{
    law_extension_follows_last_dot(stem, end);
}

/// A file whose name has no dot after its first character, or that has no name, is
/// counted among those without an extension.
pub proof fn law_counted_without_extension(path: PathBuf)
    requires
        file_name_text(path_components(path)) matches Some(n) ==> forall|i: int|
            1 <= i < n.len() ==> #[trigger] n[i] != '.',
    ensures
        file_type_of(path) is None,
{
    if let Some(n) = file_name_text(path_components(path)) {
        law_no_dot_no_extension(n);
    }
}

/// Two files with extensions are of one type if and only if their upper-cased
/// extensions agree.
pub proof fn law_one_type_for_one_extension(
    a: PathBuf,
    b: PathBuf,
    stem_a: Seq<char>,
    end_a: Seq<char>,
    stem_b: Seq<char>,
    end_b: Seq<char>,
)
    requires
        file_name_text(path_components(a)) == Some(stem_a + seq!['.'] + end_a),
        stem_a.len() > 0,
        !end_a.contains('.'),
        file_name_text(path_components(b)) == Some(stem_b + seq!['.'] + end_b),
        stem_b.len() > 0,
        !end_b.contains('.'),
    ensures
        file_type_of(a) == file_type_of(b) <==> uppercase_of(end_a) == uppercase_of(end_b),
{
    law_counted_under_extension(a, stem_a, end_a);
    law_counted_under_extension(b, stem_b, end_b);
}

/// Paths are the same if their components are, one by one, and a path lies at or
/// below another if it begins with all of its components.
pub proof fn law_paths_go_by_components(a: PathBuf, b: PathBuf)
    ensures
        same_path(a, b) <==> path_components(a).len() == path_components(b).len() && forall|i: int|
            0 <= i < path_components(a).len() ==> #[trigger] path_components(a)[i]
                == path_components(b)[i],
        starts_with(a, b) <==> path_components(b).len() <= path_components(a).len() && forall|i: int|
            0 <= i < path_components(b).len() ==> #[trigger] path_components(b)[i]
                == path_components(a)[i],
        same_path(a, b) <==> starts_with(a, b) && starts_with(b, a),
{
    let ca = path_components(a);
    let cb = path_components(b);
    if ca.len() == cb.len() && forall|i: int| 0 <= i < ca.len() ==> #[trigger] ca[i] == cb[i] {
        assert(ca =~= cb);
    }
    if cb.len() <= ca.len() && forall|i: int| 0 <= i < cb.len() ==> #[trigger] cb[i] == ca[i] {
        assert(cb =~= ca.subrange(0, cb.len() as int));
    }
    if starts_with(a, b) {
        assert forall|i: int| 0 <= i < cb.len() implies #[trigger] cb[i] == ca[i] by {
            assert(ca.subrange(0, cb.len() as int)[i] == ca[i]);
        }
    }
    if starts_with(a, b) && starts_with(b, a) {
        assert(ca =~= cb);
    }
}

/// Text is what its bytes encode in UTF-8, and nothing where they encode none;
/// different bytes never give the same text.
pub proof fn law_unicode_text(a: Seq<u8>, b: Seq<u8>)
    ensures
        valid_utf8(a) ==> unicode_text(a) == Some(decode_utf8(a)),
        !valid_utf8(a) ==> unicode_text(a) is None,
        unicode_text(a) is Some && unicode_text(a) == unicode_text(b) ==> a == b,
{
    if valid_utf8(a) {
        decode_utf8_encode_utf8(a);
    }
    if valid_utf8(b) {
        decode_utf8_encode_utf8(b);
    }
}

} // verus!
