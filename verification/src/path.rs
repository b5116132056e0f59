//! File names, their extensions, and the paths of directory entries.
//!
//! Names and paths are text. The components of a path are parted by `/`.

use vstd::prelude::*;
use vstd::std_specs::iter::IteratorSpec;

verus! {

/// The extension of a file name: what follows its last dot.
///
/// A name without a dot has no extension, nor has a name whose only dot is its
/// first character, nor the name `..`.
pub open spec fn extension_of(name: Seq<char>) -> Option<Seq<char>> {
    match name.index_of_last('.') {
        Some(dot) if dot > 0 && name != seq!['.', '.'] => Some(name.skip(dot + 1)),
        _ => None,
    }
}

/// Whether a file called `name` passes for one with the extension `target`: its
/// extension, or the empty text where it has none, is `target` character for character.
pub open spec fn matches_extension(name: Seq<char>, target: Seq<char>) -> bool {
    match extension_of(name) {
        Some(ext) => ext == target,
        None => target.len() == 0,
    }
}

/// The path of the entry called `name` in the directory `dir`: the two with one `/`
/// between them, unless `dir` is empty or ends in `/` already. A `name` that starts
/// with `/` is a path from the root and stands for itself.
pub open spec fn entry_path(dir: Seq<char>, name: Seq<char>) -> Seq<char> {
    if name.len() > 0 && name[0] == '/' {
        name
    } else if dir.len() == 0 || dir.last() == '/' {
        dir + name
    } else {
        dir.push('/') + name
    }
}

/// The extension of `name`, if it has one.
pub fn extension(name: &str) -> (ext: Option<&str>)
    ensures
        match ext {
            Some(ext) => extension_of(name@) == Some(ext@),
            None => extension_of(name@) is None,
        },
{
    let len: usize = name.unicode_len();
    let mut count: usize = 0;
    let mut dot: Option<usize> = None;
    for c in it: name.chars()
        invariant
            count == it.index(),
            len == name@.len(),
            it.seq() == name@,
            marks_last_dot(name@, count as int, dot),
    {
        if c == '.' {
            dot = Some(count);
        }
        count = count + 1;
    }
    proof {
        lemma_marked_dot_is_last(name@, dot);
    }
    match dot {
        Some(dot) => {
            if dot == 0 || (len == 2 && name.get_char(0) == '.') {
                assert(dot != 0 ==> name@ =~= seq!['.', '.']);
                None
            } else {
                let ext = name.substring_char(dot + 1, len);
                Some(ext)
            }
        },
        None => None,
    }
}

/// Whether the extension of `name` is exactly `target`; a name without an extension
/// counts as having the empty one.
pub fn has_extension(name: &str, target: &str) -> (matches: bool)
    ensures
        matches == matches_extension(name@, target@),
{
    match extension(name) {
        Some(ext) => same_text(ext, target),
        None => target.unicode_len() == 0,
    }
}

/// The path of the entry called `name` in the directory `dir`.
pub fn join(dir: &str, name: &str) -> (path: String)
    ensures
        path@ == entry_path(dir@, name@),
{
    if name.unicode_len() > 0 && name.get_char(0) == '/' {
        return String::from_str(name);
    }
    let dir_len: usize = dir.unicode_len();
    let mut path = String::from_str(dir);
    if dir_len > 0 && dir.get_char(dir_len - 1) != '/' {
        proof {
            reveal_strlit("/");
        }
        path.append("/");
    }
    path.append(name);
    path
}

/// Whether `a` and `b` hold the same characters.
fn same_text(a: &str, b: &str) -> (same: bool)
    ensures
        same == (a@ == b@),
{
    broadcast use vstd::string::group_string_axioms;

    let mut rest = b.chars();
    for c in it: a.chars()
        invariant
            it.seq() == a@,
            rest.obeys_prophetic_iter_laws(),
            rest.remaining() == b@.skip(it.index()),
            it.index() <= b@.len(),
            a@.take(it.index()) == b@.take(it.index()),
    {
        match rest.next() {
            Some(d) => {
                if c != d {
                    return false;
                }
            },
            None => {
                return false;
            },
        }
    }
    proof {
        let shared = a@.len() as int;
        assert(a@.take(shared) =~= a@);
    }
    rest.next().is_none()
}

/// Whether `dot` says where the last dot among the first `upto` characters of `name`
/// stands.
spec fn marks_last_dot(name: Seq<char>, upto: int, dot: Option<usize>) -> bool {
    match dot {
        Some(dot) => dot < upto && name[dot as int] == '.' && forall|j: int|
            dot < j < upto ==> name[j] != '.',
        None => forall|j: int| 0 <= j < upto ==> name[j] != '.',
    }
}

proof fn lemma_marked_dot_is_last(name: Seq<char>, dot: Option<usize>)
    requires
        marks_last_dot(name, name.len() as int, dot),
    ensures
        match dot {
            Some(dot) => name.index_of_last('.') == Some(dot as int),
            None => name.index_of_last('.') is None,
        },
{
    name.index_of_last_ensures('.');
}

/// A name made of a stem, a dot and an extension that holds no dot has that extension. The
/// stem must not be empty, and the name must not be `..`.
pub proof fn lemma_extension_follows_stem(stem: Seq<char>, ext: Seq<char>)
    requires
        stem.len() > 0,
        !ext.contains('.'),
        stem.push('.') + ext != seq!['.', '.'],
    ensures
        extension_of(stem.push('.') + ext) == Some(ext),
{
    let name = stem.push('.') + ext;
    let dot = stem.len() as int;
    name.index_of_last_ensures('.');
    assert(name[dot] == '.');
    assert forall|j: int| dot < j < name.len() implies name[j] != '.' by {
        assert(name[j] == ext[j - dot - 1]);
    }
    assert(name.skip(dot + 1) =~= ext);
}

/// A name with an extension is made of a stem that is not empty, a dot, and the extension,
/// which holds no dot.
pub proof fn lemma_extension_splits_name(name: Seq<char>)
    requires
        extension_of(name) is Some,
    ensures
        ({
            let ext = extension_of(name)->0;
            let stem = name.take(name.len() - ext.len() - 1);
            &&& stem.len() > 0
            &&& !ext.contains('.')
            &&& name == stem.push('.') + ext
        }),
{
    name.index_of_last_ensures('.');
    let dot = name.index_of_last('.')->0;
    let ext = name.skip(dot + 1);
    let stem = name.take(dot);
    assert(name =~= stem.push('.') + ext);
    if ext.contains('.') {
        let at = choose|at: int| 0 <= at < ext.len() && ext[at] == '.';
        assert(name[dot + 1 + at] == '.');
    }
}

/// A name passes for one with the extension `target`, where that is not empty, only if
/// it ends in a dot and `target`, character for character. So a letter in the other case
/// does not pass, nor does anything that follows the extension.
pub proof fn lemma_extension_is_matched_exactly(name: Seq<char>, target: Seq<char>)
    requires
        matches_extension(name, target),
        target.len() > 0,
    ensures
        name.len() > target.len() + 1,
        name[name.len() - target.len() - 1] == '.',
        name.skip(name.len() - target.len()) == target,
{
    lemma_extension_splits_name(name);
}

} // verus!
