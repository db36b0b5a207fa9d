//! Paths as text: the key under which a path is looked up, whether a path
//! lies below another, and the type of a file by its extension.

use vstd::prelude::*;
use vstd::string::*;
use crate::model::{path_components, split_components, texts_of};
use crate::text::{begins_with, chars_of, lower_ascii, starts_with, text_of, to_lower_ascii};

verus! {

/// A character of a path as it stands in the path's key: a backslash
/// becomes a slash, an ASCII capital its small letter.
pub open spec fn key_char(ch: char) -> char {
    if ch == '\\' {
        '/'
    } else {
        lower_ascii(ch)
    }
}

/// The key of a path: the path with slashes for backslashes and small
/// letters for ASCII capitals, so that two spellings of one path on a
/// file system that does not tell them apart have one key.
pub open spec fn path_key(path: Seq<char>) -> Seq<char> {
    Seq::new(path.len(), |i: int| key_char(path[i]))
}

/// Whether the path with key `path` is the path with key `root` or lies
/// below it.
pub open spec fn key_within(path: Seq<char>, root: Seq<char>) -> bool {
    path == root || starts_with(
        path,
        if root.len() > 0 && root.last() == '/' {
            root
        } else {
            root.push('/')
        },
    )
}

fn key_chars(path: &str) -> (key: Vec<char>)
    ensures
        key@ == path_key(path@),
{
    let chars = chars_of(path);
    let mut key: Vec<char> = Vec::new();
    let mut i: usize = 0;
    while i < chars.len()
        invariant
            i <= chars.len(),
            chars@ == path@,
            key@ == path_key(path@).subrange(0, i as int),
        decreases chars.len() - i,
    {
        let ch = chars[i];
        if ch == '\\' {
            key.push('/');
        } else {
            key.push(to_lower_ascii(ch));
        }
        i += 1;
        proof {
            assert(key@ =~= path_key(path@).subrange(0, i as int));
        }
    }
    proof {
        assert(path_key(path@).subrange(0, chars.len() as int) =~= path_key(path@));
    }
    key
}

/// The key of a path.
pub fn normalize_path_key(path: &str) -> (key: String)
    ensures
        key@ == path_key(path@),
{
    let chars = key_chars(path);
    let key = text_of(&chars, 0, chars.len());
    proof {
        assert(chars@.subrange(0, chars.len() as int) =~= chars@);
    }
    key
}

fn same_chars(a: &Vec<char>, b: &Vec<char>) -> (same: bool)
    ensures
        same == (a@ == b@),
{
    if a.len() != b.len() {
        return false;
    }
    let mut i: usize = 0;
    while i < a.len()
        invariant
            i <= a.len() == b.len(),
            forall|k: int| 0 <= k < i ==> a@[k] == b@[k],
        decreases a.len() - i,
    {
        if a[i] != b[i] {
            return false;
        }
        i += 1;
    }
    proof {
        assert(a@ =~= b@);
    }
    true
}

/// Whether `path` is `root` or lies below it, both taken by their keys.
pub fn path_within_root(path: &str, root: &str) -> (within: bool)
    ensures
        within == key_within(path_key(path@), path_key(root@)),
{
    let path_key = key_chars(path);
    let root_key = key_chars(root);
    if same_chars(&path_key, &root_key) {
        return true;
    }
    if root_key.len() > 0 && root_key[root_key.len() - 1] == '/' {
        begins_with(&path_key, &root_key, None)
    } else {
        begins_with(&path_key, &root_key, Some('/'))
    }
}


/// White space: the characters that Unicode gives the property of that
/// name.
pub open spec fn is_space(ch: char) -> bool {
    let code = ch as u32;
    ||| 0x09 <= code <= 0x0d
    ||| code == 0x20
    ||| code == 0x85
    ||| code == 0xa0
    ||| code == 0x1680
    ||| 0x2000 <= code <= 0x200a
    ||| code == 0x2028
    ||| code == 0x2029
    ||| code == 0x202f
    ||| code == 0x205f
    ||| code == 0x3000
}

/// Whether `ch` is white space.
pub fn is_white_space(ch: char) -> (space: bool)
    ensures
        space == is_space(ch),
{
    let code = ch as u32;
    (0x09 <= code && code <= 0x0d) || code == 0x20 || code == 0x85 || code == 0xa0 || code
        == 0x1680 || (0x2000 <= code && code <= 0x200a) || code == 0x2028 || code == 0x2029
        || code == 0x202f || code == 0x205f || code == 0x3000
}

/// The position of the last dot before `upto`, or -1 where there is none.
pub open spec fn last_dot(name: Seq<char>, upto: int) -> int
    decreases upto,
{
    if upto <= 0 {
        -1
    } else if name[upto - 1] == '.' {
        upto - 1
    } else {
        last_dot(name, upto - 1)
    }
}

/// The first position from `from` on that holds no white space.
pub open spec fn skip_front(text: Seq<char>, from: int) -> int
    decreases text.len() - from,
{
    if 0 <= from < text.len() && is_space(text[from]) {
        skip_front(text, from + 1)
    } else {
        from
    }
}

/// The end of `text[from..to]` without the white space at its end.
pub open spec fn skip_back(text: Seq<char>, from: int, to: int) -> int
    decreases to - from,
{
    if from < to <= text.len() && is_space(text[to - 1]) {
        skip_back(text, from, to - 1)
    } else {
        to
    }
}

/// `text` without the white space at its beginning and at its end.
pub open spec fn trimmed(text: Seq<char>) -> Seq<char> {
    let from = skip_front(text, 0);
    text.subrange(from, skip_back(text, from, text.len() as int))
}

/// The extension of the last component of a path: what follows its last
/// dot, unless that dot is its first character.
pub open spec fn extension_of(path: Seq<char>) -> Option<Seq<char>> {
    let parts = path_components(path);
    if parts.len() == 0 {
        None
    } else {
        let name = parts.last();
        let dot = last_dot(name, name.len() as int);
        if dot <= 0 {
            None
        } else {
            Some(name.subrange(dot + 1, name.len() as int))
        }
    }
}

/// `text` with small letters for ASCII capitals.
pub open spec fn lowered(text: Seq<char>) -> Seq<char> {
    Seq::new(text.len(), |i: int| lower_ascii(text[i]))
}

/// The type of the file at `path`: its extension, trimmed and in small
/// letters, or `(no_ext)` where that is empty or there is none.
pub open spec fn type_key(path: Seq<char>) -> Seq<char> {
    match extension_of(path) {
        Some(extension) => if trimmed(extension).len() == 0 {
            "(no_ext)"@
        } else {
            lowered(trimmed(extension))
        },
        None => "(no_ext)"@,
    }
}

/// The type of the file at `path`, by its extension.
pub fn file_type_key(path: &str) -> (key: String)
    ensures
        key@ == type_key(path@),
{
    let parts = split_components(path);
    if parts.len() == 0 {
        return String::from_str("(no_ext)");
    }
    let name = chars_of(parts[parts.len() - 1].as_str());
    proof {
        assert(texts_of(parts@).last() == parts@[parts.len() - 1]@);
    }
    let mut dot: usize = name.len();
    while dot > 0 && name[dot - 1] != '.'
        invariant
            dot <= name.len(),
            last_dot(name@, name.len() as int) == last_dot(name@, dot as int),
        decreases dot,
    {
        dot -= 1;
    }
    if dot <= 1 {
        return String::from_str("(no_ext)");
    }
    let ghost extension = name@.subrange(dot as int, name.len() as int);
    let mut from: usize = dot;
    while from < name.len() && is_white_space(name[from])
        invariant
            dot <= from <= name.len(),
            extension == name@.subrange(dot as int, name.len() as int),
            skip_front(extension, 0) == skip_front(extension, from - dot),
        decreases name.len() - from,
    {
        proof {
            assert(extension[from - dot] == name@[from as int]);
        }
        from += 1;
    }
    proof {
        if from < name.len() {
            assert(extension[from - dot] == name@[from as int]);
        }
    }
    let mut to: usize = name.len();
    while to > from && is_white_space(name[to - 1])
        invariant
            dot <= from <= to <= name.len(),
            extension == name@.subrange(dot as int, name.len() as int),
            skip_back(extension, from - dot, extension.len() as int) == skip_back(
                extension,
                from - dot,
                to - dot,
            ),
        decreases to,
    {
        proof {
            assert(extension[to - 1 - dot] == name@[to - 1]);
        }
        to -= 1;
    }
    proof {
        if to > from {
            assert(extension[to - 1 - dot] == name@[to - 1]);
        }
        assert(trimmed(extension) =~= name@.subrange(from as int, to as int));
    }
    if from == to {
        return String::from_str("(no_ext)");
    }
    let mut key = String::new();
    let mut i: usize = from;
    while i < to
        invariant
            from <= i <= to <= name.len(),
            key@ == lowered(name@.subrange(from as int, to as int)).subrange(0, i - from),
        decreases to - i,
    {
        key.push(to_lower_ascii(name[i]));
        i += 1;
        proof {
            assert(key@ =~= lowered(name@.subrange(from as int, to as int)).subrange(
                0,
                i - from,
            ));
        }
    }
    proof {
        let all = lowered(name@.subrange(from as int, to as int));
        assert(all.subrange(0, to - from) =~= all);
    }
    key
}

} // verus!
