//! Text as a list of characters.

use vstd::prelude::*;
use vstd::string::*;
use vstd::std_specs::iter::IteratorSpec;

verus! {

/// The lower-case form of an ASCII capital letter; any other character
/// itself.
pub open spec fn lower_ascii(ch: char) -> char {
    if 'A' <= ch <= 'Z' {
        ((ch as u32) + 32) as char
    } else {
        ch
    }
}

/// The lower-case form of an ASCII capital letter; any other character
/// itself.
pub fn to_lower_ascii(ch: char) -> (lower: char)
    ensures
        lower == lower_ascii(ch),
{
    if 'A' <= ch && ch <= 'Z' {
        ((ch as u8) + 32) as char
    } else {
        ch
    }
}

/// `String::push`: the standard library documents that it appends the
/// character to the end of the string.
pub assume_specification[ String::push ](text: &mut String, ch: char)
    ensures
        final(text)@ == old(text)@.push(ch),
;

/// The characters of `text`.
pub fn chars_of(text: &str) -> (chars: Vec<char>)
    ensures
        chars@ == text@,
{
    broadcast use vstd::string::group_string_axioms;

    let mut chars: Vec<char> = Vec::new();
    let mut rest = text.chars();
    loop
        invariant
            rest.obeys_prophetic_iter_laws(),
            chars@ + rest.remaining() == text@,
            rest.decrease() is Some,
        ensures
            chars@ == text@,
        decreases rest.decrease()->0,
    {
        let ghost before = chars@;
        let ghost coming = rest.remaining();
        match rest.next() {
            None => {
                proof {
                    assert(chars@ =~= text@);
                }
                break ;
            },
            Some(ch) => {
                chars.push(ch);
                proof {
                    assert(chars@ + rest.remaining() =~= before + coming);
                }
            },
        }
    }
    chars
}

/// The text made of `chars[from..to]`.
pub fn text_of(chars: &Vec<char>, from: usize, to: usize) -> (text: String)
    requires
        from <= to <= chars.len(),
    ensures
        text@ == chars@.subrange(from as int, to as int),
{
    let mut text = String::new();
    let mut i: usize = from;
    while i < to
        invariant
            from <= i <= to <= chars.len(),
            text@ == chars@.subrange(from as int, i as int),
        decreases to - i,
    {
        text.push(chars[i]);
        i += 1;
        proof {
            assert(text@ =~= chars@.subrange(from as int, i as int));
        }
    }
    text
}

/// `text` begins with `prefix`.
pub open spec fn starts_with(text: Seq<char>, prefix: Seq<char>) -> bool {
    prefix.len() <= text.len() && text.subrange(0, prefix.len() as int) == prefix
}

/// Whether `chars[..]` begins with `prefix[..upto]` followed, where `then`
/// holds a character, by that character.
pub fn begins_with(chars: &Vec<char>, prefix: &Vec<char>, then: Option<char>) -> (begins: bool)
    ensures
        begins == starts_with(
            chars@,
            match then {
                Some(ch) => prefix@.push(ch),
                None => prefix@,
            },
        ),
{
    let ghost whole = match then {
        Some(ch) => prefix@.push(ch),
        None => prefix@,
    };
    let extra: usize = if then.is_some() {
        1
    } else {
        0
    };
    if chars.len() < prefix.len() || chars.len() - prefix.len() < extra {
        return false;
    }
    let mut i: usize = 0;
    while i < prefix.len()
        invariant
            i <= prefix.len() <= chars.len(),
            chars@.subrange(0, i as int) == prefix@.subrange(0, i as int),
            whole == (match then {
                Some(ch) => prefix@.push(ch),
                None => prefix@,
            }),
            whole.len() <= chars.len(),
            whole.len() >= prefix.len(),
            whole.subrange(0, prefix.len() as int) == prefix@,
        decreases prefix.len() - i,
    {
        if chars[i] != prefix[i] {
            proof {
                if chars@.subrange(0, whole.len() as int) == whole {
                    assert(chars@.subrange(0, whole.len() as int)[i as int] == chars@[i as int]);
                    assert(whole.subrange(0, prefix.len() as int)[i as int] == whole[i as int]);
                    assert(false);
                }
            }
            return false;
        }
        i += 1;
        proof {
            assert(chars@.subrange(0, i as int) =~= chars@.subrange(0, i - 1).push(chars@[i - 1]));
            assert(prefix@.subrange(0, i as int) =~= prefix@.subrange(0, i - 1).push(
                prefix@[i - 1],
            ));
        }
    }
    proof {
        assert(prefix@.subrange(0, prefix.len() as int) =~= prefix@);
    }
    match then {
        Some(ch) => {
            let same = chars[prefix.len()] == ch;
            proof {
                if same {
                    assert(chars@.subrange(0, whole.len() as int) =~= whole);
                } else {
                    if chars@.subrange(0, whole.len() as int) == whole {
                        assert(chars@.subrange(0, whole.len() as int)[prefix.len() as int]
                            == whole[prefix.len() as int]);
                    }
                }
            }
            same
        },
        None => {
            proof {
                assert(whole =~= prefix@);
            }
            true
        },
    }
}

} // verus!
