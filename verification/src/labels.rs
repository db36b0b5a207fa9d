//! Short texts for the display: codes that stand in for names, labels cut
//! to a width, and the names of file types.

use vstd::prelude::*;
use vstd::string::*;
use crate::text::{chars_of, text_of};

verus! {

/// The capital letter number `n`, counted from `A` as 0.
pub open spec fn letter(n: int) -> char {
    (('A' as u32) + n) as char
}

/// The code of `index` in letters: `A` to `Z` for 0 to 25, then `AA`,
/// `AB` and so on, as columns are named in a spreadsheet.
pub open spec fn alphabet_text(index: nat) -> Seq<char>
    decreases index,
{
    if index < 26 {
        seq![letter(index as int)]
    } else {
        alphabet_text((index / 26 - 1) as nat).push(letter((index % 26) as int))
    }
}

fn letter_of(n: u8) -> (ch: char)
    requires
        n < 26,
    ensures
        ch == letter(n as int),
{
    (65u8 + n) as char
}

/// The code of `index` in letters.
pub fn alphabet_code(index: usize) -> (code: String)
    ensures
        code@ == alphabet_text(index as nat),
{
    let mut letters: Vec<char> = Vec::new();
    let mut rest: usize = index;
    loop
        invariant
            alphabet_text(rest as nat) + letters@.reverse() == alphabet_text(index as nat),
        ensures
            rest < 26,
            seq![letter(rest as int)] + letters@.reverse() == alphabet_text(index as nat),
        decreases rest,
    {
        if rest < 26 {
            break ;
        }
        let ghost before = letters@;
        let ghost whole = rest;
        letters.push(letter_of((rest % 26) as u8));
        rest = rest / 26 - 1;
        proof {
            let last = letter((whole % 26) as int);
            assert(letters@.reverse() =~= seq![last] + before.reverse());
            assert(alphabet_text(rest as nat) + letters@.reverse() =~= alphabet_text(
                whole as nat,
            ) + before.reverse());
        }
    }
    let mut code = String::new();
    code.push(letter_of(rest as u8));
    let mut i: usize = letters.len();
    while i > 0
        invariant
            i <= letters@.len(),
            code@ == seq![letter(rest as int)] + letters@.reverse().subrange(
                0,
                letters@.len() - i,
            ),
        decreases i,
    {
        i -= 1;
        code.push(letters[i]);
        proof {
            let turned = letters@.reverse();
            assert(turned[letters@.len() - 1 - i] == letters@[i as int]);
            assert(turned.subrange(0, letters@.len() - i) =~= turned.subrange(
                0,
                letters@.len() - 1 - i,
            ).push(letters@[i as int]));
            assert(code@ =~= seq![letter(rest as int)] + turned.subrange(0, letters@.len() - i));
        }
    }
    proof {
        assert(letters@.reverse().subrange(0, letters@.len() as int) =~= letters@.reverse());
    }
    code
}

/// `text` cut to at most `max_chars` characters: itself where it is short
/// enough; else three dots, after as much of its beginning as leaves room
/// for them.
pub open spec fn truncated_text(text: Seq<char>, max_chars: usize) -> Seq<char> {
    if text.len() <= max_chars {
        text
    } else if max_chars <= 3 {
        "..."@
    } else {
        text.subrange(0, max_chars - 3) + "..."@
    }
}

/// `text` cut to at most `max_chars` characters, the cut marked by three
/// dots.
pub fn truncate_label(text: &str, max_chars: usize) -> (label: String)
    ensures
        label@ == truncated_text(text@, max_chars),
{
    let chars = chars_of(text);
    if chars.len() <= max_chars {
        let label = text_of(&chars, 0, chars.len());
        proof {
            assert(chars@.subrange(0, chars.len() as int) =~= chars@);
        }
        return label;
    }
    if max_chars <= 3 {
        return String::from_str("...");
    }
    let mut label = text_of(&chars, 0, max_chars - 3);
    label.append("...");
    label
}

/// The languages of the display.
#[derive(Debug, Clone, Copy, PartialEq, Eq, Structural)]
pub enum Language {
    English,
    Chinese,
}

impl Language {
    /// Switches to the other language.
    pub fn toggle(&mut self)
        ensures
            *final(self) == (match *old(self) {
                Language::English => Language::Chinese,
                Language::Chinese => Language::English,
            }),
    {
        *self = match *self {
            Language::English => Language::Chinese,
            Language::Chinese => Language::English,
        };
    }
}

/// The name of a file type as shown: a dot and the extension, or words for
/// files without one.
pub open spec fn type_key_text(key: Seq<char>, language: Language) -> Seq<char> {
    if key == "(no_ext)"@ {
        match language {
            Language::English => "(no extension)"@,
            Language::Chinese => "\u{ff08}\u{65e0}\u{6269}\u{5c55}\u{540d}\u{ff09}"@,
        }
    } else {
        "."@ + key
    }
}

/// The name of a file type as shown.
pub fn format_type_key(key: &str, language: Language) -> (text: String)
    ensures
        text@ == type_key_text(key@, language),
{
    let none = String::from_str("(no_ext)");
    if none == String::from_str(key) {
        return match language {
            Language::English => String::from_str("(no extension)"),
            Language::Chinese => String::from_str(
                "\u{ff08}\u{65e0}\u{6269}\u{5c55}\u{540d}\u{ff09}",
            ),
        };
    }
    let mut text = String::from_str(".");
    text.append(key);
    text
}

/// The seed that follows `seed`: one step of a linear congruential
/// generator, modulo 2^64.
pub open spec fn seed_after(seed: u64) -> u64 {
    ((seed * 6364136223846793005 + 1) % 0x1_0000_0000_0000_0000) as u64
}

/// The seed that follows `seed`.
pub fn next_seed(seed: u64) -> (next: u64)
    ensures
        next == seed_after(seed),
{
    let scaled: u128 = (seed as u128) * 6364136223846793005u128;
    ((scaled + 1) % 0x1_0000_0000_0000_0000u128) as u64
}

} // verus!
