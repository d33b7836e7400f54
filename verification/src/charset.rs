//! Noise character sets: choosing one for an input, and drawing characters from it.

use vstd::prelude::*;
use rand::rngs::SmallRng;
use crate::cli::CharSet;
use crate::rng::random_in;
use crate::text::{chars_of, is_white_space, is_whitespace};

verus! {

/// A character set that noise is drawn from.
#[derive(Debug, PartialEq, Eq, Clone, Copy, Structural)]
pub enum ResolvedCharSet {
    Ascii,
    Alnum,
    Hacker,
}

/// Hex digits and `@#$%^&*!?`, in the order noise indices select them.
pub open spec fn hacker_chars() -> Seq<char> {
    seq!['0', '1', '2', '3', '4', '5', '6', '7', '8', '9', 'A', 'B', 'C', 'D', 'E', 'F', '@', '#', '$', '%', '^', '&', '*', '!', '?']
}

/// `A`–`Z`, `a`–`z`, `0`–`9`, in the order noise indices select them.
pub open spec fn alnum_chars() -> Seq<char> {
    seq!['A', 'B', 'C', 'D', 'E', 'F', 'G', 'H', 'I', 'J', 'K', 'L', 'M', 'N', 'O', 'P', 'Q', 'R', 'S', 'T', 'U', 'V', 'W', 'X', 'Y', 'Z', 'a', 'b', 'c', 'd', 'e', 'f', 'g', 'h', 'i', 'j', 'k', 'l', 'm', 'n', 'o', 'p', 'q', 'r', 's', 't', 'u', 'v', 'w', 'x', 'y', 'z', '0', '1', '2', '3', '4', '5', '6', '7', '8', '9']
}

/// `c` belongs to the noise set `set`: printable ASCII `!`–`~` for `Ascii`.
pub open spec fn in_charset(c: char, set: ResolvedCharSet) -> bool {
    match set {
        ResolvedCharSet::Hacker => hacker_chars().contains(c),
        ResolvedCharSet::Alnum => alnum_chars().contains(c),
        ResolvedCharSet::Ascii => '!' <= c && c <= '~',
    }
}

/// `char::is_alphanumeric`: the Unicode `Alphabetic` or `Numeric` property of `c`.
pub uninterp spec fn unicode_alphanumeric(c: char) -> bool;

/// `char::is_alphanumeric`. The Unicode tables it consults are not restated here; the
/// result is named by `unicode_alphanumeric`.
#[verifier::external_body]
fn is_alphanumeric(c: char) -> (r: bool)
    ensures
        r == unicode_alphanumeric(c),
{
    c.is_alphanumeric()
}

/// `c` is a symbol: neither alphanumeric nor white space.
pub open spec fn is_symbol(c: char) -> bool {
    !unicode_alphanumeric(c) && !is_white_space(c)
}

/// The noise set for `charset` and `input`. An explicit choice stands; `Auto` picks
/// `Hacker` for empty input, `Ascii` when the input holds a symbol, `Alnum` otherwise.
pub open spec fn resolve_spec(charset: CharSet, input: Seq<char>) -> ResolvedCharSet {
    match charset {
        CharSet::Ascii => ResolvedCharSet::Ascii,
        CharSet::Alnum => ResolvedCharSet::Alnum,
        CharSet::Hacker => ResolvedCharSet::Hacker,
        CharSet::Auto => if input.len() == 0 {
            ResolvedCharSet::Hacker
        } else if exists|i: int| 0 <= i < input.len() && is_symbol(#[trigger] input[i]) {
            ResolvedCharSet::Ascii
        } else {
            ResolvedCharSet::Alnum
        },
    }
}

/// The noise set for `charset` and `input`, where `alphanumeric[i]` says whether
/// `input[i]` is alphanumeric: as `resolve_spec`, with a symbol being a character that is
/// neither alphanumeric by `alphanumeric` nor white space.
pub open spec fn resolve_given(charset: CharSet, input: Seq<char>, alphanumeric: Seq<bool>) -> ResolvedCharSet {
    match charset {
        CharSet::Ascii => ResolvedCharSet::Ascii,
        CharSet::Alnum => ResolvedCharSet::Alnum,
        CharSet::Hacker => ResolvedCharSet::Hacker,
        CharSet::Auto => if input.len() == 0 {
            ResolvedCharSet::Hacker
        } else if exists|i: int|
            0 <= i < input.len() && !(#[trigger] alphanumeric[i]) && !is_white_space(input[i]) {
            ResolvedCharSet::Ascii
        } else {
            ResolvedCharSet::Alnum
        },
    }
}

/// Picks the noise set for `input`, given for each of its characters whether it is
/// alphanumeric.
pub fn resolve_with_alphanumeric(charset: CharSet, input: &str, alphanumeric: &Vec<bool>) -> (r: ResolvedCharSet)
    requires
        alphanumeric@.len() == input@.len(),
    ensures
        r == resolve_given(charset, input@, alphanumeric@),
{
    match charset {
        CharSet::Ascii => ResolvedCharSet::Ascii,
        CharSet::Alnum => ResolvedCharSet::Alnum,
        CharSet::Hacker => ResolvedCharSet::Hacker,
        CharSet::Auto => {
            let v = chars_of(input);
            if v.len() == 0 {
                return ResolvedCharSet::Hacker;
            }
            let mut has_symbol = false;
            let mut i: usize = 0;
            while i < v.len()
                invariant
                    i <= v@.len(),
                    v@ == input@,
                    alphanumeric@.len() == v@.len(),
                    has_symbol == exists|k: int| 0 <= k < i && !(#[trigger] alphanumeric@[k]) && !is_white_space(v@[k]),
                decreases v@.len() - i,
            {
                let c = v[i];
                let symbol = !alphanumeric[i] && !is_whitespace(c);
                if symbol {
                    has_symbol = true;
                }
                proof {
                    if symbol {
                        assert(!alphanumeric@[i as int] && !is_white_space(v@[i as int]));
                    }
                    if has_symbol && !symbol {
                        let k = choose|k: int| 0 <= k < i && !(#[trigger] alphanumeric@[k]) && !is_white_space(v@[k]);
                        assert(!alphanumeric@[k] && !is_white_space(v@[k]));
                    }
                }
                i = i + 1;
            }
            if has_symbol {
                ResolvedCharSet::Ascii
            } else {
                // without a symbol, every character is alphanumeric or white space
                ResolvedCharSet::Alnum
            }
        },
    }
}

/// Picks the noise set for `input`.
pub fn resolve(charset: CharSet, input: &str) -> (r: ResolvedCharSet)
    ensures
        r == resolve_spec(charset, input@),
{
    let v = chars_of(input);
    let mut alphanumeric: Vec<bool> = Vec::new();
    let mut i: usize = 0;
    while i < v.len()
        invariant
            i <= v@.len(),
            v@ == input@,
            alphanumeric@.len() == i,
            forall|k: int| 0 <= k < i ==> #[trigger] alphanumeric@[k] == unicode_alphanumeric(v@[k]),
        decreases v@.len() - i,
    {
        alphanumeric.push(is_alphanumeric(v[i]));
        i = i + 1;
    }
    let r = resolve_with_alphanumeric(charset, input, &alphanumeric);
    proof {
        if charset == CharSet::Auto && input@.len() > 0 {
            assert((exists|k: int|
                0 <= k < input@.len() && !(#[trigger] alphanumeric@[k]) && !is_white_space(input@[k])) == (exists|k: int|
                0 <= k < input@.len() && is_symbol(#[trigger] input@[k]))) by {
                if exists|k: int| 0 <= k < input@.len() && !(#[trigger] alphanumeric@[k]) && !is_white_space(input@[k]) {
                    let k = choose|k: int| 0 <= k < input@.len() && !(#[trigger] alphanumeric@[k]) && !is_white_space(input@[k]);
                    assert(is_symbol(input@[k]));
                }
                if exists|k: int| 0 <= k < input@.len() && is_symbol(#[trigger] input@[k]) {
                    let k = choose|k: int| 0 <= k < input@.len() && is_symbol(#[trigger] input@[k]);
                    assert(!alphanumeric@[k] && !is_white_space(input@[k]));
                }
            }
        }
    }
    r
}

/// Number of characters in `set`'s table (`Ascii` has the 94 printable ASCII characters).
pub open spec fn charset_size(set: ResolvedCharSet) -> nat {
    match set {
        ResolvedCharSet::Hacker => 25,
        ResolvedCharSet::Alnum => 62,
        ResolvedCharSet::Ascii => 94,
    }
}

/// The `idx`-th character of `set`: `hacker_chars()[idx]`, `alnum_chars()[idx]`, or the
/// printable ASCII character `!` + `idx`.
pub open spec fn charset_char(set: ResolvedCharSet, idx: int) -> char {
    match set {
        ResolvedCharSet::Hacker => hacker_chars()[idx],
        ResolvedCharSet::Alnum => alnum_chars()[idx],
        ResolvedCharSet::Ascii => (33 + idx) as char,
    }
}

/// The `idx`-th character of `set`.
pub fn noise_char(set: ResolvedCharSet, idx: usize) -> (c: char)
    requires
        idx < charset_size(set),
    ensures
        c == charset_char(set, idx as int),
        in_charset(c, set),
{
    match set {
        ResolvedCharSet::Hacker => {
            let table: [char; 25] = ['0', '1', '2', '3', '4', '5', '6', '7', '8', '9', 'A', 'B', 'C', 'D', 'E', 'F', '@', '#', '$', '%', '^', '&', '*', '!', '?'];
            assert(table@ == hacker_chars());
            table[idx]
        },
        ResolvedCharSet::Alnum => {
            let table: [char; 62] = ['A', 'B', 'C', 'D', 'E', 'F', 'G', 'H', 'I', 'J', 'K', 'L', 'M', 'N', 'O', 'P', 'Q', 'R', 'S', 'T', 'U', 'V', 'W', 'X', 'Y', 'Z', 'a', 'b', 'c', 'd', 'e', 'f', 'g', 'h', 'i', 'j', 'k', 'l', 'm', 'n', 'o', 'p', 'q', 'r', 's', 't', 'u', 'v', 'w', 'x', 'y', 'z', '0', '1', '2', '3', '4', '5', '6', '7', '8', '9'];
            assert(table@ == alnum_chars());
            table[idx]
        },
        ResolvedCharSet::Ascii => {
            let b = (33 + idx) as u8;
            b as char
        },
    }
}

/// A random character of `set`, each equally likely.
pub fn random_char(set: ResolvedCharSet, rng: &mut SmallRng) -> (c: char)
    ensures
        in_charset(c, set),
{
    let size: usize = match set {
        ResolvedCharSet::Hacker => 25,
        ResolvedCharSet::Alnum => 62,
        ResolvedCharSet::Ascii => 94,
    };
    let idx = random_in(rng, 0, size - 1);
    noise_char(set, idx)
}

} // verus!
