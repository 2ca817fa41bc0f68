//! Small string helpers.

use vstd::prelude::*;
use crate::chars::{is_lower, push_range};
use crate::strings::{chars_of, string_of};

verus! {

/// The ASCII upper-case counterpart of `c`; other characters unchanged.
pub open spec fn upper_ascii_spec(c: char) -> char {
    match c {
        'a' => 'A',
        'b' => 'B',
        'c' => 'C',
        'd' => 'D',
        'e' => 'E',
        'f' => 'F',
        'g' => 'G',
        'h' => 'H',
        'i' => 'I',
        'j' => 'J',
        'k' => 'K',
        'l' => 'L',
        'm' => 'M',
        'n' => 'N',
        'o' => 'O',
        'p' => 'P',
        'q' => 'Q',
        'r' => 'R',
        's' => 'S',
        't' => 'T',
        'u' => 'U',
        'v' => 'V',
        'w' => 'W',
        'x' => 'X',
        'y' => 'Y',
        'z' => 'Z',
        _ => c,
    }
}

fn upper_ascii(c: char) -> (r: char)
    ensures
        r == upper_ascii_spec(c),
{
    match c {
        'a' => 'A',
        'b' => 'B',
        'c' => 'C',
        'd' => 'D',
        'e' => 'E',
        'f' => 'F',
        'g' => 'G',
        'h' => 'H',
        'i' => 'I',
        'j' => 'J',
        'k' => 'K',
        'l' => 'L',
        'm' => 'M',
        'n' => 'N',
        'o' => 'O',
        'p' => 'P',
        'q' => 'Q',
        'r' => 'R',
        's' => 'S',
        't' => 'T',
        'u' => 'U',
        'v' => 'V',
        'w' => 'W',
        'x' => 'X',
        'y' => 'Y',
        'z' => 'Z',
        _ => c,
    }
}

/// `s` with its first character ASCII-upper-cased.
pub open spec fn capitalized_spec(s: Seq<char>) -> Seq<char> {
    if s.len() == 0 {
        s
    } else {
        seq![upper_ascii_spec(s[0])] + s.skip(1)
    }
}

/// `s` with its first character ASCII-upper-cased.
pub fn capitalized(s: &str) -> (r: String)
    ensures
        r@ == capitalized_spec(s@),
{
    let v = chars_of(s);
    let mut out: Vec<char> = Vec::new();
    if v.len() > 0 {
        out.push(upper_ascii(v[0]));
        push_range(&mut out, &v, 1, v.len());
        proof {
            assert(out@ =~= seq![upper_ascii_spec(v@[0])] + v@.skip(1));
        }
    } else {
        proof {
            assert(out@ =~= v@);
        }
    }
    string_of(&out)
}

/// Case conversions on string-like types.
pub trait StringCase {
    type Owned;

    /// The value with its first character upper-cased.
    fn to_capitalized(&self) -> Self::Owned;
}

impl StringCase for str {
    type Owned = String;

    fn to_capitalized(&self) -> Self::Owned {
        capitalized(self)
    }
}

} // verus!
