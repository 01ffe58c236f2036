//! Conversion of mixed-case names to snake case.
//!
//! The conversion lowercases the letters of the ASCII range and inserts an
//! underscore at each word boundary: before a capital that follows a
//! lowercase letter (`abC` becomes `ab_c`), and after a run of capitals that
//! ends where a lowercase letter begins (`ABc` becomes `a_bc`).  Characters
//! outside the ASCII letters pass through unchanged.

use vstd::prelude::*;
use vstd::string::StrSliceExecFns;

verus! {

/// An ASCII capital letter.
pub open spec fn is_upper_char(c: char) -> bool {
    65 <= c as u32 <= 90
}

/// An ASCII lowercase letter.
pub open spec fn is_lower_char(c: char) -> bool {
    97 <= c as u32 <= 122
}

/// The ASCII lowercase counterpart of `c`: a capital letter is shifted into
/// the lowercase range, any other character stays as it is.
pub open spec fn lower_char(c: char) -> char {
    if is_upper_char(c) {
        ((c as u32 + 32) as u8) as char
    } else {
        c
    }
}

/// What step `i` of the conversion emits, for `1 <= i < s.len()`: an
/// underscore when a run of capitals ends at `s[i]`, then the lowercased
/// `s[i - 1]`, then an underscore when a new word opens at `s[i]`.
pub open spec fn snake_piece(s: Seq<char>, i: int) -> Seq<char> {
    let acronym_break: Seq<char> = if i >= 2 && is_upper_char(s[i - 2]) && is_upper_char(s[i - 1])
        && is_lower_char(s[i]) {
        seq!['_']
    } else {
        Seq::empty()
    };
    let word_break: Seq<char> = if is_lower_char(s[i - 1]) && is_upper_char(s[i]) {
        seq!['_']
    } else {
        Seq::empty()
    };
    acronym_break + seq![lower_char(s[i - 1])] + word_break
}

/// What the conversion's steps `1` to `i - 1` emit, concatenated.
pub open spec fn snake_prefix(s: Seq<char>, i: int) -> Seq<char>
    decreases i,
{
    if i <= 1 {
        Seq::empty()
    } else {
        snake_prefix(s, i - 1) + snake_piece(s, i - 1)
    }
}

/// The whole conversion: every step's emission, then the lowercased last
/// character.
pub open spec fn snake_chars(s: Seq<char>) -> Seq<char> {
    if s.len() == 0 {
        Seq::empty()
    } else {
        snake_prefix(s, s.len() as int) + seq![lower_char(s[s.len() - 1])]
    }
}

/// Relies on `String::from_iter`: the built string holds exactly the given
/// characters in order.
#[verifier::external_body]
fn chars_to_string(chars: Vec<char>) -> (r: String)
    ensures
        r@ == chars@,
{
    String::from_iter(chars)
}

fn is_upper_exec(c: char) -> (b: bool)
    ensures
        b == is_upper_char(c),
{
    let u = c as u32;
    65 <= u && u <= 90
}

fn is_lower_exec(c: char) -> (b: bool)
    ensures
        b == is_lower_char(c),
{
    let u = c as u32;
    97 <= u && u <= 122
}

fn lower_exec(c: char) -> (r: char)
    ensures
        r == lower_char(c),
{
    let u = c as u32;
    if 65 <= u && u <= 90 {
        ((u + 32) as u8) as char
    } else {
        c
    }
}

/// Conversion of a name to snake case.
pub trait ToSnakeCase: View<V = Seq<char>> {
    /// The name converted to snake case, character by character.
    fn to_snake_case(&self) -> (r: String)
        ensures
            r@ == snake_chars(self@),
    ;
}

impl ToSnakeCase for String {
    fn to_snake_case(&self) -> (r: String) {
        let text = self.as_str();
        let n = text.unicode_len();
        let mut out: Vec<char> = Vec::new();
        if n == 0 {
            return chars_to_string(out);
        }
        let mut i: usize = 1;
        while i < n
            invariant
                1 <= i <= n,
                n == text@.len(),
                text@ == self@,
                out@ == snake_prefix(self@, i as int),
            decreases n - i,
        {
            let curr = text.get_char(i);
            let prev = text.get_char(i - 1);
            if i >= 2 {
                let before = text.get_char(i - 2);
                if is_upper_exec(before) && is_upper_exec(prev) && is_lower_exec(curr) {
                    out.push('_');
                }
            }
            out.push(lower_exec(prev));
            if is_lower_exec(prev) && is_upper_exec(curr) {
                out.push('_');
            }
            proof {
                assert(snake_prefix(self@, i as int + 1) == snake_prefix(self@, i as int)
                    + snake_piece(self@, i as int));
                assert(out@ =~= snake_prefix(self@, i as int) + snake_piece(self@, i as int));
            }
            i += 1;
        }
        let last = text.get_char(n - 1);
        out.push(lower_exec(last));
        proof {
            assert(out@ =~= snake_chars(self@));
        }
        chars_to_string(out)
    }
}

} // verus!
