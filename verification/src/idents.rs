//! Sanitising external names into SQL-safe identifiers.
//!
//! Column names arriving from outside (CSV headers, user files) may hold
//! characters that are not valid in a SQL identifier; each such character
//! is replaced by an underscore.

use vstd::prelude::*;
use vstd::string::StrSliceExecFns;

verus! {

/// A character as it appears in a sanitised identifier.
pub open spec fn sanitized_char(c: char) -> char {
    if c == ' ' || c == '-' || c == '(' || c == ')' || c == '.' {
        '_'
    } else {
        c
    }
}

/// A name with every unsafe character replaced by an underscore.
pub open spec fn sanitized(s: Seq<char>) -> Seq<char> {
    s.map_values(|c: char| sanitized_char(c))
}

/// Relies on String::push: appends the given character to the end of the
/// string.
#[verifier::external_body]
fn push_char(s: &mut String, c: char)
    ensures
        final(s)@ == old(s)@.push(c),
{
    s.push(c)
}

/// Replaces each character that is unsafe in a SQL identifier (space,
/// hyphen, parentheses, dot) with an underscore.
pub fn sanitize_ident(s: &str) -> (r: String)
    ensures
        r@ == sanitized(s@),
{
    let mut out = String::new();
    let n = s.unicode_len();
    let mut i: usize = 0;
    while i < n
        invariant
            n == s@.len(),
            0 <= i <= n,
            out@ =~= sanitized(s@.take(i as int)),
        decreases n - i,
    {
        let c = s.get_char(i);
        let c2 = if c == ' ' || c == '-' || c == '(' || c == ')' || c == '.' {
            '_'
        } else {
            c
        };
        push_char(&mut out, c2);
        i = i + 1;
        proof {
            assert(s@.take(i as int) =~= s@.take(i - 1).push(s@[i - 1]));
            assert(out@ =~= sanitized(s@.take(i - 1)).push(sanitized_char(s@[i - 1])));
            assert(sanitized(s@.take(i as int)) =~= sanitized(s@.take(i - 1)).push(
                sanitized_char(s@[i - 1]),
            ));
        }
    }
    proof {
        assert(s@.take(n as int) =~= s@);
    }
    out
}

} // verus!
