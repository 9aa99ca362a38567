//! Building command lines for the remote shell.

use vstd::prelude::*;
use std::borrow::Cow;

verus! {

/// Characters the shell takes literally.
pub open spec fn plain_char(c: char) -> bool {
    ||| ('a' <= c && c <= 'z')
    ||| ('A' <= c && c <= 'Z')
    ||| ('0' <= c && c <= '9')
    ||| c == '-'
    ||| c == '_'
    ||| c == '='
    ||| c == '/'
    ||| c == ','
    ||| c == '.'
    ||| c == '+'
}

/// The inside of a single-quoted word: every `'` and `!` leaves the quotes,
/// is escaped with a backslash, and the quotes open again.
pub open spec fn quoted_body(s: Seq<char>) -> Seq<char>
    decreases s.len(),
{
    if s.len() == 0 {
        Seq::empty()
    } else {
        let c = s.last();
        let head = quoted_body(s.drop_last());
        if c == '\'' || c == '!' {
            head + seq!['\'', '\\', c, '\'']
        } else {
            head.push(c)
        }
    }
}

/// A word as the shell must be given it: unchanged when it is not empty and
/// made of plain characters only, single-quoted otherwise.
pub open spec fn unix_escaped(s: Seq<char>) -> Seq<char> {
    if s.len() > 0 && (forall|i: int| 0 <= i < s.len() ==> plain_char(#[trigger] s[i])) {
        s
    } else {
        seq!['\''] + quoted_body(s) + seq!['\'']
    }
}

/// Calls `shell_escape::unix::escape`. It returns a word of plain characters
/// as it is, and wraps any other in single quotes, escaping `'` and `!`.
#[verifier::external_body]
pub(crate) fn shell_escape(s: &str) -> (r: String)
    ensures
        r@ == unix_escaped(s@),
{
    shell_escape::unix::escape(Cow::Borrowed(s)).into_owned()
}

/// The items with `sep` between each two neighbours.
pub open spec fn joined(items: Seq<Seq<char>>, sep: Seq<char>) -> Seq<char>
    decreases items.len(),
{
    if items.len() == 0 {
        Seq::empty()
    } else if items.len() == 1 {
        items[0]
    } else {
        joined(items.drop_last(), sep) + sep + items.last()
    }
}

/// What each of the strings holds.
pub open spec fn texts(items: Seq<String>) -> Seq<Seq<char>> {
    Seq::new(items.len(), |i: int| items[i]@)
}

/// Calls `itertools::Itertools::join` on the items, which writes them in
/// order with `sep` between each two neighbours.
#[verifier::external_body]
pub(crate) fn join_strings(items: &Vec<String>, sep: &str) -> (r: String)
    ensures
        r@ == joined(texts(items@), sep@),
{
    itertools::Itertools::join(&mut items.iter(), sep)
}

} // verus!
