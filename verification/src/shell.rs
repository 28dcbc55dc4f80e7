//! Shell quoting, through the `shlex` crate.
//!
//! What the quoter returns for an arbitrary word is named rather than
//! restated ([`shell_quote_of`]); the facts a caller can rely on are the
//! ones the crate's own source states plainly: quoting fails exactly on nul
//! bytes, the empty word quotes to `''`, and a non-empty word of safe
//! characters passes through unchanged.

use vstd::prelude::*;
use crate::error::{Error, ErrorKind};

verus! {

/// What `shlex` returns when quoting this word.
pub uninterp spec fn shell_quote_of(s: Seq<char>) -> Seq<char>;

/// Characters `shlex` passes through without quoting.
pub open spec fn is_shell_safe_char(c: char) -> bool {
    ||| crate::text::is_ascii_alnum(c)
    ||| c == '+'
    ||| c == '-'
    ||| c == '.'
    ||| c == '/'
    ||| c == ':'
    ||| c == '@'
    ||| c == ']'
    ||| c == '_'
}

/// A whole word of safe characters.
pub open spec fn all_shell_safe(s: Seq<char>) -> bool {
    forall|i: int| 0 <= i < s.len() ==> is_shell_safe_char(#[trigger] s[i])
}

/// Quotes one word for the shell.
///
/// Relies on shlex's `try_quote`: it fails exactly when the word holds a nul
/// byte; it returns `''` for the empty word, and a non-empty word made of
/// the characters its source lists as safe comes back unchanged.
#[verifier::external_body]
pub fn shell_quote(s: &str) -> (r: Result<String, Error>)
    ensures
        r is Ok <==> !s@.contains('\0'),
        r matches Ok(q) ==> q@ == shell_quote_of(s@),
        (r is Ok && s@.len() == 0) ==> r->Ok_0@ == "''"@,
        (r is Ok && s@.len() > 0 && all_shell_safe(s@)) ==> r->Ok_0@ == s@,
        r matches Err(e) ==> e.kind == ErrorKind::InvalidInput,
{
    match shlex::try_quote(s) {
        Ok(quoted) => Ok(quoted.into_owned()),
        Err(_) => Err(
            Error::new(
                ErrorKind::InvalidInput,
                std::string::String::from("cannot shell-quote a word holding a nul byte"),
            ),
        ),
    }
}

/// The words quoted and joined with single spaces.
pub open spec fn shell_joined_of(ws: Seq<Seq<char>>) -> Seq<char>
    decreases ws.len(),
{
    if ws.len() == 0 {
        Seq::empty()
    } else if ws.len() == 1 {
        shell_quote_of(ws[0])
    } else {
        shell_quote_of(ws[0]) + " "@ + shell_joined_of(ws.drop_first())
    }
}

/// Joins words into one shell command line, quoting each.
///
/// Relies on shlex's `try_join`: it quotes every word as `try_quote` does
/// and separates consecutive words by one space, and it fails exactly when
/// some word holds a nul byte.
#[verifier::external_body]
pub fn shell_join(words: &Vec<String>) -> (r: Result<String, Error>)
    ensures
        r is Ok <==> (forall|k: int| 0 <= k < words@.len() ==> !(#[trigger] words@[k])@.contains(
            '\0',
        )),
        r matches Ok(j) ==> j@ == shell_joined_of(crate::sets::strs_of(words@)),
        r matches Err(e) ==> e.kind == ErrorKind::InvalidInput,
{
    match shlex::try_join(words.iter().map(|w| w.as_str())) {
        Ok(joined) => Ok(joined),
        Err(_) => Err(
            Error::new(
                ErrorKind::InvalidInput,
                std::string::String::from("cannot shell-quote a word holding a nul byte"),
            ),
        ),
    }
}

} // verus!
