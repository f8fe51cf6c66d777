//! Helpers on literal text.

use vstd::prelude::*;

verus! {

/// How many characters [`strip_quotes`] drops at the front: one if the text
/// starts with a double quote.
pub open spec fn leading_quote(s: Seq<char>) -> int {
    if s.len() > 0 && s[0] == '"' {
        1
    } else {
        0
    }
}

/// How many characters [`strip_quotes`] drops at the back: one if the text
/// ends with a double quote that the front has not taken already.
pub open spec fn trailing_quote(s: Seq<char>) -> int {
    if s.len() > leading_quote(s) && s.last() == '"' {
        1
    } else {
        0
    }
}

/// The text without one leading and one trailing double quote, where present.
pub open spec fn unquoted(s: Seq<char>) -> Seq<char> {
    s.subrange(leading_quote(s), s.len() - trailing_quote(s))
}

/// Strips one leading and one trailing double quote, each only if present.
pub fn strip_quotes(val: &str) -> (res: &str)
    ensures
        res@ == unquoted(val@),
{
    let len = val.unicode_len();
    let mut from: usize = 0;
    let mut to: usize = len;
    if len > 0 && val.get_char(0) == '"' {
        from = 1;
    }
    if to > from && val.get_char(len - 1) == '"' {
        to = len - 1;
    }
    val.substring_char(from, to)
}

/// Text that neither starts nor ends with a double quote is left as it is.
pub proof fn lemma_unquoted_plain(s: Seq<char>)
    requires
        s.len() == 0 || (s[0] != '"' && s.last() != '"'),
    ensures
        unquoted(s) == s,
{
    assert(s.subrange(0, s.len() as int) =~= s);
}

/// Text in double quotes loses exactly the two quotes.
pub proof fn lemma_unquoted_quoted(s: Seq<char>)
    ensures
        unquoted(seq!['"'] + s + seq!['"']) == s,
{
    let q = seq!['"'] + s + seq!['"'];
    assert(q[0] == '"');
    assert(q.last() == '"');
    assert(q.subrange(1, q.len() - 1) =~= s);
}

} // verus!
