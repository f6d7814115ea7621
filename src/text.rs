use vstd::prelude::*;
use vstd::string::*;

verus! {

/// The displayed width of a text in terminal columns.
pub uninterp spec fn text_width(s: Seq<char>) -> nat;

/// Relies on unicode_width's `UnicodeWidthStr::width` for `str`: the number
/// of terminal columns the text takes, which depends on its characters alone
/// and is zero for the empty text.
#[verifier::external_body]
pub(crate) fn str_width(s: &str) -> (r: usize)
    ensures
        r as nat == text_width(s@),
        s@.len() == 0 ==> r == 0,
{
    unicode_width::UnicodeWidthStr::width(s)
}

/// `piece` written `n` times in a row (no times where `n` is not positive).
pub open spec fn repeat(piece: Seq<char>, n: int) -> Seq<char>
    decreases n,
{
    if n <= 0 {
        seq![]
    } else {
        repeat(piece, n - 1) + piece
    }
}

/// `n` spaces.
pub open spec fn spaces(n: int) -> Seq<char> {
    repeat(seq![' '], n)
}

/// Appends `piece` to `s` `n` times.
pub fn push_repeat(s: &mut String, piece: &str, n: usize)
    ensures
        final(s)@ == old(s)@ + repeat(piece@, n as int),
{
    let mut i: usize = 0;
    while i < n
        invariant
            i <= n,
            s@ == old(s)@ + repeat(piece@, i as int),
        decreases n - i,
    {
        s.append(piece);
        assert(old(s)@ + repeat(piece@, i as int + 1) =~= old(s)@ + repeat(piece@, i as int) + piece@);
        i = i + 1;
    }
}

/// A string of `n` spaces.
pub fn blank_text(n: usize) -> (r: String)
    ensures
        r@ == spaces(n as int),
{
    let mut r = String::new();
    proof {
        reveal_strlit(" ");
        assert(" "@ =~= seq![' ']);
    }
    push_repeat(&mut r, " ", n);
    assert(r@ =~= repeat(seq![' '], n as int));
    r
}

} // verus!
