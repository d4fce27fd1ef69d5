//! Unicode character classes and case mapping of `char`, and the text
//! operations built on them: trimming and name normalisation.
use vstd::prelude::*;

verus! {

/// What `char::is_whitespace` answers (the Unicode `White_Space` property).
pub uninterp spec fn unicode_ws(c: char) -> bool;

/// What `char::is_alphanumeric` answers (Unicode alphabetic or numeric).
pub uninterp spec fn unicode_alnum(c: char) -> bool;

/// The characters `char::to_lowercase` yields for `c`.
pub uninterp spec fn unicode_lower(c: char) -> Seq<char>;

/// `char::is_whitespace`: whether `c` has the Unicode `White_Space`
/// property (space, tab, line breaks among others).
#[verifier::external_body]
pub(crate) fn is_whitespace(c: char) -> (r: bool)
    ensures
        r == unicode_ws(c),
{
    c.is_whitespace()
}

/// `char::is_alphanumeric`: whether `c` is alphabetic or numeric.
#[verifier::external_body]
fn is_alphanumeric(c: char) -> (r: bool)
    ensures
        r == unicode_alnum(c),
{
    c.is_alphanumeric()
}

/// `char::to_lowercase`: the lower-case mapping of `c`, collected.
#[verifier::external_body]
pub(crate) fn to_lowercase(c: char) -> (r: Vec<char>)
    ensures
        r@ == unicode_lower(c),
{
    c.to_lowercase().collect()
}

/// `s` without leading and trailing whitespace (`str::trim`).
pub open spec fn trim(s: Seq<char>) -> Seq<char>
    decreases s.len(),
{
    if s.len() > 0 && unicode_ws(s[0]) {
        trim(s.drop_first())
    } else if s.len() > 0 && unicode_ws(s.last()) {
        trim(s.drop_last())
    } else {
        s
    }
}

/// Trim whitespace at both ends of `s`.
pub fn trim_chars(s: &[char]) -> (r: Vec<char>)
    ensures
        r@ == trim(s@),
{
    let n = s.len();
    let mut lo: usize = 0;
    assert(s@.subrange(0, n as int) =~= s@);
    while lo < n && is_whitespace(s[lo])
        invariant
            lo <= n,
            n == s@.len(),
            trim(s@) == trim(s@.subrange(lo as int, n as int)),
        decreases n - lo,
    {
        assert(s@.subrange(lo as int, n as int).drop_first() =~= s@.subrange(lo + 1, n as int));
        lo = lo + 1;
    }
    let mut hi: usize = n;
    while hi > lo && is_whitespace(s[hi - 1])
        invariant
            lo <= hi <= n,
            n == s@.len(),
            lo < n ==> !unicode_ws(s@[lo as int]),
            trim(s@) == trim(s@.subrange(lo as int, hi as int)),
        decreases hi - lo,
    {
        let ghost t = s@.subrange(lo as int, hi as int);
        assert(t.len() > 0 && t[0] == s@[lo as int]);
        assert(t.last() == s@[hi - 1]);
        assert(t.drop_last() =~= s@.subrange(lo as int, hi - 1));
        hi = hi - 1;
    }
    let ghost t = s@.subrange(lo as int, hi as int);
    assert(t.len() == 0 || (t[0] == s@[lo as int] && t.last() == s@[hi - 1]));
    let mut out: Vec<char> = Vec::new();
    let mut i = lo;
    while i < hi
        invariant
            lo <= i <= hi <= n,
            n == s@.len(),
            out@ == s@.subrange(lo as int, i as int),
        decreases hi - i,
    {
        out.push(s[i]);
        i = i + 1;
        assert(out@ =~= s@.subrange(lo as int, i as int));
    }
    out
}

/// The comparison form of a name: its alphanumeric characters, lower-cased.
pub open spec fn norm(s: Seq<char>) -> Seq<char>
    decreases s.len(),
{
    if s.len() == 0 {
        Seq::empty()
    } else {
        norm(s.drop_last()) + (if unicode_alnum(s.last()) { unicode_lower(s.last()) } else { Seq::empty() })
    }
}

/// The comparison form of a name (see [`norm`]).
pub fn norm_chars(s: &[char]) -> (r: Vec<char>)
    ensures
        r@ == norm(s@),
{
    let mut out: Vec<char> = Vec::new();
    let mut i: usize = 0;
    while i < s.len()
        invariant
            i <= s@.len(),
            out@ == norm(s@.take(i as int)),
        decreases s@.len() - i,
    {
        assert(s@.take(i + 1).drop_last() =~= s@.take(i as int));
        if is_alphanumeric(s[i]) {
            let low = to_lowercase(s[i]);
            crate::unicode::append_chars(&mut out, &low);
        }
        i = i + 1;
        assert(out@ =~= norm(s@.take(i as int)));
    }
    assert(s@.take(s@.len() as int) =~= s@);
    out
}

/// Append `src` to `dst`.
pub fn append_chars(dst: &mut Vec<char>, src: &Vec<char>)
    ensures
        final(dst)@ == old(dst)@ + src@,
{
    let ghost d = dst@;
    let mut i: usize = 0;
    while i < src.len()
        invariant
            i <= src@.len(),
            dst@ == d + src@.take(i as int),
        decreases src@.len() - i,
    {
        dst.push(src[i]);
        assert(src@.take(i + 1) =~= src@.take(i as int).push(src@[i as int]));
        i = i + 1;
    }
    assert(src@.take(src@.len() as int) =~= src@);
}

} // verus!
