//! Domain names as they are typed, and their clean form.

use vstd::prelude::*;

use crate::text::{chars_of, string_of, trim_bounds, trim_end_char_bound};

verus! {

/// Whether `s` begins with the wildcard label `*.`.
pub open spec fn starts_with_wildcard(s: Seq<char>) -> bool {
    s.len() >= 2 && s[0] == '*' && s[1] == '.'
}

/// `s` without the wildcard labels `*.` and the dots that it begins with.
pub open spec fn strip_leading(s: Seq<char>) -> Seq<char>
    decreases s.len(),
{
    if starts_with_wildcard(s) {
        strip_leading(s.skip(2))
    } else if s.len() > 0 && s[0] == '.' {
        strip_leading(s.skip(1))
    } else {
        s
    }
}

/// The clean form of a name: the white space around it is dropped, then the
/// wildcard labels and dots that lead it, then the dots that trail it.
pub open spec fn clean(s: Seq<char>) -> Seq<char> {
    crate::text::trim_end_char(strip_leading(crate::text::trim(s)), '.')
}

/// Where the characters from `lo` up to `hi` begin and end in their clean
/// form.
pub(crate) fn clean_bounds(cs: &Vec<char>, lo: usize, hi: usize) -> (r: (usize, usize))
    requires
        lo <= hi <= cs@.len(),
    ensures
        lo <= r.0 <= r.1 <= hi,
        cs@.subrange(r.0 as int, r.1 as int) == clean(cs@.subrange(lo as int, hi as int)),
{
    let (start, end) = trim_bounds(cs, lo, hi);
    let mut a: usize = start;
    loop
        invariant_except_break
            lo <= start <= a <= end <= hi <= cs@.len(),
            strip_leading(cs@.subrange(a as int, end as int)) == strip_leading(
                cs@.subrange(start as int, end as int),
            ),
        ensures
            lo <= start <= a <= end <= hi <= cs@.len(),
            cs@.subrange(a as int, end as int) == strip_leading(
                cs@.subrange(start as int, end as int),
            ),
        decreases end - a,
    {
        let ghost rest = cs@.subrange(a as int, end as int);
        if end - a >= 2 && cs[a] == '*' && cs[a + 1] == '.' {
            assert(rest.skip(2) == cs@.subrange(a + 2, end as int));
            a += 2;
        } else if a < end && cs[a] == '.' {
            assert(rest.skip(1) == cs@.subrange(a + 1, end as int));
            a += 1;
        } else {
            break;
        }
    }
    let b = trim_end_char_bound(cs, a, end, '.');
    (a, b)
}

/// The clean form of the domain that a caller asks about.
///
/// White space around the domain is dropped, then the wildcard labels `*.`
/// and dots in front of it, then the dots behind it, so that
/// `"  *.example.com.  "` and `"example.com"` name the same domain.
pub fn clean_domain(domain: &str) -> (r: String)
    ensures
        r@ == clean(domain@),
{
    let cs = chars_of(domain);
    let (lo, hi) = clean_bounds(&cs, 0, cs.len());
    assert(cs@.subrange(0, cs@.len() as int) == domain@);
    string_of(&cs, lo, hi)
}

} // verus!
