//! What the clean form of a name is, told by its characters.

use vstd::prelude::*;

use crate::domain::{clean, clean_domain, starts_with_wildcard, strip_leading};
use crate::laws::{
    lemma_strip_leading_ends, lemma_trim_end_char_ends, lemma_trim_end_ends, lemma_trim_start_ends,
};
use crate::text::{
    is_control, is_whitespace, lower, trim, trim_end, trim_end_char,
    trim_start, white_space,
};

verus! {

/// The characters that count as white space.
pub open spec fn is_space(c: char) -> bool {
    ||| c == ' ' || c == '\u{85}' || c == '\u{a0}' || c == '\u{1680}' || c == '\u{3000}'
    ||| '\t' <= c <= '\r'
    ||| '\u{2000}' <= c <= '\u{200a}'
    ||| c == '\u{2028}' || c == '\u{2029}' || c == '\u{202f}' || c == '\u{205f}'
}

/// Whether `s` is nothing but white space.
pub open spec fn all_space(s: Seq<char>) -> bool {
    forall|i: int| 0 <= i < s.len() ==> is_space(#[trigger] s[i])
}

/// Whether each of the labels is a dot, or a star and a dot.
pub open spec fn leading_labels(labels: Seq<Seq<char>>) -> bool {
    forall|i: int|
        0 <= i < labels.len() ==> #[trigger] labels[i] == seq!['.'] || labels[i] == seq!['*', '.']
}

/// Whether `s` is nothing but dots.
pub open spec fn all_dots(s: Seq<char>) -> bool {
    forall|i: int| 0 <= i < s.len() ==> #[trigger] s[i] == '.'
}

/// Whether `s` is `core` with white space around it, and inside of that with
/// labels in front of it and dots behind it, of which nothing is left over in
/// `core`.
pub open spec fn dressed(
    s: Seq<char>,
    space_before: Seq<char>,
    labels: Seq<Seq<char>>,
    core: Seq<char>,
    dots: Seq<char>,
    space_behind: Seq<char>,
) -> bool {
    let inner = labels.flatten() + (core + dots);
    &&& s == space_before + inner + space_behind
    &&& all_space(space_before)
    &&& all_space(space_behind)
    &&& leading_labels(labels)
    &&& all_dots(dots)
    &&& inner.len() > 0 ==> !is_space(inner[0]) && !is_space(inner.last())
    &&& core.len() == 0 ==> dots.len() == 0
    &&& core.len() > 0 ==> core[0] != '.' && core.last() != '.'
    &&& !((core + dots).len() >= 2 && (core + dots)[0] == '*' && (core + dots)[1] == '.')
}

/// Whether `core` is what is left of `s` without its dress.
pub open spec fn is_core(s: Seq<char>, core: Seq<char>) -> bool {
    exists|
        space_before: Seq<char>,
        labels: Seq<Seq<char>>,
        dots: Seq<char>,
        space_behind: Seq<char>,
    | #[trigger]
        dressed(s, space_before, labels, core, dots, space_behind)
}

/// Whether `n` is `raw` with each letter from A to Z, and no other character,
/// moved on by the distance from A to a.
pub open spec fn is_lowered(raw: Seq<char>, n: Seq<char>) -> bool {
    &&& n.len() == raw.len()
    &&& forall|i: int|
        0 <= i < n.len() ==> #[trigger] n[i] as u32 == raw[i] as u32 + (if 65 <= raw[i] as u32
            <= 90 {
            32int
        } else {
            0int
        })
}

/// White space is what [`is_whitespace`] tells, and nothing else.
pub proof fn white_space_is_known(c: char, r: bool)
    requires
        call_ensures(is_whitespace, (c,), r),
    ensures
        r <==> is_space(c),
{
}

/// The control codes are those below the space and from delete to the code
/// before the no-break space.
pub proof fn control_codes_are_known(c: char, r: bool)
    requires
        call_ensures(is_control, (c,), r),
    ensures
        r <==> c < ' ' || '\u{7f}' <= c < '\u{a0}',
{
}

pub(crate) proof fn lemma_spaces(c: char)
    ensures
        white_space(c) == is_space(c),
{
}

proof fn lemma_trim_start_skips(p: Seq<char>, s: Seq<char>)
    requires
        all_space(p),
    ensures
        trim_start(p + s) == trim_start(s),
    decreases p.len(),
{
    if p.len() == 0 {
        assert(p + s == s);
    } else {
        lemma_spaces(p[0]);
        assert((p + s).skip(1) == p.skip(1) + s);
        assert forall|i: int| 0 <= i < p.skip(1).len() implies is_space(
            #[trigger] p.skip(1)[i],
        ) by {
            assert(is_space(p[i + 1]));
        }
        lemma_trim_start_skips(p.skip(1), s);
    }
}

proof fn lemma_trim_end_skips(s: Seq<char>, p: Seq<char>)
    requires
        all_space(p),
    ensures
        trim_end(s + p) == trim_end(s),
    decreases p.len(),
{
    if p.len() == 0 {
        assert(s + p == s);
    } else {
        lemma_spaces(p.last());
        assert((s + p).drop_last() == s + p.drop_last());
        lemma_trim_end_skips(s, p.drop_last());
    }
}

proof fn lemma_trim_drops(before: Seq<char>, inner: Seq<char>, behind: Seq<char>)
    requires
        all_space(before),
        all_space(behind),
        inner.len() > 0 ==> !is_space(inner[0]) && !is_space(inner.last()),
    ensures
        trim(before + inner + behind) == inner,
{
    let s = before + inner + behind;
    assert(s == before + (inner + behind));
    lemma_trim_start_skips(before, inner + behind);
    if inner.len() == 0 {
        assert(inner + behind == behind + Seq::<char>::empty());
        lemma_trim_start_skips(behind, Seq::empty());
        assert(inner == Seq::<char>::empty());
    } else {
        lemma_spaces(inner[0]);
        lemma_spaces(inner.last());
        assert((inner + behind)[0] == inner[0]);
        lemma_trim_end_skips(inner, behind);
    }
}

proof fn lemma_strip_drops(labels: Seq<Seq<char>>, rest: Seq<char>)
    requires
        leading_labels(labels),
        rest.len() > 0 ==> rest[0] != '.',
        !starts_with_wildcard(rest),
    ensures
        strip_leading(labels.flatten() + rest) == rest,
    decreases labels.len(),
{
    let s = labels.flatten() + rest;
    if labels.len() == 0 {
        assert(s == rest);
    } else {
        let tail = labels.drop_first();
        assert forall|i: int| 0 <= i < tail.len() implies #[trigger] tail[i] == seq!['.']
            || tail[i] == seq!['*', '.'] by {
            assert(tail[i] == labels[i + 1]);
        }
        lemma_strip_drops(tail, rest);
        let first = labels[0];
        assert(labels.flatten() == first + tail.flatten());
        assert(s.skip(first.len() as int) == tail.flatten() + rest);
        assert(s[0] == first[0]);
        if first.len() == 2 {
            assert(s[1] == first[1]);
        }
    }
}

proof fn lemma_dots_drop(s: Seq<char>, dots: Seq<char>)
    requires
        all_dots(dots),
        s.len() > 0 ==> s.last() != '.',
    ensures
        trim_end_char(s + dots, '.') == s,
    decreases dots.len(),
{
    if dots.len() == 0 {
        assert(s + dots == s);
    } else {
        assert((s + dots).drop_last() == s + dots.drop_last());
        lemma_dots_drop(s, dots.drop_last());
    }
}

pub(crate) proof fn lemma_core(s: Seq<char>, core: Seq<char>)
    requires
        is_core(s, core),
    ensures
        clean(s) == core,
{
    let (before, labels, dots, behind) = choose|
        space_before: Seq<char>,
        labels: Seq<Seq<char>>,
        dots: Seq<char>,
        space_behind: Seq<char>,
    | #[trigger]
        dressed(s, space_before, labels, core, dots, space_behind);
    let inner = labels.flatten() + (core + dots);
    lemma_trim_drops(before, inner, behind);
    lemma_strip_drops(labels, core + dots);
    lemma_dots_drop(core, dots);
}

proof fn lemma_labels(s: Seq<char>) -> (labels: Seq<Seq<char>>)
    ensures
        leading_labels(labels),
        s == labels.flatten() + strip_leading(s),
    decreases s.len(),
{
    if starts_with_wildcard(s) || (s.len() > 0 && s[0] == '.') {
        let k: int = if starts_with_wildcard(s) {
            2
        } else {
            1
        };
        let more = lemma_labels(s.skip(k));
        let first = s.take(k);
        let labels = seq![first] + more;
        assert(labels.drop_first() == more);
        assert(labels.flatten() == first + more.flatten());
        assert(s == first + s.skip(k));
        if k == 2 {
            assert(first == seq!['*', '.']);
        } else {
            assert(first == seq!['.']);
        }
        assert forall|i: int| 0 <= i < labels.len() implies #[trigger] labels[i] == seq!['.']
            || labels[i] == seq!['*', '.'] by {
            if i > 0 {
                assert(labels[i] == more[i - 1]);
            }
        }
        labels
    } else {
        let none = Seq::<Seq<char>>::empty();
        assert(none.flatten() == Seq::<char>::empty());
        assert(s == none.flatten() + s);
        none
    }
}

proof fn lemma_dropped_space(s: Seq<char>)
    ensures
        all_space(s.take(s.len() - trim_start(s).len())),
        all_space(s.skip(trim_end(s).len() as int)),
    decreases s.len(),
{
    lemma_trim_start_ends(s);
    lemma_trim_end_ends(s);
    if s.len() > 0 && white_space(s[0]) {
        lemma_dropped_space(s.skip(1));
        lemma_trim_start_ends(s.skip(1));
        lemma_spaces(s[0]);
        let k = s.len() - trim_start(s).len();
        assert forall|i: int| 0 <= i < k implies is_space(#[trigger] s.take(k)[i]) by {
            if i > 0 {
                assert(s.take(k)[i] == s.skip(1).take(k - 1)[i - 1]);
            }
        }
    }
    if s.len() > 0 && white_space(s.last()) {
        lemma_dropped_space(s.drop_last());
        lemma_trim_end_ends(s.drop_last());
        lemma_spaces(s.last());
        let k = trim_end(s).len() as int;
        assert forall|i: int| 0 <= i < s.skip(k).len() implies is_space(
            #[trigger] s.skip(k)[i],
        ) by {
            if i < s.len() - 1 - k {
                assert(s.skip(k)[i] == s.drop_last().skip(k)[i]);
            }
        }
    }
}

proof fn lemma_dropped_dots(s: Seq<char>)
    ensures
        all_dots(s.skip(trim_end_char(s, '.').len() as int)),
    decreases s.len(),
{
    lemma_trim_end_char_ends(s, '.');
    if s.len() > 0 && s.last() == '.' {
        lemma_dropped_dots(s.drop_last());
        lemma_trim_end_char_ends(s.drop_last(), '.');
        let k = trim_end_char(s, '.').len() as int;
        assert forall|i: int| 0 <= i < s.skip(k).len() implies #[trigger] s.skip(k)[i] == '.' by {
            if i < s.len() - 1 - k {
                assert(s.skip(k)[i] == s.drop_last().skip(k)[i]);
            }
        }
    }
}

/// Every text has a core.
pub proof fn every_text_has_a_core(s: Seq<char>)
    ensures
        exists|core: Seq<char>| #[trigger] is_core(s, core),
        is_core(s, clean(s)),
{
    let t = trim_start(s);
    let inner = trim_end(t);
    lemma_trim_start_ends(s);
    lemma_trim_end_ends(t);
    lemma_dropped_space(s);
    lemma_dropped_space(t);
    let before = s.take(s.len() - t.len());
    let behind = t.skip(inner.len() as int);
    assert(s == before + inner + behind);
    let labels = lemma_labels(inner);
    let u = strip_leading(inner);
    lemma_strip_leading_ends(inner);
    let core = trim_end_char(u, '.');
    lemma_trim_end_char_ends(u, '.');
    lemma_dropped_dots(u);
    let dots = u.skip(core.len() as int);
    assert(u == core + dots);
    if core.len() == 0 && dots.len() > 0 {
        assert(u[0] == dots[0]);
    }
    if core.len() > 0 {
        assert(core[0] == u[0]);
    }
    if inner.len() > 0 {
        lemma_spaces(inner[0]);
        lemma_spaces(inner.last());
    }
    assert(dressed(s, before, labels, core, dots, behind));
    assert(is_core(s, core));
}

/// The clean form of a domain is its core: white space around it, the labels in
/// front of it and the dots behind it are dropped, and nothing else.
pub proof fn clean_domain_is_its_core(domain: &str, r: String, core: Seq<char>)
    requires
        call_ensures(clean_domain, (domain,), r),
    ensures
        r@ == core <==> is_core(domain@, core),
{
    every_text_has_a_core(domain@);
    if is_core(domain@, core) {
        lemma_core(domain@, core);
    }
}

pub(crate) proof fn lemma_lowered(raw: Seq<char>, n: Seq<char>)
    ensures
        is_lowered(raw, n) <==> n == lower(raw),
{
    if is_lowered(raw, n) {
        assert forall|i: int| 0 <= i < n.len() implies n[i] == #[trigger] lower(raw)[i] by {
            assert(n[i] as u32 == raw[i] as u32 + (if 65 <= raw[i] as u32 <= 90 {
                32int
            } else {
                0int
            }));
            vstd::utf8::char_u32_cast(n[i], n[i] as u32);
            vstd::utf8::char_u32_cast(lower(raw)[i], lower(raw)[i] as u32);
        }
        assert(n == lower(raw));
    }
}

} // verus!
