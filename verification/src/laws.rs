//! What holds of the library as a whole.
//!
//! The submodules say of each function what it does in terms of characters,
//! bytes and numbers: [`forms`] of clean names, [`hosts`] of lists of hosts,
//! [`rows`] of responses, [`urls`] of queries, [`attempts`] of requests.

use vstd::prelude::*;

use crate::domain::{clean, starts_with_wildcard, strip_leading};
use crate::error::CtError;
use crate::fetch::{
    advances, follows, is_combination, is_markup, is_transient_failure, is_union, proceeds,
    retryable, settles, Action, Discovery, Event, Query, Stage, Step, CT_MAX_RETRIES,
    CT_RETRY_BACKOFF_MS,
};
use crate::json::{is_name_value, name_value_of};
use crate::names::{
    apex, foreign, hostname, is_host_list, is_host_of, is_line, is_subdomain_list, lists,
    normalized, response_name_values,
};
use crate::order::{ascending, ascending_list_is_unique, texts};
use crate::text::{lower, lower_char, trim, trim_end, trim_end_char, trim_start, white_space};
use crate::url::{encoded, encoded_domain, unreserved, wildcard_url};

pub mod attempts;
pub mod forms;
pub mod hosts;
pub mod rows;
pub mod urls;

verus! {

/// Whether white space stands at neither end of `s`.
pub open spec fn is_trimmed(s: Seq<char>) -> bool {
    s.len() > 0 ==> !white_space(s[0]) && !white_space(s.last())
}

pub(crate) proof fn lemma_trim_start_ends(s: Seq<char>)
    ensures
        trim_start(s).len() <= s.len(),
        trim_start(s) == s.skip(s.len() - trim_start(s).len()),
        trim_start(s).len() > 0 ==> !white_space(trim_start(s)[0]),
    decreases s.len(),
{
    if s.len() > 0 && white_space(s[0]) {
        lemma_trim_start_ends(s.skip(1));
        let k = s.len() - trim_start(s).len();
        assert(s.skip(1).skip(k - 1) == s.skip(k));
    } else {
        assert(s.skip(0) == s);
    }
}

pub(crate) proof fn lemma_trim_end_ends(s: Seq<char>)
    ensures
        trim_end(s).len() <= s.len(),
        trim_end(s) == s.take(trim_end(s).len() as int),
        trim_end(s).len() > 0 ==> !white_space(trim_end(s).last()),
    decreases s.len(),
{
    if s.len() > 0 && white_space(s.last()) {
        lemma_trim_end_ends(s.drop_last());
        let k = trim_end(s).len() as int;
        assert(s.drop_last().take(k) == s.take(k));
    } else {
        assert(s.take(s.len() as int) == s);
    }
}

proof fn lemma_trim_is_trimmed(s: Seq<char>)
    ensures
        is_trimmed(trim(s)),
{
    lemma_trim_start_ends(s);
    lemma_trim_end_ends(trim_start(s));
}

proof fn lemma_trimmed_stays(s: Seq<char>)
    requires
        is_trimmed(s),
    ensures
        trim(s) == s,
{
}

pub(crate) proof fn lemma_strip_leading_ends(s: Seq<char>)
    ensures
        strip_leading(s).len() <= s.len(),
        strip_leading(s) == s.skip(s.len() - strip_leading(s).len()),
        !starts_with_wildcard(strip_leading(s)),
        strip_leading(s).len() > 0 ==> strip_leading(s)[0] != '.',
    decreases s.len(),
{
    if starts_with_wildcard(s) {
        lemma_strip_leading_ends(s.skip(2));
        let k = s.len() - strip_leading(s).len();
        assert(s.skip(2).skip(k - 2) == s.skip(k));
    } else if s.len() > 0 && s[0] == '.' {
        lemma_strip_leading_ends(s.skip(1));
        let k = s.len() - strip_leading(s).len();
        assert(s.skip(1).skip(k - 1) == s.skip(k));
    } else {
        assert(s.skip(0) == s);
    }
}

pub(crate) proof fn lemma_trim_end_char_ends(s: Seq<char>, c: char)
    ensures
        trim_end_char(s, c).len() <= s.len(),
        trim_end_char(s, c) == s.take(trim_end_char(s, c).len() as int),
        trim_end_char(s, c).len() > 0 ==> trim_end_char(s, c).last() != c,
    decreases s.len(),
{
    if s.len() > 0 && s.last() == c {
        lemma_trim_end_char_ends(s.drop_last(), c);
        let k = trim_end_char(s, c).len() as int;
        assert(s.drop_last().take(k) == s.take(k));
    } else {
        assert(s.take(s.len() as int) == s);
    }
}

/// A clean name begins with neither a wildcard label nor a dot, and does not
/// end with a dot.
pub proof fn clean_name_has_bare_ends(s: Seq<char>)
    ensures
        !starts_with_wildcard(clean(s)),
        clean(s).len() > 0 ==> clean(s)[0] != '.' && clean(s).last() != '.',
{
    let stripped = strip_leading(trim(s));
    lemma_strip_leading_ends(trim(s));
    lemma_trim_end_char_ends(stripped, '.');
}

/// To clean a clean name changes nothing, unless dots or a wildcard label hid
/// white space at one of its ends.
pub proof fn clean_is_idempotent(s: Seq<char>)
    requires
        is_trimmed(clean(s)),
    ensures
        clean(clean(s)) == clean(s),
{
    clean_name_has_bare_ends(s);
    lemma_trimmed_stays(clean(s));
}

/// White space around a name does not matter.
pub proof fn clean_ignores_surrounding_space(s: Seq<char>)
    ensures
        clean(trim(s)) == clean(s),
{
    lemma_trim_is_trimmed(s);
    lemma_trimmed_stays(trim(s));
}

/// A wildcard label in front of a name does not matter, unless it hides white
/// space from being dropped.
pub proof fn clean_ignores_wildcard(s: Seq<char>)
    requires
        trim_start(s) == s || trim(s).len() == 0,
    ensures
        clean(seq!['*', '.'] + s) == clean(s),
{
    let w = seq!['*', '.'] + s;
    assert(trim_start(w) == w);
    lemma_trim_end_prefix(seq!['*', '.'], s);
    if trim_start(s) == s {
        let t = seq!['*', '.'] + trim_end(s);
        assert(trim(w) == t);
        assert(t.skip(2) == trim_end(s));
    } else {
        lemma_blank_trims_away(s);
        let t = seq!['*', '.'] + trim_end(s);
        assert(t.skip(2) == trim_end(s));
        assert(trim(w) == t);
    }
}

proof fn lemma_blank_trims_away(s: Seq<char>)
    requires
        trim(s).len() == 0,
    ensures
        trim_end(s) == trim(s),
{
    crate::text::lemma_blank(s);
    lemma_trim_end_ends(s);
    if trim_end(s).len() > 0 {
        let k = trim_end(s).len() - 1;
        assert(s[k] == trim_end(s).last());
    }
    assert(trim_end(s) == trim(s));
}

proof fn lemma_trim_end_prefix(p: Seq<char>, s: Seq<char>)
    requires
        p.len() > 0,
        !white_space(p.last()),
    ensures
        trim_end(p + s) == p + trim_end(s),
    decreases s.len(),
{
    if s.len() == 0 {
        assert(p + s == p);
    } else {
        assert((p + s).last() == s.last());
        if white_space(s.last()) {
            lemma_trim_end_prefix(p, s.drop_last());
            assert((p + s).drop_last() == p + s.drop_last());
        }
    }
}

/// A dot behind a name does not matter, unless it hides white space from being
/// dropped or makes the name a wildcard label.
pub proof fn clean_ignores_trailing_dot(s: Seq<char>)
    requires
        trim_end(s) == s || trim(s).len() == 0,
        clean(s) != seq!['*'],
    ensures
        clean(s.push('.')) == clean(s),
{
    let d = s.push('.');
    lemma_trim_start_push(s, '.');
    if trim(s).len() == 0 {
        crate::text::lemma_blank(s);
        lemma_trim_start_ends(s);
        if trim_start(s).len() > 0 {
            assert(white_space(s[s.len() - trim_start(s).len()]));
        }
        assert(trim_start(d) == seq!['.']);
        assert(trim(d) == seq!['.']);
        assert(trim(d).skip(1) == Seq::<char>::empty());
        assert(strip_leading(Seq::<char>::empty()) == Seq::<char>::empty());
        assert(strip_leading(trim(d)) == Seq::<char>::empty());
        assert(trim(s) == Seq::<char>::empty());
    } else {
        lemma_trim_start_ends(s);
        let t = trim_start(s);
        assert(t.len() > 0 ==> t.last() == s.last());
        assert(trim_end(t) == t) by {
            if s.len() > 0 && white_space(s.last()) {
                lemma_trim_end_ends(s);
            }
        }
        assert(trim(s) == t);
        assert(trim(d) == t.push('.'));
        let u = strip_leading(t);
        lemma_trim_end_char_ends(u, '.');
        lemma_strip_leading_ends(t);
        if u == seq!['*'] {
            assert(clean(s) == seq!['*']);
        }
        lemma_strip_leading_push(t);
        if u.len() > 0 {
            assert(u.push('.').drop_last() == u);
        } else {
            assert(u == Seq::<char>::empty());
        }
    }
}

proof fn lemma_trim_start_push(s: Seq<char>, c: char)
    requires
        !white_space(c),
    ensures
        trim_start(s.push(c)) == trim_start(s).push(c),
    decreases s.len(),
{
    if s.len() > 0 && white_space(s[0]) {
        lemma_trim_start_push(s.skip(1), c);
        assert(s.push(c).skip(1) == s.skip(1).push(c));
    }
}

proof fn lemma_strip_leading_push(s: Seq<char>)
    requires
        strip_leading(s) != seq!['*'],
    ensures
        strip_leading(s.push('.')) == if strip_leading(s).len() == 0 {
            Seq::<char>::empty()
        } else {
            strip_leading(s).push('.')
        },
    decreases s.len(),
{
    let d = s.push('.');
    if starts_with_wildcard(s) {
        assert(d.skip(2) == s.skip(2).push('.'));
        lemma_strip_leading_push(s.skip(2));
    } else if s.len() > 0 && s[0] == '.' {
        assert(d.skip(1) == s.skip(1).push('.'));
        lemma_strip_leading_push(s.skip(1));
    } else if s.len() == 0 {
        assert(d.skip(1) == Seq::<char>::empty());
        assert(strip_leading(d.skip(1)) == Seq::<char>::empty());
    } else {
        if starts_with_wildcard(d) {
            assert(s == seq!['*']);
        }
    }
}

pub(crate) proof fn lemma_lower_char(c: char)
    ensures
        lower_char(lower_char(c)) == lower_char(c),
        white_space(lower_char(c)) == white_space(c),
        (lower_char(c) == '.') == (c == '.'),
        (lower_char(c) == '*') == (c == '*'),
{
}

proof fn lemma_lower_ends(s: Seq<char>)
    ensures
        trim(lower(s)) == lower(trim(s)),
        strip_leading(lower(s)) == lower(strip_leading(s)),
        trim_end_char(lower(s), '.') == lower(trim_end_char(s, '.')),
{
    lemma_lower_trim_start(s);
    lemma_lower_trim_end(trim_start(s));
    lemma_lower_strip_leading(s);
    lemma_lower_trim_dots(s);
}

proof fn lemma_lower_trim_start(s: Seq<char>)
    ensures
        trim_start(lower(s)) == lower(trim_start(s)),
    decreases s.len(),
{
    if s.len() > 0 {
        lemma_lower_char(s[0]);
        assert(lower(s).skip(1) == lower(s.skip(1)));
        lemma_lower_trim_start(s.skip(1));
    }
}

proof fn lemma_lower_trim_end(s: Seq<char>)
    ensures
        trim_end(lower(s)) == lower(trim_end(s)),
    decreases s.len(),
{
    if s.len() > 0 {
        lemma_lower_char(s.last());
        assert(lower(s).drop_last() == lower(s.drop_last()));
        lemma_lower_trim_end(s.drop_last());
    }
}

proof fn lemma_lower_strip_leading(s: Seq<char>)
    ensures
        strip_leading(lower(s)) == lower(strip_leading(s)),
    decreases s.len(),
{
    if s.len() > 0 {
        lemma_lower_char(s[0]);
        assert(lower(s).skip(1) == lower(s.skip(1)));
        lemma_lower_strip_leading(s.skip(1));
    }
    if s.len() > 1 {
        lemma_lower_char(s[1]);
        assert(lower(s).skip(2) == lower(s.skip(2)));
        lemma_lower_strip_leading(s.skip(2));
    }
}

proof fn lemma_lower_trim_dots(s: Seq<char>)
    ensures
        trim_end_char(lower(s), '.') == lower(trim_end_char(s, '.')),
    decreases s.len(),
{
    if s.len() > 0 {
        lemma_lower_char(s.last());
        assert(lower(s).drop_last() == lower(s.drop_last()));
        lemma_lower_trim_dots(s.drop_last());
    }
}

/// It does not matter whether a name is cleaned or put in lower case first.
pub proof fn clean_and_lower_commute(s: Seq<char>)
    ensures
        clean(lower(s)) == lower(clean(s)),
{
    lemma_lower_ends(s);
    lemma_lower_ends(trim(s));
    lemma_lower_ends(strip_leading(trim(s)));
}

/// The letter case in which a domain was typed does not matter: the same name
/// is left out of a list of subdomains.
pub proof fn apex_ignores_letter_case(d: Seq<char>, e: Seq<char>)
    requires
        lower(d) == lower(e),
    ensures
        apex(d) == apex(e),
{
    clean_and_lower_commute(d);
    clean_and_lower_commute(e);
}

/// The subdomains of a response are its hosts but for the queried domain,
/// which is never among them.
pub proof fn subdomains_are_the_hosts_without_apex(
    hosts: Seq<Seq<char>>,
    subdomains: Seq<Seq<char>>,
    values: Seq<Seq<char>>,
    domain: Seq<char>,
)
    requires
        is_host_list(hosts, values),
        is_subdomain_list(subdomains, values, domain),
    ensures
        subdomains == hosts.filter(|n: Seq<char>| n != apex(domain)),
        !subdomains.contains(apex(domain)),
{
    crate::names::lemma_filter_ascending(hosts, |n: Seq<char>| n != apex(domain));
    ascending_list_is_unique(subdomains, hosts.filter(|n: Seq<char>| n != apex(domain)));
}

/// A host list depends on nothing but which name sets there are: neither on
/// their order nor on how often one occurs.
pub proof fn host_list_ignores_order_of_rows(
    list: Seq<Seq<char>>,
    other: Seq<Seq<char>>,
    values: Seq<Seq<char>>,
    shuffled: Seq<Seq<char>>,
)
    requires
        is_host_list(list, values),
        is_host_list(other, shuffled),
        forall|v: Seq<char>| values.contains(v) <==> shuffled.contains(v),
    ensures
        list == other,
{
    assert forall|n: Seq<char>| list.contains(n) <==> other.contains(n) by {
        lemma_same_hosts(values, shuffled, n);
        lemma_same_hosts(shuffled, values, n);
    }
    ascending_list_is_unique(list, other);
}

proof fn lemma_same_hosts(values: Seq<Seq<char>>, shuffled: Seq<Seq<char>>, n: Seq<char>)
    requires
        forall|v: Seq<char>| values.contains(v) ==> shuffled.contains(v),
    ensures
        is_host_of(values, n) ==> is_host_of(shuffled, n),
{
    if is_host_of(values, n) {
        let i = choose|i: int| 0 <= i < values.len() && lists(#[trigger] values[i], n);
        assert(values.contains(values[i]));
        let k = choose|k: int| 0 <= k < shuffled.len() && shuffled[k] == values[i];
        assert(lists(shuffled[k], n));
    }
}

/// Every name of a host list is in its normal form, and can be the name of a
/// host.
pub proof fn listed_name_is_normal(
    list: Seq<Seq<char>>,
    values: Seq<Seq<char>>,
    n: Seq<char>,
)
    requires
        is_host_list(list, values),
        list.contains(n),
    ensures
        hostname(n),
        normalized(n) == n,
        n[0] != '.',
        n.last() != '.',
{
    let i = choose|i: int| 0 <= i < values.len() && lists(#[trigger] values[i], n);
    let (a, b) = choose|a: int, b: int|
        #[trigger] is_line(values[i], a, b) && n == normalized(values[i].subrange(a, b));
    let raw = values[i].subrange(a, b);
    clean_and_lower_commute(raw);
    clean_name_has_bare_ends(lower(raw));
    assert(n == clean(lower(raw)));
    assert(!foreign(n[0]) && !foreign(n[n.len() - 1]));
    clean_is_idempotent(lower(raw));
    assert(lower(n) == n) by {
        assert forall|k: int| 0 <= k < n.len() implies lower_char(#[trigger] n[k]) == n[k] by {
            lemma_lower_char(clean(raw)[k]);
        }
    }
}

proof fn lemma_single_line(n: Seq<char>)
    requires
        hostname(n),
    ensures
        forall|a: int, b: int| #[trigger] is_line(n, a, b) <==> a == 0 && b == n.len(),
{
    assert forall|a: int, b: int| #[trigger] is_line(n, a, b) <==> a == 0 && b == n.len() by {
        if is_line(n, a, b) {
            if a > 0 {
                assert(foreign(n[a - 1]));
            }
            if b < n.len() {
                assert(foreign(n[b]));
            }
        }
        if a == 0 && b == n.len() {
            assert forall|i: int| a <= i < b implies #[trigger] n[i] != '\n' by {
                assert(!foreign(n[i]));
            }
        }
    }
}

/// To list the names of a host list once more gives the same list.
pub proof fn host_list_is_its_own_list(list: Seq<Seq<char>>, values: Seq<Seq<char>>)
    requires
        is_host_list(list, values),
    ensures
        is_host_list(list, list),
{
    assert forall|n: Seq<char>| list.contains(n) <==> is_host_of(list, n) by {
        if list.contains(n) {
            let i = choose|i: int| 0 <= i < list.len() && list[i] == n;
            listed_name_is_normal(list, values, n);
            lemma_single_line(n);
            assert(n.subrange(0, n.len() as int) == n);
            assert(is_line(n, 0, n.len() as int));
            assert(lists(list[i], n));
        }
        if is_host_of(list, n) {
            let i = choose|i: int| 0 <= i < list.len() && lists(#[trigger] list[i], n);
            let m = list[i];
            assert(list.contains(m));
            listed_name_is_normal(list, values, m);
            lemma_single_line(m);
            let (a, b) = choose|a: int, b: int|
                #[trigger] is_line(m, a, b) && n == normalized(m.subrange(a, b));
            assert(m.subrange(a, b) == m);
        }
    }
}

/// Fields of a row other than `name_value` do not matter, wherever they stand.
pub proof fn other_fields_do_not_matter(
    before: Seq<(Seq<char>, Option<Seq<char>>)>,
    other: (Seq<char>, Option<Seq<char>>),
    behind: Seq<(Seq<char>, Option<Seq<char>>)>,
)
    requires
        !is_name_value(other),
    ensures
        name_value_of(before + seq![other] + behind) == name_value_of(before + behind),
{
    let keep = |f: (Seq<char>, Option<Seq<char>>)| is_name_value(f);
    reveal(Seq::filter);
    Seq::filter_distributes_over_add(before + seq![other], behind, keep);
    Seq::filter_distributes_over_add(before, seq![other], keep);
    Seq::filter_distributes_over_add(before, behind, keep);
    assert(seq![other].drop_last().filter(keep) == Seq::<(Seq<char>, Option<Seq<char>>)>::empty());
    assert(before.filter(keep) + seq![other].filter(keep) == before.filter(keep));
}

/// A wildcard name stands for the host under it: `*.` in front of a host name
/// lists that host.
pub proof fn wildcard_lists_the_host_under_it(n: Seq<char>)
    requires
        hostname(n),
        normalized(n) == n,
    ensures
        lists(seq!['*', '.'] + n, n),
{
    let w = seq!['*', '.'] + n;
    assert(!foreign(n[0]));
    clean_ignores_wildcard(n);
    assert forall|i: int| 0 <= i < w.len() implies #[trigger] w[i] != '\n' by {
        if i >= 2 {
            assert(w[i] == n[i - 2]);
            assert(!foreign(n[i - 2]));
        }
    }
    assert(is_line(w, 0, w.len() as int));
    assert(w.subrange(0, w.len() as int) == w);
}

/// The union of the subdomains of two responses is what one response with the
/// rows of both would list.
pub proof fn union_lists_the_rows_of_both(
    union: Seq<Seq<char>>,
    a: Seq<Seq<char>>,
    b: Seq<Seq<char>>,
    a_values: Seq<Seq<char>>,
    b_values: Seq<Seq<char>>,
    domain: Seq<char>,
)
    requires
        is_subdomain_list(a, a_values, domain),
        is_subdomain_list(b, b_values, domain),
        is_union(union, a, b),
    ensures
        is_subdomain_list(union, a_values + b_values, domain),
        !union.contains(apex(domain)),
{
    let both = a_values + b_values;
    assert forall|n: Seq<char>|
        is_host_of(both, n) <==> is_host_of(a_values, n) || is_host_of(b_values, n) by {
        if is_host_of(both, n) {
            let i = choose|i: int| 0 <= i < both.len() && lists(#[trigger] both[i], n);
            if i < a_values.len() {
                assert(lists(a_values[i], n));
            } else {
                assert(lists(b_values[i - a_values.len()], n));
            }
        }
        if is_host_of(a_values, n) {
            let i = choose|i: int| 0 <= i < a_values.len() && lists(#[trigger] a_values[i], n);
            assert(lists(both[i], n));
        }
        if is_host_of(b_values, n) {
            let i = choose|i: int| 0 <= i < b_values.len() && lists(#[trigger] b_values[i], n);
            assert(lists(both[a_values.len() + i], n));
        }
    }
}

/// Where only one of the two questions of a discovery has an answer, the
/// discovery gives it unchanged.
pub proof fn lone_answer_is_unchanged(list: Seq<Seq<char>>, a: Seq<Seq<char>>)
    requires
        ascending(a),
        is_union(list, a, Seq::empty()) || is_union(list, Seq::empty(), a),
    ensures
        list == a,
{
    assert forall|n: Seq<char>| list.contains(n) <==> a.contains(n) by {
        assert(!Seq::<Seq<char>>::empty().contains(n));
    }
    ascending_list_is_unique(list, a);
}

/// A query is asked again no more often than its attempts allow, only after
/// errors that another attempt may mend, and after waits that grow with the
/// attempts.
///
/// `run` is what becomes of the query, from before its first attempt to after
/// its last retry was called for; `outcomes` are those of the attempts in
/// between.
pub proof fn retries_are_bounded(
    run: Seq<Query>,
    outcomes: Seq<Result<Vec<String>, CtError>>,
    actions: Seq<Action>,
)
    requires
        run.len() == outcomes.len() + 1,
        actions.len() == outcomes.len(),
        run[0].attempt == 0,
        forall|i: int|
            0 <= i < outcomes.len() ==> settles(
                run[i],
                #[trigger] outcomes[i],
                run[i + 1],
                actions[i],
            ),
        forall|i: int| 0 <= i < actions.len() ==> #[trigger] actions[i] is Send,
    ensures
        outcomes.len() < CT_MAX_RETRIES,
        forall|i: int|
            0 <= i < outcomes.len() ==> (#[trigger] outcomes[i]) is Err && retryable(
                outcomes[i]->Err_0,
            ),
        forall|i: int|
            0 <= i < actions.len() ==> (#[trigger] actions[i])->delay_ms == CT_RETRY_BACKOFF_MS * (i
                + 1),
        run.last().attempt == outcomes.len(),
    decreases run.len(),
{
    if outcomes.len() > 0 {
        let k = outcomes.len() - 1;
        let before = run.drop_last();
        let earlier = outcomes.drop_last();
        let done = actions.drop_last();
        assert forall|i: int| 0 <= i < earlier.len() implies settles(
            before[i],
            #[trigger] earlier[i],
            before[i + 1],
            done[i],
        ) by {
            assert(settles(run[i], outcomes[i], run[i + 1], actions[i]));
        }
        retries_are_bounded(before, earlier, done);
        assert(settles(run[k], outcomes[k], run[k + 1], actions[k]));
        assert(actions[k] is Send);
        assert forall|i: int| 0 <= i < outcomes.len() implies (#[trigger] outcomes[i]) is Err
            && retryable(outcomes[i]->Err_0) by {
            if i < k {
                assert(earlier[i] == outcomes[i]);
            }
        }
        assert forall|i: int| 0 <= i < actions.len() implies (#[trigger] actions[i])->delay_ms
            == CT_RETRY_BACKOFF_MS * (i + 1) by {
            if i < k {
                assert(done[i] == actions[i]);
            }
        }
    }
}

/// The last attempt decides: its outcome is the result, whatever it is.
pub proof fn last_attempt_decides(
    before: Query,
    outcome: Result<Vec<String>, CtError>,
    after: Query,
    action: Action,
)
    requires
        before.attempt == CT_MAX_RETRIES - 1,
        settles(before, outcome, after, action),
    ensures
        action == Action::Finish(outcome),
{
}

/// How many more requests a discovery may send at most.
pub open spec fn requests_left(d: Discovery) -> int {
    match d.stage {
        Stage::Wildcard => 2 * CT_MAX_RETRIES - 1 - d.query.attempt,
        Stage::Apex(_) => CT_MAX_RETRIES - 1 - d.query.attempt,
        Stage::Done => 0,
    }
}

/// How many of the steps send a request.
pub open spec fn requests_in(steps: Seq<Step>) -> int
    decreases steps.len(),
{
    if steps.len() == 0 {
        0
    } else {
        requests_in(steps.drop_last()) + if steps.last() is Send {
            1int
        } else {
            0int
        }
    }
}

proof fn lemma_step_uses_up_requests(
    before: Discovery,
    event: Event,
    after: Discovery,
    step: Step,
)
    requires
        before.well_formed(),
        before.stage !is Done,
        proceeds(before, event, after, step),
    ensures
        requests_left(after) + (if step is Send {
            1int
        } else {
            0int
        }) <= requests_left(before),
{
}

/// A discovery sends each of its two queries no more often than the attempts
/// allow: after its first request, no more than were left then.
///
/// `run` is what becomes of the discovery from step to step.
pub proof fn discovery_requests_are_bounded(
    run: Seq<Discovery>,
    events: Seq<Event>,
    steps: Seq<Step>,
)
    requires
        run.len() == events.len() + 1,
        steps.len() == events.len(),
        forall|i: int| 0 <= i < run.len() ==> (#[trigger] run[i]).well_formed(),
        forall|i: int| 0 <= i < events.len() ==> (#[trigger] run[i]).stage !is Done,
        forall|i: int|
            0 <= i < events.len() ==> proceeds(run[i], #[trigger] events[i], run[i + 1], steps[i]),
        run[0].stage is Wildcard,
        run[0].query.attempt == 0,
    ensures
        requests_in(steps) <= 2 * CT_MAX_RETRIES - 1,
        requests_in(steps) + requests_left(run.last()) <= 2 * CT_MAX_RETRIES - 1,
        requests_left(run.last()) >= 0,
    decreases events.len(),
{
    if events.len() > 0 {
        let k = events.len() - 1;
        let before = run.drop_last();
        let earlier = events.drop_last();
        let done = steps.drop_last();
        assert forall|i: int|
            0 <= i < before.len() implies (#[trigger] before[i]).well_formed() by {
            assert(run[i].well_formed());
        }
        assert forall|i: int|
            0 <= i < earlier.len() implies (#[trigger] before[i]).stage !is Done by {
            assert(run[i].stage !is Done);
        }
        assert forall|i: int| 0 <= i < earlier.len() implies proceeds(
            before[i],
            #[trigger] earlier[i],
            before[i + 1],
            done[i],
        ) by {
            assert(proceeds(run[i], events[i], run[i + 1], steps[i]));
        }
        discovery_requests_are_bounded(before, earlier, done);
        assert(proceeds(run[k], events[k], run[k + 1], steps[k]));
        assert(run[k].well_formed() && run[k].stage !is Done);
        lemma_step_uses_up_requests(run[k], events[k], run[k + 1], steps[k]);
    }
    assert(run.last().well_formed());
}

/// Whether `names`, where there are any, are the subdomains of `domain` that
/// some rows list.
pub open spec fn is_sound(names: Result<Vec<String>, CtError>, domain: Seq<char>) -> bool {
    names matches Ok(v) ==> exists|values: Seq<Seq<char>>| #[trigger]
        is_subdomain_list(texts(v@), values, domain)
}

/// Whether what a discovery has found so far are subdomains of its domain that
/// some rows list.
pub open spec fn has_found_subdomains(d: Discovery) -> bool {
    d.stage matches Stage::Apex(wildcard) ==> is_sound(wildcard, d.query.domain@)
}

/// Whatever a discovery is told, what it finds is a list of subdomains: there
/// are rows that list these names and no others, the names are in order and
/// each there once, and the queried domain is not among them. Of which
/// responses the rows are, the laws from [`wildcard_answer_is_kept`] on say.
pub proof fn discovery_finds_subdomains(
    before: Discovery,
    event: Event,
    after: Discovery,
    step: Step,
)
    requires
        has_found_subdomains(before),
        proceeds(before, event, after, step),
    ensures
        has_found_subdomains(after),
        step matches Step::Finish(r) ==> is_sound(r, before.query.domain@),
        step matches Step::Finish(Ok(names)) ==> ascending(texts(names@)) && !texts(
            names@,
        ).contains(apex(before.query.domain@)),
{
    let domain = before.query.domain@;
    let (q, action) = choose|q: Query, action: Action| #[trigger]
        follows(before.query, event, q, action) && advances(before, q, action, after, step);
    if let Action::Finish(outcome) = action {
        assert(is_sound(outcome, domain));
        if let Stage::Apex(wildcard) = before.stage {
            if let Step::Finish(r) = step {
                lemma_combination_is_sound(r, wildcard, outcome, domain);
            }
        }
    }
}

proof fn lemma_combination_is_sound(
    r: Result<Vec<String>, CtError>,
    wildcard: Result<Vec<String>, CtError>,
    own: Result<Vec<String>, CtError>,
    domain: Seq<char>,
)
    requires
        is_sound(wildcard, domain),
        is_sound(own, domain),
        is_combination(r, wildcard, own),
    ensures
        is_sound(r, domain),
{
    if let Ok(names) = r {
        let none = Seq::<Seq<char>>::empty();
        assert(is_subdomain_list(none, none, domain)) by {
            assert forall|n: Seq<char>| !is_host_of(none, n) by {}
        }
        let (a, a_values) = match wildcard {
            Ok(v) => (
                texts(v@),
                choose|values: Seq<Seq<char>>| #[trigger]
                    is_subdomain_list(texts(v@), values, domain),
            ),
            Err(_) => (none, none),
        };
        let (b, b_values) = match own {
            Ok(v) => (
                texts(v@),
                choose|values: Seq<Seq<char>>| #[trigger]
                    is_subdomain_list(texts(v@), values, domain),
            ),
            Err(_) => (none, none),
        };
        union_lists_the_rows_of_both(texts(names@), a, b, a_values, b_values, domain);
    }
}

/// Whether the body that a query holds is a response with these rows.
pub open spec fn holds_rows(q: Query, values: Seq<Seq<char>>) -> bool {
    &&& vstd::utf8::valid_utf8(q.body@)
    &&& !is_markup(q.body@)
    &&& response_name_values(vstd::utf8::decode_utf8(q.body@)) == Some(values)
}

/// Whether a query has made its last attempt, and that met an error which
/// another one might have mended.
pub open spec fn gives_up(q: Query, event: Event) -> bool {
    &&& q.attempt + 1 == CT_MAX_RETRIES
    &&& is_transient_failure(q, event)
}

/// A discovery keeps the subdomains in the rows of the response to its first
/// question, and goes on to the second.
pub proof fn wildcard_answer_is_kept(
    before: Discovery,
    values: Seq<Seq<char>>,
    after: Discovery,
    step: Step,
)
    requires
        before.stage == Stage::Wildcard,
        holds_rows(before.query, values),
        proceeds(before, Event::End, after, step),
    ensures
        after.stage matches Stage::Apex(Ok(w)) && is_subdomain_list(
            texts(w@),
            values,
            before.query.domain@,
        ),
        after.query.domain@ == before.query.domain@,
        step matches Step::Send { delay_ms, url } && delay_ms == 0 && url@ == before.apex_url@,
{
}

/// A discovery goes on to its second question where the first met, to the last
/// attempt, errors that another attempt might have mended.
pub proof fn failed_wildcard_query_is_passed_over(
    before: Discovery,
    event: Event,
    after: Discovery,
    step: Step,
)
    requires
        before.stage == Stage::Wildcard,
        gives_up(before.query, event),
        proceeds(before, event, after, step),
    ensures
        after.stage matches Stage::Apex(Err(e)) && retryable(e),
        after.query.domain@ == before.query.domain@,
        step matches Step::Send { delay_ms, url } && delay_ms == 0 && url@ == before.apex_url@,
{
}

/// Until it ends, a discovery stays with its domain, and with what came of its
/// first question.
pub proof fn discovery_keeps_its_first_answer(
    before: Discovery,
    event: Event,
    after: Discovery,
    step: Step,
)
    requires
        proceeds(before, event, after, step),
    ensures
        step !is Finish ==> after.query.domain@ == before.query.domain@,
        step !is Finish && before.stage is Apex ==> after.stage == before.stage,
{
}

/// Where both questions of a discovery have an answer, it finds the subdomains
/// in the rows of the two responses: all of them, and no others.
pub proof fn discovery_lists_the_rows_of_both_answers(
    before: Discovery,
    w: Vec<String>,
    w_values: Seq<Seq<char>>,
    a_values: Seq<Seq<char>>,
    after: Discovery,
    step: Step,
)
    requires
        before.stage == Stage::Apex(Ok(w)),
        is_subdomain_list(texts(w@), w_values, before.query.domain@),
        vstd::utf8::valid_utf8(before.query.body@),
        !is_markup(before.query.body@),
        response_name_values(vstd::utf8::decode_utf8(before.query.body@)) == Some(a_values),
        proceeds(before, Event::End, after, step),
    ensures
        step matches Step::Finish(Ok(names)) && is_subdomain_list(
            texts(names@),
            w_values + a_values,
            before.query.domain@,
        ),
{
    let domain = before.query.domain@;
    let (q, action) = choose|q: Query, action: Action| #[trigger]
        follows(before.query, Event::End, q, action) && advances(before, q, action, after, step);
    let a = action->Finish_0->Ok_0;
    let names = step->Finish_0->Ok_0;
    union_lists_the_rows_of_both(
        texts(names@),
        texts(w@),
        texts(a@),
        w_values,
        a_values,
        domain,
    );
}

/// Where the first question of a discovery met an error that another attempt
/// might have mended, the discovery finds the subdomains in the rows of the
/// response to the second.
pub proof fn apex_answer_alone_is_the_result(
    before: Discovery,
    e: CtError,
    values: Seq<Seq<char>>,
    after: Discovery,
    step: Step,
)
    requires
        before.stage == Stage::Apex(Err(e)),
        retryable(e),
        holds_rows(before.query, values),
        proceeds(before, Event::End, after, step),
    ensures
        step matches Step::Finish(Ok(names)) && is_subdomain_list(
            texts(names@),
            values,
            before.query.domain@,
        ),
{
    let (q, action) = choose|q: Query, action: Action| #[trigger]
        follows(before.query, Event::End, q, action) && advances(before, q, action, after, step);
    let a = action->Finish_0->Ok_0;
    let names = step->Finish_0->Ok_0;
    lone_answer_is_unchanged(texts(names@), texts(a@));
}

/// Where the second question of a discovery met, to the last attempt, errors
/// that another attempt might have mended, the discovery finds what the answer
/// to the first held.
pub proof fn wildcard_answer_alone_is_the_result(
    before: Discovery,
    w: Vec<String>,
    values: Seq<Seq<char>>,
    event: Event,
    after: Discovery,
    step: Step,
)
    requires
        before.stage == Stage::Apex(Ok(w)),
        is_subdomain_list(texts(w@), values, before.query.domain@),
        gives_up(before.query, event),
        proceeds(before, event, after, step),
    ensures
        step matches Step::Finish(Ok(names)) && texts(names@) == texts(w@) && is_subdomain_list(
            texts(names@),
            values,
            before.query.domain@,
        ),
{
    let (q, action) = choose|q: Query, action: Action| #[trigger]
        follows(before.query, event, q, action) && advances(before, q, action, after, step);
    let names = step->Finish_0->Ok_0;
    lone_answer_is_unchanged(texts(names@), texts(w@));
}

/// The bytes of a list of chunks, one after the other.
pub open spec fn joined(chunks: Seq<Vec<u8>>) -> Seq<u8>
    decreases chunks.len(),
{
    if chunks.len() == 0 {
        Seq::empty()
    } else {
        joined(chunks.drop_last()) + chunks.last()@
    }
}

/// How a body was cut into chunks does not matter: as long as a query reads
/// on, it holds the bytes of all of them, and no more than the cap allows.
///
/// `run` is what becomes of the query, from before the first chunk to after
/// the last.
pub proof fn body_is_its_chunks(run: Seq<Query>, chunks: Seq<Vec<u8>>)
    requires
        run.len() == chunks.len() + 1,
        run[0].body@.len() == 0,
        forall|i: int|
            0 <= i < chunks.len() ==> follows(
                run[i],
                Event::Chunk(#[trigger] chunks[i]),
                run[i + 1],
                Action::Read,
            ),
    ensures
        run.last().body@ == joined(chunks),
        run.last().body@.len() <= run[0].max_response_bytes,
        run.last().max_response_bytes == run[0].max_response_bytes,
        run.last().domain == run[0].domain,
        run.last().attempt == run[0].attempt,
    decreases chunks.len(),
{
    if chunks.len() > 0 {
        let k = chunks.len() - 1;
        let before = run.drop_last();
        let earlier = chunks.drop_last();
        assert forall|i: int| 0 <= i < earlier.len() implies follows(
            before[i],
            Event::Chunk(#[trigger] earlier[i]),
            before[i + 1],
            Action::Read,
        ) by {
            assert(follows(run[i], Event::Chunk(chunks[i]), run[i + 1], Action::Read));
        }
        body_is_its_chunks(before, earlier);
        assert(follows(run[k], Event::Chunk(chunks[k]), run[k + 1], Action::Read));
    }
}

/// A body that goes over the cap ends the query at once, and the size that is
/// reported is over the cap.
pub proof fn oversized_body_ends_the_query(
    before: Query,
    chunk: Vec<u8>,
    after: Query,
    action: Action,
)
    requires
        before.body@.len() + chunk@.len() > before.max_response_bytes,
        before.body@.len() + chunk@.len() <= usize::MAX,
        follows(before, Event::Chunk(chunk), after, action),
    ensures
        action matches Action::Finish(Err(CtError::ResponseTooLarge { limit, got })) && limit
            == before.max_response_bytes && got > limit,
        after.body@.len() == 0,
{
}

/// A request that is refused for good is answered with its status at once.
pub proof fn refused_request_ends_the_query(
    before: Query,
    status: u16,
    after: Query,
    action: Action,
)
    requires
        !(200 <= status <= 299),
        !(500 <= status <= 599),
        status != 429,
        follows(before, Event::Head(status), after, action),
    ensures
        action == Action::Finish(Err(CtError::BadStatus(status))),
{
}

/// A query is asked again after an error that another attempt may mend, as long
/// as attempts are left, and after nothing else.
pub proof fn transient_failures_are_retried(
    before: Query,
    event: Event,
    after: Query,
    action: Action,
)
    requires
        follows(before, event, after, action),
    ensures
        action is Send <==> is_transient_failure(before, event) && before.attempt + 1
            < CT_MAX_RETRIES,
        is_transient_failure(before, event) && action !is Send ==> (action matches Action::Finish(
            Err(e),
        ) && retryable(e)),
{
}

/// A gateway page in place of a response counts as a service that is
/// unavailable: it is asked again as long as attempts are left.
pub proof fn gateway_page_is_retried(before: Query, after: Query, action: Action)
    requires
        is_markup(before.body@),
        before.attempt + 1 < CT_MAX_RETRIES,
        follows(before, Event::End, after, action),
    ensures
        action is Send,
        after.attempt == before.attempt + 1,
{
}

/// A query about names under a domain is between the same words whatever the
/// domain.
pub proof fn wildcard_query_has_fixed_ends(domain: Seq<char>)
    ensures
        "https://crt.sh/?q=%."@.is_prefix_of(wildcard_url("https://crt.sh"@, domain)),
        "&output=json"@.is_suffix_of(wildcard_url("https://crt.sh"@, domain)),
{
    reveal_strlit("https://crt.sh/?q=%.");
    reveal_strlit("https://crt.sh");
    reveal_strlit("/?q=%.");
    assert("https://crt.sh/?q=%."@ == "https://crt.sh"@ + "/?q=%."@);
    let url = wildcard_url("https://crt.sh"@, domain);
    let tail = "&output=json"@;
    assert(url.subrange(url.len() - tail.len(), url.len() as int) == tail);
}

/// A domain of letters, digits, `-`, `_`, `.` and `~` stands in its query URLs
/// as it is once it is clean.
pub proof fn plain_domain_is_not_altered(domain: Seq<char>)
    requires
        forall|i: int|
            0 <= i < clean(domain).len() ==> '\0' <= #[trigger] clean(domain)[i] <= '\u{7f}'
                && unreserved(clean(domain)[i] as u8),
    ensures
        encoded_domain(domain) == clean(domain),
{
    let s = clean(domain);
    vstd::utf8::is_ascii_chars_encode_utf8(s);
    let bytes = vstd::utf8::encode_utf8(s);
    assert(bytes == Seq::new(s.len(), |i: int| s[i] as u8));
    lemma_plain_bytes(bytes);
    assert forall|i: int| 0 <= i < s.len() implies encoded(bytes)[i] == #[trigger] s[i] by {
        vstd::utf8::char_u32_cast(s[i], s[i] as u32);
    }
}

pub(crate) proof fn lemma_plain_bytes(bytes: Seq<u8>)
    requires
        forall|i: int| 0 <= i < bytes.len() ==> unreserved(#[trigger] bytes[i]),
    ensures
        encoded(bytes) == Seq::new(bytes.len(), |i: int| bytes[i] as char),
    decreases bytes.len(),
{
    if bytes.len() > 0 {
        lemma_plain_bytes(bytes.drop_last());
    }
}

} // verus!
